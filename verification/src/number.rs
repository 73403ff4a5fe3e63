//! Numbers with the four operations, rounded or exact.
//!
//! A formula stated over any numbers is one for doubles, where each step
//! is rounded, and one for the reals, where nothing is, so that what it
//! is for can be proved of the formula itself.
use vstd::prelude::*;

use crate::double::Double;

verus! {

/// Numbers with the four operations.
pub trait Number: Sized {
    spec fn nothing() -> Self;

    spec fn unit() -> Self;

    spec fn added(self, other: Self) -> Self;

    spec fn taken(self, other: Self) -> Self;

    spec fn multiplied(self, other: Self) -> Self;

    spec fn divided(self, other: Self) -> Self;
}

impl Number for Double {
    open spec fn nothing() -> Double {
        Double { bits: 0 }
    }

    open spec fn unit() -> Double {
        Double { bits: 0x3ff0_0000_0000_0000 }
    }

    open spec fn added(self, other: Double) -> Double {
        self.plus(other)
    }

    open spec fn taken(self, other: Double) -> Double {
        self.minus(other)
    }

    open spec fn multiplied(self, other: Double) -> Double {
        self.times(other)
    }

    open spec fn divided(self, other: Double) -> Double {
        self.over(other)
    }
}

impl Number for real {
    open spec fn nothing() -> real {
        0real
    }

    open spec fn unit() -> real {
        1real
    }

    open spec fn added(self, other: real) -> real {
        self + other
    }

    open spec fn taken(self, other: real) -> real {
        self - other
    }

    open spec fn multiplied(self, other: real) -> real {
        self * other
    }

    open spec fn divided(self, other: real) -> real {
        self / other
    }
}

// Real arithmetic.
/// Products of sums and differences, taken apart.
pub proof fn lemma_distributed(a: real, b: real, c: real)
    ensures
        a * (b + c) == a * b + a * c,
        (b + c) * a == b * a + c * a,
        a * (b - c) == a * b - a * c,
        (b - c) * a == b * a - c * a,
{
    assert(a * (b + c) == a * b + a * c) by (nonlinear_arith);
    assert((b + c) * a == b * a + c * a) by (nonlinear_arith);
    assert(a * (b - c) == a * b - a * c) by (nonlinear_arith);
    assert((b - c) * a == b * a - c * a) by (nonlinear_arith);
}

/// The order of the factors of a product does not matter.
pub proof fn lemma_reordered(a: real, b: real, c: real)
    ensures
        a * (b * c) == b * (a * c),
        (a * b) * c == a * (b * c),
        (a * b) * c == b * (a * c),
        a * b == b * a,
{
    assert(a * (b * c) == b * (a * c)) by (nonlinear_arith);
    assert((a * b) * c == a * (b * c)) by (nonlinear_arith);
    assert((a * b) * c == b * (a * c)) by (nonlinear_arith);
    assert(a * b == b * a) by (nonlinear_arith);
}

/// A quotient times its divisor is what was divided.
pub proof fn lemma_divided_back(a: real, b: real)
    requires
        b != 0real,
    ensures
        (a / b) * b == a,
        b * (a / b) == a,
{
    assert((a / b) * b == a) by (nonlinear_arith)
        requires
            b != 0real,
    ;
    lemma_reordered(a / b, b, 1real);
}

/// Nothing times a number is nothing.
pub proof fn lemma_zero_terms(a: real, b: real)
    ensures
        0real * a == 0real,
        a * 0real == 0real,
        0real * b == 0real,
        b * 0real == 0real,
{
    assert(0real * a == 0real) by (nonlinear_arith);
    assert(0real * b == 0real) by (nonlinear_arith);
    lemma_reordered(0real, a, 1real);
    lemma_reordered(0real, b, 1real);
}

/// A positive factor keeps the order of different numbers.
pub proof fn lemma_scaled_less(a: real, b: real, c: real)
    requires
        a < b,
        c > 0real,
    ensures
        a * c < b * c,
        c * a < c * b,
{
    let d = b - a;
    assert(d * c > 0real) by (nonlinear_arith)
        requires
            d > 0real,
            c > 0real,
    ;
    lemma_distributed(c, b, a);
    lemma_reordered(a, c, 1real);
    lemma_reordered(b, c, 1real);
}

/// Of two factors with one positive product, the one beside the greater
/// is the smaller.
pub proof fn lemma_partner_of_the_greater(p: real, q: real, small: real, great: real)
    requires
        p * small == q * great,
        p * small > 0real,
        0real < small < great,
    ensures
        0real < q < p,
{
    if p <= 0real {
        if p < 0real {
            lemma_scaled_less(p, 0real, small);
        }
        lemma_zero_terms(small, small);
    }
    if q <= 0real {
        if q < 0real {
            lemma_scaled_less(q, 0real, great);
        }
        lemma_zero_terms(great, great);
    }
    if q >= p {
        lemma_scaled_less(small, great, p);
        if q > p {
            lemma_scaled_less(p, q, great);
        }
    }
}

/// A cube does not fall as the number grows.
pub proof fn lemma_cubes(x: real, y: real)
    requires
        x < y,
    ensures
        x * x * x <= y * y * y,
{
    let d = y - x;
    let q = y * y + y * x + x * x;
    let s = x + y;
    lemma_distributed(q, y, x);
    lemma_distributed(y, y * y + y * x, x * x);
    lemma_distributed(y, y * y, y * x);
    lemma_distributed(x, y * y + y * x, x * x);
    lemma_distributed(x, y * y, y * x);
    lemma_reordered(y, y, y);
    lemma_reordered(y, y, x);
    lemma_reordered(y, x, x);
    lemma_reordered(x, y, y);
    lemma_reordered(x, y, x);
    lemma_reordered(x, x, x);
    assert(d * q == y * y * y - x * x * x);
    assert(x * x >= 0real) by (nonlinear_arith);
    assert(y * y >= 0real) by (nonlinear_arith);
    assert(s * s >= 0real) by (nonlinear_arith);
    lemma_distributed(s, x, y);
    lemma_distributed(x, x, y);
    lemma_distributed(y, x, y);
    lemma_reordered(x, y, 1real);
    assert(q >= 0real);
    assert(d * q >= 0real) by (nonlinear_arith)
        requires
            d > 0real,
            q >= 0real,
    ;
}

} // verus!
