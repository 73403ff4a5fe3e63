//! Double-precision numbers, by their bits.
//!
//! Readings, shares, and coefficients are doubles. A `Double` is the
//! 64 bits of one, and its operations are IEEE 754's, stated exactly
//! and computed on integers.
use vstd::arithmetic::mul::*;
use vstd::arithmetic::power2::*;
use vstd::prelude::*;

use crate::ieee;
use crate::ieee::Num;
use crate::rounding::binary64;

verus! {

/// A double, by its bits.
#[derive(Clone, Copy, Debug, Default, PartialEq, Eq, Structural)]
pub struct Double {
    pub bits: u64,
}

/// The double with this sign and magnitude.
pub open spec fn joined_spec(n: Num) -> Double {
    Double {
        bits: if n.neg {
            (n.mag + 0x8000_0000_0000_0000) as u64
        } else {
            n.mag
        },
    }
}

/// The double with this sign and magnitude.
fn joined(n: Num) -> (d: Double)
    requires
        n.mag < 0x8000_0000_0000_0000,
    ensures
        d == joined_spec(n),
{
    Double {
        bits: if n.neg {
            n.mag + 0x8000_0000_0000_0000
        } else {
            n.mag
        },
    }
}

impl Double {
    /// The sign and the magnitude.
    pub open spec fn num(self) -> Num {
        if self.bits >= 0x8000_0000_0000_0000 {
            Num { neg: true, mag: (self.bits - 0x8000_0000_0000_0000) as u64 }
        } else {
            Num { neg: false, mag: self.bits }
        }
    }

    fn parts(self) -> (n: Num)
        ensures
            n == self.num(),
            n.mag < 0x8000_0000_0000_0000,
    {
        if self.bits >= 0x8000_0000_0000_0000 {
            Num { neg: true, mag: self.bits - 0x8000_0000_0000_0000 }
        } else {
            Num { neg: false, mag: self.bits }
        }
    }

    pub open spec fn is_nan_spec(self) -> bool {
        self.num().mag > 0x7ff0_0000_0000_0000
    }

    /// Not a number.
    #[verifier::when_used_as_spec(is_nan_spec)]
    pub fn is_nan(self) -> (r: bool)
        ensures
            r == self.is_nan_spec(),
    {
        self.parts().mag > 0x7ff0_0000_0000_0000
    }

    pub open spec fn is_finite_spec(self) -> bool {
        self.num().mag < 0x7ff0_0000_0000_0000
    }

    /// Neither infinite nor NaN.
    #[verifier::when_used_as_spec(is_finite_spec)]
    pub fn is_finite(self) -> (r: bool)
        ensures
            r == self.is_finite_spec(),
    {
        self.parts().mag < 0x7ff0_0000_0000_0000
    }

    /// Where the number stands in the order of the doubles, both zeros
    /// at zero.
    pub open spec fn rank(self) -> int {
        self.num().rank()
    }

    pub open spec fn below_spec(self, other: Double) -> bool {
        !self.is_nan() && !other.is_nan() && self.rank() < other.rank()
    }

    /// `self < other`.
    #[verifier::when_used_as_spec(below_spec)]
    pub fn below(self, other: Double) -> (r: bool)
        ensures
            r == self.below_spec(other),
    {
        let a = self.parts();
        let b = other.parts();
        let x: i64 = if a.neg {
            -(a.mag as i64)
        } else {
            a.mag as i64
        };
        let y: i64 = if b.neg {
            -(b.mag as i64)
        } else {
            b.mag as i64
        };
        !self.is_nan() && !other.is_nan() && x < y
    }

    pub open spec fn at_most_spec(self, other: Double) -> bool {
        !self.is_nan() && !other.is_nan() && self.rank() <= other.rank()
    }

    /// `self <= other`.
    #[verifier::when_used_as_spec(at_most_spec)]
    pub fn at_most(self, other: Double) -> (r: bool)
        ensures
            r == self.at_most_spec(other),
    {
        !self.is_nan() && !other.is_nan() && !other.below(self)
    }

    pub open spec fn equals_spec(self, other: Double) -> bool {
        !self.is_nan() && !other.is_nan() && self.rank() == other.rank()
    }

    /// `self == other`, as numbers: the zeros are equal and NaN is
    /// equal to nothing.
    #[verifier::when_used_as_spec(equals_spec)]
    pub fn equals(self, other: Double) -> (r: bool)
        ensures
            r == self.equals_spec(other),
    {
        self.at_most(other) && other.at_most(self)
    }

    pub open spec fn negated_spec(self) -> Double {
        joined_spec(Num { neg: !self.num().neg, mag: self.num().mag })
    }

    /// `-self`.
    #[verifier::when_used_as_spec(negated_spec)]
    pub fn negated(self) -> (r: Double)
        ensures
            r == self.negated_spec(),
            r.num() == (Num { neg: !self.num().neg, mag: self.num().mag }),
    {
        let a = self.parts();
        joined(Num { neg: !a.neg, mag: a.mag })
    }

    pub open spec fn magnitude_spec(self) -> Double {
        Double { bits: self.num().mag }
    }

    /// The absolute value.
    #[verifier::when_used_as_spec(magnitude_spec)]
    pub fn magnitude(self) -> (r: Double)
        ensures
            r == self.magnitude_spec(),
    {
        Double { bits: self.parts().mag }
    }

    pub open spec fn plus_spec(self, other: Double) -> Double {
        joined_spec(ieee::sum(binary64(), self.num(), other.num()))
    }

    /// `self + other`.
    #[verifier::when_used_as_spec(plus_spec)]
    pub fn plus(self, other: Double) -> (r: Double)
        ensures
            r == self.plus_spec(other),
    {
        let n = ieee::add_nums(binary64(), self.parts(), other.parts());
        proof {
            ieee::lemma_sum_bounds(binary64(), self.num(), other.num());
        }
        joined(n)
    }

    pub open spec fn minus_spec(self, other: Double) -> Double {
        self.plus_spec(other.negated_spec())
    }

    /// `self - other`.
    #[verifier::when_used_as_spec(minus_spec)]
    pub fn minus(self, other: Double) -> (r: Double)
        ensures
            r == self.minus_spec(other),
    {
        self.plus(other.negated())
    }

    pub open spec fn times_spec(self, other: Double) -> Double {
        joined_spec(ieee::product(binary64(), self.num(), other.num()))
    }

    /// `self * other`.
    #[verifier::when_used_as_spec(times_spec)]
    pub fn times(self, other: Double) -> (r: Double)
        ensures
            r == self.times_spec(other),
    {
        let n = ieee::multiply_nums(binary64(), self.parts(), other.parts());
        proof {
            ieee::lemma_product_bounds(binary64(), self.num(), other.num());
        }
        joined(n)
    }

    pub open spec fn over_spec(self, other: Double) -> Double {
        joined_spec(ieee::quotient(binary64(), self.num(), other.num()))
    }

    /// `self / other`.
    #[verifier::when_used_as_spec(over_spec)]
    pub fn over(self, other: Double) -> (r: Double)
        ensures
            r == self.over_spec(other),
    {
        let n = ieee::divide_nums(binary64(), self.parts(), other.parts());
        proof {
            ieee::lemma_quotient_bounds(binary64(), self.num(), other.num());
        }
        joined(n)
    }

    pub open spec fn lesser_spec(self, other: Double) -> Double {
        if self.is_nan() || other.below(self) {
            other
        } else {
            self
        }
    }

    /// The smaller of two numbers, the other one where one is NaN.
    #[verifier::when_used_as_spec(lesser_spec)]
    pub fn lesser(self, other: Double) -> (r: Double)
        ensures
            r == self.lesser_spec(other),
    {
        if self.is_nan() || other.below(self) {
            other
        } else {
            self
        }
    }

    pub open spec fn greater_spec(self, other: Double) -> Double {
        if self.is_nan() || self.below(other) {
            other
        } else {
            self
        }
    }

    /// The larger of two numbers, the other one where one is NaN.
    #[verifier::when_used_as_spec(greater_spec)]
    pub fn greater(self, other: Double) -> (r: Double)
        ensures
            r == self.greater_spec(other),
    {
        if self.is_nan() || self.below(other) {
            other
        } else {
            self
        }
    }

    pub open spec fn held_to_spec(self, low: Double, high: Double) -> Double {
        if self.below(low) {
            low
        } else if high.below(self) {
            high
        } else {
            self
        }
    }

    /// The number held to `low..=high`; NaN stays NaN.
    #[verifier::when_used_as_spec(held_to_spec)]
    pub fn held_to(self, low: Double, high: Double) -> (r: Double)
        requires
            low.at_most(high),
        ensures
            r == self.held_to_spec(low, high),
            !self.is_nan() ==> low.at_most(r) && r.at_most(high),
    {
        if self.below(low) {
            low
        } else if high.below(self) {
            high
        } else {
            self
        }
    }

    pub open spec fn of_spec(v: int) -> Double {
        joined_spec(ieee::of_integer(binary64(), v))
    }

    /// The double nearest to an integer.
    pub fn of(v: i64) -> (r: Double)
        ensures
            r == Self::of_spec(v as int),
    {
        let n = ieee::integer_num(binary64(), v as i128);
        proof {
            ieee::lemma_integer_bounds(binary64(), v as int);
        }
        joined(n)
    }

    /// The number nearest to a count.
    pub fn count(n: usize) -> (r: Double)
        ensures
            r == Self::of_spec(n as int),
    {
        let num = ieee::integer_num(binary64(), n as i128);
        proof {
            ieee::lemma_integer_bounds(binary64(), n as int);
        }
        joined(num)
    }

    pub open spec fn truncated_spec(self, low: int, high: int) -> int {
        ieee::truncated(binary64(), self.num(), low, high)
    }

    /// The whole part held to `low..=high`; NaN is zero.
    pub fn truncated(self, low: i64, high: i64) -> (r: i64)
        requires
            low <= 0 <= high,
        ensures
            r == self.truncated_spec(low as int, high as int),
            low <= r <= high,
    {
        ieee::truncate_num(binary64(), self.parts(), low, high)
    }
}

/// The order of finite doubles is the order of their exact values.
pub proof fn lemma_order_is_of_values(a: Double, b: Double)
    requires
        a.is_finite(),
        b.is_finite(),
    ensures
        a.below(b) == (a.num().units(binary64()) < b.num().units(binary64())),
        a.equals(b) == (a.num().units(binary64()) == b.num().units(binary64())),
{
    let f = binary64();
    ieee::lemma_format_bounds(f);
    let (x, y) = (a.num().mag as nat, b.num().mag as nat);
    ieee::lemma_units_zero(f);
    if 0 < x {
        ieee::lemma_units_increase(f, 0, x);
    }
    if 0 < y {
        ieee::lemma_units_increase(f, 0, y);
    }
    if x < y {
        ieee::lemma_units_increase(f, x, y);
    }
    if y < x {
        ieee::lemma_units_increase(f, y, x);
    }
}

// Zeros.
/// A zero of either sign.
pub open spec fn is_zero(x: Double) -> bool {
    x.num().mag == 0
}

/// A finite number less itself is zero.
pub proof fn lemma_minus_itself(x: Double)
    requires
        x.is_finite(),
    ensures
        x.minus(x) == (Double { bits: 0 }),
{
    ieee::lemma_format_bounds(binary64());
}

/// Zero times a finite number is a zero.
pub proof fn lemma_times_zero(x: Double, zero: Double)
    requires
        x.is_finite(),
        is_zero(zero),
    ensures
        is_zero(x.times(zero)),
        is_zero(zero.times(x)),
{
    let f = binary64();
    ieee::lemma_format_bounds(f);
    ieee::lemma_units_zero(f);
    lemma_pow2_pos(1074);
    ieee::lemma_rounded_zero(f, pow2(1074));
    assert(f.units(x.num().mag as nat) * 0 == 0);
    lemma_mul_basics(f.units(x.num().mag as nat) as int);
    assert(0 * f.units(x.num().mag as nat) == 0);
}

/// Zeros sum to a zero, and to the positive one unless both are
/// negative.
pub proof fn lemma_plus_zeros(a: Double, b: Double)
    requires
        is_zero(a),
        is_zero(b),
    ensures
        is_zero(a.plus(b)),
        a.bits == 0 || b.bits == 0 ==> a.plus(b).bits == 0,
{
    ieee::lemma_format_bounds(binary64());
    ieee::lemma_units_zero(binary64());
}

// Signs and order.
/// The sign and the magnitude of a number put together are what it was
/// put together of.
pub proof fn lemma_joined(n: Num)
    requires
        n.mag < 0x8000_0000_0000_0000,
    ensures
        joined_spec(n).num() == n,
{
}

/// Zero, or above it.
pub open spec fn is_nonnegative(x: Double) -> bool {
    !x.is_nan() && x.rank() >= 0
}

/// Zero, or below it.
pub open spec fn is_nonpositive(x: Double) -> bool {
    !x.is_nan() && x.rank() <= 0
}

/// A sum of numbers that are not negative is neither negative nor less
/// than either.
pub proof fn lemma_plus_nonnegative(x: Double, y: Double)
    requires
        is_nonnegative(x),
        is_nonnegative(y),
    ensures
        is_nonnegative(x.plus(y)),
        x.at_most(x.plus(y)),
        y.at_most(x.plus(y)),
{
    let f = binary64();
    ieee::lemma_format_bounds(f);
    ieee::lemma_units_zero(f);
    let (a, b) = (x.num(), y.num());
    ieee::lemma_sum_bounds(f, a, b);
    lemma_joined(ieee::sum(f, a, b));
    if a.is_finite(f) && b.is_finite(f) {
        let (u, v) = (f.units(a.mag as nat), f.units(b.mag as nat));
        assert(a.units(f) == u && b.units(f) == v);
        ieee::lemma_rounded_exact(f, a.mag as nat);
        ieee::lemma_rounded_exact(f, b.mag as nat);
        ieee::lemma_rounded_monotone(f, u, 1, (u + v) as nat, 1, 0);
        ieee::lemma_rounded_monotone(f, v, 1, (u + v) as nat, 1, 0);
        ieee::lemma_rounded_bound(f, (u + v) as nat, 1, 0);
        if u + v == 0 {
            ieee::lemma_rounded_zero(f, 1);
        }
    }
}

/// A sum of numbers that are not positive is not positive.
pub proof fn lemma_plus_nonpositive(x: Double, y: Double)
    requires
        is_nonpositive(x),
        is_nonpositive(y),
    ensures
        is_nonpositive(x.plus(y)),
{
    let f = binary64();
    ieee::lemma_format_bounds(f);
    ieee::lemma_units_zero(f);
    let (a, b) = (x.num(), y.num());
    ieee::lemma_sum_bounds(f, a, b);
    lemma_joined(ieee::sum(f, a, b));
    if a.is_finite(f) && b.is_finite(f) {
        let s = a.units(f) + b.units(f);
        ieee::lemma_rounded_bound(f, (-s) as nat, 1, 0);
    }
}

/// A product of finite numbers is a number, and its sign is that of its
/// factors.
pub proof fn lemma_times_sign(x: Double, y: Double)
    requires
        x.is_finite(),
        y.is_finite(),
    ensures
        is_nonnegative(x) && is_nonnegative(y) ==> is_nonnegative(x.times(y)),
        is_nonnegative(x) && is_nonpositive(y) ==> is_nonpositive(x.times(y)),
        is_nonpositive(x) && is_nonnegative(y) ==> is_nonpositive(x.times(y)),
{
    let f = binary64();
    ieee::lemma_format_bounds(f);
    ieee::lemma_product_bounds(f, x.num(), y.num());
    lemma_joined(ieee::product(f, x.num(), y.num()));
    let n = f.units(x.num().mag as nat) * f.units(y.num().mag as nat);
    lemma_pow2_pos(1074);
    ieee::lemma_rounded_bound(f, n, pow2(1074), 0);
    if x.num().mag == 0 {
        lemma_times_zero(y, x);
    }
    if y.num().mag == 0 {
        lemma_times_zero(x, y);
    }
}

// What the operations do at their edges.
/// The lesser of two numbers is one of them and not above either; the
/// greater is one of them and not below either; NaN counts for neither.
pub proof fn lemma_lesser_and_greater(x: Double, y: Double)
    ensures
        x.lesser(y) == x || x.lesser(y) == y,
        x.greater(y) == x || x.greater(y) == y,
        !x.is_nan() && !y.is_nan() ==> x.lesser(y).at_most(x) && x.lesser(y).at_most(y)
            && x.at_most(x.greater(y)) && y.at_most(x.greater(y)),
        x.is_nan() ==> x.lesser(y) == y && x.greater(y) == y,
        y.is_nan() && !x.is_nan() ==> x.lesser(y) == x && x.greater(y) == x,
{
}

/// A number held to a range is in it, and is itself where it was in it.
pub proof fn lemma_held_to_a_range(x: Double, low: Double, high: Double)
    requires
        low.at_most(high),
    ensures
        !x.is_nan() ==> low.at_most(x.held_to(low, high)) && x.held_to(low, high).at_most(high),
        low.at_most(x) && x.at_most(high) ==> x.held_to(low, high) == x,
        x.at_most(low) ==> x.held_to(low, high).equals(low),
        high.at_most(x) ==> x.held_to(low, high).equals(high),
        x.is_nan() ==> x.held_to(low, high) == x,
{
}

/// The absolute value is the number or its negative, and not negative;
/// the negative of the negative is the number.
pub proof fn lemma_magnitude_and_negative(x: Double)
    ensures
        x.magnitude() == x || x.magnitude() == x.negated(),
        x.magnitude().bits < 0x8000_0000_0000_0000,
        x.negated().negated() == x,
        x.negated() != x,
        x.negated().rank() == -x.rank(),
        x.magnitude().rank() >= 0,
{
}

/// What a pattern of bits is: a sign on top, and below it a magnitude in
/// the order of the numbers, with the infinities above every number and
/// NaN above those.
#[verifier::rlimit(50)]
pub proof fn lemma_what_the_bits_are(x: Double, y: Double)
    ensures
        x.is_nan() <==> (x.bits > 0x7ff0_0000_0000_0000 && x.bits < 0x8000_0000_0000_0000) || x.bits
            > 0xfff0_0000_0000_0000,
        x.is_finite() <==> x.bits < 0x7ff0_0000_0000_0000 || (0x8000_0000_0000_0000 <= x.bits
            < 0xfff0_0000_0000_0000),
        !x.is_nan() && !y.is_nan() && x.bits < 0x8000_0000_0000_0000 && y.bits
            < 0x8000_0000_0000_0000 ==> (x.below(y) <==> x.bits < y.bits),
        !x.is_nan() && !y.is_nan() && x.bits >= 0x8000_0000_0000_0000 && y.bits
            >= 0x8000_0000_0000_0000 ==> (x.below(y) <==> x.bits > y.bits),
        !x.is_nan() && !y.is_nan() && x.bits >= 0x8000_0000_0000_0000 && y.bits
            < 0x8000_0000_0000_0000 ==> x.at_most(y) && (x.equals(y) <==> x.bits
            == 0x8000_0000_0000_0000 && y.bits == 0),
        x.is_nan() || y.is_nan() ==> !x.below(y) && !x.at_most(y) && !x.equals(y),
        !x.is_nan() && !y.is_nan() ==> (x.at_most(y) <==> !y.below(x)),
        x.equals(y) <==> x.at_most(y) && y.at_most(x),
{
}

/// Nothing comes of NaN but NaN, nor of infinity less infinity, nothing
/// times infinity, and nothing over nothing.
#[verifier::rlimit(50)]
pub proof fn lemma_what_has_no_result(x: Double, y: Double)
    ensures
        x.is_nan() || y.is_nan() ==> x.plus(y).is_nan() && x.minus(y).is_nan() && x.times(
            y,
        ).is_nan() && x.over(y).is_nan(),
        is_zero(x) && is_zero(y) ==> x.over(y).is_nan(),
        x.bits == 0x7ff0_0000_0000_0000 && y.bits == 0x7ff0_0000_0000_0000 ==> x.minus(y).is_nan()
            && x.over(y).is_nan() && x.plus(y) == x,
        x.bits == 0x7ff0_0000_0000_0000 && y.is_finite() ==> x.plus(y) == x && x.minus(y) == x,
        x.bits == 0x7ff0_0000_0000_0000 && is_zero(y) ==> x.times(y).is_nan(),
{
    ieee::lemma_format_bounds(binary64());
}

} // verus!
