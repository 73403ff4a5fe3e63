//! Single-precision numbers, by their bits.
//!
//! The screens are laid out in singles: design lengths, the scale of
//! the frame, and the pen of a line of text. A `Single` is the 32 bits
//! of one, with the same exact operations as `Double`.
use vstd::arithmetic::div_mod::*;
use vstd::arithmetic::mul::*;
use vstd::arithmetic::power2::*;
use vstd::prelude::*;

use crate::ieee;
use crate::ieee::Num;
use crate::rounding;
use crate::rounding::binary32;

verus! {

/// A single, by its bits.
#[derive(Clone, Copy, Debug, Default, PartialEq, Eq, Structural)]
pub struct Single {
    pub bits: u32,
}

/// The single with this sign and magnitude.
pub open spec fn joined_spec(n: Num) -> Single {
    Single {
        bits: if n.neg {
            (n.mag + 0x8000_0000) as u32
        } else {
            n.mag as u32
        },
    }
}

/// The single with this sign and magnitude.
fn joined(n: Num) -> (d: Single)
    requires
        n.mag < 0x8000_0000,
    ensures
        d == joined_spec(n),
{
    Single {
        bits: if n.neg {
            n.mag as u32 + 0x8000_0000
        } else {
            n.mag as u32
        },
    }
}

impl Single {
    /// The sign and the magnitude.
    pub open spec fn num(self) -> Num {
        if self.bits >= 0x8000_0000 {
            Num { neg: true, mag: (self.bits - 0x8000_0000) as u64 }
        } else {
            Num { neg: false, mag: self.bits as u64 }
        }
    }

    fn parts(self) -> (n: Num)
        ensures
            n == self.num(),
            n.mag < 0x8000_0000,
    {
        if self.bits >= 0x8000_0000 {
            Num { neg: true, mag: (self.bits - 0x8000_0000) as u64 }
        } else {
            Num { neg: false, mag: self.bits as u64 }
        }
    }

    pub open spec fn negated_spec(self) -> Single {
        joined_spec(Num { neg: !self.num().neg, mag: self.num().mag })
    }

    /// `-self`.
    #[verifier::when_used_as_spec(negated_spec)]
    pub fn negated(self) -> (r: Single)
        ensures
            r == self.negated_spec(),
    {
        let a = self.parts();
        joined(Num { neg: !a.neg, mag: a.mag })
    }

    pub open spec fn plus_spec(self, other: Single) -> Single {
        joined_spec(ieee::sum(binary32(), self.num(), other.num()))
    }

    /// `self + other`.
    #[verifier::when_used_as_spec(plus_spec)]
    pub fn plus(self, other: Single) -> (r: Single)
        ensures
            r == self.plus_spec(other),
    {
        let n = ieee::add_nums(binary32(), self.parts(), other.parts());
        proof {
            ieee::lemma_format_bounds(binary32());
            ieee::lemma_sum_bounds(binary32(), self.num(), other.num());
        }
        joined(n)
    }

    pub open spec fn minus_spec(self, other: Single) -> Single {
        self.plus_spec(other.negated_spec())
    }

    /// `self - other`.
    #[verifier::when_used_as_spec(minus_spec)]
    pub fn minus(self, other: Single) -> (r: Single)
        ensures
            r == self.minus_spec(other),
    {
        self.plus(other.negated())
    }

    pub open spec fn times_spec(self, other: Single) -> Single {
        joined_spec(ieee::product(binary32(), self.num(), other.num()))
    }

    /// `self * other`.
    #[verifier::when_used_as_spec(times_spec)]
    pub fn times(self, other: Single) -> (r: Single)
        ensures
            r == self.times_spec(other),
    {
        let n = ieee::multiply_nums(binary32(), self.parts(), other.parts());
        proof {
            ieee::lemma_format_bounds(binary32());
            ieee::lemma_product_bounds(binary32(), self.num(), other.num());
        }
        joined(n)
    }

    pub open spec fn over_spec(self, other: Single) -> Single {
        joined_spec(ieee::quotient(binary32(), self.num(), other.num()))
    }

    /// `self / other`.
    #[verifier::when_used_as_spec(over_spec)]
    pub fn over(self, other: Single) -> (r: Single)
        ensures
            r == self.over_spec(other),
    {
        let n = ieee::divide_nums(binary32(), self.parts(), other.parts());
        proof {
            ieee::lemma_format_bounds(binary32());
            ieee::lemma_quotient_bounds(binary32(), self.num(), other.num());
        }
        joined(n)
    }

    pub open spec fn of_spec(v: int) -> Single {
        joined_spec(ieee::of_integer(binary32(), v))
    }

    /// The single nearest to an integer.
    pub fn of(v: i64) -> (r: Single)
        ensures
            r == Self::of_spec(v as int),
    {
        let n = ieee::integer_num(binary32(), v as i128);
        proof {
            ieee::lemma_format_bounds(binary32());
            ieee::lemma_integer_bounds(binary32(), v as int);
        }
        joined(n)
    }

    pub open spec fn truncated_spec(self, low: int, high: int) -> int {
        ieee::truncated(binary32(), self.num(), low, high)
    }

    /// The whole part held to `low..=high`; NaN is zero.
    pub fn truncated(self, low: i64, high: i64) -> (r: i64)
        requires
            low <= 0 <= high,
        ensures
            r == self.truncated_spec(low as int, high as int),
            low <= r <= high,
    {
        ieee::truncate_num(binary32(), self.parts(), low, high)
    }

    pub open spec fn rounded_off_spec(self, low: int, high: int) -> int {
        ieee::rounded_off(binary32(), self.num(), low, high)
    }

    /// The nearest integer, a half away from zero, held to
    /// `low..=high`; NaN is zero.
    pub fn rounded_off(self, low: i64, high: i64) -> (r: i64)
        requires
            low <= 0 <= high,
        ensures
            r == self.rounded_off_spec(low as int, high as int),
            low <= r <= high,
    {
        ieee::round_num(binary32(), self.parts(), low, high)
    }
}

// Whole numbers.
/// Whether a single is exactly this whole number.
pub open spec fn is_whole(x: Single, v: int) -> bool {
    x.num().mag < 0x7f80_0000 && x.num().units(binary32()) == v * pow2(149)
}

/// A whole number of up to 24 bits that is rounded to a single, by its
/// sign and its size, is itself.
proof fn lemma_nearest_is_whole(neg: bool, size: nat, n: nat, d: nat, v: int)
    requires
        size < 0x100_0000,
        d > 0,
        n == (size * pow2(149)) * d,
        v == if neg {
            -(size as int)
        } else {
            size as int
        },
    ensures
        is_whole(joined_spec(ieee::nearest(binary32(), neg, n, d)), v),
{
    let f = binary32();
    ieee::lemma_format_bounds(f);
    lemma2_to64();
    lemma2_to64_rest();
    let mag = ieee::lemma_representable(f, size, 149);
    ieee::lemma_rounded_exact(f, mag);
    lemma_mul_basics(d as int);
    ieee::lemma_rounded_scaled(f, size * pow2(149), 1, d, 0);
    assert(rounding::rounded(f, n, d) == mag);
    assert((-(size as int)) * pow2(149) == -(size * pow2(149))) by (nonlinear_arith);
}

/// An integer of up to 24 bits is a single.
pub proof fn lemma_of_is_exact(v: int)
    requires
        -0x100_0000 < v < 0x100_0000,
    ensures
        is_whole(Single::of_spec(v), v),
{
    let p = pow2(149) as int;
    assert(v < 0 ==> (-v) * p == -(v * p) && (-v) * p >= 0) by (nonlinear_arith)
        requires
            p >= 0,
    ;
    assert(v >= 0 ==> v * p >= 0) by (nonlinear_arith)
        requires
            p >= 0,
    ;
    if v < 0 {
        lemma_mul_basics((-v) * p);
        lemma_nearest_is_whole(true, (-v) as nat, ((-v) * p) as nat, 1, v);
    } else {
        lemma_mul_basics(v * p);
        lemma_nearest_is_whole(false, v as nat, (v * p) as nat, 1, v);
    }
}

/// The sign and the size of a whole number.
proof fn lemma_size_of_whole(x: Single, v: int) -> (size: nat)
    requires
        is_whole(x, v),
    ensures
        size == if v < 0 {
            -v
        } else {
            v
        },
        binary32().units(x.num().mag as nat) == size * pow2(149),
        v > 0 ==> !x.num().neg,
        v < 0 ==> x.num().neg,
{
    let p = pow2(149) as int;
    lemma_pow2_pos(149);
    let size: nat = if v < 0 {
        (-v) as nat
    } else {
        v as nat
    };
    assert(v > 0 ==> v * p > 0) by (nonlinear_arith)
        requires
            p > 0,
    ;
    assert(v < 0 ==> v * p < 0) by (nonlinear_arith)
        requires
            p > 0,
    ;
    assert((-v) * p == -(v * p)) by (nonlinear_arith);
    size
}

/// Whole numbers add, subtract, multiply and divide as whole numbers
/// do, as long as the result is one of up to 24 bits.
pub proof fn lemma_wholes_compute(x: Single, y: Single, v: int, w: int)
    requires
        is_whole(x, v),
        is_whole(y, w),
    ensures
        -0x100_0000 < v + w < 0x100_0000 ==> is_whole(x.plus(y), v + w),
        -0x100_0000 < v - w < 0x100_0000 ==> is_whole(x.minus(y), v - w),
        -0x100_0000 < v * w < 0x100_0000 ==> is_whole(x.times(y), v * w),
        w != 0 && v % w == 0 && -0x100_0000 < v / w < 0x100_0000 ==> is_whole(x.over(y), v / w),
{
    if -0x100_0000 < v + w < 0x100_0000 {
        lemma_wholes_add(x, y, v, w);
    }
    assert(is_whole(y.negated(), -w)) by {
        assert((-w) * pow2(149) == -(w * pow2(149))) by (nonlinear_arith);
    }
    if -0x100_0000 < v - w < 0x100_0000 {
        lemma_wholes_add(x, y.negated(), v, -w);
    }
    if -0x100_0000 < v * w < 0x100_0000 {
        lemma_wholes_multiply(x, y, v, w);
    }
    if w != 0 && v % w == 0 && -0x100_0000 < v / w < 0x100_0000 {
        lemma_wholes_divide(x, y, v, w);
    }
}

proof fn lemma_wholes_add(x: Single, y: Single, v: int, w: int)
    requires
        is_whole(x, v),
        is_whole(y, w),
        -0x100_0000 < v + w < 0x100_0000,
    ensures
        is_whole(x.plus(y), v + w),
{
    let f = binary32();
    let p = pow2(149) as int;
    ieee::lemma_format_bounds(f);
    ieee::lemma_units_zero(f);
    lemma_pow2_pos(149);
    let t = v + w;
    lemma_mul_is_distributive_add_other_way(p, v, w);
    assert(t > 0 ==> t * p > 0) by (nonlinear_arith)
        requires
            p > 0,
    ;
    assert(t < 0 ==> t * p < 0 && (-t) * p == -(t * p)) by (nonlinear_arith)
        requires
            p > 0,
    ;
    lemma_mul_basics(p);
    if t > 0 {
        lemma_mul_basics(t * p);
        lemma_nearest_is_whole(false, t as nat, (t * p) as nat, 1, t);
    } else if t < 0 {
        lemma_mul_basics((-t) * p);
        lemma_nearest_is_whole(true, (-t) as nat, ((-t) * p) as nat, 1, t);
    }
}

#[verifier::rlimit(50)]
proof fn lemma_wholes_multiply(x: Single, y: Single, v: int, w: int)
    requires
        is_whole(x, v),
        is_whole(y, w),
        -0x100_0000 < v * w < 0x100_0000,
    ensures
        is_whole(x.times(y), v * w),
{
    let f = binary32();
    let p = pow2(149);
    ieee::lemma_format_bounds(f);
    lemma_pow2_pos(149);
    let a = lemma_size_of_whole(x, v);
    let b = lemma_size_of_whole(y, w);
    let neg = x.num().neg != y.num().neg;
    assert((a * p) * (b * p) == ((a * b) * p) * p) by (nonlinear_arith);
    assert(a * b == if v * w < 0 {
        -(v * w)
    } else {
        v * w
    }) by (nonlinear_arith)
        requires
            a == (if v < 0 {
                -v
            } else {
                v
            }),
            b == (if w < 0 {
                -w
            } else {
                w
            }),
    ;
    assert(v * w > 0 ==> (v > 0 && w > 0) || (v < 0 && w < 0)) by (nonlinear_arith);
    assert(v * w < 0 ==> (v > 0 && w < 0) || (v < 0 && w > 0)) by (nonlinear_arith);
    lemma_nearest_is_whole(neg, a * b, (a * p) * (b * p), p, v * w);
}

#[verifier::rlimit(50)]
proof fn lemma_wholes_divide(x: Single, y: Single, v: int, w: int)
    requires
        is_whole(x, v),
        is_whole(y, w),
        w != 0,
        v % w == 0,
        -0x100_0000 < v / w < 0x100_0000,
    ensures
        is_whole(x.over(y), v / w),
{
    let f = binary32();
    let p = pow2(149);
    let q = v / w;
    ieee::lemma_format_bounds(f);
    ieee::lemma_units_zero(f);
    lemma_pow2_pos(149);
    let a = lemma_size_of_whole(x, v);
    let b = lemma_size_of_whole(y, w);
    let neg = x.num().neg != y.num().neg;
    lemma_fundamental_div_mod(v, w);
    let size: nat = if q < 0 {
        (-q) as nat
    } else {
        q as nat
    };
    assert(a == size * b) by (nonlinear_arith)
        requires
            v == w * q,
            a == (if v < 0 {
                -v
            } else {
                v
            }),
            b == (if w < 0 {
                -w
            } else {
                w
            }),
            size == (if q < 0 {
                -q
            } else {
                q
            }),
    ;
    assert(((size * b) * p) * p == (size * p) * (b * p)) by (nonlinear_arith);
    assert(b * p > 0) by (nonlinear_arith)
        requires
            b > 0,
            p > 0,
    ;
    assert(q > 0 ==> (v > 0 && w > 0) || (v < 0 && w < 0)) by (nonlinear_arith)
        requires
            v == w * q,
            w != 0,
    ;
    assert(q < 0 ==> (v > 0 && w < 0) || (v < 0 && w > 0)) by (nonlinear_arith)
        requires
            v == w * q,
            w != 0,
    ;
    lemma_nearest_is_whole(neg, size, (a * p) * p, b * p, q);
}

/// A whole number is itself when it is cut or rounded to one.
pub proof fn lemma_whole_is_itself(x: Single, v: int, low: int, high: int)
    requires
        is_whole(x, v),
        low <= v <= high,
    ensures
        x.truncated_spec(low, high) == v,
        x.rounded_off_spec(low, high) == v,
{
    let f = binary32();
    let p = pow2(149) as int;
    ieee::lemma_format_bounds(f);
    lemma_pow2_pos(149);
    let size = lemma_size_of_whole(x, v) as int;
    lemma_div_multiples_vanish(size, p);
    lemma_mul_is_commutative(size, p);
    let n = 2 * (size * p) + p;
    assert(n == size * (2 * p) + p) by (nonlinear_arith)
        requires
            n == 2 * (size * p) + p,
    ;
    lemma_fundamental_div_mod_converse(n, 2 * p, size, p);
}

} // verus!
