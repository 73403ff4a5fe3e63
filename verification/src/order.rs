//! The order of doubles, kept or turned by their arithmetic.
//!
//! Rounding to nearest never turns an order around, so what holds of
//! exact sums, products, and quotients holds of rounded ones, but for
//! strictness.
use vstd::arithmetic::div_mod::*;
use vstd::arithmetic::mul::*;
use vstd::arithmetic::power2::*;
use vstd::prelude::*;

use crate::double;
use crate::double::Double;
use crate::ieee;
use crate::rounding;
use crate::rounding::binary64;

verus! {

/// The exact value of a finite double, in units.
pub open spec fn units(x: Double) -> int {
    x.num().units(binary64())
}

/// Where the double nearest to `n / d` units stands in the order of the
/// doubles.
pub open spec fn nearest_rank(n: int, d: int) -> int {
    if n >= 0 {
        rounding::rounded(binary64(), n as nat, d as nat) as int
    } else {
        -(rounding::rounded(binary64(), (-n) as nat, d as nat) as int)
    }
}

/// A ratio that is no greater has no greater a nearest double.
pub proof fn lemma_nearest_rank_keeps_order(n1: int, d1: int, n2: int, d2: int)
    requires
        d1 > 0,
        d2 > 0,
        n1 * d2 <= n2 * d1,
    ensures
        nearest_rank(n1, d1) <= nearest_rank(n2, d2),
{
    let f = binary64();
    if n1 >= 0 {
        assert(n2 >= 0) by (nonlinear_arith)
            requires
                n1 >= 0,
                d1 > 0,
                d2 > 0,
                n1 * d2 <= n2 * d1,
        ;
        ieee::lemma_rounded_monotone(f, n1 as nat, d1 as nat, n2 as nat, d2 as nat, 0);
    } else if n2 < 0 {
        assert((-n2) * d1 <= (-n1) * d2) by (nonlinear_arith)
            requires
                n1 * d2 <= n2 * d1,
        ;
        ieee::lemma_rounded_monotone(f, (-n2) as nat, d2 as nat, (-n1) as nat, d1 as nat, 0);
    }
}

/// A common factor of a ratio does not matter.
pub proof fn lemma_nearest_rank_scaled(n: int, d: int, c: int)
    requires
        d > 0,
        c > 0,
    ensures
        nearest_rank(n * c, d * c) == nearest_rank(n, d),
{
    let f = binary64();
    if n >= 0 {
        assert(n * c >= 0) by (nonlinear_arith)
            requires
                n >= 0,
                c > 0,
        ;
        ieee::lemma_rounded_scaled(f, n as nat, d as nat, c as nat, 0);
    } else {
        assert(n * c < 0 && -(n * c) == (-n) * c) by (nonlinear_arith)
            requires
                n < 0,
                c > 0,
        ;
        ieee::lemma_rounded_scaled(f, (-n) as nat, d as nat, c as nat, 0);
    }
}

/// A finite double is the one nearest to its own value.
pub proof fn lemma_nearest_rank_of_units(x: Double)
    requires
        x.is_finite(),
    ensures
        nearest_rank(units(x), 1) == x.rank(),
{
    let f = binary64();
    ieee::lemma_format_bounds(f);
    ieee::lemma_units_zero(f);
    ieee::lemma_rounded_exact(f, x.num().mag as nat);
    if x.num().mag > 0 {
        ieee::lemma_units_increase(f, 0, x.num().mag as nat);
    }
}

/// The order of finite doubles is that of their values.
pub proof fn lemma_units_order(x: Double, y: Double)
    requires
        x.is_finite(),
        y.is_finite(),
    ensures
        x.rank() <= y.rank() <==> units(x) <= units(y),
{
    double::lemma_order_is_of_values(x, y);
    double::lemma_order_is_of_values(y, x);
}

/// The double behind a sign and a rounded magnitude.
proof fn lemma_nearest(neg: bool, n: nat, d: nat)
    requires
        d > 0,
    ensures
        ({
            let x = double::joined_spec(ieee::nearest(binary64(), neg, n, d));
            &&& !x.is_nan()
            &&& x.num() == ieee::nearest(binary64(), neg, n, d)
            &&& x.rank() == nearest_rank(
                if neg {
                    -(n as int)
                } else {
                    n as int
                },
                d as int,
            )
        }),
{
    let f = binary64();
    ieee::lemma_format_bounds(f);
    ieee::lemma_rounded_bound(f, n, d, 0);
    double::lemma_joined(ieee::nearest(f, neg, n, d));
    if n == 0 {
        ieee::lemma_rounded_zero(f, d);
    }
}

/// A negated double has the opposite value.
pub proof fn lemma_negated(x: Double)
    ensures
        x.negated().rank() == -x.rank(),
        units(x.negated()) == -units(x),
        x.negated().is_nan() == x.is_nan(),
        x.negated().is_finite() == x.is_finite(),
        x.negated().num().mag == x.num().mag,
        x.negated().num().neg == !x.num().neg,
{
}

/// A sum is the exact sum rounded.
pub proof fn lemma_plus_rank(x: Double, y: Double)
    requires
        x.is_finite(),
        y.is_finite(),
    ensures
        !x.plus(y).is_nan(),
        x.plus(y).rank() == nearest_rank(units(x) + units(y), 1),
{
    let f = binary64();
    ieee::lemma_format_bounds(f);
    let s = units(x) + units(y);
    if s == 0 {
        ieee::lemma_rounded_zero(f, 1);
        double::lemma_joined(ieee::sum(f, x.num(), y.num()));
    } else if s > 0 {
        lemma_nearest(false, s as nat, 1);
    } else {
        lemma_nearest(true, (-s) as nat, 1);
    }
}

/// A product is the exact product rounded.
pub proof fn lemma_times_rank(x: Double, y: Double)
    requires
        x.is_finite(),
        y.is_finite(),
    ensures
        !x.times(y).is_nan(),
        x.times(y).rank() == nearest_rank(units(x) * units(y), pow2(1074) as int),
{
    let f = binary64();
    ieee::lemma_format_bounds(f);
    lemma_pow2_pos(1074);
    let (u, v) = (f.units(x.num().mag as nat), f.units(y.num().mag as nat));
    let neg = x.num().neg != y.num().neg;
    lemma_nearest(neg, u * v, pow2(1074));
    assert((-(u as int)) * v == -(u * v)) by (nonlinear_arith);
    assert(u * (-(v as int)) == -(u * v)) by (nonlinear_arith);
    assert((-(u as int)) * (-(v as int)) == u * v) by (nonlinear_arith);
}

/// A quotient by a positive number is the exact quotient rounded.
pub proof fn lemma_over_rank(x: Double, by: Double)
    requires
        x.is_finite(),
        by.is_finite(),
        by.rank() > 0,
    ensures
        units(by) > 0,
        !x.over(by).is_nan(),
        x.over(by).rank() == nearest_rank(units(x) * pow2(1074), units(by)),
{
    let f = binary64();
    ieee::lemma_format_bounds(f);
    ieee::lemma_units_zero(f);
    ieee::lemma_units_increase(f, 0, by.num().mag as nat);
    let u = f.units(x.num().mag as nat);
    lemma_nearest(x.num().neg, u * pow2(1074), f.units(by.num().mag as nat));
    assert((-(u as int)) * pow2(1074) == -(u * pow2(1074))) by (nonlinear_arith);
}

/// A finite addend keeps the order.
pub proof fn lemma_plus_keeps_order(x: Double, y: Double, addend: Double)
    requires
        x.at_most(y),
        addend.is_finite(),
    ensures
        x.plus(addend).at_most(y.plus(addend)),
        addend.plus(x).at_most(addend.plus(y)),
{
    ieee::lemma_format_bounds(binary64());
    if x.is_finite() {
        lemma_plus_rank(x, addend);
        lemma_plus_rank(addend, x);
    }
    if y.is_finite() {
        lemma_plus_rank(y, addend);
        lemma_plus_rank(addend, y);
    }
    if x.is_finite() && y.is_finite() {
        lemma_units_order(x, y);
        lemma_nearest_rank_keeps_order(
            units(x) + units(addend),
            1,
            units(y) + units(addend),
            1,
        );
    } else {
        if x.is_finite() {
            lemma_rank_bounds(x.plus(addend));
        }
        if y.is_finite() {
            lemma_rank_bounds(y.plus(addend));
        }
    }
}

/// No number stands past the infinities.
proof fn lemma_rank_bounds(x: Double)
    requires
        !x.is_nan(),
    ensures
        -0x7ff0_0000_0000_0000 <= x.rank() <= 0x7ff0_0000_0000_0000,
{
}

/// A finite factor that is not negative keeps the order.
pub proof fn lemma_times_keeps_order(x: Double, y: Double, factor: Double)
    requires
        x.is_finite(),
        y.is_finite(),
        x.at_most(y),
        factor.is_finite(),
        factor.rank() >= 0,
    ensures
        factor.times(x).at_most(factor.times(y)),
        x.times(factor).at_most(y.times(factor)),
{
    lemma_units_order(x, y);
    lemma_units_sign(factor);
    lemma_times_rank(factor, x);
    lemma_times_rank(factor, y);
    lemma_times_rank(x, factor);
    lemma_times_rank(y, factor);
    let (u, v, c) = (units(x), units(y), units(factor));
    let d = pow2(1074) as int;
    lemma_pow2_pos(1074);
    assert((c * u) * d <= (c * v) * d && c * u == u * c && c * v == v * c) by (nonlinear_arith)
        requires
            u <= v,
            c >= 0,
            d > 0,
    ;
    lemma_nearest_rank_keeps_order(c * u, d, c * v, d);
}

/// A finite factor that is not positive turns the order around.
pub proof fn lemma_times_turns_order(x: Double, y: Double, factor: Double)
    requires
        x.is_finite(),
        y.is_finite(),
        x.at_most(y),
        factor.is_finite(),
        factor.rank() <= 0,
    ensures
        factor.times(y).at_most(factor.times(x)),
        y.times(factor).at_most(x.times(factor)),
{
    lemma_units_order(x, y);
    lemma_units_sign(factor);
    lemma_times_rank(factor, x);
    lemma_times_rank(factor, y);
    lemma_times_rank(x, factor);
    lemma_times_rank(y, factor);
    let (u, v, c) = (units(x), units(y), units(factor));
    let d = pow2(1074) as int;
    lemma_pow2_pos(1074);
    assert((c * v) * d <= (c * u) * d && c * u == u * c && c * v == v * c) by (nonlinear_arith)
        requires
            u <= v,
            c <= 0,
            d > 0,
    ;
    lemma_nearest_rank_keeps_order(c * v, d, c * u, d);
}

/// The sign of a finite double is that of its value.
pub proof fn lemma_units_sign(x: Double)
    requires
        x.is_finite(),
    ensures
        x.rank() >= 0 <==> units(x) >= 0,
        x.rank() <= 0 <==> units(x) <= 0,
{
    let zero = Double { bits: 0 };
    ieee::lemma_units_zero(binary64());
    lemma_units_order(x, zero);
    lemma_units_order(zero, x);
}

/// A positive divisor keeps the order.
pub proof fn lemma_over_keeps_order(x: Double, y: Double, by: Double)
    requires
        x.at_most(y),
        by.is_finite(),
        by.rank() > 0,
    ensures
        x.over(by).at_most(y.over(by)),
{
    ieee::lemma_format_bounds(binary64());
    if x.is_finite() {
        lemma_over_rank(x, by);
    }
    if y.is_finite() {
        lemma_over_rank(y, by);
    }
    if x.is_finite() && y.is_finite() {
        lemma_units_order(x, y);
        let (u, v, d) = (units(x), units(y), units(by));
        let p = pow2(1074) as int;
        lemma_pow2_pos(1074);
        assert((u * p) * d <= (v * p) * d) by (nonlinear_arith)
            requires
                u <= v,
                p > 0,
                d > 0,
        ;
        lemma_nearest_rank_keeps_order(u * p, d, v * p, d);
    } else {
        if x.is_finite() {
            lemma_rank_bounds(x.over(by));
        }
        if y.is_finite() {
            lemma_rank_bounds(y.over(by));
        }
    }
}

/// A number that is not negative is no greater over a greater divisor.
pub proof fn lemma_over_turns_order(x: Double, by: Double, more: Double)
    requires
        !x.is_nan(),
        x.rank() >= 0,
        by.rank() > 0,
        by.at_most(more),
        more.is_finite(),
    ensures
        x.over(more).at_most(x.over(by)),
{
    ieee::lemma_format_bounds(binary64());
    if x.is_finite() {
        lemma_over_rank(x, by);
        lemma_over_rank(x, more);
        lemma_units_order(by, more);
        lemma_units_sign(x);
        let (u, d, e) = (units(x), units(by), units(more));
        let p = pow2(1074) as int;
        lemma_pow2_pos(1074);
        assert((u * p) * d <= (u * p) * e) by (nonlinear_arith)
            requires
                u >= 0,
                d <= e,
                p > 0,
        ;
        lemma_nearest_rank_keeps_order(u * p, e, u * p, d);
    }
}

/// One is a whole unit of value.
pub proof fn lemma_one()
    ensures
        units(Double { bits: 0x3ff0_0000_0000_0000 }) == pow2(1074),
{
    let f = binary64();
    ieee::lemma_format_bounds(f);
    let mag = 0x3ff0_0000_0000_0000nat;
    let b = f.binade();
    assert(mag / b == 1023 && mag % b == 0);
    assert(f.units(mag) == b * pow2(1022));
    lemma_pow2_adds(52, 1022);
}

/// An integer of up to 53 bits is a double.
pub proof fn lemma_of_is_exact(v: int)
    requires
        -0x20_0000_0000_0000 < v < 0x20_0000_0000_0000,
    ensures
        Double::of_spec(v).is_finite(),
        units(Double::of_spec(v)) == v * pow2(1074),
        Double::of_spec(v).rank() >= 0 <==> v >= 0,
        Double::of_spec(v).rank() <= 0 <==> v <= 0,
{
    let f = binary64();
    ieee::lemma_format_bounds(f);
    let size: nat = if v < 0 {
        (-v) as nat
    } else {
        v as nat
    };
    let n = size * pow2(1074);
    assert((-v) * pow2(1074) == -(v * pow2(1074))) by (nonlinear_arith);
    let mag = ieee::lemma_representable(f, size, 1074);
    ieee::lemma_rounded_exact(f, mag);
    lemma_nearest(v < 0, n, 1);
    lemma_pow2_pos(1074);
    assert(v > 0 ==> v * pow2(1074) > 0) by (nonlinear_arith)
        requires
            pow2(1074) > 0,
    ;
    assert(v < 0 ==> v * pow2(1074) < 0) by (nonlinear_arith)
        requires
            pow2(1074) > 0,
    ;
    lemma_mul_basics(pow2(1074) as int);
    lemma_units_sign(Double::of_spec(v));
}

/// Integers of up to 53 bits keep their order as doubles.
pub proof fn lemma_of_keeps_order(v: int, w: int)
    requires
        -0x20_0000_0000_0000 < v <= w < 0x20_0000_0000_0000,
    ensures
        Double::of_spec(v).at_most(Double::of_spec(w)),
{
    lemma_of_is_exact(v);
    lemma_of_is_exact(w);
    let p = pow2(1074) as int;
    assert(v * p <= w * p) by (nonlinear_arith)
        requires
            v <= w,
            p >= 0,
    ;
    lemma_units_order(Double::of_spec(v), Double::of_spec(w));
}

/// Cutting to an integer keeps the order.
pub proof fn lemma_truncated_keeps_order(x: Double, y: Double, low: int, high: int)
    requires
        x.at_most(y),
        low <= 0 <= high,
    ensures
        x.truncated_spec(low, high) <= y.truncated_spec(low, high),
{
    let f = binary64();
    ieee::lemma_format_bounds(f);
    lemma_pow2_pos(1074);
    let p = pow2(1074) as int;
    let (u, v) = (f.units(x.num().mag as nat) as int, f.units(y.num().mag as nat) as int);
    if x.is_finite() && y.is_finite() {
        lemma_units_order(x, y);
        lemma_units_order(y, x);
        lemma_div_pos_is_pos(u, p);
        lemma_div_pos_is_pos(v, p);
        if x.num().neg && y.num().neg {
            lemma_div_is_ordered(v, u, p);
        } else if !x.num().neg && !y.num().neg {
            lemma_div_is_ordered(u, v, p);
        } else if !x.num().neg && y.num().neg {
            assert(u <= -v);
        }
    }
}

/// An integer of up to 53 bits is cut to itself, within the range.
pub proof fn lemma_truncated_of(v: int, low: int, high: int)
    requires
        0 <= v < 0x20_0000_0000_0000,
        low <= v <= high,
    ensures
        Double::of_spec(v).truncated_spec(low, high) == v,
{
    lemma_of_is_exact(v);
    lemma_pow2_pos(1074);
    ieee::lemma_format_bounds(binary64());
    let x = Double::of_spec(v);
    lemma_div_multiples_vanish(v, pow2(1074) as int);
    lemma_mul_is_commutative(v, pow2(1074) as int);
    assert(v * pow2(1074) >= 0) by (nonlinear_arith)
        requires
            v >= 0,
    ;
}

/// One times a finite number is that number.
pub proof fn lemma_times_one(x: Double)
    requires
        x.is_finite(),
    ensures
        (Double { bits: 0x3ff0_0000_0000_0000 }).times(x).equals(x),
        x.times(Double { bits: 0x3ff0_0000_0000_0000 }).equals(x),
{
    let one = Double { bits: 0x3ff0_0000_0000_0000 };
    let p = pow2(1074) as int;
    lemma_one();
    lemma_pow2_pos(1074);
    lemma_times_rank(one, x);
    lemma_times_rank(x, one);
    lemma_mul_is_commutative(units(x), p);
    lemma_mul_basics(p);
    lemma_nearest_rank_scaled(units(x), 1, p);
    lemma_nearest_rank_of_units(x);
}

/// A quotient by a finite number of at least one is finite, and no
/// greater than what is divided.
pub proof fn lemma_over_at_least_one(x: Double, by: Double)
    requires
        x.is_finite(),
        by.is_finite(),
        (Double { bits: 0x3ff0_0000_0000_0000 }).at_most(by),
    ensures
        x.over(by).is_finite(),
        x.rank() >= 0 ==> 0 <= x.over(by).rank() <= x.rank(),
        x.rank() <= 0 ==> x.rank() <= x.over(by).rank() <= 0,
{
    let one = Double { bits: 0x3ff0_0000_0000_0000 };
    let p = pow2(1074) as int;
    lemma_one();
    lemma_pow2_pos(1074);
    lemma_over_rank(x, by);
    lemma_units_order(one, by);
    lemma_units_sign(x);
    lemma_nearest_rank_of_units(x);
    ieee::lemma_rounded_zero(binary64(), 1);
    let (u, d) = (units(x), units(by));
    if u >= 0 {
        assert((u * p) * 1 <= u * d && 0 * d <= (u * p) * 1) by (nonlinear_arith)
            requires
                0 <= u,
                0 < p <= d,
        ;
        lemma_nearest_rank_keeps_order(u * p, d, u, 1);
        lemma_nearest_rank_keeps_order(0, 1, u * p, d);
    }
    if u <= 0 {
        assert(u * d <= (u * p) * 1 && (u * p) * 1 <= 0 * d) by (nonlinear_arith)
            requires
                u <= 0,
                0 < p <= d,
        ;
        lemma_nearest_rank_keeps_order(u, 1, u * p, d);
        lemma_nearest_rank_keeps_order(u * p, d, 0, 1);
    }
}

/// A positive number over itself is one.
pub proof fn lemma_over_itself(x: Double)
    requires
        x.is_finite(),
        x.rank() > 0,
    ensures
        x.over(x).equals(Double { bits: 0x3ff0_0000_0000_0000 }),
{
    let one = Double { bits: 0x3ff0_0000_0000_0000 };
    lemma_one();
    lemma_over_rank(x, x);
    lemma_pow2_pos(1074);
    lemma_nearest_rank_of_units(one);
    lemma_mul_is_commutative(units(x), pow2(1074) as int);
    lemma_mul_basics(units(x));
    lemma_nearest_rank_scaled(pow2(1074) as int, 1, units(x));
}

/// A finite sum or product is of finite numbers.
pub proof fn lemma_finite_parts(x: Double, y: Double)
    ensures
        x.plus(y).is_finite() ==> x.is_finite() && y.is_finite(),
        x.times(y).is_finite() ==> x.is_finite() && y.is_finite(),
{
    let f = binary64();
    ieee::lemma_format_bounds(f);
    ieee::lemma_sum_bounds(f, x.num(), y.num());
    ieee::lemma_product_bounds(f, x.num(), y.num());
    double::lemma_joined(ieee::sum(f, x.num(), y.num()));
    double::lemma_joined(ieee::product(f, x.num(), y.num()));
}

/// A number less one that is neither negative nor greater is neither
/// negative nor greater itself.
pub proof fn lemma_minus_stays_between(x: Double, less: Double)
    requires
        x.is_finite(),
        less.rank() >= 0,
        less.at_most(x),
    ensures
        x.minus(less).is_finite(),
        0 <= x.minus(less).rank() <= x.rank(),
{
    let zero = Double { bits: 0 };
    ieee::lemma_units_zero(binary64());
    lemma_negated(less);
    lemma_plus_rank(x, zero);
    lemma_nearest_rank_of_units(x);
    lemma_plus_keeps_order(less.negated(), zero, x);
    lemma_plus_rank(less, less.negated());
    ieee::lemma_rounded_zero(binary64(), 1);
    lemma_plus_keeps_order(less, x, less.negated());
}

// Whole numbers.
/// Whether a double is exactly this whole number.
pub open spec fn is_whole(x: Double, v: int) -> bool {
    x.is_finite() && units(x) == v * pow2(1074)
}

/// A constant whose significand is a whole number of some power of two,
/// with the exponent to match, is that whole number.
pub proof fn lemma_constant_is_whole(bits: u64, e: nat, r: nat, whole: nat, up: nat)
    requires
        bits == e * 0x10_0000_0000_0000 + r,
        1 <= e < 0x7ff,
        r < 0x10_0000_0000_0000,
        0x10_0000_0000_0000 + r == whole * pow2(up),
        e - 1 + up == 1074,
    ensures
        is_whole(Double { bits }, whole as int),
{
    let f = binary64();
    ieee::lemma_format_bounds(f);
    let mag = bits as nat;
    assert(f.binade() == 0x10_0000_0000_0000);
    assert(mag / f.binade() == e && mag % f.binade() == r);
    assert(f.units(mag) == (whole * pow2(up)) * pow2((e - 1) as nat));
    lemma_pow2_adds(up, (e - 1) as nat);
    lemma_mul_is_associative(whole as int, pow2(up) as int, pow2((e - 1) as nat) as int);
}

/// A double that stands where a whole number does is that number.
proof fn lemma_rank_of_whole(x: Double, v: int)
    requires
        !x.is_nan(),
        -0x20_0000_0000_0000 < v < 0x20_0000_0000_0000,
        x.rank() == nearest_rank(v * pow2(1074), 1),
    ensures
        is_whole(x, v),
{
    let y = Double::of_spec(v);
    lemma_of_is_exact(v);
    lemma_nearest_rank_of_units(y);
    ieee::lemma_format_bounds(binary64());
    assert(x.rank() == y.rank());
    lemma_units_order(x, y);
    lemma_units_order(y, x);
}

/// Whole numbers add, multiply and divide as whole numbers do, as long
/// as the result is one of up to 53 bits.
pub proof fn lemma_wholes_compute(x: Double, y: Double, v: int, w: int)
    requires
        is_whole(x, v),
        is_whole(y, w),
    ensures
        -0x20_0000_0000_0000 < v + w < 0x20_0000_0000_0000 ==> is_whole(x.plus(y), v + w),
        -0x20_0000_0000_0000 < v - w < 0x20_0000_0000_0000 ==> is_whole(x.minus(y), v - w),
        -0x20_0000_0000_0000 < v * w < 0x20_0000_0000_0000 ==> is_whole(x.times(y), v * w),
        w > 0 && v % w == 0 && -0x20_0000_0000_0000 < v / w < 0x20_0000_0000_0000 ==> is_whole(
            x.over(y),
            v / w,
        ),
{
    let p = pow2(1074) as int;
    lemma_pow2_pos(1074);
    lemma_plus_rank(x, y);
    lemma_mul_is_distributive_add_other_way(p, v, w);
    if -0x20_0000_0000_0000 < v + w < 0x20_0000_0000_0000 {
        lemma_rank_of_whole(x.plus(y), v + w);
    }
    lemma_negated(y);
    lemma_plus_rank(x, y.negated());
    lemma_mul_is_distributive_sub_other_way(p, v, w);
    if -0x20_0000_0000_0000 < v - w < 0x20_0000_0000_0000 {
        lemma_rank_of_whole(x.minus(y), v - w);
    }
    lemma_times_rank(x, y);
    assert((v * p) * (w * p) == ((v * w) * p) * p && 1 * p == p) by (nonlinear_arith);
    lemma_nearest_rank_scaled((v * w) * p, 1, p);
    if -0x20_0000_0000_0000 < v * w < 0x20_0000_0000_0000 {
        lemma_rank_of_whole(x.times(y), v * w);
    }
    if w > 0 && v % w == 0 && -0x20_0000_0000_0000 < v / w < 0x20_0000_0000_0000 {
        let q = v / w;
        lemma_fundamental_div_mod(v, w);
        assert(w * p > 0) by (nonlinear_arith)
            requires
                w > 0,
                p > 0,
        ;
        lemma_units_sign(y);
        lemma_over_rank(x, y);
        assert(v == w * q);
        assert(((w * q) * p) * p == (q * p) * (w * p) && 1 * (w * p) == w * p) by (nonlinear_arith);
        lemma_nearest_rank_scaled(q * p, 1, w * p);
        lemma_rank_of_whole(x.over(y), q);
    }
}

/// A whole number is itself when it is cut to one.
pub proof fn lemma_whole_is_not_cut(x: Double, v: int, low: int, high: int)
    requires
        is_whole(x, v),
        0 <= v < 0x20_0000_0000_0000,
        low <= v <= high,
        low <= 0,
    ensures
        x.truncated_spec(low, high) == v,
{
    lemma_of_is_exact(v);
    lemma_truncated_of(v, low, high);
    let y = Double::of_spec(v);
    lemma_units_order(x, y);
    lemma_units_order(y, x);
    lemma_truncated_keeps_order(x, y, low, high);
    lemma_truncated_keeps_order(y, x, low, high);
}

} // verus!
