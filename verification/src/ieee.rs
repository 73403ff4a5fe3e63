//! IEEE 754 arithmetic on sign and magnitude, for either format.
//!
//! Each operation is stated as the exact result rounded to the format,
//! and computed on integers alone.
use vstd::arithmetic::div_mod::*;
use vstd::arithmetic::mul::*;
use vstd::arithmetic::power2::*;
use vstd::prelude::*;

use crate::rounding;
use crate::rounding::{binary32, binary64, power_of_two, round_scaled, top_bit, Format};

verus! {

/// A number of a format, split into its sign and its magnitude.
#[derive(Clone, Copy, Debug, PartialEq, Eq, Structural)]
pub struct Num {
    pub neg: bool,
    pub mag: u64,
}

impl Num {
    pub open spec fn is_nan(self, f: Format) -> bool {
        self.mag > f.infinity()
    }

    pub open spec fn is_finite(self, f: Format) -> bool {
        self.mag < f.infinity()
    }

    pub open spec fn is_infinite(self, f: Format) -> bool {
        self.mag == f.infinity()
    }

    /// The exact value of a finite number, in units.
    pub open spec fn units(self, f: Format) -> int {
        if self.neg {
            -(f.units(self.mag as nat) as int)
        } else {
            f.units(self.mag as nat) as int
        }
    }

    /// Where the number stands in the order of the format, both zeros
    /// at zero. Not for NaN.
    pub open spec fn rank(self) -> int {
        if self.neg {
            -(self.mag as int)
        } else {
            self.mag as int
        }
    }
}

/// The number with this sign and magnitude.
pub open spec fn signed(neg: bool, mag: nat) -> Num {
    Num { neg, mag: mag as u64 }
}

/// The NaN every operation without a result gives.
pub open spec fn nan_spec(f: Format) -> Num {
    signed(false, (f.infinity() + f.binade() / 2) as nat)
}

/// The exact ratio `n / d` units with this sign, rounded.
pub open spec fn nearest(f: Format, neg: bool, n: nat, d: nat) -> Num {
    signed(neg, rounding::rounded(f, n, d))
}

/// The sum: the exact sum rounded. A zero sum is positive unless both
/// terms are negative.
pub open spec fn sum(f: Format, a: Num, b: Num) -> Num {
    if a.is_nan(f) || b.is_nan(f) {
        nan_spec(f)
    } else if a.is_infinite(f) {
        if b.is_infinite(f) && a.neg != b.neg {
            nan_spec(f)
        } else {
            a
        }
    } else if b.is_infinite(f) {
        b
    } else {
        let s = a.units(f) + b.units(f);
        if s == 0 {
            signed(a.neg && b.neg, 0)
        } else if s > 0 {
            nearest(f, false, s as nat, 1)
        } else {
            nearest(f, true, (-s) as nat, 1)
        }
    }
}

/// The product: the exact product rounded.
pub open spec fn product(f: Format, a: Num, b: Num) -> Num {
    let neg = a.neg != b.neg;
    if a.is_nan(f) || b.is_nan(f) {
        nan_spec(f)
    } else if a.is_infinite(f) || b.is_infinite(f) {
        if a.mag == 0 || b.mag == 0 {
            nan_spec(f)
        } else {
            signed(neg, f.infinity())
        }
    } else {
        nearest(
            f,
            neg,
            f.units(a.mag as nat) * f.units(b.mag as nat),
            pow2(f.unit as nat),
        )
    }
}

/// The quotient: the exact quotient rounded.
pub open spec fn quotient(f: Format, a: Num, b: Num) -> Num {
    let neg = a.neg != b.neg;
    if a.is_nan(f) || b.is_nan(f) {
        nan_spec(f)
    } else if a.is_infinite(f) {
        if b.is_infinite(f) {
            nan_spec(f)
        } else {
            signed(neg, f.infinity())
        }
    } else if b.is_infinite(f) {
        signed(neg, 0)
    } else if b.mag == 0 {
        if a.mag == 0 {
            nan_spec(f)
        } else {
            signed(neg, f.infinity())
        }
    } else {
        nearest(
            f,
            neg,
            f.units(a.mag as nat) * pow2(f.unit as nat),
            f.units(b.mag as nat),
        )
    }
}

/// The constants of a format, as numbers.
pub proof fn lemma_format_bounds(f: Format)
    requires
        f.wf(),
    ensures
        f == binary64() ==> f.binade() == 0x10_0000_0000_0000,
        f == binary32() ==> f.binade() == 0x80_0000,
        f.infinity() < 0x8000_0000_0000_0000,
        f.infinity() == (f.top + 1) * f.binade(),
        pow2(f.precision as nat) == 2 * f.binade(),
        f.infinity() + f.binade() / 2 < 0x8000_0000_0000_0000,
        f == binary64() ==> f.infinity() == 0x7ff0_0000_0000_0000,
        f == binary32() ==> f.infinity() == 0x7f80_0000,
{
    lemma2_to64();
    lemma2_to64_rest();
    if f == binary64() {
        assert(f.binade() == 0x10_0000_0000_0000);
        assert(f.infinity() == 2047 * 0x10_0000_0000_0000);
    } else {
        assert(f.binade() == 0x80_0000);
        assert(f.infinity() == 255 * 0x80_0000);
    }
}

/// A finite magnitude, taken apart.
pub proof fn lemma_parts(f: Format, mag: nat)
    requires
        f.wf(),
        mag < f.infinity(),
    ensures
        f.field(mag) <= f.top,
        f.scale(mag) <= f.top - 1,
        f.significand(mag) < pow2(f.precision as nat),
        f.scale(mag) > 0 ==> f.significand(mag) >= f.binade(),
        mag == f.scale(mag) * f.binade() + f.significand(mag),
{
    lemma_format_bounds(f);
    let b = f.binade();
    lemma_fundamental_div_mod(mag as int, b as int);
    lemma_mod_bound(mag as int, b as int);
    let k = f.field(mag);
    assert(mag == b * k + mag % b);
    assert(k <= f.top) by (nonlinear_arith)
        requires
            mag == b * k + mag % b,
            0 <= mag % b,
            mag < (f.top + 1) * b,
            b > 0,
            k == f.field(mag),
    ;
    if k > 0 {
        assert(b * k == (k - 1) * b + b) by (nonlinear_arith);
    } else {
        assert(b * 0 == 0);
    }
}

/// The magnitude with a given scale and significand.
proof fn lemma_parts_unique(f: Format, k: nat, m: nat)
    requires
        f.wf(),
        k < f.top,
        m < pow2(f.precision as nat),
        k == 0 || m >= f.binade(),
    ensures
        k * f.binade() + m < f.infinity(),
        f.units(k * f.binade() + m) == m * pow2(k),
{
    lemma_format_bounds(f);
    let b = f.binade();
    let mag = k * b + m;
    assert(k * b <= (f.top - 1) * b) by (nonlinear_arith)
        requires
            k <= f.top - 1,
    ;
    assert((f.top - 1) * b + 2 * b == (f.top + 1) * b) by (nonlinear_arith);
    if m >= b {
        assert(mag == (k + 1) * b + (m - b)) by (nonlinear_arith)
            requires
                mag == k * b + m,
        ;
        lemma_fundamental_div_mod_converse(mag as int, b as int, (k + 1) as int, m - b);
    } else {
        lemma_mul_basics(b as int);
        assert(0 * b == 0);
        lemma_fundamental_div_mod_converse(mag as int, b as int, 0, m as int);
    }
}

/// A magnitude with a whole exponent field above it has twice the value.
proof fn lemma_units_doubled(f: Format, mag: nat)
    requires
        f.wf(),
        mag >= f.binade(),
        mag + f.binade() < f.infinity(),
    ensures
        f.units(mag + f.binade()) == 2 * f.units(mag),
{
    lemma_format_bounds(f);
    let b = f.binade();
    let (q, r) = (mag / b, mag % b);
    lemma_fundamental_div_mod(mag as int, b as int);
    assert(q >= 1) by (nonlinear_arith)
        requires
            mag == b * q + r,
            mag >= b,
            r < b,
    ;
    assert(mag + b == (q + 1) * b + r) by (nonlinear_arith)
        requires
            mag == b * q + r,
    ;
    lemma_fundamental_div_mod_converse((mag + b) as int, b as int, (q + 1) as int, r as int);
    lemma_pow2_unfold(q);
    let m = r + b;
    assert(m * (2 * pow2((q - 1) as nat)) == 2 * (m * pow2((q - 1) as nat))) by (nonlinear_arith);
}

/// Rounding one scale further up adds a whole exponent field.
proof fn lemma_rounded_one_up(f: Format, n: nat, d: nat, k: nat)
    requires
        f.wf(),
        rounding::rounded_from(f, n, d, k + 1) < f.infinity(),
    ensures
        rounding::rounded_from(f, n, d, k + 1) == rounding::rounded_from(f, n, d, k) + f.binade(),
    decreases f.top - k,
{
    if k + 1 < f.top {
        if n < d * pow2(f.precision as nat) {
            let b = f.binade();
            assert((k + 1) * b == k * b + b) by (nonlinear_arith);
        } else {
            lemma_rounded_one_up(f, n, 2 * d, k + 1);
        }
    }
}

/// Twice a ratio rounds to twice the value, where neither the smallest
/// scale nor the largest is in the way.
proof fn lemma_rounded_doubled(f: Format, n: nat, d: nat)
    requires
        f.wf(),
        d > 0,
        n >= d * f.binade(),
        rounding::rounded(f, 2 * n, d) < f.infinity(),
    ensures
        rounding::rounded(f, n, d) >= f.binade(),
        rounding::rounded(f, n, d) < f.infinity(),
        f.units(rounding::rounded(f, 2 * n, d)) == 2 * f.units(rounding::rounded(f, n, d)),
{
    lemma_format_bounds(f);
    let b = f.binade();
    let p = pow2(f.precision as nat);
    assert(2 * n >= d * p) by (nonlinear_arith)
        requires
            n >= d * b,
            p == 2 * b,
    ;
    lemma_rounded_scaled(f, n, d, 2, 1);
    assert(n * 2 == 2 * n && d * 2 == 2 * d);
    lemma_rounded_one_up(f, n, d, 0);
    let small = rounding::rounded(f, n, d);
    assert(small >= b) by {
        lemma_rounded_monotone(f, b, 1, n, d, 0);
        assert(b * 1 < 1 * p);
        rounding::lemma_half_even_exact(b, 1);
        assert(b * 1 == b);
        assert(0 * b == 0);
        lemma_mul_basics(b as int);
    }
    lemma_units_doubled(f, small);
}

/// Twice a whole count of units rounds to twice the value.
proof fn lemma_rounded_whole_doubled(f: Format, n: nat)
    requires
        f.wf(),
        rounding::rounded(f, 2 * n, 1) < f.infinity(),
    ensures
        f.units(rounding::rounded(f, 2 * n, 1)) == 2 * f.units(rounding::rounded(f, n, 1)),
{
    lemma_format_bounds(f);
    let b = f.binade();
    if n >= b {
        lemma_mul_basics(b as int);
        lemma_rounded_doubled(f, n, 1);
    } else {
        lemma_pow2_pos(0);
        lemma2_to64();
        lemma_parts_unique(f, 0, n);
        lemma_parts_unique(f, 0, 2 * n);
        lemma_mul_basics(b as int);
        lemma_mul_basics(n as int);
        assert(0 * b == 0);
        assert(f.units(n) == n);
        assert(f.units(2 * n) == 2 * n);
        lemma_rounded_exact(f, n);
        lemma_rounded_exact(f, 2 * n);
    }
}

/// A power of two times a ratio rounds to that times the value, where
/// neither the smallest scale nor the largest is in the way.
pub proof fn lemma_rounded_by_power(f: Format, n: nat, d: nat, k: nat)
    requires
        f.wf(),
        d > 0,
        n >= d * f.binade(),
        rounding::rounded(f, n * pow2(k), d) < f.infinity(),
    ensures
        rounding::rounded(f, n, d) >= f.binade(),
        rounding::rounded(f, n, d) < f.infinity(),
        f.units(rounding::rounded(f, n * pow2(k), d)) == pow2(k) * f.units(
            rounding::rounded(f, n, d),
        ),
    decreases k,
{
    lemma_format_bounds(f);
    if k == 0 {
        lemma2_to64();
        lemma_mul_basics(n as int);
        let b = f.binade();
        lemma_mul_basics(b as int);
        lemma_mul_is_commutative(d as int, b as int);
        lemma_rounded_monotone(f, b, 1, n, d, 0);
        rounding::lemma_half_even_exact(b, 1);
        lemma_mul_basics(f.units(rounding::rounded(f, n, d)) as int);
    } else {
        let p = pow2((k - 1) as nat);
        let less = n * p;
        lemma_pow2_unfold(k);
        lemma_pow2_pos((k - 1) as nat);
        assert(n * (2 * p) == 2 * less) by (nonlinear_arith)
            requires
                less == n * p,
        ;
        assert(less * d <= (2 * less) * d) by (nonlinear_arith);
        lemma_rounded_monotone(f, less, d, 2 * less, d, 0);
        lemma_rounded_by_power(f, n, d, (k - 1) as nat);
        assert(less >= n) by (nonlinear_arith)
            requires
                less == n * p,
                p > 0,
        ;
        lemma_rounded_doubled(f, less, d);
        let u = f.units(rounding::rounded(f, n, d));
        assert(2 * (p * u) == (2 * p) * u) by (nonlinear_arith);
    }
}

/// A power of two times a whole count of units rounds to that times the
/// value.
pub proof fn lemma_rounded_whole_by_power(f: Format, n: nat, k: nat)
    requires
        f.wf(),
        rounding::rounded(f, n * pow2(k), 1) < f.infinity(),
    ensures
        f.units(rounding::rounded(f, n * pow2(k), 1)) == pow2(k) * f.units(
            rounding::rounded(f, n, 1),
        ),
    decreases k,
{
    if k == 0 {
        lemma2_to64();
        lemma_mul_basics(n as int);
        lemma_mul_basics(f.units(rounding::rounded(f, n, 1)) as int);
    } else {
        let p = pow2((k - 1) as nat);
        let less = n * p;
        lemma_pow2_unfold(k);
        assert(n * (2 * p) == 2 * less) by (nonlinear_arith)
            requires
                less == n * p,
        ;
        lemma_mul_basics(less as int);
        lemma_rounded_monotone(f, less, 1, 2 * less, 1, 0);
        lemma_rounded_whole_by_power(f, n, (k - 1) as nat);
        lemma_rounded_whole_doubled(f, less);
        let u = f.units(rounding::rounded(f, n, 1));
        assert(2 * (p * u) == (2 * p) * u) by (nonlinear_arith);
    }
}

/// Every integer within the precision has a magnitude at every scale.
pub proof fn lemma_representable(f: Format, m: nat, k: nat) -> (mag: nat)
    requires
        f.wf(),
        k < f.top,
        m < pow2(f.precision as nat),
    ensures
        mag < f.infinity(),
        f.units(mag) == m * pow2(k),
    decreases k,
{
    lemma_format_bounds(f);
    if k == 0 || m >= f.binade() {
        lemma_parts_unique(f, k, m);
        k * f.binade() + m
    } else {
        lemma_pow2_unfold(k);
        assert((2 * m) * pow2((k - 1) as nat) == m * (2 * pow2((k - 1) as nat)))
            by (nonlinear_arith);
        lemma_representable(f, 2 * m, (k - 1) as nat)
    }
}

/// What lies within a quarter of a step of a magnitude rounds to it.
pub proof fn lemma_rounded_near(f: Format, mag: nat, n: nat)
    requires
        f.wf(),
        mag < f.infinity(),
        n == f.units(mag) || (f.scale(mag) > 0 && 4 * (n - f.units(mag)) < pow2(f.scale(mag)) && 4
            * (f.units(mag) - n) < pow2(f.scale(mag))),
    ensures
        rounding::rounded(f, n, 1) == mag,
{
    lemma_format_bounds(f);
    lemma_parts(f, mag);
    let k = f.scale(mag);
    let m = f.significand(mag);
    let u = f.units(mag);
    let p = pow2(k);
    let b = f.binade();
    lemma_pow2_pos(k);
    lemma_pow2_adds(f.precision as nat, k);
    assert(m * p <= (2 * b - 1) * p) by (nonlinear_arith)
        requires
            m <= 2 * b - 1,
            p > 0,
    ;
    assert((2 * b - 1) * p == (2 * b) * p - p) by (nonlinear_arith);
    lemma_mul_basics(pow2((f.precision + k) as nat) as int);
    assert(1 * pow2((f.precision + k) as nat) == pow2((f.precision + k) as nat));
    lemma_mul_basics(p as int);
    assert(1 * p == p);
    if k == 0 {
        lemma2_to64();
        assert(m * 1 == m);
        rounding::lemma_rounded_at(f, n, 1, 0, 0);
        rounding::lemma_half_even_exact(n, 1);
        assert(n * 1 == n);
        lemma_mul_basics(b as int);
        assert(0 * b == 0);
    } else {
        lemma_pow2_adds((f.precision - 1) as nat, k);
        assert(b * p <= m * p) by (nonlinear_arith)
            requires
                b <= m,
                p > 0,
        ;
        let low = pow2((f.precision - 1 + k) as nat);
        lemma_mul_basics(low as int);
        assert(1 * low == low);
        if n >= low {
            rounding::lemma_rounded_at(f, n, 1, 0, k);
            assert(2 * (n - m * p) < p && 2 * (m * p - n) < p);
            rounding::lemma_half_even_nearest(n, p, m);
        } else {
            // The magnitude starts a scale and the ratio lies just under it.
            assert(m == b) by (nonlinear_arith)
                requires
                    m >= b,
                    n < b * p,
                    4 * (m * p - n) < p,
                    p > 0,
            ;
            let h = (k - 1) as nat;
            lemma_pow2_unfold(k);
            let ph = pow2(h);
            lemma_pow2_pos(h);
            lemma_pow2_adds((f.precision - 1) as nat, h);
            lemma_pow2_adds(f.precision as nat, h);
            assert(b * p == (2 * b) * ph) by (nonlinear_arith)
                requires
                    p == 2 * ph,
            ;
            assert(b * ph >= ph) by (nonlinear_arith)
                requires
                    b >= 1,
            ;
            assert((2 * b) * ph == b * ph + b * ph) by (nonlinear_arith);
            lemma_mul_basics(pow2((f.precision + h) as nat) as int);
            assert(1 * pow2((f.precision + h) as nat) == pow2((f.precision + h) as nat));
            lemma_mul_basics(pow2((f.precision + h - 1) as nat) as int);
            assert(1 * pow2((f.precision + h - 1) as nat) == pow2((f.precision + h - 1) as nat));
            lemma_mul_basics(ph as int);
            assert(1 * ph == ph);
            rounding::lemma_rounded_at(f, n, 1, 0, h);
            rounding::lemma_half_even_nearest(n, ph, 2 * b);
            assert(h * b + 2 * b == k * b + b) by (nonlinear_arith)
                requires
                    h == k - 1,
            ;
        }
    }
}

/// The value of a finite magnitude rounds to that magnitude.
pub proof fn lemma_rounded_exact(f: Format, mag: nat)
    requires
        f.wf(),
        mag < f.infinity(),
    ensures
        rounding::rounded(f, f.units(mag), 1) == mag,
{
    lemma_rounded_near(f, mag, f.units(mag));
}

/// A common factor of numerator and denominator does not matter.
pub proof fn lemma_rounded_scaled(f: Format, n: nat, d: nat, c: nat, k: nat)
    requires
        f.wf(),
        d > 0,
        c > 0,
    ensures
        rounding::rounded_from(f, n * c, d * c, k) == rounding::rounded_from(f, n, d, k),
    decreases f.top - k,
{
    if k < f.top {
        let p = pow2(f.precision as nat);
        assert((n * c < (d * c) * p) == (n < d * p)) by (nonlinear_arith)
            requires
                c > 0,
        ;
        if n < d * p {
            rounding::lemma_half_even_scaled(n, d, c);
        } else {
            assert(2 * (d * c) == (2 * d) * c) by (nonlinear_arith);
            lemma_rounded_scaled(f, n, 2 * d, c, k + 1);
        }
    }
}

// Division.
/// Rounding to an integer multiple of an even step cannot tell a
/// quotient with a remainder from its whole part with a half below.
proof fn lemma_half_even_sticky(n: nat, d: nat, t: nat)
    requires
        d > 0,
        t >= 1,
    ensures
        rounding::half_even(n, d * pow2(t)) == rounding::half_even(
            sticky(n, d),
            2 * pow2(t),
        ),
{
    let h = pow2(t);
    let hh = pow2((t - 1) as nat);
    lemma_pow2_unfold(t);
    lemma_pow2_pos(t);
    let q = n / d;
    let r = n % d;
    lemma_fundamental_div_mod(n as int, d as int);
    lemma_mod_bound(n as int, d as int);
    let a = q / h;
    let c = q % h;
    lemma_fundamental_div_mod(q as int, h as int);
    lemma_mod_bound(q as int, h as int);
    let s: nat = if r > 0 {
        1
    } else {
        0
    };
    // The ratio itself.
    assert(n == a * (d * h) + (c * d + r)) by (nonlinear_arith)
        requires
            n == d * q + r,
            q == h * a + c,
    ;
    assert(0 <= c * d + r < d * h) by (nonlinear_arith)
        requires
            0 <= c <= h - 1,
            0 <= r < d,
            d > 0,
    ;
    lemma_fundamental_div_mod_converse(n as int, (d * h) as int, a as int, (c * d + r) as int);
    // Its sticky form.
    assert(sticky(n, d) == a * (2 * h) + (2 * c + s)) by (nonlinear_arith)
        requires
            sticky(n, d) == 2 * q + s,
            q == h * a + c,
    ;
    lemma_fundamental_div_mod_converse(
        sticky(n, d) as int,
        (2 * h) as int,
        a as int,
        (2 * c + s) as int,
    );
    if c >= hh {
        assert(2 * (c * d + r) >= d * h && ((2 * (c * d + r) == d * h) == (c == hh && r == 0)))
            by (nonlinear_arith)
            requires
                c >= hh,
                h == 2 * hh,
                r >= 0,
                d > 0,
        ;
    } else {
        assert(2 * (c * d + r) < d * h) by (nonlinear_arith)
            requires
                c <= hh - 1,
                h == 2 * hh,
                r < d,
                d > 0,
        ;
    }
}

/// Twice the whole part of `n / d`, and one more with a remainder.
pub open spec fn sticky(n: nat, d: nat) -> nat {
    2 * (n / d) + if n % d > 0 {
        1nat
    } else {
        0nat
    }
}

/// A ratio of enough bits rounds like its sticky form.
proof fn lemma_rounded_sticky(f: Format, n: nat, d: nat, w: int, k: nat)
    requires
        f.wf(),
        d > 0,
        n / d >= pow2(60),
    ensures
        rounding::rounded_from(
            f,
            rounding::scaled_num(n, w),
            d * (rounding::scaled_den(w) * pow2(k)),
            k,
        ) == rounding::rounded_from(
            f,
            rounding::scaled_num(sticky(n, d), w),
            2 * (rounding::scaled_den(w) * pow2(k)),
            k,
        ),
    decreases f.top - k,
{
    if k < f.top {
        let m = sticky(n, d);
        let q = n / d;
        let r = n % d;
        lemma_fundamental_div_mod(n as int, d as int);
        lemma_mod_bound(n as int, d as int);
        let pk = pow2(k);
        let pp = pow2(f.precision as nat);
        let den = rounding::scaled_den(w) * pk;
        let sn = rounding::scaled_num(n, w);
        let sm = rounding::scaled_num(m, w);
        lemma_pow2_pos(k);
        lemma_pow2_pos(f.precision as nat);
        lemma_pow2_adds(k, f.precision as nat);
        // Both fit the scale or neither does.
        let e = k + f.precision - w;
        if w >= 0 {
            lemma_pow2_pos(w as nat);
            assert(rounding::scaled_den(w) == 1);
            lemma_mul_basics(pk as int);
            if e >= 0 {
                lemma_pow2_adds(e as nat, w as nat);
                lemma_fits(n, d, pow2(w as nat), pow2(e as nat), pk * pp);
            } else {
                // Too large by far.
                lemma_pow2_strictly_increases((k + f.precision) as nat, w as nat);
                lemma_pow2_pos(60);
                let c = pow2(w as nat);
                assert(n >= d) by (nonlinear_arith)
                    requires
                        n == d * q + r,
                        q >= 1,
                        r >= 0,
                        d > 0,
                ;
                assert(n * c >= d * (pk * pp)) by (nonlinear_arith)
                    requires
                        n >= d,
                        c >= pk * pp,
                        d > 0,
                        pk * pp >= 0,
                ;
                assert(m * c >= 2 * (pk * pp)) by (nonlinear_arith)
                    requires
                        m >= 2,
                        c >= pk * pp,
                        pk * pp >= 0,
                ;
            }
        } else {
            lemma_pow2_pos((-w) as nat);
            lemma_pow2_adds((-w) as nat, (k + f.precision) as nat);
            let c = pow2((-w) as nat);
            assert(den * pp == c * (pk * pp)) by (nonlinear_arith)
                requires
                    den == c * pk,
            ;
            lemma_fits(n, d, 1, pow2(e as nat), den * pp);
        }
        assert((d * den) * pp == d * (den * pp)) by (nonlinear_arith);
        assert((2 * den) * pp == 2 * (den * pp)) by (nonlinear_arith);
        assert((sn < (d * den) * pp) == (sm < (2 * den) * pp));
        if sn < (d * den) * pp {
            let t = k - w;
            // The whole part has more bits than the precision, so the
            // step is even.
            assert(t >= 1) by {
                if t < 1 {
                    assert(e <= f.precision);
                    assert(e >= 0);
                    if e < 60 {
                        lemma_pow2_strictly_increases(e as nat, 60);
                    }
                    let pe = pow2(e as nat);
                    assert(q >= pe);
                    if w >= 0 {
                        let c = pow2(w as nat);
                        assert(n * c >= d * (pk * pp)) by (nonlinear_arith)
                            requires
                                n == d * q + r,
                                r >= 0,
                                q >= pe,
                                pk * pp == pe * c,
                                d > 0,
                                c > 0,
                        ;
                    } else {
                        assert(n >= d * (den * pp)) by (nonlinear_arith)
                            requires
                                n == d * q + r,
                                r >= 0,
                                q >= pe,
                                den * pp == pe,
                                d > 0,
                        ;
                    }
                }
            }
            let pt = pow2(t as nat);
            lemma_pow2_pos(t as nat);
            if w >= 0 {
                let c = pow2(w as nat);
                lemma_pow2_adds(t as nat, w as nat);
                assert(d * den == (d * pt) * c) by (nonlinear_arith)
                    requires
                        den == pt * c,
                ;
                assert(2 * den == (2 * pt) * c) by (nonlinear_arith)
                    requires
                        den == pt * c,
                ;
                assert(d * pt > 0) by (nonlinear_arith)
                    requires
                        d > 0,
                        pt > 0,
                ;
                rounding::lemma_half_even_scaled(n, d * pt, c);
                rounding::lemma_half_even_scaled(m, 2 * pt, c);
            } else {
                lemma_pow2_adds((-w) as nat, k);
                assert(den == pt);
            }
            lemma_half_even_sticky(n, d, t as nat);
        } else {
            let dw = rounding::scaled_den(w);
            lemma_pow2_unfold(k + 1);
            assert(2 * (d * den) == d * (dw * pow2(k + 1))) by (nonlinear_arith)
                requires
                    den == dw * pk,
                    pow2(k + 1) == 2 * pk,
            ;
            assert(2 * (2 * den) == 2 * (dw * pow2(k + 1))) by (nonlinear_arith)
                requires
                    den == dw * pk,
                    pow2(k + 1) == 2 * pk,
            ;
            lemma_rounded_sticky(f, n, d, w, k + 1);
        }
    }
}

/// A ratio and its sticky form stand on the same side of an integer.
proof fn lemma_fits(n: nat, d: nat, c: nat, e: nat, x: nat)
    requires
        d > 0,
        c > 0,
        x == e * c,
    ensures
        (n * c < d * x) == (sticky(n, d) * c < 2 * x),
{
    let q = n / d;
    let r = n % d;
    let m = sticky(n, d);
    lemma_fundamental_div_mod(n as int, d as int);
    lemma_mod_bound(n as int, d as int);
    if q < e {
        assert(n < d * e) by (nonlinear_arith)
            requires
                n == d * q + r,
                r < d,
                q <= e - 1,
                d > 0,
        ;
        assert(n * c < d * x) by (nonlinear_arith)
            requires
                n < d * e,
                x == e * c,
                c > 0,
        ;
        assert(m * c < 2 * x) by (nonlinear_arith)
            requires
                m < 2 * e,
                x == e * c,
                c > 0,
        ;
    } else {
        assert(n * c >= d * x) by (nonlinear_arith)
            requires
                n == d * q + r,
                r >= 0,
                q >= e,
                x == e * c,
                c > 0,
                d > 0,
        ;
        assert(m * c >= 2 * x) by (nonlinear_arith)
            requires
                m >= 2 * e,
                x == e * c,
                c > 0,
        ;
    }
}

// The operations.
/// Magnitudes per exponent field, as an integer.
fn binade_of(f: Format) -> (b: u64)
    requires
        f.wf(),
    ensures
        b == f.binade(),
        0 < b <= 0x10_0000_0000_0000,
{
    proof {
        lemma_format_bounds(f);
    }
    power_of_two(f.precision - 1) as u64
}

/// The magnitude of infinity, as an integer.
pub fn infinity_of(f: Format) -> (mag: u64)
    requires
        f.wf(),
    ensures
        mag == f.infinity(),
{
    proof {
        lemma_format_bounds(f);
    }
    (f.top as u64 + 1) * binade_of(f)
}

/// The NaN an operation without a result gives.
pub fn nan(f: Format) -> (r: Num)
    requires
        f.wf(),
    ensures
        r == nan_spec(f),
        r.is_nan(f),
{
    proof {
        lemma_format_bounds(f);
    }
    Num { neg: false, mag: infinity_of(f) + binade_of(f) / 2 }
}

/// The significand and the scale of a finite magnitude.
pub fn split(f: Format, mag: u64) -> (r: (u64, u32))
    requires
        f.wf(),
        mag < f.infinity(),
    ensures
        r.0 == f.significand(mag as nat),
        r.1 == f.scale(mag as nat),
        r.0 < pow2(f.precision as nat),
        r.1 < f.top,
        r.0 < 0x20_0000_0000_0000,
        r.1 > 0 ==> r.0 >= f.binade(),
        f.units(mag as nat) == r.0 * pow2(r.1 as nat),
{
    let b = binade_of(f);
    proof {
        lemma_format_bounds(f);
        lemma_parts(f, mag as nat);
    }
    let field: u64 = mag / b;
    if field == 0 {
        (mag, 0)
    } else {
        (mag % b + b, (field - 1) as u32)
    }
}

/// Where the larger scale swallows the smaller one.
proof fn lemma_sum_swallowed(f: Format, a: Num, b: Num)
    requires
        f.wf(),
        a.is_finite(f),
        b.is_finite(f),
        f.scale(a.mag as nat) > f.scale(b.mag as nat) + 70,
    ensures
        sum(f, a, b) == a,
        sum(f, b, a) == a,
{
    lemma_format_bounds(f);
    let (am, bm) = (a.mag as nat, b.mag as nat);
    lemma_parts(f, am);
    lemma_parts(f, bm);
    let (ka, kb) = (f.scale(am), f.scale(bm));
    let (ua, ub) = (f.units(am), f.units(bm));
    let pa = pow2(ka);
    let pb = pow2(kb);
    lemma_pow2_pos(ka);
    lemma_pow2_pos(kb);
    let gap = (ka - kb) as nat;
    lemma_pow2_adds(kb, gap);
    lemma_pow2_strictly_increases(70, gap);
    lemma_pow2_adds(64, 6);
    lemma2_to64();
    let pg = pow2(gap);
    let sb = f.significand(bm);
    assert(4 * ub < pa) by (nonlinear_arith)
        requires
            ub == sb * pb,
            sb < 0x20_0000_0000_0000,
            pa == pb * pg,
            pg > 0x80_0000_0000_0000,
            pb > 0,
    ;
    let sa = f.significand(am);
    assert(ua >= pa) by (nonlinear_arith)
        requires
            ua == sa * pa,
            sa >= 1,
    ;
    let s = a.units(f) + b.units(f);
    if a.neg {
        lemma_rounded_near(f, am, (-s) as nat);
    } else {
        lemma_rounded_near(f, am, s as nat);
    }
}

/// The sum of two finite numbers, the first at no smaller scale.
fn sum_ordered(f: Format, a: Num, b: Num) -> (r: Num)
    requires
        f.wf(),
        a.is_finite(f),
        b.is_finite(f),
        f.scale(a.mag as nat) >= f.scale(b.mag as nat),
    ensures
        r == sum(f, a, b),
        r == sum(f, b, a),
{
    let (ma, ka) = split(f, a.mag);
    let (mb, kb) = split(f, b.mag);
    let gap = ka - kb;
    if gap > 70 {
        proof {
            lemma_sum_swallowed(f, a, b);
        }
        return a;
    }
    let up = power_of_two(gap);
    let ghost pb = pow2(kb as nat);
    proof {
        lemma_pow2_adds(kb as nat, gap as nat);
        lemma_pow2_pos(kb as nat);
        lemma2_to64();
        lemma2_to64_rest();
        lemma_pow2_adds(64, 6);
        lemma_pow2_adds(64, 62);
        assert(pow2(70) == 0x1_0000_0000_0000_0000 * 64);
        assert(pow2(126) == 0x1_0000_0000_0000_0000 * 0x4000_0000_0000_0000);
        if gap < 70 {
            lemma_pow2_strictly_increases(gap as nat, 70);
        }
        assert(ma * up <= 0x20_0000_0000_0000 * 0x40_0000_0000_0000_0000u128) by (nonlinear_arith)
            requires
                0 <= ma <= 0x20_0000_0000_0000,
                0 <= up <= 0x40_0000_0000_0000_0000u128,
        ;
    }
    let x: u128 = (ma as u128) * up;
    let y: u128 = mb as u128;
    proof {
        assert(f.units(a.mag as nat) == x * pb) by (nonlinear_arith)
            requires
                f.units(a.mag as nat) == ma * pow2(ka as nat),
                pow2(ka as nat) == pb * up,
                x == ma * up,
        ;
        assert(f.units(b.mag as nat) == y * pb);
    }
    if a.neg == b.neg {
        let total: u128 = x + y;
        proof {
            assert(total * pb == x * pb + y * pb) by (nonlinear_arith)
                requires
                    total == x + y,
            ;
            if total == 0 {
                lemma_mul_basics(pb as int);
                assert(0 * pb == 0);
            } else {
                assert(total * pb > 0) by (nonlinear_arith)
                    requires
                        total > 0,
                        pb > 0,
                ;
            }
        }
        let mag = round_scaled(f, total, kb as i32);
        proof {
            if total == 0 {
                lemma_rounded_zero(f, 1);
            }
        }
        Num { neg: a.neg, mag }
    } else {
        if x == y {
            Num { neg: false, mag: 0 }
        } else if x > y {
            let total: u128 = x - y;
            proof {
                assert(total * pb == x * pb - y * pb) by (nonlinear_arith)
                    requires
                        total == x - y,
                ;
                assert(total * pb > 0) by (nonlinear_arith)
                    requires
                        total > 0,
                        pb > 0,
                ;
            }
            let mag = round_scaled(f, total, kb as i32);
            Num { neg: a.neg, mag }
        } else {
            let total: u128 = y - x;
            proof {
                assert(total * pb == y * pb - x * pb) by (nonlinear_arith)
                    requires
                        total == y - x,
                ;
                assert(total * pb > 0) by (nonlinear_arith)
                    requires
                        total > 0,
                        pb > 0,
                ;
            }
            let mag = round_scaled(f, total, kb as i32);
            Num { neg: b.neg, mag }
        }
    }
}

/// Nothing rounds to zero.
pub proof fn lemma_rounded_zero(f: Format, d: nat)
    requires
        f.wf(),
        d > 0,
    ensures
        rounding::rounded(f, 0, d) == 0,
{
    lemma_pow2_pos(f.precision as nat);
    assert(0 < d * pow2(f.precision as nat)) by (nonlinear_arith)
        requires
            d > 0,
            pow2(f.precision as nat) > 0,
    ;
    rounding::lemma_half_even_nearest(0, d, 0);
    lemma_mul_basics(f.binade() as int);
    assert(0 * f.binade() == 0);
}

/// Adds.
pub fn add_nums(f: Format, a: Num, b: Num) -> (r: Num)
    requires
        f.wf(),
    ensures
        r == sum(f, a, b),
{
    let inf = infinity_of(f);
    if a.mag > inf || b.mag > inf {
        nan(f)
    } else if a.mag == inf {
        if b.mag == inf && a.neg != b.neg {
            nan(f)
        } else {
            a
        }
    } else if b.mag == inf {
        b
    } else {
        let (_ma, ka) = split(f, a.mag);
        let (_mb, kb) = split(f, b.mag);
        if ka >= kb {
            sum_ordered(f, a, b)
        } else {
            sum_ordered(f, b, a)
        }
    }
}

/// Multiplies.
pub fn multiply_nums(f: Format, a: Num, b: Num) -> (r: Num)
    requires
        f.wf(),
    ensures
        r == product(f, a, b),
{
    let inf = infinity_of(f);
    let neg = a.neg != b.neg;
    if a.mag > inf || b.mag > inf {
        nan(f)
    } else if a.mag == inf || b.mag == inf {
        if a.mag == 0 || b.mag == 0 {
            nan(f)
        } else {
            Num { neg, mag: inf }
        }
    } else {
        let (ma, ka) = split(f, a.mag);
        let (mb, kb) = split(f, b.mag);
        assert(ma * mb < 0x20_0000_0000_0000 * 0x20_0000_0000_0000) by (nonlinear_arith)
            requires
                0 <= ma < 0x20_0000_0000_0000,
                0 <= mb < 0x20_0000_0000_0000,
        ;
        proof {
            lemma2_to64();
            lemma2_to64_rest();
            lemma_pow2_adds(64, 62);
            assert(pow2(126) == 0x1_0000_0000_0000_0000 * 0x4000_0000_0000_0000);
        }
        let m: u128 = (ma as u128) * (mb as u128);
        let s: i32 = ka as i32 + kb as i32 - f.unit as i32;
        let mag = round_scaled(f, m, s);
        proof {
            let (pa, pb) = (pow2(ka as nat), pow2(kb as nat));
            lemma_pow2_adds(ka as nat, kb as nat);
            let e = (ka + kb) as nat;
            assert((ma * pa) * (mb * pb) == m * (pa * pb)) by (nonlinear_arith)
                requires
                    m == ma * mb,
            ;
            lemma_pow2_pos(f.unit as nat);
            lemma_pow2_pos(e);
            if s >= 0 {
                lemma_pow2_adds(s as nat, f.unit as nat);
                assert(m * (pow2(s as nat) * pow2(f.unit as nat)) == (m * pow2(s as nat)) * pow2(
                    f.unit as nat,
                )) by (nonlinear_arith);
                lemma_mul_basics(pow2(f.unit as nat) as int);
                assert(1 * pow2(f.unit as nat) == pow2(f.unit as nat));
                lemma_rounded_scaled(f, m as nat * pow2(s as nat), 1, pow2(f.unit as nat), 0);
            } else {
                lemma_pow2_adds((-s) as nat, e);
                lemma_pow2_pos((-s) as nat);
                lemma_rounded_scaled(f, m as nat, pow2((-s) as nat), pow2(e), 0);
            }
        }
        Num { neg, mag }
    }
}

/// Divides.
pub fn divide_nums(f: Format, a: Num, b: Num) -> (r: Num)
    requires
        f.wf(),
    ensures
        r == quotient(f, a, b),
{
    let inf = infinity_of(f);
    let neg = a.neg != b.neg;
    if a.mag > inf || b.mag > inf {
        nan(f)
    } else if a.mag == inf {
        if b.mag == inf {
            nan(f)
        } else {
            Num { neg, mag: inf }
        }
    } else if b.mag == inf {
        Num { neg, mag: 0 }
    } else if b.mag == 0 {
        if a.mag == 0 {
            nan(f)
        } else {
            Num { neg, mag: inf }
        }
    } else {
        let (ma, ka) = split(f, a.mag);
        let (mb, kb) = split(f, b.mag);
        let ghost (am, bm) = (a.mag as nat, b.mag as nat);
        proof {
            lemma_parts(f, bm);
            lemma_pow2_pos(kb as nat);
            assert(mb > 0) by {
                if mb == 0 {
                    lemma_format_bounds(f);
                    lemma_mul_basics(f.binade() as int);
                    assert(0 * f.binade() == 0);
                }
            }
            assert(f.units(bm) > 0) by (nonlinear_arith)
                requires
                    f.units(bm) == mb * pow2(kb as nat),
                    mb > 0,
                    pow2(kb as nat) > 0,
            ;
        }
        if ma == 0 {
            proof {
                lemma_mul_basics(pow2(ka as nat) as int);
                assert(0 * pow2(ka as nat) == 0);
                lemma_mul_basics(pow2(f.unit as nat) as int);
                assert(0 * pow2(f.unit as nat) == 0);
                lemma_rounded_zero(f, f.units(bm));
            }
            return Num { neg, mag: 0 };
        }
        let t = top_bit(ma as u128);
        proof {
            lemma2_to64();
            if t >= 53 {
                if t > 53 {
                    lemma_pow2_strictly_increases(53, t as nat);
                }
                lemma2_to64_rest();
            }
        }
        let up: u32 = 122 - t;
        let factor = power_of_two(up);
        proof {
            lemma_pow2_adds(t as nat, up as nat);
            lemma_pow2_adds((t + 1) as nat, up as nat);
            lemma_pow2_pos(up as nat);
            assert(pow2(122) <= ma * factor < pow2(123)) by (nonlinear_arith)
                requires
                    pow2(t as nat) <= ma < pow2((t + 1) as nat),
                    pow2(122) == pow2(t as nat) * factor,
                    pow2(123) == pow2((t + 1) as nat) * factor,
                    factor > 0,
            ;
            lemma_pow2_adds(64, 58);
            lemma_pow2_adds(64, 59);
            lemma_pow2_adds(64, 62);
            lemma2_to64_rest();
            assert(pow2(123) == 0x1_0000_0000_0000_0000 * 0x800_0000_0000_0000);
        }
        let x: u128 = (ma as u128) * factor;
        let y: u128 = mb as u128;
        let whole: u128 = x / y;
        let rest: u128 = x % y;
        proof {
            lemma_fundamental_div_mod(x as int, y as int);
            lemma_mod_bound(x as int, y as int);
            assert(whole >= pow2(60)) by (nonlinear_arith)
                requires
                    x == y * whole + rest,
                    rest < y,
                    0 < y < 0x20_0000_0000_0000,
                    x >= 0x1_0000_0000_0000_0000 * 0x400_0000_0000_0000,
                    pow2(60) == 0x1000_0000_0000_0000,
            ;
            assert(whole <= x) by (nonlinear_arith)
                requires
                    x == y * whole + rest,
                    rest >= 0,
                    y >= 1,
                    whole >= 0,
            ;
        }
        let m: u128 = if rest > 0 {
            2 * whole + 1
        } else {
            2 * whole
        };
        let w: i32 = ka as i32 + f.unit as i32 - kb as i32 - up as i32;
        let mag = round_scaled(f, m, w - 1);
        proof {
            let n = x as nat;
            let d = y as nat;
            assert(m == sticky(n, d));
            lemma_rounded_sticky(f, n, d, w as int, 0);
            lemma_sticky_ratio(f, m as nat, w as int);
            lemma_true_ratio(f, ma as nat, ka as nat, d, kb as nat, up as nat);
        }
        Num { neg, mag }
    }
}

/// The sticky form at half the scale.
proof fn lemma_sticky_ratio(f: Format, m: nat, w: int)
    requires
        f.wf(),
    ensures
        rounding::rounded_from(
            f,
            rounding::scaled_num(m, w),
            2 * (rounding::scaled_den(w) * pow2(0)),
            0,
        ) == rounding::rounded(f, rounding::scaled_num(m, w - 1), rounding::scaled_den(w - 1)),
{
    lemma2_to64();
    lemma_mul_basics(rounding::scaled_den(w) as int);
    if w >= 1 {
        lemma_pow2_unfold(w as nat);
        let h = pow2((w - 1) as nat);
        assert(m * (2 * h) == (m * h) * 2) by (nonlinear_arith);
        lemma_rounded_scaled(f, m * h, 1, 2, 0);
    } else if w == 0 {
        assert(m * pow2(0) == m);
        lemma_pow2_unfold(1);
    } else {
        lemma_pow2_unfold((1 - w) as nat);
    }
}

/// The quotient of two finite values, as the ratio divided out.
proof fn lemma_true_ratio(f: Format, ma: nat, ka: nat, mb: nat, kb: nat, up: nat)
    requires
        f.wf(),
        mb > 0,
        up <= 122,
    ensures
        ({
            let w = ka + f.unit - kb - up;
            rounding::rounded_from(
                f,
                rounding::scaled_num(ma * pow2(up), w),
                mb * (rounding::scaled_den(w) * pow2(0)),
                0,
            ) == rounding::rounded(f, (ma * pow2(ka)) * pow2(f.unit as nat), mb * pow2(kb))
        }),
{
    let w = ka + f.unit - kb - up;
    let u = f.unit as nat;
    lemma2_to64();
    lemma_mul_basics(rounding::scaled_den(w) as int);
    lemma_pow2_adds(ka, u);
    let x = ma * pow2(up);
    assert((ma * pow2(ka)) * pow2(u) == ma * pow2(ka + u)) by (nonlinear_arith)
        requires
            pow2(ka) * pow2(u) == pow2(ka + u),
    ;
    if w >= 0 {
        let pw = pow2(w as nat);
        lemma_pow2_adds(up, w as nat);
        lemma_pow2_adds((up + w) as nat, kb);
        lemma_pow2_pos(kb);
        assert((x * pw) * pow2(kb) == ma * (pow2(up) * pw * pow2(kb))) by (nonlinear_arith)
            requires
                x == ma * pow2(up),
        ;
        assert(up + w + kb == ka + u);
        lemma_mul_basics(mb as int);
        lemma_rounded_scaled(f, x * pw, mb, pow2(kb), 0);
    } else {
        let dw = pow2((-w) as nat);
        lemma_pow2_pos((-w) as nat);
        let c = (ka + u - up) as nat;
        lemma_pow2_pos(c);
        lemma_pow2_adds(up, c);
        lemma_pow2_adds((-w) as nat, c);
        assert(x * pow2(c) == ma * pow2(ka + u)) by (nonlinear_arith)
            requires
                x == ma * pow2(up),
                pow2(up) * pow2(c) == pow2(ka + u),
        ;
        assert((mb * dw) * pow2(c) == mb * pow2(kb)) by (nonlinear_arith)
            requires
                dw * pow2(c) == pow2(kb),
        ;
        assert(mb * dw > 0) by (nonlinear_arith)
            requires
                mb > 0,
                dw > 0,
        ;
        lemma_rounded_scaled(f, x, mb * dw, pow2(c), 0);
    }
}

// Integers.
/// The whole part of a finite magnitude.
pub open spec fn whole_part(f: Format, mag: nat) -> nat {
    f.units(mag) / pow2(f.unit as nat)
}

/// A finite magnitude as the nearest integer, a half up.
pub open spec fn nearest_whole(f: Format, mag: nat) -> nat {
    (2 * f.units(mag) + pow2(f.unit as nat)) / (2 * pow2(f.unit as nat))
}

/// The whole part of a number held to a range; NaN is zero.
pub open spec fn truncated(f: Format, a: Num, low: int, high: int) -> int {
    if a.is_nan(f) {
        0
    } else if a.is_infinite(f) {
        if a.neg {
            low
        } else {
            high
        }
    } else {
        held(a.neg, whole_part(f, a.mag as nat), low, high)
    }
}

/// The nearest integer to a number, a half away from zero, held to a
/// range; NaN is zero.
pub open spec fn rounded_off(f: Format, a: Num, low: int, high: int) -> int {
    if a.is_nan(f) {
        0
    } else if a.is_infinite(f) {
        if a.neg {
            low
        } else {
            high
        }
    } else {
        held(a.neg, nearest_whole(f, a.mag as nat), low, high)
    }
}

/// An integer by sign and size, held to a range.
pub open spec fn held(neg: bool, size: nat, low: int, high: int) -> int {
    let v = if neg {
        -(size as int)
    } else {
        size as int
    };
    if v < low {
        low
    } else if v > high {
        high
    } else {
        v
    }
}

/// The larger of two bounds stands: a size cut off at `2^64` is held
/// to the same value.
fn hold(neg: bool, size: u128, low: i64, high: i64, Ghost(full): Ghost<nat>) -> (v: i64)
    requires
        low <= 0 <= high,
        size == if full < 0x1_0000_0000_0000_0000 { full } else { 0x1_0000_0000_0000_0000 },
    ensures
        v == held(neg, full, low as int, high as int),
{
    if neg {
        if size > (-(low as i128)) as u128 {
            low
        } else {
            (-(size as i128)) as i64
        }
    } else {
        if size > high as u128 {
            high
        } else {
            size as i64
        }
    }
}

/// The whole part of a finite magnitude, or `2^64` where it is more.
fn whole_of(f: Format, mag: u64) -> (r: u128)
    requires
        f.wf(),
        mag < f.infinity(),
    ensures
        r == if whole_part(f, mag as nat) < 0x1_0000_0000_0000_0000 {
            whole_part(f, mag as nat)
        } else {
            0x1_0000_0000_0000_0000
        },
{
    let (m, k) = split(f, mag);
    let ghost u = pow2(f.unit as nat);
    proof {
        lemma_pow2_pos(f.unit as nat);
        lemma_format_bounds(f);
        lemma2_to64();
    }
    if k >= f.unit {
        let e = k - f.unit;
        proof {
            lemma_pow2_adds(e as nat, f.unit as nat);
            assert(m * (pow2(e as nat) * u) == (m * pow2(e as nat)) * u) by (nonlinear_arith);
            lemma_div_multiples_vanish((m * pow2(e as nat)) as int, u as int);
            lemma_mul_is_commutative((m * pow2(e as nat)) as int, u as int);
        }
        if e > 63 {
            proof {
                if e > 64 {
                    lemma_pow2_strictly_increases(64, e as nat);
                }
                assert(m * pow2(e as nat) >= pow2(e as nat)) by (nonlinear_arith)
                    requires
                        m >= 1,
                        pow2(e as nat) >= 0,
                ;
            }
            return 0x1_0000_0000_0000_0000;
        }
        let up = power_of_two(e);
        proof {
            lemma_pow2_strictly_increases(e as nat, 64);
            assert(m * up <= 0x20_0000_0000_0000 * 0x1_0000_0000_0000_0000) by (nonlinear_arith)
                requires
                    0 <= m <= 0x20_0000_0000_0000,
                    0 <= up <= 0x1_0000_0000_0000_0000,
            ;
        }
        let v: u128 = (m as u128) * up;
        if v < 0x1_0000_0000_0000_0000 {
            v
        } else {
            0x1_0000_0000_0000_0000
        }
    } else {
        let e = f.unit - k;
        proof {
            lemma_pow2_adds(e as nat, k as nat);
            lemma_pow2_pos(k as nat);
            lemma_pow2_pos(e as nat);
            let (pe, pk) = (pow2(e as nat), pow2(k as nat));
            lemma_fundamental_div_mod(m as int, pe as int);
            lemma_mod_bound(m as int, pe as int);
            let (q, r) = (m as int / pe as int, m as int % pe as int);
            assert(m * pk == q * (pe * pk) + r * pk) by (nonlinear_arith)
                requires
                    m == pe * q + r,
            ;
            assert(0 <= r * pk < pe * pk) by (nonlinear_arith)
                requires
                    0 <= r < pe,
                    pk > 0,
            ;
            lemma_fundamental_div_mod_converse(m * pk, (pe * pk) as int, q, r * pk);
            assert(whole_part(f, mag as nat) == q);
        }
        if e > 63 {
            proof {
                if e > 64 {
                    lemma_pow2_strictly_increases(64, e as nat);
                }
                lemma_basic_div(m as int, pow2(e as nat) as int);
            }
            return 0;
        }
        let down = power_of_two(e);
        (m as u128) / down
    }
}

/// The nearest integer to a finite magnitude, or `2^64` where it is
/// more.
fn nearest_whole_of(f: Format, mag: u64) -> (r: u128)
    requires
        f.wf(),
        mag < f.infinity(),
    ensures
        r == if nearest_whole(f, mag as nat) < 0x1_0000_0000_0000_0000 {
            nearest_whole(f, mag as nat)
        } else {
            0x1_0000_0000_0000_0000
        },
{
    let (m, k) = split(f, mag);
    let ghost u = pow2(f.unit as nat);
    proof {
        lemma_pow2_pos(f.unit as nat);
        lemma_format_bounds(f);
        lemma2_to64();
    }
    if k >= f.unit {
        let e = k - f.unit;
        let r = whole_of(f, mag);
        proof {
            lemma_pow2_adds(e as nat, f.unit as nat);
            let w = (m * pow2(e as nat)) as int;
            assert(m * (pow2(e as nat) * u) == w * u) by (nonlinear_arith)
                requires
                    w == m * pow2(e as nat),
            ;
            lemma_div_multiples_vanish(w, u as int);
            lemma_mul_is_commutative(w, u as int);
            assert(2 * (w * u) + u == w * (2 * u) + u) by (nonlinear_arith);
            lemma_fundamental_div_mod_converse(2 * (w * u) + u, (2 * u) as int, w, u as int);
        }
        r
    } else {
        let e = f.unit - k;
        let ghost pe = pow2(e as nat);
        proof {
            lemma_pow2_adds(e as nat, k as nat);
            lemma_pow2_pos(k as nat);
            lemma_pow2_pos(e as nat);
            let pk = pow2(k as nat);
            // Both parts share the scale.
            let n = 2 * m + pe;
            lemma_fundamental_div_mod(n as int, (2 * pe) as int);
            lemma_mod_bound(n as int, (2 * pe) as int);
            let (q, r) = (n as int / (2 * pe) as int, n as int % (2 * pe) as int);
            assert(2 * (m * pk) + pe * pk == q * (2 * (pe * pk)) + r * pk) by (nonlinear_arith)
                requires
                    n == (2 * pe) * q + r,
                    n == 2 * m + pe,
            ;
            assert(0 <= r * pk < 2 * (pe * pk)) by (nonlinear_arith)
                requires
                    0 <= r < 2 * pe,
                    pk > 0,
            ;
            lemma_fundamental_div_mod_converse(
                2 * (m * pk) + pe * pk,
                (2 * (pe * pk)) as int,
                q,
                r * pk,
            );
            assert(nearest_whole(f, mag as nat) == q);
        }
        if e > 63 {
            proof {
                if e > 64 {
                    lemma_pow2_strictly_increases(64, e as nat);
                }
                lemma_basic_div((2 * m + pe) as int, (2 * pe) as int);
            }
            return 0;
        }
        proof {
            lemma2_to64_rest();
            if e < 63 {
                lemma_pow2_strictly_increases(e as nat, 63);
            }
            lemma_div_nonincreasing((2 * m + pe) as int, (2 * pe) as int);
        }
        let down = power_of_two(e);
        (2 * (m as u128) + down) / (2 * down)
    }
}

/// The whole part of a number held to a range; NaN is zero.
pub fn truncate_num(f: Format, a: Num, low: i64, high: i64) -> (v: i64)
    requires
        f.wf(),
        low <= 0 <= high,
    ensures
        v == truncated(f, a, low as int, high as int),
{
    let inf = infinity_of(f);
    if a.mag > inf {
        0
    } else if a.mag == inf {
        if a.neg {
            low
        } else {
            high
        }
    } else {
        let size = whole_of(f, a.mag);
        hold(a.neg, size, low, high, Ghost(whole_part(f, a.mag as nat)))
    }
}

/// The nearest integer to a number, a half away from zero, held to a
/// range; NaN is zero.
pub fn round_num(f: Format, a: Num, low: i64, high: i64) -> (v: i64)
    requires
        f.wf(),
        low <= 0 <= high,
    ensures
        v == rounded_off(f, a, low as int, high as int),
{
    let inf = infinity_of(f);
    if a.mag > inf {
        0
    } else if a.mag == inf {
        if a.neg {
            low
        } else {
            high
        }
    } else {
        let size = nearest_whole_of(f, a.mag);
        hold(a.neg, size, low, high, Ghost(nearest_whole(f, a.mag as nat)))
    }
}

/// The number nearest to an integer.
pub open spec fn of_integer(f: Format, v: int) -> Num {
    if v < 0 {
        nearest(f, true, ((-v) * pow2(f.unit as nat)) as nat, 1)
    } else {
        nearest(f, false, (v * pow2(f.unit as nat)) as nat, 1)
    }
}

/// The number nearest to an integer.
pub fn integer_num(f: Format, v: i128) -> (r: Num)
    requires
        f.wf(),
        -0x1_0000_0000_0000_0000 < v < 0x1_0000_0000_0000_0000,
    ensures
        r == of_integer(f, v as int),
{
    let size: u128 = if v < 0 {
        (-v) as u128
    } else {
        v as u128
    };
    proof {
        lemma2_to64();
        lemma_pow2_strictly_increases(64, 126);
    }
    let mag = round_scaled(f, size, f.unit as i32);
    Num { neg: v < 0, mag }
}

// Rounding and order.
/// A ratio at least as large as a binade rounds past it.
proof fn lemma_rounded_past(f: Format, n: nat, d: nat, k: nat)
    requires
        f.wf(),
        d > 0,
        n >= d * f.binade(),
        k <= f.top,
    ensures
        rounding::rounded_from(f, n, d, k) >= k * f.binade() + f.binade(),
    decreases f.top - k,
{
    lemma_format_bounds(f);
    let b = f.binade();
    let p = pow2(f.precision as nat);
    assert((k + 1) * b == k * b + b) by (nonlinear_arith);
    if k < f.top {
        if n < d * p {
            lemma_fundamental_div_mod(n as int, d as int);
            lemma_mod_bound(n as int, d as int);
            assert(n / d >= b) by (nonlinear_arith)
                requires
                    n == d * (n / d) + n % d,
                    n % d < d,
                    n >= d * b,
                    d > 0,
            ;
        } else {
            assert((2 * d) * b == d * p) by (nonlinear_arith)
                requires
                    p == 2 * b,
            ;
            lemma_rounded_past(f, n, 2 * d, k + 1);
        }
    } else {
        assert((f.top + 1) * b == f.top * b + b) by (nonlinear_arith);
    }
}

/// Rounding keeps order: of two ratios, the one that is no larger rounds
/// to a magnitude that is no larger.
pub proof fn lemma_rounded_monotone(f: Format, n1: nat, d1: nat, n2: nat, d2: nat, k: nat)
    requires
        f.wf(),
        d1 > 0,
        d2 > 0,
        n1 * d2 <= n2 * d1,
        k <= f.top,
    ensures
        rounding::rounded_from(f, n1, d1, k) <= rounding::rounded_from(f, n2, d2, k),
    decreases f.top - k,
{
    lemma_format_bounds(f);
    let b = f.binade();
    let p = pow2(f.precision as nat);
    assert((k + 1) * b == k * b + b) by (nonlinear_arith);
    if k < f.top {
        if n2 < d2 * p {
            assert(n1 < d1 * p) by (nonlinear_arith)
                requires
                    n1 * d2 <= n2 * d1,
                    n2 < d2 * p,
                    d1 > 0,
                    d2 > 0,
            ;
            rounding::lemma_half_even_scaled(n1, d1, d2);
            rounding::lemma_half_even_scaled(n2, d2, d1);
            assert(d1 * d2 > 0 && d2 * d1 == d1 * d2) by (nonlinear_arith)
                requires
                    d1 > 0,
                    d2 > 0,
            ;
            rounding::lemma_half_even_monotone(n1 * d2, n2 * d1, d1 * d2);
        } else if n1 < d1 * p {
            lemma_fundamental_div_mod(n1 as int, d1 as int);
            lemma_mod_bound(n1 as int, d1 as int);
            assert(n1 / d1 < p) by (nonlinear_arith)
                requires
                    n1 == d1 * (n1 / d1) + n1 % d1,
                    0 <= n1 % d1,
                    n1 < d1 * p,
                    d1 > 0,
            ;
            assert((2 * d2) * b == d2 * p) by (nonlinear_arith)
                requires
                    p == 2 * b,
            ;
            lemma_rounded_past(f, n2, 2 * d2, k + 1);
        } else {
            assert(n1 * (2 * d2) <= n2 * (2 * d1)) by (nonlinear_arith)
                requires
                    n1 * d2 <= n2 * d1,
            ;
            lemma_rounded_monotone(f, n1, 2 * d1, n2, 2 * d2, k + 1);
        }
    }
}

// Order.
/// Among finite magnitudes, the larger stands for the larger value.
pub proof fn lemma_units_increase(f: Format, a: nat, b: nat)
    requires
        f.wf(),
        a < b < f.infinity(),
    ensures
        f.units(a) < f.units(b),
{
    lemma_format_bounds(f);
    lemma_parts(f, a);
    lemma_parts(f, b);
    let (ka, kb) = (f.scale(a), f.scale(b));
    let (ma, mb) = (f.significand(a), f.significand(b));
    let bin = f.binade();
    lemma_pow2_pos(ka);
    if ka == kb {
        assert(ma * pow2(ka) < mb * pow2(ka)) by (nonlinear_arith)
            requires
                ma < mb,
                pow2(ka) > 0,
        ;
    } else if ka < kb {
        let gap = (kb - ka) as nat;
        lemma_pow2_adds(ka, gap);
        lemma_pow2_unfold(gap);
        lemma_pow2_pos((gap - 1) as nat);
        let pa = pow2(ka);
        let pg = pow2(gap);
        assert(ma * pa < mb * (pa * pg)) by (nonlinear_arith)
            requires
                ma < 2 * bin,
                mb >= bin,
                pg >= 2,
                pa > 0,
        ;
    } else {
        assert(ka * bin + ma >= kb * bin + mb) by (nonlinear_arith)
            requires
                ka >= kb + 1,
                ma >= bin,
                mb < 2 * bin,
                bin > 0,
        ;
    }
}

/// Zero stands for nothing.
pub proof fn lemma_units_zero(f: Format)
    requires
        f.wf(),
    ensures
        f.units(0) == 0,
{
    lemma_format_bounds(f);
    lemma_basic_div(0, f.binade() as int);
    lemma_mul_basics(pow2(f.scale(0)) as int);
    assert(0 * pow2(f.scale(0)) == 0);
}

// Results stay within the format.
/// No ratio rounds past infinity.
pub proof fn lemma_rounded_bound(f: Format, n: nat, d: nat, k: nat)
    requires
        f.wf(),
        d > 0,
    ensures
        rounding::rounded_from(f, n, d, k) <= f.infinity(),
    decreases f.top - k,
{
    lemma_format_bounds(f);
    if k < f.top {
        let p = pow2(f.precision as nat);
        if n < d * p {
            lemma_fundamental_div_mod(n as int, d as int);
            lemma_mod_bound(n as int, d as int);
            let q = n / d;
            assert(q < p) by (nonlinear_arith)
                requires
                    n == d * q + n % d,
                    n % d >= 0,
                    n < d * p,
                    d > 0,
            ;
            let b = f.binade();
            assert(k * b + 2 * b <= (f.top + 1) * b) by (nonlinear_arith)
                requires
                    k <= f.top - 1,
            ;
        } else {
            lemma_rounded_bound(f, n, 2 * d, k + 1);
        }
    }
}

pub proof fn lemma_sum_bounds(f: Format, a: Num, b: Num)
    requires
        f.wf(),
        a.mag < 0x8000_0000_0000_0000,
        b.mag < 0x8000_0000_0000_0000,
    ensures
        sum(f, a, b).mag < 0x8000_0000_0000_0000,
        sum(f, a, b).mag <= f.infinity() || sum(f, a, b) == nan_spec(f),
{
    lemma_format_bounds(f);
    let s = a.units(f) + b.units(f);
    if s > 0 {
        lemma_rounded_bound(f, s as nat, 1, 0);
    } else {
        lemma_rounded_bound(f, (-s) as nat, 1, 0);
    }
}

pub proof fn lemma_product_bounds(f: Format, a: Num, b: Num)
    requires
        f.wf(),
    ensures
        product(f, a, b).mag < 0x8000_0000_0000_0000,
        product(f, a, b).mag <= f.infinity() || product(f, a, b) == nan_spec(f),
{
    lemma_format_bounds(f);
    lemma_pow2_pos(f.unit as nat);
    lemma_rounded_bound(
        f,
        f.units(a.mag as nat) * f.units(b.mag as nat),
        pow2(f.unit as nat),
        0,
    );
}

pub proof fn lemma_quotient_bounds(f: Format, a: Num, b: Num)
    requires
        f.wf(),
    ensures
        quotient(f, a, b).mag < 0x8000_0000_0000_0000,
        quotient(f, a, b).mag <= f.infinity() || quotient(f, a, b) == nan_spec(f),
{
    lemma_format_bounds(f);
    if b.is_finite(f) && b.mag > 0 {
        lemma_units_zero(f);
        lemma_units_increase(f, 0, b.mag as nat);
        lemma_rounded_bound(
            f,
            f.units(a.mag as nat) * pow2(f.unit as nat),
            f.units(b.mag as nat),
            0,
        );
    }
}

pub proof fn lemma_integer_bounds(f: Format, v: int)
    requires
        f.wf(),
    ensures
        of_integer(f, v).mag <= f.infinity() < 0x8000_0000_0000_0000,
{
    lemma_format_bounds(f);
    if v < 0 {
        lemma_rounded_bound(f, ((-v) * pow2(f.unit as nat)) as nat, 1, 0);
    } else {
        lemma_rounded_bound(f, (v * pow2(f.unit as nat)) as nat, 1, 0);
    }
}

} // verus!
