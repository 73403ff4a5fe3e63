//! Rounding of exact ratios to a binary floating-point format.
//!
//! A magnitude of a format is the bit pattern without its sign. The
//! value it stands for is `significand * 2^scale` units, where the
//! unit is the smallest positive magnitude. `rounded` takes an exact
//! ratio of units to the nearest magnitude, ties to the even one,
//! which is what every IEEE 754 operation does with its exact result.
use vstd::arithmetic::div_mod::*;
use vstd::arithmetic::mul::*;
use vstd::arithmetic::power2::*;
use vstd::prelude::*;

verus! {

/// A binary interchange format: bits of significand with the hidden
/// one, the exponent field of the largest finite magnitudes, and the
/// power of two that one is above the unit.
#[derive(Clone, Copy, Debug, PartialEq, Eq, Structural)]
pub struct Format {
    pub precision: u32,
    pub top: u32,
    pub unit: u32,
}

/// binary64, the double.
pub open spec fn binary64_spec() -> Format {
    Format { precision: 53, top: 2046, unit: 1074 }
}

/// binary32, the single.
pub open spec fn binary32_spec() -> Format {
    Format { precision: 24, top: 254, unit: 149 }
}

/// The format of a double.
#[verifier::when_used_as_spec(binary64_spec)]
pub fn binary64() -> (f: Format)
    ensures
        f == binary64_spec(),
{
    Format { precision: 53, top: 2046, unit: 1074 }
}

/// The format of a single.
#[verifier::when_used_as_spec(binary32_spec)]
pub fn binary32() -> (f: Format)
    ensures
        f == binary32_spec(),
{
    Format { precision: 24, top: 254, unit: 149 }
}

impl Format {
    /// One of the two formats.
    pub open spec fn wf(self) -> bool {
        self == binary64() || self == binary32()
    }

    /// Magnitudes per exponent field.
    pub open spec fn binade(self) -> nat {
        pow2((self.precision - 1) as nat)
    }

    /// The magnitude of infinity, above every finite one. What lies
    /// above it is not a number.
    pub open spec fn infinity(self) -> nat {
        ((self.top + 1) * self.binade()) as nat
    }

    /// The exponent field of a magnitude.
    pub open spec fn field(self, mag: nat) -> nat {
        mag / self.binade()
    }

    /// The significand of a finite magnitude, with its hidden one.
    pub open spec fn significand(self, mag: nat) -> nat {
        if self.field(mag) == 0 {
            mag
        } else {
            mag % self.binade() + self.binade()
        }
    }

    /// The power of two a finite magnitude's significand is scaled by.
    pub open spec fn scale(self, mag: nat) -> nat {
        if self.field(mag) == 0 {
            0
        } else {
            (self.field(mag) - 1) as nat
        }
    }

    /// The value of a finite magnitude, in units.
    pub open spec fn units(self, mag: nat) -> nat {
        self.significand(mag) * pow2(self.scale(mag))
    }
}

/// `n / d` as the nearest integer, a tie to the even one.
pub open spec fn half_even(n: nat, d: nat) -> nat {
    let q = n / d;
    let r = n % d;
    if 2 * r < d || (2 * r == d && q % 2 == 0) {
        q
    } else {
        q + 1
    }
}

/// The magnitude nearest to `n / d` units, when `n / d` has already
/// been found to be too large for every scale under `k` and `d` has
/// been scaled by `2^k`.
pub open spec fn rounded_from(f: Format, n: nat, d: nat, k: nat) -> nat
    decreases f.top - k,
{
    if k >= f.top {
        f.infinity()
    } else if n < d * pow2(f.precision as nat) {
        k * f.binade() + half_even(n, d)
    } else {
        rounded_from(f, n, 2 * d, k + 1)
    }
}

/// The magnitude nearest to `n / d` units: the smallest scale at which
/// the ratio fits the precision, and the ratio rounded to an integer
/// at that scale, ties to even. Past the largest scale, infinity.
pub open spec fn rounded(f: Format, n: nat, d: nat) -> nat {
    rounded_from(f, n, d, 0)
}

// Facts about rounding a ratio to an integer.
/// An integer within half of `n / d` is what it rounds to.
pub proof fn lemma_half_even_nearest(n: nat, d: nat, q: nat)
    requires
        d > 0,
        2 * (n - q * d) < d,
        2 * (q * d - n) < d,
    ensures
        half_even(n, d) == q,
{
    let a = n / d;
    let r = n % d;
    lemma_fundamental_div_mod(n as int, d as int);
    lemma_mod_bound(n as int, d as int);
    assert(n == d * a + r);
    if n >= q * d {
        lemma_fundamental_div_mod_converse(n as int, d as int, q as int, n - q * d);
    } else {
        assert(n == (q - 1) * d + (n - (q - 1) * d)) by (nonlinear_arith);
        assert((q - 1) * d == q * d - d) by (nonlinear_arith);
        lemma_fundamental_div_mod_converse(n as int, d as int, q - 1, n - (q - 1) * d);
    }
}

/// A common factor does not matter.
pub proof fn lemma_half_even_scaled(n: nat, d: nat, c: nat)
    requires
        d > 0,
        c > 0,
    ensures
        half_even(n * c, d * c) == half_even(n, d),
{
    let q = n / d;
    let r = n % d;
    lemma_fundamental_div_mod(n as int, d as int);
    lemma_mod_bound(n as int, d as int);
    assert(n * c == q * (d * c) + r * c) by (nonlinear_arith)
        requires
            n == d * q + r,
    ;
    assert(0 <= r * c < d * c) by (nonlinear_arith)
        requires
            0 <= r < d,
            c > 0,
    ;
    lemma_fundamental_div_mod_converse((n * c) as int, (d * c) as int, q as int, (r * c) as int);
    assert((2 * r < d) == (2 * (r * c) < d * c) && (2 * r == d) == (2 * (r * c) == d * c))
        by (nonlinear_arith)
        requires
            c > 0,
    ;
}

/// An integer rounds to itself.
pub proof fn lemma_half_even_exact(q: nat, d: nat)
    requires
        d > 0,
    ensures
        half_even(q * d, d) == q,
{
    lemma_half_even_nearest(q * d, d, q);
}

/// Rounding to an integer keeps order.
pub proof fn lemma_half_even_monotone(n1: nat, n2: nat, d: nat)
    requires
        d > 0,
        n1 <= n2,
    ensures
        half_even(n1, d) <= half_even(n2, d),
{
    lemma_fundamental_div_mod(n1 as int, d as int);
    lemma_mod_bound(n1 as int, d as int);
    lemma_fundamental_div_mod(n2 as int, d as int);
    lemma_mod_bound(n2 as int, d as int);
    lemma_div_is_ordered(n1 as int, n2 as int, d as int);
    let (q1, q2) = (n1 / d, n2 / d);
    if q1 == q2 {
        assert(d * q1 == d * q2);
        assert(n1 % d <= n2 % d);
    }
}

// Facts about the scale a ratio is rounded at.
/// The scale `k` is the one a ratio is rounded at when the ratio fits
/// there and does not fit one below.
pub proof fn lemma_rounded_at(f: Format, n: nat, d: nat, j: nat, k: nat)
    requires
        f.wf(),
        d > 0,
        j <= k < f.top,
        n < d * pow2((f.precision + k - j) as nat),
        k == j || n >= d * pow2((f.precision + k - j - 1) as nat),
    ensures
        rounded_from(f, n, d, j) == k * f.binade() + half_even(n, d * pow2((k - j) as nat)),
    decreases k - j,
{
    if j == k {
        lemma2_to64();
        assert(d * pow2(0) == d) by (nonlinear_arith)
            requires
                pow2(0) == 1,
        ;
    } else {
        let e = (f.precision + k - j - 1) as nat;
        lemma_pow2_unfold((e + 1) as nat);
        assert(d * pow2((e + 1) as nat) == (2 * d) * pow2(e)) by (nonlinear_arith)
            requires
                pow2((e + 1) as nat) == 2 * pow2(e),
        ;
        if e > f.precision {
            lemma_pow2_strictly_increases(f.precision as nat, e);
        }
        assert(d * pow2(f.precision as nat) <= d * pow2(e)) by (nonlinear_arith)
            requires
                pow2(f.precision as nat) <= pow2(e),
        ;
        if k > j + 1 {
            let e1 = (e - 1) as nat;
            lemma_pow2_unfold(e);
            assert(d * pow2(e) == (2 * d) * pow2(e1)) by (nonlinear_arith)
                requires
                    pow2(e) == 2 * pow2(e1),
            ;
        }
        lemma_rounded_at(f, n, 2 * d, j + 1, k);
        let m = (k - j) as nat;
        lemma_pow2_unfold(m);
        assert((2 * d) * pow2((m - 1) as nat) == d * pow2(m)) by (nonlinear_arith)
            requires
                pow2(m) == 2 * pow2((m - 1) as nat),
        ;
    }
}

/// A ratio that does not fit the largest scale is infinite.
pub proof fn lemma_rounded_overflow(f: Format, n: nat, d: nat, j: nat)
    requires
        f.wf(),
        d > 0,
        j <= f.top,
        n >= d * pow2((f.precision + f.top - 1 - j) as nat),
    ensures
        rounded_from(f, n, d, j) == f.infinity(),
    decreases f.top - j,
{
    if j < f.top {
        let e = (f.precision + f.top - 1 - j) as nat;
        if e > f.precision {
            lemma_pow2_strictly_increases(f.precision as nat, e);
        }
        assert(d * pow2(f.precision as nat) <= d * pow2(e)) by (nonlinear_arith)
            requires
                pow2(f.precision as nat) <= pow2(e),
        ;
        lemma_pow2_unfold(e);
        assert(d * pow2(e) == (2 * d) * pow2((e - 1) as nat)) by (nonlinear_arith)
            requires
                pow2(e) == 2 * pow2((e - 1) as nat),
        ;
        lemma_rounded_overflow(f, n, 2 * d, j + 1);
    }
}

// Executable rounding.
/// `2^e` as an integer.
pub fn power_of_two(e: u32) -> (r: u128)
    requires
        e < 128,
    ensures
        r == pow2(e as nat),
{
    if e < 64 {
        proof {
            vstd::bits::lemma_u64_pow2_no_overflow(e as nat);
            lemma_mul_basics(pow2(e as nat) as int);
            assert(1 * pow2(e as nat) == pow2(e as nat));
            vstd::bits::lemma_u64_shl_is_mul(1u64, e as u64);
        }
        (1u64 << (e as u64)) as u128
    } else {
        let low: u64 = (e - 64) as u64;
        proof {
            vstd::bits::lemma_u64_pow2_no_overflow(low as nat);
            lemma_mul_basics(pow2(low as nat) as int);
            assert(1 * pow2(low as nat) == pow2(low as nat));
            vstd::bits::lemma_u64_shl_is_mul(1u64, low);
            lemma_pow2_adds(low as nat, 64);
            lemma2_to64();
        }
        ((1u64 << low) as u128) * 0x1_0000_0000_0000_0000u128
    }
}

/// The exponent of the highest set bit.
pub fn top_bit(m: u128) -> (b: u32)
    requires
        m > 0,
    ensures
        b < 128,
        pow2(b as nat) <= m < pow2((b + 1) as nat),
{
    let mut t: u128 = m;
    let mut b: u32 = 0;
    proof {
        lemma2_to64();
        lemma_pow2_adds(64, 64);
        assert(pow2(128) == 0x1_0000_0000_0000_0000 * 0x1_0000_0000_0000_0000);
        assert(m * pow2(0) == m);
        assert((m + 1) * pow2(0) == m + 1);
    }
    while t > 1
        invariant
            t >= 1,
            b < 128,
            m <= u128::MAX,
            t * pow2(b as nat) <= m < (t + 1) * pow2(b as nat),
            pow2(128) == 0x1_0000_0000_0000_0000 * 0x1_0000_0000_0000_0000,
        decreases t,
    {
        let h = t / 2;
        proof {
            lemma_pow2_unfold((b + 1) as nat);
            let p = pow2(b as nat);
            assert(h * (2 * p) <= t * p) by (nonlinear_arith)
                requires
                    2 * h <= t,
                    p >= 0,
            ;
            assert((t + 1) * p <= (h + 1) * (2 * p)) by (nonlinear_arith)
                requires
                    t + 1 <= 2 * h + 2,
                    p >= 0,
            ;
            assert(pow2((b + 1) as nat) <= h * pow2((b + 1) as nat)) by (nonlinear_arith)
                requires
                    h >= 1,
            ;
            if b + 1 >= 128 {
                assert(b + 1 == 128);
            }
        }
        t = h;
        b = b + 1;
    }
    proof {
        assert(t == 1);
        lemma_pow2_unfold((b + 1) as nat);
        lemma_mul_basics(pow2(b as nat) as int);
        assert(1 * pow2(b as nat) == pow2(b as nat));
    }
    b
}

/// The exact ratio `m * 2^s`, as a numerator.
pub open spec fn scaled_num(m: nat, s: int) -> nat {
    if s >= 0 {
        m * pow2(s as nat)
    } else {
        m
    }
}

/// The exact ratio `m * 2^s`, as a denominator.
pub open spec fn scaled_den(s: int) -> nat {
    if s >= 0 {
        1
    } else {
        pow2((-s) as nat)
    }
}

/// Comparing `m * 2^s` to a power of two, by the exponents alone.
proof fn lemma_scaled_bounds(m: nat, s: int, b: nat, e: nat)
    requires
        pow2(b) <= m < pow2(b + 1),
    ensures
        b + 1 + s <= e ==> scaled_num(m, s) < scaled_den(s) * pow2(e),
        b + s >= e ==> scaled_num(m, s) >= scaled_den(s) * pow2(e),
{
    if s >= 0 {
        let c = pow2(s as nat);
        lemma_pow2_pos(s as nat);
        lemma_pow2_adds(b, s as nat);
        lemma_pow2_adds(b + 1, s as nat);
        assert(pow2(b) * c <= m * c) by (nonlinear_arith)
            requires
                pow2(b) <= m,
        ;
        assert(m * c < pow2(b + 1) * c) by (nonlinear_arith)
            requires
                m < pow2(b + 1),
                c > 0,
        ;
        assert(scaled_den(s) == 1);
        lemma_mul_basics(pow2(e) as int);
        if b + 1 + s <= e {
            assert(pow2(b + 1) * c == pow2((b + 1 + s) as nat));
            if b + 1 + s < e {
                lemma_pow2_strictly_increases((b + 1 + s) as nat, e);
            }
        }
        if b + s > e {
            lemma_pow2_strictly_increases(e, (b + s) as nat);
        }
    } else {
        lemma_pow2_adds((-s) as nat, e);
        if b + 1 + s <= e {
            if b + 1 < e - s {
                lemma_pow2_strictly_increases(b + 1, (e - s) as nat);
            }
        }
        if b + s >= e {
            if b > e - s {
                lemma_pow2_strictly_increases((e - s) as nat, b);
            }
        }
    }
}

/// The integer `m * 2^s / 2^k` rounds to, told by the difference of
/// the exponents alone.
proof fn lemma_scaled_half_even(m: nat, s: int, k: nat)
    ensures
        k > s ==> half_even(scaled_num(m, s), scaled_den(s) * pow2(k)) == half_even(
            m,
            pow2((k - s) as nat),
        ),
        k <= s ==> half_even(scaled_num(m, s), scaled_den(s) * pow2(k)) == m * pow2(
            (s - k) as nat,
        ),
{
    lemma_pow2_pos(k);
    if s >= 0 {
        assert(scaled_den(s) * pow2(k) == pow2(k));
        if k > s {
            let c = pow2(s as nat);
            lemma_pow2_pos(s as nat);
            lemma_pow2_pos((k - s) as nat);
            lemma_pow2_adds((k - s) as nat, s as nat);
            lemma_half_even_scaled(m, pow2((k - s) as nat), c);
        } else {
            lemma_pow2_adds((s - k) as nat, k);
            let q = m * pow2((s - k) as nat);
            assert(q * pow2(k) == m * (pow2((s - k) as nat) * pow2(k))) by (nonlinear_arith)
                requires
                    q == m * pow2((s - k) as nat),
            ;
            lemma_half_even_exact(q, pow2(k));
        }
    } else {
        lemma_pow2_adds((-s) as nat, k);
    }
}

/// The magnitude nearest to `m * 2^s` units.
pub fn round_scaled(f: Format, m: u128, s: i32) -> (mag: u64)
    requires
        f.wf(),
        m < pow2(126),
        -4000 <= s <= 4000,
    ensures
        mag == rounded(f, scaled_num(m as nat, s as int), scaled_den(s as int)),
        mag <= f.infinity(),
{
    let ghost n = scaled_num(m as nat, s as int);
    let ghost d = scaled_den(s as int);
    proof {
        lemma2_to64();
        lemma2_to64_rest();
        if s < 0 {
            lemma_pow2_pos((-s) as nat);
        }
        lemma_pow2_pos(f.precision as nat);
    }
    let binade = power_of_two(f.precision - 1) as u64;
    assert(binade == 0x10_0000_0000_0000 || binade == 0x80_0000);
    assert((f.top + 1) * binade == f.infinity() && f.infinity() < 0x8000_0000_0000_0000);
    if m == 0 {
        proof {
            assert(n == 0) by (nonlinear_arith)
                requires
                    n == 0 * pow2(s as nat) || n == 0,
            ;
            assert(0 < d * pow2(f.precision as nat)) by (nonlinear_arith)
                requires
                    d > 0,
                    pow2(f.precision as nat) > 0,
            ;
            lemma_half_even_nearest(0, d, 0);
        }
        return 0;
    }
    let b = top_bit(m);
    proof {
        if b >= 126 {
            if b > 126 {
                lemma_pow2_strictly_increases(126, b as nat);
            }
        }
    }
    let excess: i32 = b as i32 + 1 + s - f.precision as i32;
    let k: i32 = if excess > 0 {
        excess
    } else {
        0
    };
    if k >= f.top as i32 {
        proof {
            lemma_scaled_bounds(m as nat, s as int, b as nat, (f.precision + f.top - 1) as nat);
            lemma_rounded_overflow(f, n, d, 0);
        }
        return (f.top as u64 + 1) * binade;
    }
    proof {
        lemma_scaled_bounds(m as nat, s as int, b as nat, (f.precision + k) as nat);
        if k > 0 {
            lemma_scaled_bounds(m as nat, s as int, b as nat, (f.precision + k - 1) as nat);
        }
        lemma_rounded_at(f, n, d, 0, k as nat);
        lemma_scaled_half_even(m as nat, s as int, k as nat);
    }
    let shift: i32 = k - s;
    let ghost q_spec = half_even(n, d * pow2(k as nat));
    let q: u64;
    if shift <= 0 {
        let up = power_of_two((-shift) as u32);
        proof {
            lemma_pow2_adds((b + 1) as nat, (-shift) as nat);
            assert(m * pow2((-shift) as nat) < pow2((b + 1) as nat) * pow2((-shift) as nat))
                by (nonlinear_arith)
                requires
                    m < pow2((b + 1) as nat),
                    pow2((-shift) as nat) > 0,
            ;
            if b + 1 - shift < f.precision {
                lemma_pow2_strictly_increases((b + 1 - shift) as nat, f.precision as nat);
            }
        }
        q = (m * up) as u64;
    } else if shift > 127 {
        proof {
            lemma_pow2_unfold(127);
            if shift > 127 {
                lemma_pow2_strictly_increases(127, shift as nat);
            }
            lemma_half_even_nearest(m as nat, pow2(shift as nat), 0);
        }
        q = 0;
    } else {
        let den = power_of_two(shift as u32);
        proof {
            lemma_pow2_pos(shift as nat);
        }
        let whole: u128 = m / den;
        let rest: u128 = m % den;
        proof {
            // The quotient fits the precision.
            let e = (b + 1 - shift) as int;
            lemma_fundamental_div_mod(m as int, den as int);
            lemma_mod_bound(m as int, den as int);
            lemma_pow2_adds(shift as nat, f.precision as nat);
            if b + 1 < shift + f.precision {
                lemma_pow2_strictly_increases((b + 1) as nat, (shift + f.precision) as nat);
            }
            assert(whole < pow2(f.precision as nat)) by (nonlinear_arith)
                requires
                    m == den * whole + rest,
                    rest >= 0,
                    den > 0,
                    m < den * pow2(f.precision as nat),
            ;
        }
        if rest < den - rest || (rest == den - rest && whole % 2 == 0) {
            q = whole as u64;
        } else {
            q = whole as u64 + 1;
        }
    }
    assert(q == q_spec);
    assert(q <= pow2(f.precision as nat));
    proof {
        lemma_pow2_unfold(f.precision as nat);
        assert(k * f.binade() <= (f.top - 1) * f.binade()) by (nonlinear_arith)
            requires
                0 <= k <= f.top - 1,
        ;
        assert((f.top - 1) * f.binade() + 2 * f.binade() == (f.top + 1) * f.binade())
            by (nonlinear_arith);
        assert(f.infinity() < 0x8000_0000_0000_0000);
    }
    k as u64 * binade + q
}

/// The nearest integer to a ratio is no more than half from it, and
/// where two are as near it is the even one.
pub proof fn lemma_half_even_is_nearest_and_even(n: nat, d: nat)
    requires
        d > 0,
    ensures
        ({
            let q = half_even(n, d);
            &&& 2 * (q * d - n) <= d
            &&& 2 * (n - q * d) <= d
            &&& 2 * (q * d - n) == d || 2 * (n - q * d) == d ==> q % 2 == 0
        }),
{
    lemma_fundamental_div_mod(n as int, d as int);
    lemma_mod_bound(n as int, d as int);
    let q = (n / d) as int;
    assert(d * q == q * d && (q + 1) * d == q * d + d) by (nonlinear_arith);
}

} // verus!
