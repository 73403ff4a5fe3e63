//! NTC thermistor conversion for a voltage divider.
//!
//! The thermistor is the upper leg: VCC, the thermistor, the ADC
//! input, the fixed resistor, ground. An open thermistor reads 0 V and
//! a shorted one reads VCC, and the voltage rises with temperature.
//! The logarithm between the two halves of the conversion is the
//! caller's: `resistance` gives the ohms, and `resistance_to_celsius`
//! takes their natural logarithm.
use vstd::arithmetic::mul::*;
use vstd::arithmetic::power2::*;
use vstd::prelude::*;

use crate::double;
use crate::double::Double;
use crate::ieee;
use crate::number;
use crate::number::Number;
use crate::order;
use crate::rounding;
use crate::rounding::binary64;

verus! {

/// 1.0, as a double's bits.
pub const ONE: u64 = 0x3ff0_0000_0000_0000;

/// Zero Celsius in kelvin, 273.15, as a double's bits.
pub const ZERO_C_IN_KELVIN: u64 = 0x4071_1266_6666_6666;

/// The smallest double with a full significand, as its bits.
pub const SMALLEST_NORMAL: u64 = 0x0010_0000_0000_0000;

/// Divider and Steinhart-Hart parameters for one thermistor.
#[derive(Debug, Clone, Copy, PartialEq)]
pub struct Thermistor {
    /// The fixed resistor in the divider, in ohms.
    pub divider_resistor: Double,
    /// Steinhart-Hart coefficients.
    pub a: Double,
    pub b: Double,
    pub c: Double,
}

/// The resistance of the upper leg of a divider.
pub open spec fn upper_leg(resistor: Double, volts: Double, vcc: Double) -> Double {
    resistor.times(vcc.minus(volts)).over(volts)
}

/// The resistance of the upper leg of a divider.
pub fn divider_ohms(resistor: Double, volts: Double, vcc: Double) -> (ohms: Double)
    ensures
        ohms == upper_leg(resistor, volts, vcc),
{
    resistor.times(vcc.minus(volts)).over(volts)
}

/// A number times itself times itself.
pub open spec fn cubed_spec(x: Double) -> Double {
    x.times(x).times(x)
}

/// A number times itself times itself.
pub fn cubed(x: Double) -> (r: Double)
    ensures
        r == cubed_spec(x),
{
    x.times(x).times(x)
}

impl Thermistor {
    /// Solves the divider for the thermistor's resistance.
    pub fn resistance(&self, volts: Double, vcc: Double) -> (ohms: Double)
        ensures
            ohms == upper_leg(self.divider_resistor, volts, vcc),
    {
        divider_ohms(self.divider_resistor, volts, vcc)
    }

    /// Steinhart-Hart: 1/T = a + b ln R + c (ln R)^3, with T in kelvin.
    pub open spec fn inverse_kelvin(self, ln_r: Double) -> Double {
        self.a.plus(self.b.times(ln_r)).plus(self.c.times(cubed_spec(ln_r)))
    }

    /// The temperature at a resistance with this natural logarithm, in
    /// degrees Celsius.
    pub open spec fn celsius_at(self, ln_r: Double) -> Double {
        (Double { bits: ONE }).over(self.inverse_kelvin(ln_r)).minus(
            Double { bits: ZERO_C_IN_KELVIN },
        )
    }

    /// The temperature at a resistance with this natural logarithm, in
    /// degrees Celsius.
    pub fn resistance_to_celsius(&self, ln_r: Double) -> (celsius: Double)
        ensures
            celsius == self.celsius_at(ln_r),
    {
        (Double { bits: ONE }).over(
            self.a.plus(self.b.times(ln_r)).plus(self.c.times(cubed(ln_r))),
        ).minus(Double { bits: ZERO_C_IN_KELVIN })
    }
}

/// The resistance does not rise as the voltage rises.
pub proof fn lemma_resistance_falls_as_the_voltage_rises(
    resistor: Double,
    volts: Double,
    more: Double,
    vcc: Double,
)
    requires
        resistor.is_finite(),
        resistor.rank() >= 0,
        vcc.is_finite(),
        volts.rank() > 0,
        volts.at_most(more),
        more.at_most(vcc),
    ensures
        upper_leg(resistor, more, vcc).at_most(upper_leg(resistor, volts, vcc)),
{
    order::lemma_minus_stays_between(vcc, volts);
    order::lemma_minus_stays_between(vcc, more);
    order::lemma_negated(volts);
    order::lemma_negated(more);
    let (high, low) = (vcc.minus(volts), vcc.minus(more));
    order::lemma_plus_keeps_order(more.negated(), volts.negated(), vcc);
    order::lemma_times_keeps_order(low, high, resistor);
    double::lemma_times_sign(resistor, high);
    order::lemma_over_keeps_order(resistor.times(low), resistor.times(high), more);
    order::lemma_over_turns_order(resistor.times(high), volts, more);
}

/// The conversion is ratiometric: a voltage and a supply both higher by
/// one power of two give the same resistance, as long as the divider's
/// product is neither too small nor too large for a double's full
/// precision.
pub proof fn lemma_resistance_is_ratiometric(
    resistor: Double,
    volts: Double,
    vcc: Double,
    volts_scaled: Double,
    vcc_scaled: Double,
    k: nat,
)
    requires
        resistor.is_finite(),
        vcc.is_finite(),
        vcc_scaled.is_finite(),
        volts.rank() > 0,
        volts.at_most(vcc),
        volts_scaled.rank() > 0,
        volts_scaled.at_most(vcc_scaled),
        order::units(volts_scaled) == pow2(k) * order::units(volts),
        order::units(vcc_scaled) == pow2(k) * order::units(vcc),
        (Double { bits: SMALLEST_NORMAL }).below(resistor.times(vcc.minus(volts))),
        resistor.times(vcc_scaled.minus(volts_scaled)).is_finite(),
    ensures
        upper_leg(resistor, volts_scaled, vcc_scaled) == upper_leg(resistor, volts, vcc),
{
    let f = binary64();
    ieee::lemma_format_bounds(f);
    let p = pow2(1074);
    let c = pow2(k);
    lemma_pow2_pos(1074);
    lemma_pow2_pos(k);
    order::lemma_minus_stays_between(vcc, volts);
    order::lemma_minus_stays_between(vcc_scaled, volts_scaled);
    let (d, e) = (vcc.minus(volts), vcc_scaled.minus(volts_scaled));
    lemma_difference_scaled(vcc, volts, vcc_scaled, volts_scaled, k);
    order::lemma_times_rank(resistor, d);
    order::lemma_times_rank(resistor, e);
    let (m, n) = (resistor.times(d), resistor.times(e));
    let (r, u) = (order::units(resistor), order::units(d));
    assert(r * (c * u) == (r * u) * c) by (nonlinear_arith);
    let size = (r * u) as nat;
    assert(r * u >= 0);
    assert(size >= p * f.binade()) by {
        if size < p * f.binade() {
            assert(size * 1 <= f.binade() * p) by (nonlinear_arith)
                requires
                    size < p * f.binade(),
            ;
            ieee::lemma_rounded_monotone(f, size, p, f.binade(), 1, 0);
            rounding::lemma_half_even_exact(f.binade(), 1);
            lemma_mul_basics(f.binade() as int);
        }
    }
    assert((r * u) * c >= 0) by (nonlinear_arith)
        requires
            r * u >= 0,
            c > 0,
    ;
    let (small, large) = (rounding::rounded(f, size, p), rounding::rounded(f, size * c, p));
    assert(n.rank() == order::nearest_rank((r * u) * c, p as int));
    assert(n.rank() == large);
    ieee::lemma_rounded_by_power(f, size, p, k);
    ieee::lemma_units_zero(f);
    ieee::lemma_units_increase(f, 0, small);
    assert(c * f.units(small) > 0) by (nonlinear_arith)
        requires
            c > 0,
            f.units(small) > 0,
    ;
    assert(large > 0);
    assert(m.num().mag == small && n.num().mag == large);
    let (a, b) = (f.units(m.num().mag as nat), f.units(volts.num().mag as nat));
    ieee::lemma_units_increase(f, 0, volts.num().mag as nat);
    ieee::lemma_rounded_scaled(f, a * p, b, c, 0);
    assert((c * a) * p == (a * p) * c) by (nonlinear_arith);
    lemma_mul_is_commutative(c as int, b as int);
}

/// A difference of numbers higher by a power of two is higher by it.
proof fn lemma_difference_scaled(
    x: Double,
    y: Double,
    x_scaled: Double,
    y_scaled: Double,
    k: nat,
)
    requires
        x.is_finite(),
        y.rank() >= 0,
        y.at_most(x),
        x_scaled.is_finite(),
        y_scaled.rank() >= 0,
        y_scaled.at_most(x_scaled),
        order::units(x_scaled) == pow2(k) * order::units(x),
        order::units(y_scaled) == pow2(k) * order::units(y),
    ensures
        order::units(x_scaled.minus(y_scaled)) == pow2(k) * order::units(x.minus(y)),
{
    let f = binary64();
    let c = pow2(k);
    ieee::lemma_format_bounds(f);
    ieee::lemma_units_zero(f);
    order::lemma_negated(y);
    order::lemma_negated(y_scaled);
    order::lemma_units_order(y, x);
    order::lemma_units_order(y_scaled, x_scaled);
    order::lemma_minus_stays_between(x, y);
    order::lemma_minus_stays_between(x_scaled, y_scaled);
    order::lemma_plus_rank(x, y.negated());
    order::lemma_plus_rank(x_scaled, y_scaled.negated());
    let (u, v) = (order::units(x), order::units(y));
    assert(c * u - c * v == (u - v) * c) by (nonlinear_arith);
    lemma_mul_basics(c as int);
    ieee::lemma_rounded_whole_by_power(f, (u - v) as nat, k);
}

// The conversion over any numbers, and what it does over exact ones.
/// The resistance of the upper leg of a divider.
pub open spec fn leg<N: Number>(resistor: N, volts: N, vcc: N) -> N {
    resistor.multiplied(vcc.taken(volts)).divided(volts)
}

/// Steinhart-Hart's 1/T.
pub open spec fn inverse<N: Number>(a: N, b: N, c: N, ln_r: N) -> N {
    a.added(b.multiplied(ln_r)).added(
        c.multiplied(ln_r.multiplied(ln_r).multiplied(ln_r)),
    )
}

/// The temperature, with zero Celsius in kelvin.
pub open spec fn temperature<N: Number>(a: N, b: N, c: N, ln_r: N, zero_c: N) -> N {
    N::unit().divided(inverse(a, b, c, ln_r)).taken(zero_c)
}

/// The conversion is these formulas, each operation rounded to a double.
pub proof fn lemma_the_conversion_is_the_formulas(
    t: Thermistor,
    volts: Double,
    vcc: Double,
    ln_r: Double,
)
    ensures
        upper_leg(t.divider_resistor, volts, vcc) == leg(t.divider_resistor, volts, vcc),
        t.celsius_at(ln_r) == temperature(
            t.a,
            t.b,
            t.c,
            ln_r,
            Double { bits: ZERO_C_IN_KELVIN },
        ),
{
}

/// In exact arithmetic the resistance falls as the voltage rises.
pub proof fn lemma_exact_resistance_falls(resistor: real, volts: real, more: real, vcc: real)
    requires
        resistor > 0real,
        vcc > 0real,
        0real < volts < more,
    ensures
        leg(resistor, more, vcc) < leg(resistor, volts, vcc),
{
    let (high, low) = (leg(resistor, volts, vcc), leg(resistor, more, vcc));
    number::lemma_divided_back(resistor * (vcc - volts), volts);
    number::lemma_divided_back(resistor * (vcc - more), more);
    number::lemma_distributed(resistor, vcc, volts);
    number::lemma_distributed(resistor, vcc, more);
    number::lemma_distributed(volts, high, resistor);
    number::lemma_distributed(more, low, resistor);
    number::lemma_scaled_less(0real, resistor, vcc);
    number::lemma_zero_terms(vcc, vcc);
    number::lemma_partner_of_the_greater(high + resistor, low + resistor, volts, more);
}

/// In exact arithmetic one factor on both the voltage and the supply
/// leaves the resistance alone.
pub proof fn lemma_exact_resistance_is_ratiometric(
    resistor: real,
    volts: real,
    vcc: real,
    factor: real,
)
    requires
        volts != 0real,
        factor != 0real,
    ensures
        leg(resistor, factor * volts, factor * vcc) == leg(resistor, volts, vcc),
{
    let ohms = leg(resistor, volts, vcc);
    let top = resistor * (vcc - volts);
    number::lemma_divided_back(top, volts);
    number::lemma_distributed(factor, vcc, volts);
    number::lemma_reordered(resistor, factor, vcc - volts);
    number::lemma_reordered(ohms, factor, volts);
    let scaled = factor * volts;
    assert(scaled != 0real) by (nonlinear_arith)
        requires
            scaled == factor * volts,
            factor != 0real,
            volts != 0real,
    ;
    assert(resistor * (factor * vcc - scaled) == ohms * scaled);
    assert((ohms * scaled) / scaled == ohms) by (nonlinear_arith)
        requires
            scaled != 0real,
    ;
}

/// In exact arithmetic the temperature falls as the resistance rises,
/// wherever the formula gives one above absolute zero.
pub proof fn lemma_exact_temperature_falls(
    a: real,
    b: real,
    c: real,
    ln_r: real,
    more: real,
    zero_c: real,
)
    requires
        b > 0real,
        c >= 0real,
        ln_r < more,
        inverse(a, b, c, ln_r) > 0real,
    ensures
        temperature(a, b, c, more, zero_c) < temperature(a, b, c, ln_r, zero_c),
{
    let (p, q) = (inverse(a, b, c, ln_r), inverse(a, b, c, more));
    number::lemma_scaled_less(ln_r, more, b);
    number::lemma_cubes(ln_r, more);
    let (low, high) = (ln_r * ln_r * ln_r, more * more * more);
    if c > 0real && low < high {
        number::lemma_scaled_less(low, high, c);
    }
    number::lemma_zero_terms(low, high);
    assert(p < q);
    number::lemma_divided_back(1real, p);
    number::lemma_divided_back(1real, q);
    number::lemma_partner_of_the_greater(1real / p, 1real / q, p, q);
}

/// In exact arithmetic the temperature rises with the voltage, the
/// logarithm being any function that rises with its argument.
pub proof fn lemma_exact_temperature_rises_with_the_voltage(
    resistor: real,
    a: real,
    b: real,
    c: real,
    zero_c: real,
    volts: real,
    more: real,
    vcc: real,
    ln: spec_fn(real) -> real,
)
    requires
        resistor > 0real,
        b > 0real,
        c >= 0real,
        0real < volts < more < vcc,
        forall|x: real, y: real| 0real < x < y ==> #[trigger] ln(x) < #[trigger] ln(y),
        inverse(a, b, c, ln(leg(resistor, more, vcc))) > 0real,
    ensures
        temperature(a, b, c, ln(leg(resistor, volts, vcc)), zero_c) < temperature(
            a,
            b,
            c,
            ln(leg(resistor, more, vcc)),
            zero_c,
        ),
{
    let (high, low) = (leg(resistor, volts, vcc), leg(resistor, more, vcc));
    lemma_exact_resistance_falls(resistor, volts, more, vcc);
    number::lemma_divided_back(resistor * (vcc - more), more);
    number::lemma_scaled_less(0real, resistor, vcc - more);
    number::lemma_zero_terms(vcc - more, more);
    if low <= 0real {
        if low < 0real {
            number::lemma_scaled_less(low, 0real, more);
        }
    }
    lemma_exact_temperature_falls(a, b, c, ln(low), ln(high), zero_c);
}

/// A cube does not fall as the number grows.
proof fn lemma_cubes_keep_order(x: Double, y: Double)
    requires
        x.at_most(y),
        cubed_spec(x).is_finite(),
        cubed_spec(y).is_finite(),
    ensures
        cubed_spec(x).at_most(cubed_spec(y)),
{
    order::lemma_finite_parts(x.times(x), x);
    order::lemma_finite_parts(y.times(y), y);
    let (xx, yy) = (x.times(x), y.times(y));
    order::lemma_times_rank(x, x);
    order::lemma_times_rank(y, y);
    lemma_square_is_nonnegative(x);
    lemma_square_is_nonnegative(y);
    if x.rank() >= 0 {
        order::lemma_times_keeps_order(x, y, x);
        order::lemma_times_keeps_order(x, y, y);
        order::lemma_times_keeps_order(xx, yy, x);
        order::lemma_times_keeps_order(x, y, yy);
    } else if y.rank() <= 0 {
        order::lemma_times_turns_order(x, y, x);
        order::lemma_times_turns_order(x, y, y);
        order::lemma_times_keeps_order(x, y, xx);
        order::lemma_times_turns_order(yy, xx, y);
    } else {
        double::lemma_times_sign(xx, x);
        double::lemma_times_sign(yy, y);
    }
}

/// A square is not negative.
proof fn lemma_square_is_nonnegative(x: Double)
    requires
        x.is_finite(),
    ensures
        double::is_nonnegative(x.times(x)),
{
    if x.rank() >= 0 {
        double::lemma_times_sign(x, x);
    } else {
        let zero = Double { bits: 0 };
        order::lemma_times_turns_order(x, zero, x);
        double::lemma_times_zero(x, zero);
    }
}

/// With coefficients that are not negative, the temperature does not
/// rise as the resistance rises, wherever the formula gives one above
/// absolute zero.
pub proof fn lemma_temperature_falls_as_the_resistance_rises(
    t: Thermistor,
    ln_r: Double,
    more: Double,
)
    requires
        t.b.rank() >= 0,
        t.c.rank() >= 0,
        ln_r.at_most(more),
        t.inverse_kelvin(ln_r).is_finite(),
        t.inverse_kelvin(ln_r).rank() > 0,
        t.inverse_kelvin(more).is_finite(),
    ensures
        t.celsius_at(more).at_most(t.celsius_at(ln_r)),
{
    lemma_terms_are_finite(t, ln_r);
    lemma_terms_are_finite(t, more);
    let (s, u) = (t.a.plus(t.b.times(ln_r)), t.a.plus(t.b.times(more)));
    let (p, q) = (t.c.times(cubed_spec(ln_r)), t.c.times(cubed_spec(more)));
    order::lemma_times_keeps_order(ln_r, more, t.b);
    order::lemma_plus_keeps_order(t.b.times(ln_r), t.b.times(more), t.a);
    lemma_cubes_keep_order(ln_r, more);
    order::lemma_times_keeps_order(cubed_spec(ln_r), cubed_spec(more), t.c);
    order::lemma_plus_keeps_order(s, u, p);
    order::lemma_plus_keeps_order(p, q, u);
    let one = Double { bits: ONE };
    let zero_c = Double { bits: ZERO_C_IN_KELVIN };
    order::lemma_negated(zero_c);
    order::lemma_over_turns_order(one, t.inverse_kelvin(ln_r), t.inverse_kelvin(more));
    order::lemma_plus_keeps_order(
        one.over(t.inverse_kelvin(more)),
        one.over(t.inverse_kelvin(ln_r)),
        zero_c.negated(),
    );
}

/// Where the formula gives a number, so does each of its terms.
proof fn lemma_terms_are_finite(t: Thermistor, ln_r: Double)
    requires
        t.inverse_kelvin(ln_r).is_finite(),
    ensures
        t.a.is_finite(),
        t.b.is_finite(),
        t.c.is_finite(),
        ln_r.is_finite(),
        cubed_spec(ln_r).is_finite(),
        t.a.plus(t.b.times(ln_r)).is_finite(),
        t.b.times(ln_r).is_finite(),
        t.c.times(cubed_spec(ln_r)).is_finite(),
{
    order::lemma_finite_parts(t.a.plus(t.b.times(ln_r)), t.c.times(cubed_spec(ln_r)));
    order::lemma_finite_parts(t.a, t.b.times(ln_r));
    order::lemma_finite_parts(t.b, ln_r);
    order::lemma_finite_parts(t.c, cubed_spec(ln_r));
}

/// The temperature does not fall as the voltage rises, where the
/// logarithms taken of the resistances keep their order.
pub proof fn lemma_voltage_rises_with_temperature(
    t: Thermistor,
    volts: Double,
    more: Double,
    vcc: Double,
    ln_r: Double,
    ln_less: Double,
)
    requires
        t.divider_resistor.is_finite(),
        t.divider_resistor.rank() >= 0,
        t.b.rank() >= 0,
        t.c.rank() >= 0,
        vcc.is_finite(),
        volts.rank() > 0,
        volts.at_most(more),
        more.at_most(vcc),
        upper_leg(t.divider_resistor, more, vcc).at_most(
            upper_leg(t.divider_resistor, volts, vcc),
        ) ==> ln_less.at_most(ln_r),
        t.inverse_kelvin(ln_less).is_finite(),
        t.inverse_kelvin(ln_less).rank() > 0,
        t.inverse_kelvin(ln_r).is_finite(),
    ensures
        t.celsius_at(ln_r).at_most(t.celsius_at(ln_less)),
{
    lemma_resistance_falls_as_the_voltage_rises(t.divider_resistor, volts, more, vcc);
    lemma_temperature_falls_as_the_resistance_rises(t, ln_less, ln_r);
}

/// In exact arithmetic the resistance is the one that divides the supply
/// as it was measured: the fixed resistor has of the supply what the
/// voltage is of it.
pub proof fn lemma_the_resistance_divides_the_supply(resistor: real, volts: real, vcc: real)
    requires
        volts != 0real,
    ensures
        volts * (leg(resistor, volts, vcc) + resistor) == vcc * resistor,
{
    let r = leg(resistor, volts, vcc);
    number::lemma_divided_back(resistor * (vcc - volts), volts);
    number::lemma_distributed(volts, r, resistor);
    number::lemma_distributed(resistor, vcc, volts);
    number::lemma_reordered(resistor, vcc, 1real);
    number::lemma_reordered(resistor, volts, 1real);
}

/// In exact arithmetic the temperature is the one whose inverse in
/// kelvin is the sum of the first coefficient, the second times the
/// logarithm of the resistance, and the third times its cube.
pub proof fn lemma_the_temperature_solves_the_equation(
    a: real,
    b: real,
    c: real,
    ln_r: real,
    zero_c: real,
)
    requires
        a + b * ln_r + c * (ln_r * ln_r * ln_r) != 0real,
    ensures
        (temperature(a, b, c, ln_r, zero_c) + zero_c) * (a + b * ln_r + c * (ln_r * ln_r * ln_r))
            == 1real,
{
    number::lemma_divided_back(1real, a + b * ln_r + c * (ln_r * ln_r * ln_r));
}

/// A divider of whole numbers that come out even has the resistance
/// they give, and the conversion takes a zero of 273.15 kelvin.
pub proof fn lemma_a_divider_of_whole_numbers(
    resistor: Double,
    volts: Double,
    vcc: Double,
    r: int,
    v: int,
    s: int,
)
    requires
        order::is_whole(resistor, r),
        order::is_whole(volts, v),
        order::is_whole(vcc, s),
        0 < v <= s < 0x10_0000,
        0 <= r < 0x1_0000_0000,
        (r * (s - v)) % v == 0,
    ensures
        order::is_whole(upper_leg(resistor, volts, vcc), r * (s - v) / v),
{
    let over = vcc.minus(volts);
    order::lemma_wholes_compute(vcc, volts, s, v);
    let n = r * (s - v);
    assert(0 <= n < 0x20_0000_0000_0000) by (nonlinear_arith)
        requires
            0 < v <= s < 0x10_0000,
            0 <= r < 0x1_0000_0000,
            n == r * (s - v),
    ;
    order::lemma_wholes_compute(resistor, over, r, s - v);
    assert(0 <= n / v <= n) by (nonlinear_arith)
        requires
            0 <= n,
            0 < v,
    ;
    order::lemma_wholes_compute(resistor.times(over), volts, n, v);
}

/// The temperature is the inverse of the sum of the terms, less 273.15.
pub proof fn lemma_the_temperature_is_from_kelvin(t: Thermistor, ln_r: Double)
    ensures
        t.celsius_at(ln_r) == (Double { bits: 0x3ff0_0000_0000_0000 }).over(
            t.a.plus(t.b.times(ln_r)).plus(t.c.times(ln_r.times(ln_r).times(ln_r))),
        ).minus(Double { bits: 0x4071_1266_6666_6666 }),
{
}

} // verus!
