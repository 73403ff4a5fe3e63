use coinbath::double::Double;
use coinbath::thermistor::Thermistor;

fn d(x: f64) -> Double {
    Double { bits: x.to_bits() }
}

fn f(x: Double) -> f64 {
    f64::from_bits(x.bits)
}

/// A 10 k NTC with B = 3950, from the B-parameter model:
/// a = 1/T0 - ln(R0)/B, b = 1/B, c = 0.
fn generic_10k() -> Thermistor {
    Thermistor {
        divider_resistor: d(10_000.0),
        a: d(1.0 / 298.15 - 10_000f64.ln() / 3950.0),
        b: d(1.0 / 3950.0),
        c: d(0.0),
    }
}

fn resistance_to_celsius(th: &Thermistor, ohms: f64) -> f64 {
    f(th.resistance_to_celsius(d(ohms.ln())))
}

fn celsius(th: &Thermistor, volts: f64, vcc: f64) -> f64 {
    resistance_to_celsius(th, f(th.resistance(d(volts), d(vcc))))
}

#[test]
fn reads_25c_at_nominal_resistance() {
    let t = resistance_to_celsius(&generic_10k(), 10_000.0);
    assert!((t - 25.0).abs() < 0.01, "{t}");
}

#[test]
fn ntc_reads_hotter_at_lower_resistance() {
    let th = generic_10k();
    assert!(resistance_to_celsius(&th, 4_000.0) > resistance_to_celsius(&th, 20_000.0));
}

#[test]
fn divider_midpoint_is_the_fixed_resistor() {
    let r = f(generic_10k().resistance(d(1.65), d(3.3)));
    assert!((r - 10_000.0).abs() < 0.1, "{r}");
}

#[test]
fn voltage_rises_with_temperature() {
    let th = generic_10k();
    assert!(celsius(&th, 2.0, 3.3) > celsius(&th, 1.0, 3.3));
}

#[test]
fn midpoint_voltage_reads_25c() {
    let t = celsius(&generic_10k(), 1.65, 3.3);
    assert!((t - 25.0).abs() < 0.01, "{t}");
}

#[test]
fn the_conversion_is_the_formula() {
    let (a, b, c) = (1.125e-3, 2.347e-4, 8.566e-8);
    let th = Thermistor { divider_resistor: d(10_000.0), a: d(a), b: d(b), c: d(c) };
    for ohms in [500.0f64, 10_000.0, 32_650.0] {
        let ln_r = ohms.ln();
        let want = 1.0 / (a + b * ln_r + c * ln_r.powi(3)) - 273.15;
        assert_eq!(f(th.resistance_to_celsius(d(ln_r))), want);
    }
    assert_eq!(f(th.resistance(d(1.2), d(3.28))), 10_000.0 * (3.28 - 1.2) / 1.2);
}

#[test]
fn resistance_never_rises_with_the_voltage() {
    let th = generic_10k();
    let mut last = f64::INFINITY;
    let mut volts = 0.05;
    while volts < 3.3 {
        let ohms = f(th.resistance(d(volts), d(3.3)));
        assert!(ohms <= last, "{volts}: {ohms}");
        last = ohms;
        volts += 0.013;
    }
}

#[test]
fn the_conversion_is_ratiometric() {
    let th = generic_10k();
    for (volts, vcc) in [(1.1, 3.3), (0.37, 3.29), (3.2999, 3.3)] {
        let once = th.resistance(d(volts), d(vcc));
        for factor in [2.0, 4.0, 1024.0, 0.125] {
            assert_eq!(th.resistance(d(factor * volts), d(factor * vcc)), once);
        }
    }
}
