use coinbath::calibration::{Missing, Residual, Sample, Terms};
use coinbath::double::Double;
use coinbath::report;
use coinbath::state::State;

fn d(x: f64) -> Double {
    Double { bits: x.to_bits() }
}

#[test]
fn the_status_is_line_by_line() {
    let mut state = State::new(d(51.1), &["bath", "inlet"]);
    assert_eq!(
        report::status(&state),
        [
            "setpoint 51.1 C (124.0 F)",
            "bath     no reading",
            "inlet    no reading",
            "miner    unknown, unknown, power fraction unset",
        ]
    );
    state.probes[0].celsius = Some(d(40.0));
    state.probes[0].volts = Some(d(1.65));
    state.supply_v = Some(d(3.301));
    state.miner.hashrate_hs = Some(d(7.5e12));
    state.miner.power_w = Some(d(149.6));
    state.miner.power_fraction = Some(d(0.6));
    assert_eq!(
        report::status(&state),
        [
            "setpoint 51.1 C (124.0 F)",
            "bath     40.0 C (104.0 F)  1.650 V",
            "inlet    no reading",
            "supply   3.301 V",
            "miner    7.50 TH/s, 150 W, power fraction 0.60",
        ]
    );
}

#[test]
fn a_setpoint_is_given_in_either_unit() {
    assert_eq!(report::in_celsius(d(51.1), false), d(51.1));
    assert_eq!(report::in_celsius(d(124.0), true), d((124.0 - 32.0) * 5.0 / 9.0));
    assert_eq!(report::temp(d(-0.04)), "-0.0 C (31.9 F)");
}

#[test]
fn calibration_lines_are_set_in_columns() {
    let sample = Sample {
        probe: "bath".into(),
        volts: d(1.23456),
        supply_v: d(3.3),
        spread_v: d(0.002),
    };
    assert_eq!(
        report::sample_line(&sample),
        "bath     1.2346 V of 3.3000 V, spread 0.0020 V"
    );
    let r = Residual { label: "ice".into(), reference_c: d(0.0), miss_c: d(0.0123) };
    assert_eq!(report::residual_line(&r), format!("#   {:12}{:7.2} C  {:+.3} C", "ice", 0.0, 0.0123));
    assert_eq!(
        report::fit_heading("bath", 4, Terms::Three),
        "# bath: 4 points, Three terms; fitted minus reference"
    );
    assert_eq!(report::terms_text(5), "--terms must be 2 or 3, not 5");
}

#[test]
fn what_is_missing_is_named() {
    let state = State::new(d(50.0), &["bath", "inlet"]);
    assert_eq!(
        report::missing_text(Missing::Supply, &state),
        "the daemon reports no supply voltage; set vcc_channel"
    );
    assert_eq!(
        report::missing_text(Missing::Volts(1), &state),
        "probe inlet reports no volts; is the daemon on the ADC?"
    );
}

#[test]
fn the_log_has_every_probe() {
    let mut state = State::new(d(50.0), &["bath", "inlet"]);
    state.probes[0].celsius = Some(d(40.06));
    assert_eq!(report::readings(&state), "bath=40.1 inlet=?");
    assert_eq!(report::readings(&State::new(d(50.0), &[])), "");
}
