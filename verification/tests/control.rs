use coinbath::control::{
    bath_reading, fault, same_fault, worth_sending, Controller, Fault, Gains, Limits, Regulator,
};
use coinbath::double::Double;
use coinbath::sim::{Bath, SimMiner, PROBE_NAMES};
use coinbath::state::{apply, by_hand, Command, Miner, Mode, State};

fn d(x: f64) -> Double {
    Double { bits: x.to_bits() }
}

fn f(x: Double) -> f64 {
    f64::from_bits(x.bits)
}

fn step(c: &mut Controller, setpoint_c: f64, bath_c: f64) -> f64 {
    f(c.step(d(setpoint_c), d(bath_c), d(2.0)))
}

fn filter(c: &mut Controller, bath_c: f64) -> f64 {
    f(c.filter(d(bath_c), d(2.0)))
}

#[test]
fn full_power_when_cold_and_off_when_hot() {
    let mut c = Controller::new(Gains::default());
    assert_eq!(step(&mut c, 50.0, 20.0), 1.0);
    assert_eq!(step(&mut c, 50.0, 60.0), 0.0);
}

#[test]
fn proportional_between() {
    let mut c = Controller::new(Gains { kp: d(0.5), ki: d(0.0) });
    assert!((step(&mut c, 50.0, 49.0) - 0.5).abs() < 1e-9);
    assert!((step(&mut c, 50.0, 49.5) - 0.25).abs() < 1e-9);
}

#[test]
fn a_fault_is_a_missing_bath_reading_a_hot_bath_or_a_silent_miner() {
    let limits = Limits::default();
    let mut state = State::new(d(50.0), &["inlet", "bath"]);
    assert_eq!(fault(&state, &limits), Some(Fault::NoBathReading));

    state.probes[1].celsius = Some(d(40.0));
    assert_eq!(fault(&state, &limits), Some(Fault::MinerOffline));

    state.miner.online = true;
    assert_eq!(fault(&state, &limits), None);
    assert_eq!(bath_reading(&state), Some(d(40.0)));

    state.probes[1].celsius = Some(d(95.0));
    assert_eq!(fault(&state, &limits), Some(Fault::BathOverLimit(d(95.0))));
}

#[test]
fn faults_have_their_words() {
    assert_eq!(Fault::NoBathReading.to_text(), "no bath reading");
    assert_eq!(Fault::BathOverLimit(d(95.04)).to_text(), "bath at 95.0 C is over its limit");
    assert_eq!(Fault::MinerOffline.to_text(), "miner not answering");
    assert!(same_fault(None, None));
    assert!(same_fault(Some(Fault::BathOverLimit(d(0.0))), Some(Fault::BathOverLimit(d(-0.0)))));
    assert!(!same_fault(Some(Fault::BathOverLimit(d(95.0))), Some(Fault::BathOverLimit(d(96.0)))));
    assert!(!same_fault(Some(Fault::MinerOffline), None));
}

#[test]
fn integral_lifts_a_steady_error() {
    let mut c = Controller::new(Gains::default());
    let first = step(&mut c, 50.0, 49.0);
    let mut last = first;
    for _ in 0..300 {
        last = step(&mut c, 50.0, 49.0);
    }
    assert!(last > first, "{last} > {first}");
    assert!(last <= 1.0);
}

#[test]
fn integral_holds_while_saturated() {
    let mut c = Controller::new(Gains::default());
    for _ in 0..1000 {
        step(&mut c, 50.0, 20.0);
    }
    // A long heat-up left nothing behind: at the setpoint the output is
    // the proportional term alone, which is zero.
    assert_eq!(step(&mut c, 50.0, 50.0), 0.0);
}

#[test]
fn the_filter_seeds_on_the_first_reading_and_smooths_the_rest() {
    let mut c = Controller::new(Gains::default());
    assert_eq!(filter(&mut c, 40.0), 40.0);
    let next = filter(&mut c, 41.0);
    assert!(next > 40.0 && next < 40.5, "{next}");
    for _ in 0..100 {
        filter(&mut c, 41.0);
    }
    assert!((filter(&mut c, 41.0) - 41.0).abs() < 0.01);
    c.reset();
    assert_eq!(filter(&mut c, 30.0), 30.0);
}

#[test]
fn reset_forgets_the_integral() {
    let mut c = Controller::new(Gains::default());
    for _ in 0..100 {
        step(&mut c, 50.0, 49.0);
    }
    c.reset();
    assert_eq!(step(&mut c, 50.0, 50.0), 0.0);
}

#[test]
fn holds_the_simulated_bath_at_the_setpoint() {
    let mut bath = Bath::new();
    let mut c = Controller::new(Gains::default());
    let dt = d(2.0);
    let mut fraction = d(0.0);
    for _ in 0..3600 {
        bath.step(dt, fraction);
        fraction = c.step(d(45.0), bath.bath_c, dt);
    }
    assert!((f(bath.bath_c) - 45.0).abs() < 0.2, "settled at {}", f(bath.bath_c));
}

/// One turn of the loop, its request put to the state.
fn turn(r: &mut Regulator, state: &mut State) {
    if let Some(fraction) = r.turn(state).send {
        apply(state, Command::SetPowerFraction { fraction });
    }
}

fn bath_reads(state: &mut State, celsius: f64) {
    apply(state, Command::ProbeReading { index: 0, volts: None, celsius: Some(d(celsius)) });
}

fn miner_reports(state: &mut State, online: bool) {
    let mut miner = Miner::default();
    miner.online = online;
    apply(state, Command::MinerReport(miner));
}

#[test]
fn asks_for_nothing_until_the_bath_reads_and_the_miner_answers() {
    let mut state = State::new(d(50.0), &["bath"]);
    let mut r = Regulator::new(Gains::default(), Limits::default());

    turn(&mut r, &mut state);
    assert_eq!(state.power_fraction, Some(d(0.0)));
    bath_reads(&mut state, 20.0);
    turn(&mut r, &mut state);
    assert_eq!(state.power_fraction, Some(d(0.0)), "miner still silent");

    miner_reports(&mut state, true);
    turn(&mut r, &mut state);
    assert_eq!(state.power_fraction, Some(d(1.0)));

    miner_reports(&mut state, false);
    turn(&mut r, &mut state);
    assert_eq!(state.power_fraction, Some(d(0.0)));
}

#[test]
fn a_fault_overrides_manual_mode() {
    let mut state = State::new(d(50.0), &["bath"]);
    let mut r = Regulator::new(Gains::default(), Limits::default());
    bath_reads(&mut state, 20.0);
    miner_reports(&mut state, true);
    turn(&mut r, &mut state);
    assert_eq!(state.power_fraction, Some(d(1.0)));

    let (first, second) = by_hand(d(0.3));
    apply(&mut state, first);
    apply(&mut state, second);
    turn(&mut r, &mut state);
    turn(&mut r, &mut state);
    assert_eq!(state.power_fraction, Some(d(0.3)), "manual holds");

    bath_reads(&mut state, 95.0);
    turn(&mut r, &mut state);
    assert_eq!(state.power_fraction, Some(d(0.0)));
    assert_eq!(state.mode, Mode::Manual);
}

#[test]
fn a_fault_is_news_when_it_changes() {
    let mut state = State::new(d(50.0), &["bath"]);
    let mut r = Regulator::new(Gains::default(), Limits::default());
    assert!(r.turn(&state).fault_changed);
    assert!(!r.turn(&state).fault_changed);
    bath_reads(&mut state, 20.0);
    let t = r.turn(&state);
    assert_eq!((t.fault, t.fault_changed), (Some(Fault::MinerOffline), true));
    miner_reports(&mut state, true);
    let t = r.turn(&state);
    assert_eq!((t.fault, t.fault_changed), (None, true));
}

#[test]
fn small_changes_are_not_sent_but_the_ends_are() {
    assert!(worth_sending(None, d(0.5)));
    assert!(!worth_sending(Some(d(0.5)), d(0.51)));
    assert!(worth_sending(Some(d(0.5)), d(0.54)));
    assert!(worth_sending(Some(d(0.01)), d(0.0)));
    assert!(!worth_sending(Some(d(0.0)), d(0.0)));
    assert!(worth_sending(Some(d(0.99)), d(1.0)));
    assert!(!worth_sending(Some(d(1.0)), d(1.0)));
}

#[test]
fn heats_under_power_and_cools_without() {
    let ambient = 22.0;
    let mut bath = Bath::new();
    bath.step(d(60.0), d(1.0));
    assert!(f(bath.bath_c) > ambient);

    let warm = f(bath.bath_c);
    bath.step(d(60.0), d(0.0));
    assert!(f(bath.bath_c) < warm);
    assert!(f(bath.bath_c) >= ambient);
}

#[test]
fn settles_below_full_power_rise() {
    let mut bath = Bath::new();
    for _ in 0..10_000 {
        bath.step(d(1.0), d(1.0));
    }
    assert!((f(bath.bath_c) - (22.0 + 40.0)).abs() < 0.01);
    assert!(f(bath.outlet_c(d(1.0))) > f(bath.inlet_c()));
}

#[test]
fn a_simulated_tick_is_the_model() {
    let mut state = State::new(d(50.0), &PROBE_NAMES);
    state.miner.power_fraction = Some(d(0.5));
    let mut bath = Bath::default();
    for command in bath.tick(&state) {
        assert!(apply(&mut state, command).changed);
    }
    let want = 22.0 + (22.0 + 40.0 * 0.5 - 22.0) * (1.0f64 / 120.0).min(1.0);
    assert_eq!(state.reading("bath"), Some(d(want)));
    assert_eq!(state.reading("inlet"), Some(d(want - 0.3)));
    assert_eq!(state.reading("outlet"), Some(d(want + 2.0 * 0.5)));
}

#[test]
fn the_simulated_miner_caps_by_heat() {
    let mut state = State::new(d(50.0), &PROBE_NAMES);
    let mut miner = SimMiner::new();
    let report = miner.tick(&state);
    assert!(report.online);
    assert_eq!(report.power_fraction, Some(d(1.0)));
    assert_eq!(report.power_w, Some(d(300.0)));
    assert_eq!(report.hashrate_hs, Some(d(30.0e12)));
    assert_eq!(report.chip_temperature_c, Some(d(62.0)));
    state.probes[0].celsius = Some(d(30.0));
    state.power_fraction = Some(d(0.8));
    let report = miner.tick(&state);
    assert_eq!(report.chip_temperature_c, Some(d(70.0)));
    assert_eq!(report.power_ceiling, Some(d(0.5)));
    assert_eq!(report.power_fraction, Some(d(0.5)));
    state.power_fraction = Some(d(0.1));
    state.probes[0].celsius = Some(d(22.0));
    assert_eq!(miner.tick(&state).power_fraction, Some(d(0.1)));
}

#[test]
fn full_power_starts_two_degrees_below() {
    let mut c = Controller::new(Gains::default());
    assert_eq!(step(&mut c, 50.0, 48.0), 1.0);
    assert_eq!(step(&mut c, 50.0, -200.0), 1.0);
    let mut c = Controller::new(Gains::default());
    let share = step(&mut c, 50.0, 48.1);
    assert!(share < 1.0 && share > 0.94, "{share}");
}

#[test]
fn a_hot_bath_with_no_shortfall_is_asked_nothing() {
    let mut c = Controller::new(Gains::default());
    c.integral = d(-12.5);
    for bath_c in [50.0, 50.001, 55.0, 90.0] {
        assert_eq!(step(&mut c, 50.0, bath_c), 0.0);
    }
}

#[test]
fn the_filter_keeps_between_the_last_value_and_the_reading() {
    for (last, bath_c) in [(40.0, 41.3), (41.3, 40.0), (-3.0, 0.1), (50.0, 50.0)] {
        for dt in [0.0, 0.5, 2.0, 29.9] {
            let mut c = Controller::new(Gains::default());
            c.filter(d(last), d(dt));
            let smooth = f(c.filter(d(bath_c), d(dt)));
            assert!(smooth >= f64::min(last, bath_c) && smooth <= f64::max(last, bath_c));
        }
    }
    let mut c = Controller::new(Gains::default());
    c.filter(d(40.0), d(2.0));
    assert_eq!(f(c.filter(d(40.0), d(2.0))), 40.0);
    assert_eq!(f(c.filter(d(41.5), d(30.0))), 41.5);
}
