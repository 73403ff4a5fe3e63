use coinbath::api::{self, Answer, Body, Failure};
use coinbath::double::Double;
use coinbath::state::{
    apply, by_hand, Board, Chip, Command, Miner, Mode, Outcome, Refusal, Rejected, State,
};

fn d(x: f64) -> Double {
    Double { bits: x.to_bits() }
}

fn set_setpoint(state: &mut State, celsius: f64) -> Outcome {
    apply(state, Command::SetSetpoint { celsius: d(celsius) })
}

fn set_power_fraction(state: &mut State, fraction: f64) -> Outcome {
    apply(state, Command::SetPowerFraction { fraction: d(fraction) })
}

fn set_by_hand(state: &mut State, fraction: f64) -> Outcome {
    let (first, second) = by_hand(d(fraction));
    let out = apply(state, first);
    if out.refused.is_some() {
        return out;
    }
    apply(state, second)
}

/// The answer to a change, a refused value shown as the machine shows
/// floats.
fn answer(state: &State, out: Outcome) -> Answer {
    let shown = match out.refused {
        Some(why) => f64::from_bits(why.value().bits).to_string(),
        None => String::new(),
    };
    api::reply(out.result(&shown).map_err(Failure::Rejected), state.clone())
}

fn text(answer: &Answer) -> &str {
    match &answer.body {
        Body::Text(text) => text,
        Body::Snapshot(_) => panic!("a snapshot"),
    }
}

fn snapshot(answer: &Answer) -> &State {
    match &answer.body {
        Body::Snapshot(state) => state,
        Body::Text(text) => panic!("{text}"),
    }
}

#[test]
fn power_fraction_starts_unset_and_changes_on_request() {
    let mut state = State::new(d(50.0), &["bath"]);
    assert_eq!(state.power_fraction, None);

    assert!(set_power_fraction(&mut state, 0.25).changed);
    assert_eq!(state.power_fraction, Some(d(0.25)));
}

#[test]
fn a_hand_set_power_fraction_takes_manual_mode() {
    let mut state = State::new(d(50.0), &["bath"]);
    assert_eq!(state.mode, Mode::Auto);

    set_by_hand(&mut state, 0.5);
    assert_eq!(state.mode, Mode::Manual);
    assert_eq!(state.power_fraction, Some(d(0.5)));

    apply(&mut state, Command::SetMode { mode: Mode::Auto });
    assert_eq!(state.mode, Mode::Auto);
    assert_eq!(state.power_fraction, Some(d(0.5)));
}

#[test]
fn rejected_power_fraction_leaves_state_alone() {
    let mut state = State::new(d(50.0), &["bath"]);

    let out = set_power_fraction(&mut state, 1.5);
    assert_eq!(out.refused, Some(Refusal::PowerFraction(d(1.5))));
    assert!(set_power_fraction(&mut state, -0.1).refused.is_some());
    assert!(set_power_fraction(&mut state, f64::NAN).refused.is_some());

    assert_eq!(state.power_fraction, None);
}

#[test]
fn rejected_setpoint_leaves_state_alone() {
    let mut state = State::new(d(50.0), &["bath"]);

    let out = set_setpoint(&mut state, 150.0);
    assert_eq!(out.refused, Some(Refusal::Setpoint(d(150.0))));
    assert!(set_setpoint(&mut state, f64::NAN).refused.is_some());

    assert_eq!(state.setpoint_c, d(50.0));
}

#[test]
fn readings_fill_in_by_index() {
    let mut state = State::new(d(50.0), &["bath", "inlet"]);
    apply(
        &mut state,
        Command::ProbeReading { index: 1, volts: Some(d(1.5)), celsius: Some(d(48.5)) },
    );
    assert_eq!(state.probes[0].celsius, None);
    assert_eq!(state.probes[1].celsius, Some(d(48.5)));
    assert_eq!(state.probes[1].volts, Some(d(1.5)));
    assert_eq!(state.reading("inlet"), Some(d(48.5)));
    assert_eq!(state.reading("outlet"), None);
}

#[test]
fn a_reading_past_the_probes_is_nothing() {
    let mut state = State::new(d(50.0), &["bath"]);
    let before = state.clone();
    let out = apply(
        &mut state,
        Command::ProbeReading { index: 1, volts: None, celsius: Some(d(1.0)) },
    );
    assert!(!out.changed && out.refused.is_none());
    assert_eq!(state, before);
}

#[test]
fn the_ends_of_the_ranges_are_taken() {
    let mut state = State::new(d(50.0), &[]);
    for c in [0.0, 95.0, -0.0] {
        assert!(set_setpoint(&mut state, c).changed, "{c}");
    }
    for p in [0.0, 1.0] {
        assert!(set_power_fraction(&mut state, p).changed, "{p}");
    }
    assert!(!set_setpoint(&mut state, 95.00000000000001).changed);
    assert!(!set_power_fraction(&mut state, f64::INFINITY).changed);
}

#[test]
fn a_mode_that_stands_is_no_change() {
    let mut state = State::new(d(50.0), &[]);
    assert!(!apply(&mut state, Command::SetMode { mode: Mode::Auto }).changed);
    assert!(apply(&mut state, Command::SetMode { mode: Mode::Manual }).changed);
    assert!(apply(&mut state, Command::Supply { volts: d(3.3) }).changed);
    assert_eq!(state.supply_v, Some(d(3.3)));
}

#[test]
fn a_value_that_stands_is_no_change() {
    let mut state = State::new(d(50.0), &["bath"]);
    let before = state.clone();
    let out = set_setpoint(&mut state, 50.0);
    assert_eq!(out, Outcome { changed: false, refused: None });
    assert_eq!(state, before);

    assert!(set_power_fraction(&mut state, 0.5).changed);
    assert!(!set_power_fraction(&mut state, 0.5).changed);
    assert!(apply(&mut state, Command::Supply { volts: d(3.3) }).changed);
    assert!(!apply(&mut state, Command::Supply { volts: d(3.3) }).changed);

    let reading = |c: f64, v: f64| Command::ProbeReading {
        index: 0,
        volts: Some(d(v)),
        celsius: Some(d(c)),
    };
    assert!(apply(&mut state, reading(48.5, 1.5)).changed);
    assert!(!apply(&mut state, reading(48.5, 1.5)).changed);
    assert!(apply(&mut state, reading(48.5, 1.6)).changed);
    assert!(apply(&mut state, reading(48.6, 1.6)).changed);
}

#[test]
fn a_report_is_a_change_where_it_says_something_new() {
    let report = |pool: &str, board: &str, errors: u64| {
        Command::MinerReport(Miner {
            online: true,
            pool: Some(pool.to_string()),
            boards: vec![Board {
                name: board.to_string(),
                chips: vec![Chip { hardware_errors: errors, ..Chip::default() }],
                ..Board::default()
            }],
            ..Miner::default()
        })
    };
    let mut state = State::new(d(50.0), &[]);
    assert!(!apply(&mut state, Command::MinerReport(Miner::default())).changed);
    assert!(apply(&mut state, report("a", "x", 0)).changed);
    assert!(!apply(&mut state, report("a", "x", 0)).changed);
    assert!(apply(&mut state, report("b", "x", 0)).changed);
    assert!(apply(&mut state, report("b", "y", 0)).changed);
    assert!(apply(&mut state, report("b", "y", 1)).changed);
    assert_eq!(state.miner.boards[0].chips[0].hardware_errors, 1);
    assert!(report("b", "y", 1).always_wakes());
    assert!(!Command::Supply { volts: d(3.3) }.always_wakes());
}

#[test]
fn state_round_trips_and_setpoint_changes() {
    let mut state = State::new(d(50.0), &["bath"]);
    assert_eq!(state.setpoint_c, d(50.0));
    assert_eq!(state.probes[0].name, "bath");
    let out = set_setpoint(&mut state, 60.0);
    let answer = answer(&state, out);
    assert_eq!(answer.status, 200);
    assert_eq!(snapshot(&answer).setpoint_c, d(60.0));
    assert_eq!(state.setpoint_c, d(60.0));
}

#[test]
fn power_fraction_is_set_and_refused_the_same_way() {
    let mut state = State::new(d(50.0), &["bath"]);
    let out = set_by_hand(&mut state, 0.3);
    let taken = answer(&state, out);
    assert_eq!(taken.status, 200);
    assert_eq!(snapshot(&taken).power_fraction, Some(d(0.3)));
    assert_eq!(snapshot(&taken).mode, Mode::Manual);

    let out = set_by_hand(&mut state, 2.0);
    let refused = answer(&state, out);
    assert_eq!(refused.status, 400);
    let body = text(&refused);
    assert!(body.contains("2"), "body names the value: {body}");
    assert_eq!(state.power_fraction, Some(d(0.3)));
}

#[test]
fn mode_is_a_json_string() {
    let mut state = State::new(d(50.0), &["bath"]);
    let mode = api::mode_named("manual").unwrap();
    let out = apply(&mut state, Command::SetMode { mode });
    let answer = answer(&state, out);
    assert_eq!(answer.status, 200);
    assert_eq!(api::mode_name(snapshot(&answer).mode), "manual");
    assert_eq!(state.mode, Mode::Manual);
    assert_eq!(api::mode_named("auto"), Some(Mode::Auto));
    assert_eq!(api::mode_named("Auto"), None);
    assert_eq!(api::mode_name(Mode::Auto), "auto");
}

#[test]
fn refused_setpoint_is_a_400_and_changes_nothing() {
    let mut state = State::new(d(50.0), &["bath"]);
    let out = set_setpoint(&mut state, 150.0);
    let refused = answer(&state, out);
    assert_eq!(refused.status, 400);
    let body = text(&refused);
    assert!(body.contains("150"), "body names the value: {body}");
    assert_eq!(body, "setpoint 150 C is outside 0..=95 C");
    assert_eq!(state.setpoint_c, d(50.0));
    assert_eq!(
        Refusal::PowerFraction(d(1.5)).rejected("1.5"),
        Rejected("power fraction 1.5 is outside 0..=1".to_string())
    );
}

#[test]
fn a_failed_change_is_a_500_with_its_error() {
    let state = State::new(d(50.0), &[]);
    let answer = api::reply(Err(Failure::Other("state task is gone".to_string())), state);
    assert_eq!(answer.status, 500);
    assert_eq!(text(&answer), "state task is gone");
}
