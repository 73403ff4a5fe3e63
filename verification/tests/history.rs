use coinbath::double::Double;
use coinbath::history::{Histories, History, CAPACITY};
use coinbath::state::State;

fn d(x: f64) -> Double {
    Double { bits: x.to_bits() }
}

#[test]
fn keeps_the_latest_samples_in_order() {
    let mut h = History::default();
    for i in 0..(CAPACITY + 5) {
        h.push(Some(d(i as f64)));
    }
    let samples = h.samples();
    assert_eq!(samples.len(), CAPACITY);
    assert_eq!(samples[0], Some(d(5.0)));
    assert_eq!(*samples.last().unwrap(), Some(d((CAPACITY + 4) as f64)));
}

#[test]
fn a_missing_reading_is_a_gap() {
    let mut state = State::new(d(50.0), &["bath", "inlet", "outlet"]);
    let mut histories = Histories::default();
    histories.sample(&state);
    state.probes[0].celsius = Some(d(40.0));
    state.miner.hashrate_hs = Some(d(7.5e12));
    histories.sample(&state);

    assert_eq!(histories.bath.samples(), [None, Some(d(40.0))]);
    assert_eq!(histories.hashrate_ths.samples(), [None, Some(d(7.5))]);
    assert_eq!(histories.inlet.samples(), [None, None]);
    assert_eq!(histories.bath.span_secs(), d(4.0));
}

#[test]
fn a_history_starts_empty() {
    let mut h = History::default();
    assert!(h.is_empty());
    assert_eq!(h.len(), 0);
    h.push(None);
    assert!(!h.is_empty());
    assert_eq!(h.len(), 1);
    assert_eq!(h.samples(), [None]);
}

#[test]
fn every_line_is_sampled() {
    let mut state = State::new(d(50.0), &["outlet", "inlet", "bath"]);
    for (i, t) in [41.5, 39.7, 40.0].into_iter().enumerate() {
        state.probes[i].celsius = Some(d(t));
    }
    state.miner.power_w = Some(d(150.0));
    state.miner.chip_temperature_c = Some(d(62.0));
    let mut h = Histories::default();
    h.sample(&state);
    assert_eq!(h.bath.samples(), [Some(d(40.0))]);
    assert_eq!(h.inlet.samples(), [Some(d(39.7))]);
    assert_eq!(h.outlet.samples(), [Some(d(41.5))]);
    assert_eq!(h.power_w.samples(), [Some(d(150.0))]);
    assert_eq!(h.chip_c.samples(), [Some(d(62.0))]);
    assert_eq!(h.hashrate_ths.samples(), [None]);
}
