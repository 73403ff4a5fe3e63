use coinbath::adc::{
    config_word, is_ready, mean_volts, raw_from_bytes, volts, Channel, Conversion, Stage, Step,
    CONVERSIONS_PER_READING, MAX_POLLS,
};

#[test]
fn config_word_matches_datasheet_example() {
    // OS=1, MUX=100 (AIN0), PGA=001, MODE=1, DR=100, COMP_QUE=11
    assert_eq!(config_word(Channel::A0), 0xC383);
    assert_eq!(config_word(Channel::A3), 0xF383);
}

#[test]
fn raw_is_sign_extended() {
    assert_eq!(raw_from_bytes([0x7F, 0xF0]), 2047);
    assert_eq!(raw_from_bytes([0xFF, 0xF0]), -1);
    assert_eq!(raw_from_bytes([0x00, 0x00]), 0);
}

#[test]
fn channel_parses_from_number() {
    assert_eq!(Channel::try_from(2).unwrap(), Channel::A2);
    assert!(Channel::try_from(4).is_err());
    let n: u8 = serde_json::from_str("3").unwrap();
    let ch = Channel::try_from(n).unwrap();
    assert_eq!(ch, Channel::A3);
}

#[test]
fn a_refused_channel_says_so() {
    assert_eq!(Channel::try_from(4).unwrap_err(), "channel 4 is not 0..=3");
    assert_eq!(Channel::A1.to_text(), "A1");
}

#[test]
fn a_count_is_two_millivolts() {
    for raw in [0i16, 1, -1, 825, 2047, -2048] {
        let want = raw as f64 * (4.096 / 2048.0);
        assert_eq!(volts(raw).bits, want.to_bits(), "{raw}");
    }
}

#[test]
fn a_reading_is_the_mean_of_its_conversions() {
    let raws: Vec<i16> = (0..CONVERSIONS_PER_READING as i16).map(|i| 800 + i).collect();
    let mut sum = 0.0;
    for r in &raws {
        sum += *r as f64 * (4.096 / 2048.0);
    }
    assert_eq!(mean_volts(&raws).bits, (sum / 16.0).to_bits());
}

#[test]
fn a_conversion_starts_polls_and_fetches() {
    let mut c = Conversion::new(Channel::A1);
    let none = [0, 0];
    assert_eq!(c.next(none), Step::Write(vec![1, 0xD3, 0x83]));
    assert_eq!(c.next(none), Step::Write(vec![1]));
    assert_eq!(c.next(none), Step::Read);
    assert_eq!(c.next([0x53, 0x83]), Step::Write(vec![1]));
    assert_eq!(c.next(none), Step::Read);
    assert_eq!(c.next([0xD3, 0x83]), Step::Write(vec![0]));
    assert_eq!(c.next(none), Step::Read);
    assert_eq!(c.next([0x7F, 0xF0]), Step::Done(2047));
    assert_eq!(c.stage, Stage::Over);
    assert!(is_ready([0x80, 0]));
    assert!(!is_ready([0x7F, 0xFF]));
}

#[test]
fn a_conversion_that_never_is_ready_gives_up() {
    let mut c = Conversion::new(Channel::A0);
    let mut reads = 0;
    loop {
        match c.next([0, 0]) {
            Step::Read => reads += 1,
            Step::Write(_) => {}
            Step::NotReady => break,
            Step::Done(_) => panic!("nothing was ready"),
        }
    }
    assert_eq!(reads, MAX_POLLS);
}
