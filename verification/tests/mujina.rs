use coinbath::double::Double;
use coinbath::mujina::{summarize, Action, Event, Exchange, Member, Tree, DEFAULT_URL};
use coinbath::state::{Board, Miner};
use serde_json::Value;

fn d(x: f64) -> Double {
    Double { bits: x.to_bits() }
}

fn tree(v: &Value) -> Tree {
    match v {
        Value::Number(n) => Tree::Number(d(n.as_f64().unwrap())),
        Value::Object(map) => Tree::Object(
            map.iter()
                .map(|(name, v)| Member { name: name.clone(), value: tree(v) })
                .collect(),
        ),
        _ => Tree::Other,
    }
}

fn json(text: &str) -> Tree {
    tree(&serde_json::from_str(text).unwrap())
}

/// Two EmberOnes and a CPU miner, in the shapes their drivers publish.
/// The second EmberOne's regulator reads nothing and its chip is the
/// hotter one.
fn rig() -> Tree {
    json(
        r#"{
            "target_power_fraction": 0.5,
            "boards": {
                "emberone-00-2d714701": {
                    "model": "emberOne/00",
                    "status": "present",
                    "pcb_left_temperature_c": 41.0,
                    "chip_0_temperature_c": 62.5,
                    "regulators": {"core": {"voltage_v": 1.2, "power_w": 27.0}},
                    "threads": {"0": {
                        "hashes_per_s": 4.0e12, "status": "present",
                        "power_fraction": 0.5, "power_ceiling": 1.0
                    }}
                },
                "emberone-00-328679e0": {
                    "model": "emberOne/00",
                    "status": "present",
                    "chip_0_temperature_c": 71.0,
                    "regulators": {"core": {"voltage_v": null, "power_w": null}},
                    "threads": {"0": {
                        "hashes_per_s": 3.5e12,
                        "power_fraction": 0.3, "power_ceiling": 0.3
                    }}
                },
                "cpu-miner-0": {
                    "model": "CPU Miner",
                    "status": "present",
                    "threads": {
                        "0": {"hashes_per_s": 39993, "target_duty_percent": 10.0},
                        "1": {"hashes_per_s": 39994, "target_duty_percent": 10.0}
                    }
                }
            }
        }"#,
    )
}

#[test]
fn sums_threads_and_regulators_and_takes_the_hottest_chip() {
    let miner = summarize(&rig());
    assert!(miner.online);
    assert_eq!(miner.hashrate_hs, Some(d(7.5e12 + 79987.0)));
    assert_eq!(miner.power_w, Some(d(27.0)));
    assert_eq!(miner.chip_temperature_c, Some(d(71.0)));
    assert_eq!(miner.power_fraction, Some(d(0.4)), "the mean of what the threads hold");
    assert_eq!(miner.power_ceiling, Some(d(0.3)), "the hot board's ceiling");
}

#[test]
fn without_thread_reports_the_ask_stands_in_for_what_is_held() {
    let tree = json(
        r#"{"target_power_fraction": 0.7, "boards": {"cpu-miner-0": {
            "threads": {"0": {"hashes_per_s": 1}}
        }}}"#,
    );
    let miner = summarize(&tree);
    assert_eq!(miner.power_fraction, Some(d(0.7)));
    assert_eq!(miner.power_ceiling, None);
}

#[test]
fn a_bitaxe_die_counts_as_a_chip() {
    let tree = json(
        r#"{"boards": {"bitaxe-gamma-e2f5": {
            "asic_temperature_c": 55.0,
            "pcb_temperature_c": 80.0
        }}}"#,
    );
    assert_eq!(summarize(&tree).chip_temperature_c, Some(d(55.0)));
}

#[test]
fn nothing_reported_is_none_not_zero() {
    let miner = summarize(&json(r#"{"boards": {}}"#));
    assert_eq!(miner.hashrate_hs, None);
    assert_eq!(miner.power_w, None);
    assert_eq!(miner.chip_temperature_c, None);
    assert_eq!(miner.power_fraction, None);
    assert_eq!(miner.power_ceiling, None);
    assert_eq!(summarize(&json("null")).hashrate_hs, None);
}

#[test]
fn every_board_is_reported_under_its_key() {
    let miner = summarize(&rig());
    let mut boards = miner.boards;
    boards.sort_by(|a, b| a.name.cmp(&b.name));
    let names: Vec<&str> = boards.iter().map(|b| b.name.as_str()).collect();
    assert_eq!(names, ["cpu-miner-0", "emberone-00-2d714701", "emberone-00-328679e0"]);
    assert_eq!(
        boards[0],
        Board {
            name: "cpu-miner-0".to_string(),
            hashrate_hs: Some(d(79987.0)),
            ..Board::default()
        }
    );
    assert_eq!(
        boards[1],
        Board {
            name: "emberone-00-2d714701".to_string(),
            hashrate_hs: Some(d(4.0e12)),
            chip_temperature_c: Some(d(62.5)),
            board_temperature_c: Some(d(41.0)),
            voltage_v: Some(d(1.2)),
            power_w: Some(d(27.0)),
            power_fraction: Some(d(0.5)),
            power_ceiling: Some(d(1.0)),
            ..Board::default()
        }
    );
    assert_eq!((boards[2].voltage_v, boards[2].power_w), (None, None));
    assert_eq!(boards[2].power_ceiling, Some(d(0.3)));
}

#[test]
fn what_is_not_an_object_is_passed_over() {
    let miner = summarize(&json(r#"{"boards": {"a": 3, "b": {"threads": [1], "regulators": 2}}}"#));
    assert!(miner.online);
    assert_eq!((miner.hashrate_hs, miner.power_w), (None, None));
    assert_eq!(rig().number("target_power_fraction"), Some(d(0.5)));
    assert!(rig().get("pool").is_none());
    assert_eq!(DEFAULT_URL, "http://127.0.0.1:7785");
}

/// Runs one exchange; `down` fails every request. Returns the report
/// and what was written.
fn exchange(x: &mut Exchange, request: Option<f64>, down: bool, puts: &mut Vec<f64>) -> Miner {
    let mut action = x.on(Event::Poll(request.map(d)));
    loop {
        action = match action {
            Action::Report(miner, _) => return miner,
            _ if down => x.on(Event::Failed),
            Action::Write(share) => {
                puts.push(f64::from_bits(share.bits));
                x.on(Event::Wrote)
            }
            Action::Read => x.on(Event::Read(rig())),
        };
    }
}

#[test]
fn reports_the_tree_and_writes_the_request_once() {
    let mut x = Exchange::new();
    let mut puts = Vec::new();
    let miner = exchange(&mut x, None, false, &mut puts);
    assert!(miner.online);
    assert_eq!(miner.power_w, Some(d(27.0)));
    assert!(puts.is_empty(), "nothing asked yet");

    assert!(x.is_new(Some(d(0.25))));
    exchange(&mut x, Some(0.25), false, &mut puts);
    assert!(!x.is_new(Some(d(0.25))));
    // Two more polls without a new request write nothing.
    exchange(&mut x, Some(0.25), false, &mut puts);
    exchange(&mut x, Some(0.25), false, &mut puts);
    assert_eq!(puts, [0.25]);
}

#[test]
fn an_outage_reads_as_offline_and_the_request_is_written_again() {
    let mut x = Exchange::new();
    let mut puts = Vec::new();
    exchange(&mut x, Some(0.4), false, &mut puts);

    let miner = exchange(&mut x, Some(0.4), true, &mut puts);
    assert_eq!(miner, Miner::default());
    assert!(!miner.online);

    assert!(exchange(&mut x, Some(0.4), false, &mut puts).online);
    assert_eq!(puts, [0.4, 0.4]);
}

#[test]
fn going_away_and_coming_back_are_news() {
    let mut x = Exchange::new();
    assert_eq!(x.on(Event::Failed), Action::Report(Miner::default(), true));
    assert_eq!(x.on(Event::Failed), Action::Report(Miner::default(), false));
    assert!(matches!(x.on(Event::Read(rig())), Action::Report(_, true)));
    assert!(matches!(x.on(Event::Read(rig())), Action::Report(_, false)));
}
