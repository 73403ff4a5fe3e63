use coinbath::adc::Channel;
use coinbath::address::is_socket_address;
use coinbath::config::{Config, Refused};
use coinbath::document::{Entry, ReadError, Value};
use coinbath::double::Double;
use coinbath::probes::{classify, report, sent, ProbesConfig, Reader, Wiring};
use coinbath::state::Command;

fn d(x: f64) -> Double {
    Double { bits: x.to_bits() }
}

fn f(x: Double) -> f64 {
    f64::from_bits(x.bits)
}

fn value(v: &toml::Value) -> Value {
    match v {
        toml::Value::Integer(n) => Value::Integer(*n),
        toml::Value::Float(x) => Value::Float(d(*x)),
        toml::Value::String(s) => Value::Text(s.clone()),
        toml::Value::Array(items) => Value::List(items.iter().map(value).collect()),
        toml::Value::Table(table) => Value::Table(entries(table)),
        _ => Value::Other,
    }
}

fn entries(table: &toml::Table) -> Vec<Entry> {
    table
        .iter()
        .map(|(key, v)| Entry { key: key.clone(), value: value(v) })
        .collect()
}

fn parse(text: &str) -> Result<Config, Refused> {
    let table: toml::Table = text.parse().unwrap();
    Config::parse(&entries(&table))
}

fn parse_config(text: &str) -> Result<Config, String> {
    parse(text).map_err(|e| match e {
        Refused::Document(flaw) => format!("{flaw:?}"),
        Refused::Invalid(why) => why,
    })
}

/// What is wrong with the making of a document.
fn flaw(text: &str) -> ReadError<String> {
    match parse(text) {
        Err(Refused::Document(flaw)) => flaw,
        other => panic!("{other:?}"),
    }
}

fn parse_probes(text: &str) -> Result<ProbesConfig, String> {
    let config = parse_config(&format!("setpoint_c = 50.0\n{text}"))?;
    let probes = config.probes;
    probes.validate().map_err(|p| probes.describe(p))?;
    Ok(probes)
}

const ONE: &str = r#"
        [[probe]]
        name = "bath"
        channel = 0
        divider_resistor = 10000.0
        a = 1.0e-3
        b = 2.5e-4
        c = 0.0
        offset_c = 0.0
    "#;

#[test]
fn parses_setpoint() {
    let config = parse_config("setpoint_c = 51.1\n").unwrap();
    assert_eq!(f(config.setpoint_c), 51.1);
}

#[test]
fn api_listen_defaults_to_loopback() {
    let config = parse_config("setpoint_c = 51.1\n").unwrap();
    assert_eq!(config.api_listen, "127.0.0.1:7786");

    let config = parse_config("setpoint_c = 51.1\napi_listen = \"0.0.0.0:8080\"\n").unwrap();
    assert!(config.api_listen.ends_with(":8080"));
}

#[test]
fn mujina_url_defaults_to_loopback_and_can_be_set() {
    let config = parse_config("setpoint_c = 51.1\n").unwrap();
    assert_eq!(config.mujina_url, "http://127.0.0.1:7785");

    let config = parse_config("setpoint_c = 51.1\nmujina_url = \"http://rig:7785\"\n").unwrap();
    assert_eq!(config.mujina_url, "http://rig:7785");
}

#[test]
fn probes_are_optional_but_checked_when_present() {
    let config = parse_config("setpoint_c = 51.1\n").unwrap();
    assert!(config.probes.probes.is_empty());

    let bad = "setpoint_c = 51.1\n[[probe]]\nname = \"x\"\nchannel = 9\n\
               divider_resistor = 1.0\na = 0.0\nb = 0.0\nc = 0.0\n";
    assert!(parse_config(bad).is_err());
}

#[test]
fn rejects_unknown_top_level_keys() {
    let err = parse_config("setpoint_c = 51.1\nsetpoint_f = 124.0\n").unwrap_err();
    assert!(err.contains("setpoint_f"), "{err}");
}

#[test]
fn rejects_missing_setpoint() {
    assert!(parse_config("").is_err());
}

#[test]
fn rejects_non_finite_setpoint() {
    assert!(parse_config("setpoint_c = inf\n").is_err());
}

#[test]
fn parses_probes_with_defaults() {
    let config = parse_probes(ONE).unwrap();
    assert_eq!(config.i2c_bus, "/dev/i2c-1");
    assert_eq!(f(config.vcc), 3.3);
    assert_eq!(config.names(), ["bath"]);
    assert_eq!(config.probes[0].channel, Channel::A0);
    assert_eq!(f(config.probes[0].offset_c), 0.0);
}

#[test]
fn open_and_short_are_faults() {
    assert_eq!(classify(d(0.0), d(3.3)), Err("open"));
    assert_eq!(classify(d(0.02), d(3.3)), Err("open"));
    assert_eq!(classify(d(3.29), d(3.3)), Err("shorted"));
    assert_eq!(classify(d(1.5), d(3.3)), Ok(d(1.5)));
}

#[test]
fn rejects_no_probes() {
    assert!(parse_probes("").is_err());
}

#[test]
fn rejects_unknown_keys() {
    let err = parse_probes(&ONE.replace("offset_c", "offset_f")).unwrap_err();
    assert!(err.contains("offset_f"), "{err}");
    let err = parse_probes(&format!("{ONE}\nresistor = 1.0\n")).unwrap_err();
    assert!(err.contains("resistor"), "{err}");
}

#[test]
fn rejects_vcc_channel_shared_with_a_probe() {
    let err = parse_probes(&format!("vcc_channel = 0\n{ONE}")).unwrap_err();
    assert!(err.contains("vcc_channel"), "{err}");
    assert!(parse_probes(&format!("vcc_channel = 3\n{ONE}")).is_ok());
}

#[test]
fn rejects_shared_channel() {
    let two = format!("{ONE}\n{}", ONE.replace("bath", "inlet"));
    let err = parse_probes(&two).unwrap_err();
    assert!(err.contains("share channel A0"), "{err}");
}

#[test]
fn rejects_channel_out_of_range() {
    assert!(parse_probes(&ONE.replace("channel = 0", "channel = 4")).is_err());
}

#[test]
fn each_refusal_has_its_words() {
    let why = |text: &str| parse_probes(text).unwrap_err();
    assert_eq!(why(""), "no probes configured");
    assert_eq!(why(&format!("vcc = 0\n{ONE}")), "vcc must be positive");
    assert_eq!(why(&ONE.replace("\"bath\"", "\"\"")), "probe 0 has no name");
    assert_eq!(
        why(&ONE.replace("10000.0", "-1")),
        "probe bath: divider_resistor must be positive"
    );
    assert_eq!(
        why(&format!("vcc_channel = 0\n{ONE}")),
        "probe bath shares channel A0 with vcc_channel"
    );
    let two = format!("{ONE}\n{}", ONE.replace("bath", "inlet"));
    assert_eq!(why(&two), "probes bath and inlet share channel A0");
    assert_eq!(
        parse_config("setpoint_c = nan\n").unwrap_err(),
        "setpoint_c must be a finite number"
    );
}

#[test]
fn each_flaw_of_a_document_is_named() {
    let set = |text: &str| format!("setpoint_c = 50.0\n{text}");
    let with = |from: &str, to: &str| flaw(&set(&ONE.replace(from, to)));
    assert_eq!(with("channel = 0", "channel = 4"), ReadError::Channel(4));
    assert_eq!(with("a = 1.0e-3", ""), ReadError::Missing("a".to_string()));
    assert_eq!(with("channel = 0", "channel = 0.0"), ReadError::Kind("channel".to_string()));
    assert_eq!(flaw("vcc = 3.3\n"), ReadError::Missing("setpoint_c".to_string()));
    assert_eq!(flaw("setpoint_c = \"x\"\n"), ReadError::Kind("setpoint_c".to_string()));
    assert_eq!(flaw(&set("probe = 3\n")), ReadError::Kind("probe".to_string()));
    assert_eq!(flaw(&set("[control]\nkd = 1.0\n")), ReadError::Unknown("kd".to_string()));
    assert_eq!(
        flaw(&set("api_listen = \"nonsense\"\n")),
        ReadError::Address("nonsense".to_string())
    );
    assert_eq!(flaw(&set("api_listen = 7786\n")), ReadError::Kind("api_listen".to_string()));
    // The first in the document is the one named.
    assert_eq!(flaw("z = 1\nvcc = \"x\"\n"), ReadError::Unknown("z".to_string()));
    assert_eq!(flaw("vcc = \"x\"\na = 1\n"), ReadError::Kind("vcc".to_string()));
}

#[test]
fn socket_addresses_are_told_from_other_texts() {
    for good in [
        "127.0.0.1:7786",
        "0.0.0.0:0",
        "255.255.255.255:65535",
        "1.2.3.4:00080",
        "[::]:80",
        "[::1]:7786",
        "[1:2:3:4:5:6:7:8]:1",
        "[1:2:3:4:5:6:7::]:1",
        "[::2:3:4:5:6:7:8]:1",
        "[fe80::1%4]:80",
        "[::ffff:1.2.3.4]:80",
        "[1:2:3:4:5:6:1.2.3.4]:80",
        "[ABCD::ef01]:80",
    ] {
        assert!(is_socket_address(good), "{good}");
    }
    for bad in [
        "",
        "nonsense",
        "127.0.0.1",
        "127.0.0.1:",
        "127.0.0.1:65536",
        "127.0.0.1:+80",
        "127.0.0.1:80 ",
        "127.0.0:80",
        "127.0.0.1.1:80",
        "127.0.0.01:80",
        "127.0.0.256:80",
        "localhost:80",
        "::1:80",
        "[::1]",
        "[::1]80",
        "[:::1]:80",
        "[1::2::3]:80",
        "[1:2:3:4:5:6:7]:80",
        "[1:2:3:4:5:6:7:8:9]:80",
        "[1:2:3:4::5:6:7:8]:80",
        "[12345::]:80",
        "[1.2.3.4::]:80",
        "[1:2:3:4:5:6:7:1.2.3.4]:80",
        "[fe80::1%eth0]:80",
        "[]:80",
    ] {
        assert!(!is_socket_address(bad), "{bad}");
    }
}

#[test]
fn gains_and_limits_have_tables_of_their_own() {
    let plain = parse_config("setpoint_c = 51\n").unwrap();
    assert_eq!(f(plain.setpoint_c), 51.0);
    assert_eq!((f(plain.gains.kp), f(plain.gains.ki)), (0.5, 0.0008));
    assert_eq!(f(plain.limits.max_bath_c), 90.0);
    let tuned =
        parse_config("setpoint_c = 51.1\n[control]\nkp = 1\n[limits]\nmax_bath_c = 80.5\n").unwrap();
    assert_eq!((f(tuned.gains.kp), f(tuned.gains.ki)), (1.0, 0.0008));
    assert_eq!(f(tuned.limits.max_bath_c), 80.5);
}

#[test]
fn a_supply_out_of_range_is_news_once() {
    let config = parse_probes(&format!("vcc = 3.25\nvcc_channel = 3\n{ONE}")).unwrap();
    let mut reader = Reader::new(&config);
    let good = reader.take_supply(&config, Some(d(3.3)));
    assert_eq!((f(good.vcc), good.report, good.news), (3.3, Some(d(3.3)), false));
    let bad = reader.take_supply(&config, Some(d(1.0)));
    assert_eq!((f(bad.vcc), bad.report, bad.news), (3.25, None, true));
    assert!(!reader.take_supply(&config, Some(d(4.0))).news);
    assert!(!reader.take_supply(&config, None).news);
    assert!(reader.take_supply(&config, Some(d(2.5))).news);
    assert_eq!(f(reader.take_supply(&config, Some(d(3.6))).vcc), 3.6);
}

#[test]
fn a_probe_fault_is_news_once_and_has_no_resistance() {
    let config = parse_probes(ONE).unwrap();
    let mut reader = Reader::new(&config);
    let r = reader.take_volts(&config, 0, d(1.5), d(3.3));
    assert_eq!((r.fault, r.news), (None, false));
    assert_eq!(r.ohms, Some(d(10_000.0 * (3.3 - 1.5) / 1.5)));
    let open = reader.take_volts(&config, 0, d(0.01), d(3.3));
    assert_eq!((open.fault, open.news, open.ohms), (Some(Wiring::Open), true, None));
    assert!(!reader.take_volts(&config, 0, d(0.02), d(3.3)).news);
    assert!(reader.take_volts(&config, 0, d(3.29), d(3.3)).news);
    assert!(reader.take_volts(&config, 0, d(1.5), d(3.3)).news);
}

#[test]
fn a_report_carries_the_offset() {
    let config = parse_probes(&ONE.replace("offset_c = 0.0", "offset_c = 0.25")).unwrap();
    let ln_r = 10_000f64.ln();
    let want = 1.0 / (1.0e-3 + 2.5e-4 * ln_r + 0.0 * ln_r.powi(3)) - 273.15 + 0.25;
    match report(&config, 0, d(1.5), Some(d(ln_r))) {
        Command::ProbeReading { index, volts, celsius } => {
            assert_eq!((index, volts, celsius), (0, Some(d(1.5)), Some(d(want))));
        }
        _ => panic!("a probe reading"),
    }
    match report(&config, 0, d(0.01), None) {
        Command::ProbeReading { celsius, .. } => assert_eq!(celsius, None),
        _ => panic!("a probe reading"),
    }
}

#[test]
fn a_failed_read_sends_nothing() {
    let config = parse_probes(ONE).unwrap();
    let mut reader = Reader::new(&config);
    assert!(reader.take_reading(&config, 0, Some(d(0.01)), d(3.3)).unwrap().news);
    assert_eq!(reader.take_reading(&config, 0, None, d(3.3)), None);
    assert!(sent(&config, 0, None, None).is_none());
    // The fault it showed before still stands.
    assert!(!reader.take_reading(&config, 0, Some(d(0.01)), d(3.3)).unwrap().news);
    let ln_r = d(10_000f64.ln());
    match sent(&config, 0, Some(d(1.5)), Some(ln_r)) {
        Some(Command::ProbeReading { index, volts, celsius }) => {
            assert_eq!((index, volts), (0, Some(d(1.5))));
            assert!(celsius.is_some());
        }
        _ => panic!("a probe reading"),
    }
}
