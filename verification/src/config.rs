//! The configuration: what the file may say, and what the daemon runs
//! with.
use vstd::arithmetic::power2::*;
use vstd::prelude::*;

use crate::adc::Channel;
use crate::address;
use crate::control;
use crate::control::{Gains, Limits};
use crate::document;
use crate::document::{Entry, ReadError, Schema, Value};
use crate::double::Double;
use crate::mujina;
use crate::order;
use crate::probes::{ProbeConfig, ProbesConfig, Problem};

verus! {

/// The nominal 3.3 V rail, as a double's bits; measure it for accuracy.
pub const DEFAULT_VCC: u64 = 0x400a_6666_6666_6666;

/// The configuration the daemon runs with.
#[derive(Debug, Clone, PartialEq)]
pub struct Config {
    /// Target bath temperature in degrees Celsius.
    pub setpoint_c: Double,
    /// Address the HTTP JSON API listens on.
    pub api_listen: String,
    /// Base URL of the miner's REST API.
    pub mujina_url: String,
    /// The ADC and its thermistors.
    pub probes: ProbesConfig,
    /// The control loop's tuning.
    pub gains: Gains,
    /// Where the fail-safe steps in.
    pub limits: Limits,
}

/// What is wrong with a configuration.
#[derive(Debug, Clone, Copy, PartialEq, Eq, Structural)]
pub enum ConfigError {
    /// The setpoint is not a finite number.
    SetpointNotFinite,
    /// The probes are not a possible setup.
    Probes(Problem),
}

/// Why a document gives no configuration.
#[derive(Debug, Clone, PartialEq)]
pub enum Refused {
    /// It is not made as a configuration is.
    Document(ReadError<String>),
    /// What it says cannot be, in words.
    Invalid(String),
}

/// The bus the ADC is on.
pub fn default_i2c_bus() -> (bus: String)
    ensures
        bus@ == "/dev/i2c-1"@,
{
    "/dev/i2c-1".to_string()
}

/// Loopback only; Mujina is on 7785 next door.
pub fn default_api_listen() -> (address: String)
    ensures
        address@ == "127.0.0.1:7786"@,
{
    "127.0.0.1:7786".to_string()
}

/// Where the miner's API is. Mujina binds to loopback on port 7785
/// unless told otherwise.
pub fn default_mujina_url() -> (url: String)
    ensures
        url@ == "http://127.0.0.1:7785"@,
{
    mujina::DEFAULT_URL.to_string()
}

/// The text under a key, or the default where it is not there.
pub open spec fn text_or(entries: Seq<Entry>, key: Seq<char>, default: Seq<char>) -> Seq<char> {
    match document::value_of(entries, key) {
        Some(v) => match document::as_text(v) {
            Some(t) => t,
            None => default,
        },
        None => default,
    }
}

/// The number under a key, or the default where it is not there.
pub open spec fn number_or(entries: Seq<Entry>, key: Seq<char>, default: u64) -> Double {
    match document::value_of(entries, key) {
        Some(v) => match document::as_number(v) {
            Some(x) => x,
            None => Double { bits: default },
        },
        None => Double { bits: default },
    }
}

/// The channel under a key, if it is there.
pub open spec fn channel_or_none(entries: Seq<Entry>, key: Seq<char>) -> Option<Channel> {
    match document::value_of(entries, key) {
        Some(v) => document::as_channel(v),
        None => None,
    }
}

/// The entries of the table under a key, or none where it is not there.
pub open spec fn table_or_empty(entries: Seq<Entry>, key: Seq<char>) -> Seq<Entry> {
    match document::value_of(entries, key) {
        Some(Value::Table(table)) => table@,
        _ => Seq::<Entry>::empty(),
    }
}

/// The probe tables, or none.
pub open spec fn probe_tables(entries: Seq<Entry>) -> Seq<Value> {
    match document::value_of(entries, "probe"@) {
        Some(Value::List(items)) => items@,
        _ => Seq::<Value>::empty(),
    }
}

/// Whether a probe is what its table says.
pub open spec fn probe_reads(probe: ProbeConfig, table: Value) -> bool {
    let entries = match table {
        Value::Table(entries) => entries@,
        _ => Seq::<Entry>::empty(),
    };
    &&& probe.name@ == text_or(entries, "name"@, ""@)
    &&& Some(probe.channel) == channel_or_none(entries, "channel"@)
    &&& probe.offset_c == number_or(entries, "offset_c"@, 0)
    &&& probe.divider_resistor == number_or(entries, "divider_resistor"@, 0)
    &&& probe.a == number_or(entries, "a"@, 0)
    &&& probe.b == number_or(entries, "b"@, 0)
    &&& probe.c == number_or(entries, "c"@, 0)
}

fn text_in(entries: &Vec<Entry>, key: &str, default: &str) -> (t: String)
    ensures
        t@ == text_or(entries@, key@, default@),
{
    match document::find(entries, key) {
        Some(v) => match v.text() {
            Some(t) => t,
            None => default.to_string(),
        },
        None => default.to_string(),
    }
}

fn number_in(entries: &Vec<Entry>, key: &str, default: u64) -> (x: Double)
    ensures
        x == number_or(entries@, key@, default),
{
    match document::find(entries, key) {
        Some(v) => match v.number() {
            Some(x) => x,
            None => Double { bits: default },
        },
        None => Double { bits: default },
    }
}

fn channel_in(entries: &Vec<Entry>, key: &str) -> (c: Option<Channel>)
    ensures
        c == channel_or_none(entries@, key@),
{
    match document::find(entries, key) {
        Some(v) => v.channel(),
        None => None,
    }
}

/// A table of which nothing is wrong has the channel it must have.
proof fn lemma_probe_has_channel(entries: Seq<Entry>)
    requires
        document::table_flaw(Schema::Probe, entries) is None,
    ensures
        channel_or_none(entries, "channel"@) is Some,
{
    let key = "channel"@;
    reveal_strlit("channel");
    reveal_strlit("name");
    assert(document::value_of(entries, key) is Some);
    lemma_entry_at(entries, key, 0);
    let i = document::entry_at(entries, key, 0)->Some_0;
    lemma_no_leaf_flaw(Schema::Probe, entries, 0, i);
    assert("channel"@[0] != "name"@[0]);
}

proof fn lemma_entry_at(entries: Seq<Entry>, key: Seq<char>, from: int)
    requires
        0 <= from,
    ensures
        document::entry_at(entries, key, from) matches Some(i) ==> from <= i < entries.len()
            && entries[i].key@ == key,
    decreases entries.len() - from,
{
    if from < entries.len() {
        lemma_entry_at(entries, key, from + 1);
    }
}

proof fn lemma_no_leaf_flaw(schema: Schema, entries: Seq<Entry>, from: int, i: int)
    requires
        document::leaves_flaw(schema, entries, from) is None,
        0 <= from <= i < entries.len(),
    ensures
        document::leaf_flaw(schema, entries[i]) is None,
    decreases i - from,
{
    if from < i {
        lemma_no_leaf_flaw(schema, entries, from + 1, i);
    }
}

/// The probe tables of a document of which nothing is wrong have
/// nothing wrong with them.
proof fn lemma_probes_are_sound(entries: Seq<Entry>, i: int)
    requires
        document::document_flaw(entries) is None,
        0 <= i < probe_tables(entries).len(),
    ensures
        probe_tables(entries)[i] matches Value::Table(table) && document::table_flaw(
            Schema::Probe,
            table@,
        ) is None,
{
    lemma_entry_at(entries, "probe"@, 0);
    let at = document::entry_at(entries, "probe"@, 0)->Some_0;
    document::lemma_a_sound_document_has_known_keys(entries, at);
    reveal_strlit("probe");
    reveal_strlit("setpoint_c");
    reveal_strlit("vcc");
    reveal_strlit("api_listen");
    reveal_strlit("mujina_url");
    reveal_strlit("i2c_bus");
    reveal_strlit("vcc_channel");
    assert("probe"@[0] != "setpoint_c"@[0]);
    assert("probe"@[0] != "vcc"@[0]);
    assert("probe"@[0] != "api_listen"@[0]);
    assert("probe"@[0] != "mujina_url"@[0]);
    assert("probe"@[0] != "i2c_bus"@[0]);
    assert("probe"@[0] != "vcc_channel"@[0]);
    lemma_no_probe_flaw(probe_tables(entries), 0, i);
}

proof fn lemma_no_probe_flaw(items: Seq<Value>, from: int, i: int)
    requires
        document::probes_flaw(items, from) is None,
        0 <= from <= i < items.len(),
    ensures
        items[i] matches Value::Table(table) && document::table_flaw(Schema::Probe, table@) is None,
    decreases i - from,
{
    if from < i {
        lemma_no_probe_flaw(items, from + 1, i);
    }
}

fn read_probe(entries: &Vec<Entry>) -> (p: ProbeConfig)
    requires
        document::table_flaw(Schema::Probe, entries@) is None,
    ensures
        forall|table: Value| table == Value::Table(*entries) ==> #[trigger] probe_reads(p, table),
{
    proof {
        lemma_probe_has_channel(entries@);
    }
    let channel = match channel_in(entries, "channel") {
        Some(c) => c,
        None => Channel::A0,
    };
    ProbeConfig {
        name: text_in(entries, "name", ""),
        channel,
        offset_c: number_in(entries, "offset_c", 0),
        divider_resistor: number_in(entries, "divider_resistor", 0),
        a: number_in(entries, "a", 0),
        b: number_in(entries, "b", 0),
        c: number_in(entries, "c", 0),
    }
}

/// What is wrong with a configuration: the setpoint, then the probes.
/// The probe list may be empty; the daemon requires it only when it
/// reads the ADC.
pub open spec fn config_problem(setpoint_c: Double, probes: ProbesConfig) -> Option<ConfigError> {
    if !setpoint_c.is_finite() {
        Some(ConfigError::SetpointNotFinite)
    } else if probes.probes@.len() > 0 {
        match probes.problem() {
            Some(p) => Some(ConfigError::Probes(p)),
            None => None,
        }
    } else {
        None
    }
}

impl Config {
    /// Whether this is what a document says, with the defaults filled
    /// in.
    pub open spec fn reads(self, entries: Seq<Entry>) -> bool {
        let control = table_or_empty(entries, "control"@);
        let limits = table_or_empty(entries, "limits"@);
        let probes = probe_tables(entries);
        &&& self.setpoint_c == number_or(entries, "setpoint_c"@, 0)
        &&& self.api_listen@ == text_or(entries, "api_listen"@, "127.0.0.1:7786"@)
        &&& self.mujina_url@ == text_or(entries, "mujina_url"@, "http://127.0.0.1:7785"@)
        &&& self.probes.i2c_bus@ == text_or(entries, "i2c_bus"@, "/dev/i2c-1"@)
        &&& self.probes.vcc == number_or(entries, "vcc"@, DEFAULT_VCC)
        &&& self.probes.vcc_channel == channel_or_none(entries, "vcc_channel"@)
        &&& self.gains.kp == number_or(control, "kp"@, control::DEFAULT_KP)
        &&& self.gains.ki == number_or(control, "ki"@, control::DEFAULT_KI)
        &&& self.limits.max_bath_c == number_or(limits, "max_bath_c"@, control::DEFAULT_MAX_BATH_C)
        &&& self.probes.probes@.len() == probes.len()
        &&& forall|i: int|
            0 <= i < probes.len() ==> probe_reads(#[trigger] self.probes.probes@[i], probes[i])
    }

    /// Reads a document of which nothing is wrong, and fills in the
    /// defaults.
    fn read(entries: &Vec<Entry>) -> (config: Self)
        requires
            document::document_flaw(entries@) is None,
        ensures
            config.reads(entries@),
    {
        let mut probes: Vec<ProbeConfig> = Vec::new();
        match document::find(entries, "probe") {
            Some(Value::List(items)) => {
                let mut i: usize = 0;
                while i < items.len()
                    invariant
                        i <= items@.len(),
                        probe_tables(entries@) == items@,
                        document::document_flaw(entries@) is None,
                        probes@.len() == i,
                        forall|k: int|
                            0 <= k < i ==> probe_reads(#[trigger] probes@[k], items@[k]),
                    decreases items@.len() - i,
                {
                    proof {
                        lemma_probes_are_sound(entries@, i as int);
                    }
                    match &items[i] {
                        Value::Table(table) => {
                            let probe = read_probe(table);
                            assert(probe_reads(probe, items@[i as int]));
                            probes.push(probe);
                        },
                        _ => {},
                    }
                    i = i + 1;
                }
            },
            _ => {},
        }
        let gains = match document::find(entries, "control") {
            Some(Value::Table(table)) => Gains {
                kp: number_in(table, "kp", control::DEFAULT_KP),
                ki: number_in(table, "ki", control::DEFAULT_KI),
            },
            _ => Gains::default(),
        };
        let limits = match document::find(entries, "limits") {
            Some(Value::Table(table)) => Limits {
                max_bath_c: number_in(table, "max_bath_c", control::DEFAULT_MAX_BATH_C),
            },
            _ => Limits::default(),
        };
        Config {
            setpoint_c: number_in(entries, "setpoint_c", 0),
            api_listen: text_in(entries, "api_listen", default_api_listen().as_str()),
            mujina_url: text_in(entries, "mujina_url", default_mujina_url().as_str()),
            probes: ProbesConfig {
                i2c_bus: text_in(entries, "i2c_bus", default_i2c_bus().as_str()),
                vcc: number_in(entries, "vcc", DEFAULT_VCC),
                vcc_channel: channel_in(entries, "vcc_channel"),
                probes,
            },
            gains,
            limits,
        }
    }

    /// Rejects a setpoint that is not a number and an impossible setup
    /// of probes.
    pub fn validate(&self) -> (r: Result<(), ConfigError>)
        ensures
            r == match config_problem(self.setpoint_c, self.probes) {
                Some(e) => Err::<(), ConfigError>(e),
                None => Ok(()),
            },
    {
        if !self.setpoint_c.is_finite() {
            return Err(ConfigError::SetpointNotFinite);
        }
        if self.probes.probes.len() > 0 {
            match self.probes.validate() {
                Ok(()) => {},
                Err(p) => {
                    return Err(ConfigError::Probes(p));
                },
            }
        }
        Ok(())
    }

    /// What is wrong with this configuration, in words.
    pub fn describe(&self, error: ConfigError) -> (text: String)
        requires
            error matches ConfigError::Probes(p) ==> self.probes.has_probes_of(p),
        ensures
            text@ == self.error_text(error),
    {
        match error {
            ConfigError::SetpointNotFinite => "setpoint_c must be a finite number".to_string(),
            ConfigError::Probes(p) => self.probes.describe(p),
        }
    }

    /// What is wrong with this configuration, in words.
    pub open spec fn error_text(self, error: ConfigError) -> Seq<char> {
        match error {
            ConfigError::SetpointNotFinite => "setpoint_c must be a finite number"@,
            ConfigError::Probes(p) => self.probes.problem_text(p),
        }
    }

    /// Reads and validates a document: the configuration, or the reason
    /// it is refused. The probe list may be empty here; the daemon
    /// requires it only when it reads the ADC.
    pub fn parse(entries: &Vec<Entry>) -> (r: Result<Config, Refused>)
        ensures
            match document::document_flaw(entries@) {
                Some(flaw) => r matches Err(Refused::Document(e)) && e.model() == flaw,
                None => {
                    &&& r matches Ok(config) ==> config.reads(entries@) && config_problem(
                        config.setpoint_c,
                        config.probes,
                    ) is None && address::is_socket_address_spec(config.api_listen@)
                    &&& forall|c: Config| #[trigger]
                        c.reads(entries@) ==> match config_problem(c.setpoint_c, c.probes) {
                            None => r is Ok,
                            Some(e) => r matches Err(Refused::Invalid(why)) && why@
                                == c.error_text(e),
                        }
                },
            },
    {
        match document::check(entries) {
            Ok(()) => {},
            Err(e) => {
                return Err(Refused::Document(e));
            },
        }
        let config = Self::read(entries);
        proof {
            lemma_the_listening_address_is_one(config, entries@);
            crate::probes::lemma_problem_has_its_probes(config.probes);
            assert forall|c: Config| #[trigger] c.reads(entries@) implies config_problem(
                c.setpoint_c,
                c.probes,
            ) == config_problem(config.setpoint_c, config.probes) && forall|e: ConfigError|
                (e matches ConfigError::Probes(p) ==> config.probes.has_probes_of(p))
                    ==> #[trigger] c.error_text(e) == config.error_text(e) by {
                lemma_same_problem(c, config, entries@);
            }
        }
        match config.validate() {
            Ok(()) => Ok(config),
            Err(e) => {
                let why = config.describe(e);
                Err(Refused::Invalid(why))
            },
        }
    }
}

/// The address that a sound document gives to listen on, or leaves to
/// the default, is a socket address.
pub proof fn lemma_the_listening_address_is_one(config: Config, entries: Seq<Entry>)
    requires
        document::document_flaw(entries) is None,
        config.reads(entries),
    ensures
        address::is_socket_address_spec(config.api_listen@),
{
    lemma_the_default_address_is_one();
    lemma_entry_at(entries, "api_listen"@, 0);
    if let Some(at) = document::entry_at(entries, "api_listen"@, 0) {
        document::lemma_a_sound_document_has_known_keys(entries, at);
        reveal_strlit("setpoint_c");
        reveal_strlit("vcc");
        reveal_strlit("api_listen");
        assert("api_listen"@[0] != "setpoint_c"@[0]);
        assert("api_listen"@[0] != "vcc"@[0]);
    }
}

/// The default address is a socket address.
proof fn lemma_the_default_address_is_one()
    ensures
        address::is_socket_address_spec("127.0.0.1:7786"@),
{
    reveal_strlit("127.0.0.1:7786");
    let s = "127.0.0.1:7786"@;
    reveal_with_fuel(crate::wording::place_of, 11);
    reveal_with_fuel(address::value, 5);
    assert(crate::wording::place_of(s, ':', 0) == Some(9int));
    let host = s.take(9);
    let port = s.skip(10);
    assert(port.drop_last().drop_last().drop_last().drop_last().len() == 0);
    assert(address::value(port) == 7786);
    let host2 = host.skip(4);
    let host3 = host2.skip(2);
    let host4 = host3.skip(2);
    assert(crate::wording::place_of(host, '.', 0) == Some(3int));
    assert(crate::wording::place_of(host2, '.', 0) == Some(1int));
    assert(crate::wording::place_of(host3, '.', 0) == Some(1int));
    assert(crate::wording::place_of(host4, '.', 0) is None);
    let first = host.take(3);
    assert(first.drop_last().drop_last().drop_last().len() == 0);
    assert(address::value(first) == 127);
    assert(host2.take(1).drop_last().len() == 0);
    assert(host3.take(1).drop_last().len() == 0);
    assert(host4.drop_last().len() == 0);
    assert(address::is_octet_spec(first));
    assert(address::is_octet_spec(host2.take(1)));
    assert(address::is_octet_spec(host3.take(1)));
    assert(address::is_octet_spec(host4));
    reveal_with_fuel(address::are_octets, 5);
    assert(address::are_octets(host4, 1));
    assert(address::are_octets(host3, 2));
    assert(address::are_octets(host2, 3));
    assert(address::are_octets(host, 4));
}

/// What two configurations that read the same document have in common
/// decides what is wrong with them.
proof fn lemma_same_problem(a: Config, b: Config, entries: Seq<Entry>)
    requires
        a.reads(entries),
        b.reads(entries),
    ensures
        config_problem(a.setpoint_c, a.probes) == config_problem(b.setpoint_c, b.probes),
        forall|e: ConfigError|
            (e matches ConfigError::Probes(p) ==> b.probes.has_probes_of(p))
                ==> #[trigger] a.error_text(e) == b.error_text(e),
{
    let n = probe_tables(entries).len();
    assert forall|i: int| 0 <= i < n implies {
        &&& (#[trigger] a.probes.probes@[i]).name@ == b.probes.probes@[i].name@
        &&& a.probes.probes@[i].channel == b.probes.probes@[i].channel
        &&& a.probes.probes@[i].divider_resistor == b.probes.probes@[i].divider_resistor
    } by {
        assert(probe_reads(a.probes.probes@[i], probe_tables(entries)[i]));
        assert(probe_reads(b.probes.probes@[i], probe_tables(entries)[i]));
    }
    lemma_same_problem_from(a.probes, b.probes, 0);
}

proof fn lemma_same_problem_from(a: ProbesConfig, b: ProbesConfig, i: int)
    requires
        0 <= i,
        a.vcc_channel == b.vcc_channel,
        a.probes@.len() == b.probes@.len(),
        forall|k: int|
            0 <= k < a.probes@.len() ==> {
                &&& (#[trigger] a.probes@[k]).name@ == b.probes@[k].name@
                &&& a.probes@[k].channel == b.probes@[k].channel
                &&& a.probes@[k].divider_resistor == b.probes@[k].divider_resistor
            },
    ensures
        a.problem_from(i) == b.problem_from(i),
    decreases a.probes@.len() - i,
{
    if i < a.probes@.len() {
        lemma_same_sharing(a, b, i, 0);
        lemma_same_problem_from(a, b, i + 1);
    }
}

proof fn lemma_same_sharing(a: ProbesConfig, b: ProbesConfig, i: int, j: int)
    requires
        0 <= j,
        0 <= i < a.probes@.len(),
        a.probes@.len() == b.probes@.len(),
        forall|k: int|
            0 <= k < a.probes@.len() ==> (#[trigger] a.probes@[k]).channel == b.probes@[k].channel,
    ensures
        crate::probes::sharing(a.probes@, i, j) == crate::probes::sharing(b.probes@, i, j),
    decreases i - j,
{
    if j < i {
        lemma_same_sharing(a, b, i, j + 1);
    }
}

// What each key decides.
/// Whether a value is this number: as written, or, of a whole number,
/// the double of that value.
pub open spec fn says(value: Value, x: Double) -> bool {
    match value {
        Value::Float(y) => x == y,
        Value::Integer(n) => -0x20_0000_0000_0000 < n < 0x20_0000_0000_0000 ==> x.is_finite()
            && order::units(x) == n * pow2(1074),
        _ => true,
    }
}

/// Whether a value is this channel, by its number.
pub open spec fn names(value: Value, channel: Channel) -> bool {
    value matches Value::Integer(n) ==> match channel {
        Channel::A0 => n == 0,
        Channel::A1 => n == 1,
        Channel::A2 => n == 2,
        Channel::A3 => n == 3,
    }
}

proof fn lemma_number_under(entries: Seq<Entry>, key: Seq<char>, default: u64, i: int)
    ensures
        document::first_at(entries, key, i) ==> says(
            entries[i].value,
            number_or(entries, key, default),
        ),
        document::absent(entries, key) ==> number_or(entries, key, default) == (Double {
            bits: default,
        }),
{
    document::lemma_a_value_is_found_by_its_key(entries, key, i);
    if document::first_at(entries, key, i) {
        if let Value::Integer(n) = entries[i].value {
            if -0x20_0000_0000_0000 < n < 0x20_0000_0000_0000 {
                order::lemma_of_is_exact(n as int);
            }
        }
    }
}

/// Each key of the document decides what is named after it, and where
/// it is not there its default stands.
#[verifier::rlimit(50)]
pub proof fn lemma_each_key_decides_its_own(config: Config, entries: Seq<Entry>, i: int)
    requires
        config.reads(entries),
    ensures
        document::first_at(entries, "setpoint_c"@, i) ==> says(
            entries[i].value,
            config.setpoint_c,
        ),
        document::first_at(entries, "vcc"@, i) ==> says(entries[i].value, config.probes.vcc),
        document::absent(entries, "vcc"@) ==> config.probes.vcc == (Double { bits: 0x400a_6666_6666_6666 }),
        document::first_at(entries, "api_listen"@, i) && entries[i].value is Text ==> config.api_listen@
            == entries[i].value->Text_0@,
        document::absent(entries, "api_listen"@) ==> config.api_listen@ == "127.0.0.1:7786"@,
        document::first_at(entries, "mujina_url"@, i) && entries[i].value is Text ==> config.mujina_url@
            == entries[i].value->Text_0@,
        document::absent(entries, "mujina_url"@) ==> config.mujina_url@ == "http://127.0.0.1:7785"@,
        document::first_at(entries, "i2c_bus"@, i) && entries[i].value is Text ==> config.probes.i2c_bus@
            == entries[i].value->Text_0@,
        document::absent(entries, "i2c_bus"@) ==> config.probes.i2c_bus@ == "/dev/i2c-1"@,
        document::first_at(entries, "vcc_channel"@, i) ==> match config.probes.vcc_channel {
            Some(channel) => names(entries[i].value, channel),
            None => !(entries[i].value matches Value::Integer(n) && 0 <= n <= 3),
        },
        document::absent(entries, "vcc_channel"@) ==> config.probes.vcc_channel is None,
        document::first_at(entries, "probe"@, i) && entries[i].value is List
            ==> config.probes.probes@.len() == entries[i].value->List_0@.len(),
        document::absent(entries, "probe"@) ==> config.probes.probes@.len() == 0,
{
    lemma_number_under(entries, "setpoint_c"@, 0, i);
    lemma_number_under(entries, "vcc"@, DEFAULT_VCC, i);
    document::lemma_a_value_is_found_by_its_key(entries, "api_listen"@, i);
    document::lemma_a_value_is_found_by_its_key(entries, "mujina_url"@, i);
    document::lemma_a_value_is_found_by_its_key(entries, "i2c_bus"@, i);
    document::lemma_a_value_is_found_by_its_key(entries, "vcc_channel"@, i);
    document::lemma_a_value_is_found_by_its_key(entries, "probe"@, i);
}

/// Each key of the loop's table and of the limits' decides what is named
/// after it, and where it or the table is not there its default stands.
pub proof fn lemma_the_tuning_is_read(
    config: Config,
    entries: Seq<Entry>,
    at: int,
    table: Vec<Entry>,
    i: int,
)
    requires
        config.reads(entries),
    ensures
        document::first_at(entries, "control"@, at) && entries[at].value == Value::Table(table)
            ==> {
            &&& document::first_at(table@, "kp"@, i) ==> says(table@[i].value, config.gains.kp)
            &&& document::first_at(table@, "ki"@, i) ==> says(table@[i].value, config.gains.ki)
            &&& document::absent(table@, "kp"@) ==> config.gains.kp.bits == 0x3fe0_0000_0000_0000
            &&& document::absent(table@, "ki"@) ==> config.gains.ki.bits == 0x3f4a_36e2_eb1c_432d
        },
        document::absent(entries, "control"@) ==> config.gains.kp.bits == 0x3fe0_0000_0000_0000
            && config.gains.ki.bits == 0x3f4a_36e2_eb1c_432d,
        document::first_at(entries, "limits"@, at) && entries[at].value == Value::Table(table)
            ==> {
            &&& document::first_at(table@, "max_bath_c"@, i) ==> says(
                table@[i].value,
                config.limits.max_bath_c,
            )
            &&& document::absent(table@, "max_bath_c"@) ==> config.limits.max_bath_c.bits
                == 0x4056_8000_0000_0000
        },
        document::absent(entries, "limits"@) ==> config.limits.max_bath_c.bits
            == 0x4056_8000_0000_0000,
{
    document::lemma_a_value_is_found_by_its_key(entries, "control"@, at);
    document::lemma_a_value_is_found_by_its_key(entries, "limits"@, at);
    lemma_number_under(table@, "kp"@, control::DEFAULT_KP, i);
    lemma_number_under(table@, "ki"@, control::DEFAULT_KI, i);
    lemma_number_under(table@, "max_bath_c"@, control::DEFAULT_MAX_BATH_C, i);
}

/// Each key of a probe's table decides what is named after it, of the
/// probe that stands at the table's place; without an offset it is
/// zero.
#[verifier::rlimit(50)]
pub proof fn lemma_each_probe_is_its_table(
    config: Config,
    entries: Seq<Entry>,
    at: int,
    items: Vec<Value>,
    k: int,
    table: Vec<Entry>,
    i: int,
)
    requires
        config.reads(entries),
        document::first_at(entries, "probe"@, at),
        entries[at].value == Value::List(items),
        0 <= k < items@.len(),
        items@[k] == Value::Table(table),
    ensures
        ({
            let probe = config.probes.probes@[k];
            &&& document::first_at(table@, "name"@, i) && table@[i].value is Text ==> probe.name@
                == table@[i].value->Text_0@
            &&& document::first_at(table@, "channel"@, i) ==> names(table@[i].value, probe.channel)
            &&& document::first_at(table@, "offset_c"@, i) ==> says(table@[i].value, probe.offset_c)
            &&& document::absent(table@, "offset_c"@) ==> probe.offset_c.bits == 0
            &&& document::first_at(table@, "divider_resistor"@, i) ==> says(
                table@[i].value,
                probe.divider_resistor,
            )
            &&& document::first_at(table@, "a"@, i) ==> says(table@[i].value, probe.a)
            &&& document::first_at(table@, "b"@, i) ==> says(table@[i].value, probe.b)
            &&& document::first_at(table@, "c"@, i) ==> says(table@[i].value, probe.c)
        }),
{
    document::lemma_a_value_is_found_by_its_key(entries, "probe"@, at);
    let probe = config.probes.probes@[k];
    assert(probe_reads(probe, items@[k]));
    document::lemma_a_value_is_found_by_its_key(table@, "name"@, i);
    document::lemma_a_value_is_found_by_its_key(table@, "channel"@, i);
    lemma_number_under(table@, "offset_c"@, 0, i);
    lemma_number_under(table@, "divider_resistor"@, 0, i);
    lemma_number_under(table@, "a"@, 0, i);
    lemma_number_under(table@, "b"@, 0, i);
    lemma_number_under(table@, "c"@, 0, i);
}

/// Of two probe tables that differ only in one number, each read as a
/// probe, the probes have those two numbers under the key, and are
/// otherwise alike.
#[verifier::rlimit(50)]
pub proof fn lemma_one_number_changes_one_reading(
    p: ProbeConfig,
    q: ProbeConfig,
    one: Vec<Entry>,
    other: Vec<Entry>,
    i: int,
    x: Double,
    y: Double,
)
    requires
        probe_reads(p, Value::Table(one)),
        probe_reads(q, Value::Table(other)),
        one@.len() == other@.len(),
        document::first_at(one@, one@[i].key@, i),
        one@[i].value == Value::Float(x),
        other@[i].value == Value::Float(y),
        one@[i].key@ == other@[i].key@,
        forall|j: int| 0 <= j < one@.len() && j != i ==> #[trigger] one@[j] == other@[j],
        document::may_stand_in_a_probe(one@[i]),
    ensures
        p.name@ == q.name@,
        p.channel == q.channel,
        ({
            let key = one@[i].key@;
            &&& if key == "offset_c"@ {
                p.offset_c == x && q.offset_c == y
            } else {
                p.offset_c == q.offset_c
            }
            &&& if key == "divider_resistor"@ {
                p.divider_resistor == x && q.divider_resistor == y
            } else {
                p.divider_resistor == q.divider_resistor
            }
            &&& if key == "a"@ {
                p.a == x && q.a == y
            } else {
                p.a == q.a
            }
            &&& if key == "b"@ {
                p.b == x && q.b == y
            } else {
                p.b == q.b
            }
            &&& if key == "c"@ {
                p.c == x && q.c == y
            } else {
                p.c == q.c
            }
        }),
{
    let key = one@[i].key@;
    assert forall|j: int| 0 <= j < one@.len() implies (#[trigger] one@[j]).key@ == other@[j].key@ by {}
    assert(document::first_at(other@, key, i)) by {
        assert forall|j: int| 0 <= j < i implies (#[trigger] other@[j]).key@ != key by {
            assert(one@[j].key@ != key);
        }
    }
    lemma_same_or_given(one@, other@, "name"@, i);
    lemma_same_or_given(one@, other@, "channel"@, i);
    lemma_same_or_given(one@, other@, "offset_c"@, i);
    lemma_same_or_given(one@, other@, "divider_resistor"@, i);
    lemma_same_or_given(one@, other@, "a"@, i);
    lemma_same_or_given(one@, other@, "b"@, i);
    lemma_same_or_given(one@, other@, "c"@, i);
}

proof fn lemma_same_or_given(one: Seq<Entry>, other: Seq<Entry>, key: Seq<char>, i: int)
    requires
        one.len() == other.len(),
        document::first_at(one, one[i].key@, i),
        document::first_at(other, one[i].key@, i),
        forall|j: int| 0 <= j < one.len() && j != i ==> #[trigger] one[j] == other[j],
    ensures
        key == one[i].key@ ==> document::value_of(one, key) == Some(one[i].value)
            && document::value_of(other, key) == Some(other[i].value),
        key != one[i].key@ ==> document::value_of(one, key) == document::value_of(other, key),
{
    if key == one[i].key@ {
        document::lemma_a_value_is_found_by_its_key(one, key, i);
        document::lemma_a_value_is_found_by_its_key(other, key, i);
    } else {
        lemma_found_alike(one, other, key, i, 0);
        lemma_entry_at(one, key, 0);
    }
}

proof fn lemma_found_alike(
    one: Seq<Entry>,
    other: Seq<Entry>,
    key: Seq<char>,
    i: int,
    from: int,
)
    requires
        one.len() == other.len(),
        0 <= i < one.len(),
        one[i].key@ == other[i].key@,
        one[i].key@ != key,
        forall|j: int| 0 <= j < one.len() && j != i ==> #[trigger] one[j] == other[j],
        0 <= from,
    ensures
        document::entry_at(one, key, from) == document::entry_at(other, key, from),
    decreases one.len() - from,
{
    if from < one.len() {
        if from != i {
            assert(one[from] == other[from]);
        }
        lemma_found_alike(one, other, key, i, from + 1);
    }
}

/// A setpoint that is no finite number is refused for that, and one
/// that is, is never.
pub proof fn lemma_a_setpoint_is_finite(setpoint_c: Double, probes: ProbesConfig)
    ensures
        config_problem(setpoint_c, probes) == Some(ConfigError::SetpointNotFinite) <==> !(
        setpoint_c.is_finite()),
        setpoint_c.is_finite() && probes.probes@.len() == 0 ==> config_problem(
            setpoint_c,
            probes,
        ) is None,
{
}

/// What is wrong is said in words, with the probes' names and the
/// inputs they are on.
pub proof fn lemma_what_is_said_of_a_problem(config: Config, i: usize, j: usize)
    ensures
        ({
            let probes = config.probes.probes@;
            let (p, q) = (probes[i as int], probes[j as int]);
            let on = "A"@ + crate::wording::digits(p.channel.number() as nat);
            let said = |problem: Problem| config.error_text(ConfigError::Probes(problem));
            &&& config.error_text(ConfigError::SetpointNotFinite)
                == "setpoint_c must be a finite number"@
            &&& said(Problem::NoProbes) == "no probes configured"@
            &&& said(Problem::VccNotPositive) == "vcc must be positive"@
            &&& said(Problem::Unnamed(i)) == "probe "@ + crate::wording::digits(i as nat)
                + " has no name"@
            &&& said(Problem::ResistorNotPositive(i)) == "probe "@ + p.name@
                + ": divider_resistor must be positive"@
            &&& said(Problem::OnVccChannel(i)) == "probe "@ + p.name@ + " shares channel "@ + on
                + " with vcc_channel"@
            &&& said(Problem::SharedChannel(j, i)) == "probes "@ + q.name@ + " and "@ + p.name@
                + " share channel "@ + on
        }),
{
}

} // verus!
