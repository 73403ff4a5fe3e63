//! A configuration document: tables of keys and values, as TOML has
//! them, and the keys each table may hold.
//!
//! Unknown keys are an error, so a misspelled or misplaced key stops
//! the daemon instead of being ignored.
use vstd::prelude::*;

use crate::adc::Channel;
use crate::address;
use crate::double::Double;
use crate::wording;

verus! {

/// A value of a document.
#[derive(Debug, PartialEq)]
pub enum Value {
    Integer(i64),
    Float(Double),
    Text(String),
    List(Vec<Value>),
    Table(Vec<Entry>),
    /// A boolean or a date.
    Other,
}

/// A key and its value. A table has each key once.
#[derive(Debug, PartialEq)]
pub struct Entry {
    pub key: String,
    pub value: Value,
}

/// The tables a configuration has.
#[derive(Debug, Clone, Copy, PartialEq, Eq, Structural)]
pub enum Schema {
    Top,
    Probe,
    Control,
    Limits,
}

/// What a key holds.
#[derive(Debug, Clone, Copy, PartialEq, Eq, Structural)]
pub enum Kind {
    Number,
    Text,
    Address,
    Channel,
    Probes,
    Control,
    Limits,
    Unknown,
}

/// What a key holds in a table.
pub open spec fn kind_spec(schema: Schema, key: Seq<char>) -> Kind {
    match schema {
        Schema::Top => if key == "setpoint_c"@ || key == "vcc"@ {
            Kind::Number
        } else if key == "api_listen"@ {
            Kind::Address
        } else if key == "mujina_url"@ || key == "i2c_bus"@ {
            Kind::Text
        } else if key == "vcc_channel"@ {
            Kind::Channel
        } else if key == "probe"@ {
            Kind::Probes
        } else if key == "control"@ {
            Kind::Control
        } else if key == "limits"@ {
            Kind::Limits
        } else {
            Kind::Unknown
        },
        Schema::Probe => if key == "name"@ {
            Kind::Text
        } else if key == "channel"@ {
            Kind::Channel
        } else if key == "offset_c"@ || key == "divider_resistor"@ || key == "a"@ || key == "b"@
            || key == "c"@ {
            Kind::Number
        } else {
            Kind::Unknown
        },
        Schema::Control => if key == "kp"@ || key == "ki"@ {
            Kind::Number
        } else {
            Kind::Unknown
        },
        Schema::Limits => if key == "max_bath_c"@ {
            Kind::Number
        } else {
            Kind::Unknown
        },
    }
}

/// What a key holds in a table.
pub fn kind_of(schema: Schema, key: &str) -> (k: Kind)
    ensures
        k == kind_spec(schema, key@),
{
    match schema {
        Schema::Top => if wording::same(key, "setpoint_c") || wording::same(key, "vcc") {
            Kind::Number
        } else if wording::same(key, "api_listen") {
            Kind::Address
        } else if wording::same(key, "mujina_url") || wording::same(key, "i2c_bus") {
            Kind::Text
        } else if wording::same(key, "vcc_channel") {
            Kind::Channel
        } else if wording::same(key, "probe") {
            Kind::Probes
        } else if wording::same(key, "control") {
            Kind::Control
        } else if wording::same(key, "limits") {
            Kind::Limits
        } else {
            Kind::Unknown
        },
        Schema::Probe => if wording::same(key, "name") {
            Kind::Text
        } else if wording::same(key, "channel") {
            Kind::Channel
        } else if wording::same(key, "offset_c") || wording::same(key, "divider_resistor")
            || wording::same(key, "a") || wording::same(key, "b") || wording::same(key, "c") {
            Kind::Number
        } else {
            Kind::Unknown
        },
        Schema::Control => if wording::same(key, "kp") || wording::same(key, "ki") {
            Kind::Number
        } else {
            Kind::Unknown
        },
        Schema::Limits => if wording::same(key, "max_bath_c") {
            Kind::Number
        } else {
            Kind::Unknown
        },
    }
}

/// What is wrong with a document, its keys of type `T`.
#[derive(Debug, Clone, PartialEq)]
pub enum ReadError<T> {
    /// A key that the table does not have.
    Unknown(T),
    /// A key whose value is of another kind.
    Kind(T),
    /// A channel that the ADC does not have.
    Channel(u8),
    /// A text that is no socket address.
    Address(T),
    /// A key that is not there and has no default.
    Missing(T),
}

/// What is wrong, with the keys as sequences of characters.
pub type Flaw = ReadError<Seq<char>>;

impl ReadError<String> {
    pub open spec fn model(self) -> Flaw {
        match self {
            ReadError::Unknown(k) => ReadError::Unknown(k@),
            ReadError::Kind(k) => ReadError::Kind(k@),
            ReadError::Channel(n) => ReadError::Channel(n),
            ReadError::Address(t) => ReadError::Address(t@),
            ReadError::Missing(k) => ReadError::Missing(k@),
        }
    }
}

// Values.
/// The number a value is; an integer is the double nearest to it.
pub open spec fn as_number(value: Value) -> Option<Double> {
    match value {
        Value::Integer(n) => Some(Double::of_spec(n as int)),
        Value::Float(x) => Some(x),
        _ => None,
    }
}

/// The text a value is.
pub open spec fn as_text(value: Value) -> Option<Seq<char>> {
    match value {
        Value::Text(t) => Some(t@),
        _ => None,
    }
}

/// The channel a value is.
pub open spec fn as_channel(value: Value) -> Option<Channel> {
    match value {
        Value::Integer(n) => if n == 0 {
            Some(Channel::A0)
        } else if n == 1 {
            Some(Channel::A1)
        } else if n == 2 {
            Some(Channel::A2)
        } else if n == 3 {
            Some(Channel::A3)
        } else {
            None
        },
        _ => None,
    }
}

impl Value {
    /// The number a value is.
    pub fn number(&self) -> (x: Option<Double>)
        ensures
            x == as_number(*self),
    {
        match self {
            Value::Integer(n) => Some(Double::of(*n)),
            Value::Float(x) => Some(*x),
            _ => None,
        }
    }

    /// The text a value is.
    pub fn text(&self) -> (t: Option<String>)
        ensures
            match t {
                Some(t) => as_text(*self) == Some(t@),
                None => as_text(*self) is None,
            },
    {
        match self {
            Value::Text(t) => Some(t.clone()),
            _ => None,
        }
    }

    /// The channel a value is.
    pub fn channel(&self) -> (c: Option<Channel>)
        ensures
            c == as_channel(*self),
    {
        match self {
            Value::Integer(0) => Some(Channel::A0),
            Value::Integer(1) => Some(Channel::A1),
            Value::Integer(2) => Some(Channel::A2),
            Value::Integer(3) => Some(Channel::A3),
            _ => None,
        }
    }
}

// Tables.
/// Where a key first is in a table, from `i` up.
pub open spec fn entry_at(entries: Seq<Entry>, key: Seq<char>, i: int) -> Option<int>
    decreases entries.len() - i,
{
    if i >= entries.len() {
        None
    } else if entries[i].key@ == key {
        Some(i)
    } else {
        entry_at(entries, key, i + 1)
    }
}

/// A key's value in a table.
pub open spec fn value_of(entries: Seq<Entry>, key: Seq<char>) -> Option<Value> {
    match entry_at(entries, key, 0) {
        Some(i) => Some(entries[i].value),
        None => None,
    }
}

/// A key's value in a table.
pub fn find<'a>(entries: &'a Vec<Entry>, key: &str) -> (v: Option<&'a Value>)
    ensures
        match v {
            Some(v) => value_of(entries@, key@) == Some(*v),
            None => value_of(entries@, key@) is None,
        },
{
    let mut i: usize = 0;
    while i < entries.len()
        invariant
            i <= entries@.len(),
            entry_at(entries@, key@, 0) == entry_at(entries@, key@, i as int),
        decreases entries@.len() - i,
    {
        if wording::same(entries[i].key.as_str(), key) {
            return Some(&entries[i].value);
        }
        i = i + 1;
    }
    None
}

/// What is wrong with a key and a value that is no table.
pub open spec fn leaf_flaw(schema: Schema, entry: Entry) -> Option<Flaw> {
    match kind_spec(schema, entry.key@) {
        Kind::Number => if as_number(entry.value) is Some {
            None
        } else {
            Some(ReadError::Kind(entry.key@))
        },
        Kind::Text => if as_text(entry.value) is Some {
            None
        } else {
            Some(ReadError::Kind(entry.key@))
        },
        Kind::Address => match as_text(entry.value) {
            Some(t) => if address::is_socket_address_spec(t) {
                None
            } else {
                Some(ReadError::Address(t))
            },
            None => Some(ReadError::Kind(entry.key@)),
        },
        Kind::Channel => if as_channel(entry.value) is Some {
            None
        } else {
            match entry.value {
                Value::Integer(n) => if 0 <= n <= 255 {
                    Some(ReadError::Channel(n as u8))
                } else {
                    Some(ReadError::Kind(entry.key@))
                },
                _ => Some(ReadError::Kind(entry.key@)),
            }
        },
        Kind::Unknown => Some(ReadError::Unknown(entry.key@)),
        _ => Some(ReadError::Kind(entry.key@)),
    }
}

/// What a flaw found in verified code is, or that there is none.
pub open spec fn finds(found: Result<(), ReadError<String>>, flaw: Option<Flaw>) -> bool {
    match found {
        Ok(()) => flaw is None,
        Err(e) => flaw == Some(e.model()),
    }
}

fn check_leaf(schema: Schema, entry: &Entry) -> (r: Result<(), ReadError<String>>)
    ensures
        finds(r, leaf_flaw(schema, *entry)),
{
    match kind_of(schema, entry.key.as_str()) {
        Kind::Number => if entry.value.number().is_some() {
            Ok(())
        } else {
            Err(ReadError::Kind(entry.key.clone()))
        },
        Kind::Text => if entry.value.text().is_some() {
            Ok(())
        } else {
            Err(ReadError::Kind(entry.key.clone()))
        },
        Kind::Address => match entry.value.text() {
            Some(t) => if address::is_socket_address(t.as_str()) {
                Ok(())
            } else {
                Err(ReadError::Address(t))
            },
            None => Err(ReadError::Kind(entry.key.clone())),
        },
        Kind::Channel => if entry.value.channel().is_some() {
            Ok(())
        } else {
            match &entry.value {
                Value::Integer(n) => if 0 <= *n && *n <= 255 {
                    Err(ReadError::Channel(*n as u8))
                } else {
                    Err(ReadError::Kind(entry.key.clone()))
                },
                _ => Err(ReadError::Kind(entry.key.clone())),
            }
        },
        Kind::Unknown => Err(ReadError::Unknown(entry.key.clone())),
        _ => Err(ReadError::Kind(entry.key.clone())),
    }
}

/// The first flaw of a table's entries from `i` up.
pub open spec fn leaves_flaw(schema: Schema, entries: Seq<Entry>, i: int) -> Option<Flaw>
    decreases entries.len() - i,
{
    if i >= entries.len() {
        None
    } else {
        match leaf_flaw(schema, entries[i]) {
            Some(f) => Some(f),
            None => leaves_flaw(schema, entries, i + 1),
        }
    }
}

/// That a key is missing, or what is missing behind it.
pub open spec fn missing_or(entries: Seq<Entry>, key: Seq<char>, rest: Option<Flaw>) -> Option<
    Flaw,
> {
    if value_of(entries, key) is None {
        Some(ReadError::Missing(key))
    } else {
        rest
    }
}

/// The first key that a table must have and has not.
pub open spec fn missing_spec(schema: Schema, entries: Seq<Entry>) -> Option<Flaw> {
    match schema {
        Schema::Top => missing_or(entries, "setpoint_c"@, None),
        Schema::Probe => missing_or(
            entries,
            "name"@,
            missing_or(
                entries,
                "channel"@,
                missing_or(
                    entries,
                    "divider_resistor"@,
                    missing_or(
                        entries,
                        "a"@,
                        missing_or(entries, "b"@, missing_or(entries, "c"@, None)),
                    ),
                ),
            ),
        ),
        _ => None,
    }
}

fn need(entries: &Vec<Entry>, key: &str) -> (r: Result<(), ReadError<String>>)
    ensures
        finds(r, missing_or(entries@, key@, None)),
{
    if find(entries, key).is_none() {
        Err(ReadError::Missing(key.to_string()))
    } else {
        Ok(())
    }
}

fn check_missing(schema: Schema, entries: &Vec<Entry>) -> (r: Result<(), ReadError<String>>)
    ensures
        finds(r, missing_spec(schema, entries@)),
{
    match schema {
        Schema::Top => need(entries, "setpoint_c"),
        Schema::Probe => {
            let name = need(entries, "name");
            if name.is_err() {
                return name;
            }
            let channel = need(entries, "channel");
            if channel.is_err() {
                return channel;
            }
            let resistor = need(entries, "divider_resistor");
            if resistor.is_err() {
                return resistor;
            }
            let a = need(entries, "a");
            if a.is_err() {
                return a;
            }
            let b = need(entries, "b");
            if b.is_err() {
                return b;
            }
            need(entries, "c")
        },
        _ => Ok(()),
    }
}

/// What is wrong with a table of values that are no tables: its first
/// bad entry, then its first missing key.
pub open spec fn table_flaw(schema: Schema, entries: Seq<Entry>) -> Option<Flaw> {
    match leaves_flaw(schema, entries, 0) {
        Some(f) => Some(f),
        None => missing_spec(schema, entries),
    }
}

fn check_table(schema: Schema, entries: &Vec<Entry>) -> (r: Result<(), ReadError<String>>)
    ensures
        finds(r, table_flaw(schema, entries@)),
{
    let mut i: usize = 0;
    while i < entries.len()
        invariant
            i <= entries@.len(),
            leaves_flaw(schema, entries@, 0) == leaves_flaw(schema, entries@, i as int),
        decreases entries@.len() - i,
    {
        let r = check_leaf(schema, &entries[i]);
        if r.is_err() {
            return r;
        }
        i = i + 1;
    }
    check_missing(schema, entries)
}

/// The first flaw of a list of probe tables from `i` up.
pub open spec fn probes_flaw(items: Seq<Value>, i: int) -> Option<Flaw>
    decreases items.len() - i,
{
    if i >= items.len() {
        None
    } else {
        match items[i] {
            Value::Table(entries) => match table_flaw(Schema::Probe, entries@) {
                Some(f) => Some(f),
                None => probes_flaw(items, i + 1),
            },
            _ => Some(ReadError::Kind("probe"@)),
        }
    }
}

fn check_probes(items: &Vec<Value>) -> (r: Result<(), ReadError<String>>)
    ensures
        finds(r, probes_flaw(items@, 0)),
{
    let mut i: usize = 0;
    while i < items.len()
        invariant
            i <= items@.len(),
            probes_flaw(items@, 0) == probes_flaw(items@, i as int),
        decreases items@.len() - i,
    {
        match &items[i] {
            Value::Table(entries) => {
                let r = check_table(Schema::Probe, entries);
                if r.is_err() {
                    return r;
                }
            },
            _ => {
                return Err(ReadError::Kind("probe".to_string()));
            },
        }
        i = i + 1;
    }
    Ok(())
}

/// What is wrong with a key and its value at the top of a document.
pub open spec fn top_flaw(entry: Entry) -> Option<Flaw> {
    match (kind_spec(Schema::Top, entry.key@), entry.value) {
        (Kind::Probes, Value::List(items)) => probes_flaw(items@, 0),
        (Kind::Control, Value::Table(entries)) => table_flaw(Schema::Control, entries@),
        (Kind::Limits, Value::Table(entries)) => table_flaw(Schema::Limits, entries@),
        _ => leaf_flaw(Schema::Top, entry),
    }
}

fn check_top(entry: &Entry) -> (r: Result<(), ReadError<String>>)
    ensures
        finds(r, top_flaw(*entry)),
{
    match (kind_of(Schema::Top, entry.key.as_str()), &entry.value) {
        (Kind::Probes, Value::List(items)) => check_probes(items),
        (Kind::Control, Value::Table(entries)) => check_table(Schema::Control, entries),
        (Kind::Limits, Value::Table(entries)) => check_table(Schema::Limits, entries),
        _ => check_leaf(Schema::Top, entry),
    }
}

/// The first flaw of a document's entries from `i` up.
pub open spec fn entries_flaw(entries: Seq<Entry>, i: int) -> Option<Flaw>
    decreases entries.len() - i,
{
    if i >= entries.len() {
        None
    } else {
        match top_flaw(entries[i]) {
            Some(f) => Some(f),
            None => entries_flaw(entries, i + 1),
        }
    }
}

/// What is wrong with a document: its first bad entry, then its first
/// missing key.
pub open spec fn document_flaw(entries: Seq<Entry>) -> Option<Flaw> {
    match entries_flaw(entries, 0) {
        Some(f) => Some(f),
        None => missing_spec(Schema::Top, entries),
    }
}

/// Refuses a document with an unknown key, a value of the wrong kind, a
/// listening address that is none, or a key missing.
pub fn check(entries: &Vec<Entry>) -> (r: Result<(), ReadError<String>>)
    ensures
        finds(r, document_flaw(entries@)),
{
    let mut i: usize = 0;
    while i < entries.len()
        invariant
            i <= entries@.len(),
            entries_flaw(entries@, 0) == entries_flaw(entries@, i as int),
        decreases entries@.len() - i,
    {
        let r = check_top(&entries[i]);
        if r.is_err() {
            return r;
        }
        i = i + 1;
    }
    check_missing(Schema::Top, entries)
}

/// A document without a flaw has only keys that are known.
pub proof fn lemma_a_sound_document_has_known_keys(entries: Seq<Entry>, i: int)
    requires
        document_flaw(entries) is None,
        0 <= i < entries.len(),
    ensures
        kind_spec(Schema::Top, entries[i].key@) != Kind::Unknown,
        top_flaw(entries[i]) is None,
        value_of(entries, "setpoint_c"@) is Some,
{
    lemma_no_flaw_from(entries, 0, i);
}

proof fn lemma_no_flaw_from(entries: Seq<Entry>, from: int, i: int)
    requires
        entries_flaw(entries, from) is None,
        0 <= from <= i < entries.len(),
    ensures
        top_flaw(entries[i]) is None,
    decreases i - from,
{
    if from < i {
        lemma_no_flaw_from(entries, from + 1, i);
    }
}

/// An unknown key at the top of a document is a flaw.
pub proof fn lemma_an_unknown_key_is_a_flaw(entries: Seq<Entry>, i: int)
    requires
        0 <= i < entries.len(),
        kind_spec(Schema::Top, entries[i].key@) == Kind::Unknown,
    ensures
        document_flaw(entries) is Some,
{
    if document_flaw(entries) is None {
        lemma_no_flaw_from(entries, 0, i);
    }
}

// What a table may hold.
/// Whether a key stands at a place of a table and at none before it.
pub open spec fn first_at(entries: Seq<Entry>, key: Seq<char>, i: int) -> bool {
    &&& 0 <= i < entries.len()
    &&& entries[i].key@ == key
    &&& forall|j: int| 0 <= j < i ==> (#[trigger] entries[j]).key@ != key
}

/// Whether a key is nowhere in a table.
pub open spec fn absent(entries: Seq<Entry>, key: Seq<char>) -> bool {
    forall|j: int| 0 <= j < entries.len() ==> (#[trigger] entries[j]).key@ != key
}

/// A value is found under its key, and none where the key is not.
pub proof fn lemma_a_value_is_found_by_its_key(entries: Seq<Entry>, key: Seq<char>, i: int)
    ensures
        first_at(entries, key, i) ==> value_of(entries, key) == Some(entries[i].value),
        absent(entries, key) <==> value_of(entries, key) is None,
{
    if first_at(entries, key, i) {
        lemma_found_from(entries, key, 0, i);
    }
    lemma_found_or_absent(entries, key, 0);
}

proof fn lemma_found_from(entries: Seq<Entry>, key: Seq<char>, from: int, i: int)
    requires
        first_at(entries, key, i),
        0 <= from <= i,
    ensures
        entry_at(entries, key, from) == Some(i),
    decreases i - from,
{
    if from < i {
        assert(entries[from].key@ != key);
        lemma_found_from(entries, key, from + 1, i);
    }
}

proof fn lemma_found_or_absent(entries: Seq<Entry>, key: Seq<char>, from: int)
    requires
        0 <= from <= entries.len(),
    ensures
        entry_at(entries, key, from) is None <==> (forall|j: int|
            from <= j < entries.len() ==> (#[trigger] entries[j]).key@ != key),
    decreases entries.len() - from,
{
    if from < entries.len() {
        lemma_found_or_absent(entries, key, from + 1);
        if entries[from].key@ != key && entry_at(entries, key, from) is None {
            assert forall|j: int| from <= j < entries.len() implies (#[trigger] entries[j]).key@
                != key by {
                if j > from {
                    assert(from + 1 <= j);
                }
            }
        }
    }
}

/// Whether an entry is one that a probe's table may hold: a name, a
/// channel of the ADC or a number, each under its key.
pub open spec fn may_stand_in_a_probe(entry: Entry) -> bool {
    let key = entry.key@;
    ||| key == "name"@ && entry.value is Text
    ||| key == "channel"@ && (entry.value matches Value::Integer(n) && 0 <= n <= 3)
    ||| (key == "offset_c"@ || key == "divider_resistor"@ || key == "a"@ || key == "b"@ || key
        == "c"@) && (entry.value is Integer || entry.value is Float)
}

/// A probe's table is taken just where it holds nothing else, and all
/// but the offset.
pub proof fn lemma_which_probe_tables_are_taken(entries: Seq<Entry>)
    ensures
        table_flaw(Schema::Probe, entries) is None <==> {
            &&& forall|i: int|
                0 <= i < entries.len() ==> may_stand_in_a_probe(#[trigger] entries[i])
            &&& !absent(entries, "name"@)
            &&& !absent(entries, "channel"@)
            &&& !absent(entries, "divider_resistor"@)
            &&& !absent(entries, "a"@)
            &&& !absent(entries, "b"@)
            &&& !absent(entries, "c"@)
        },
{
    assert forall|i: int| 0 <= i < entries.len() implies (leaf_flaw(
        Schema::Probe,
        #[trigger] entries[i],
    ) is None <==> may_stand_in_a_probe(entries[i])) by {
        lemma_probe_leaf(entries[i]);
    }
    lemma_leaves_flaw(Schema::Probe, entries, 0);
    lemma_found_or_absent(entries, "name"@, 0);
    lemma_found_or_absent(entries, "channel"@, 0);
    lemma_found_or_absent(entries, "divider_resistor"@, 0);
    lemma_found_or_absent(entries, "a"@, 0);
    lemma_found_or_absent(entries, "b"@, 0);
    lemma_found_or_absent(entries, "c"@, 0);
}

#[verifier::rlimit(50)]
proof fn lemma_probe_leaf(entry: Entry)
    ensures
        leaf_flaw(Schema::Probe, entry) is None <==> may_stand_in_a_probe(entry),
{
    reveal_strlit("name");
    reveal_strlit("channel");
    reveal_strlit("offset_c");
    reveal_strlit("divider_resistor");
    reveal_strlit("a");
    reveal_strlit("b");
    reveal_strlit("c");
    assert("channel"@.len() != "name"@.len());
    assert("offset_c"@.len() != "name"@.len() && "offset_c"@.len() != "channel"@.len());
    assert("divider_resistor"@.len() != "name"@.len() && "divider_resistor"@.len()
        != "channel"@.len());
    assert("a"@.len() != "name"@.len() && "a"@.len() != "channel"@.len());
    assert("b"@.len() != "name"@.len() && "b"@.len() != "channel"@.len());
    assert("c"@.len() != "name"@.len() && "c"@.len() != "channel"@.len());
}

/// Among entries no flaw is found just where none has one, and the
/// first that has one gives it.
pub proof fn lemma_leaves_flaw(schema: Schema, entries: Seq<Entry>, from: int)
    requires
        0 <= from <= entries.len(),
    ensures
        leaves_flaw(schema, entries, from) is None <==> (forall|i: int|
            from <= i < entries.len() ==> leaf_flaw(schema, #[trigger] entries[i]) is None),
        forall|i: int|
            from <= i < entries.len() && leaf_flaw(schema, #[trigger] entries[i]) is Some && (
            forall|j: int|
                from <= j < i ==> leaf_flaw(schema, #[trigger] entries[j]) is None) ==> leaves_flaw(
                schema,
                entries,
                from,
            ) == leaf_flaw(schema, entries[i]),
    decreases entries.len() - from,
{
    if from < entries.len() {
        lemma_leaves_flaw(schema, entries, from + 1);
        if leaf_flaw(schema, entries[from]) is None && leaves_flaw(schema, entries, from) is None {
            assert forall|i: int| from <= i < entries.len() implies leaf_flaw(
                schema,
                #[trigger] entries[i],
            ) is None by {
                if i > from {
                    assert(from + 1 <= i);
                }
            }
        }
        assert forall|i: int|
            from <= i < entries.len() && leaf_flaw(schema, #[trigger] entries[i]) is Some && (
            forall|j: int|
                from <= j < i ==> leaf_flaw(schema, #[trigger] entries[j]) is None) implies leaves_flaw(
            schema,
            entries,
            from,
        ) == leaf_flaw(schema, entries[i]) by {
            if i > from {
                assert(leaf_flaw(schema, entries[from]) is None);
            }
        }
    }
}

/// Whether an entry is one that the whole document may hold.
pub open spec fn may_stand_in_a_document(entry: Entry) -> bool {
    let key = entry.key@;
    ||| (key == "setpoint_c"@ || key == "vcc"@) && (entry.value is Integer || entry.value is Float)
    ||| key == "api_listen"@ && (entry.value matches Value::Text(t)
        && address::is_socket_address_spec(t@))
    ||| (key == "mujina_url"@ || key == "i2c_bus"@) && entry.value is Text
    ||| key == "vcc_channel"@ && (entry.value matches Value::Integer(n) && 0 <= n <= 3)
    ||| key == "probe"@ && (entry.value matches Value::List(items) && (forall|i: int|
        0 <= i < items@.len() ==> (#[trigger] items@[i] matches Value::Table(table) && table_flaw(
            Schema::Probe,
            table@,
        ) is None)))
    ||| key == "control"@ && (entry.value matches Value::Table(table) && (forall|i: int|
        0 <= i < table@.len() ==> ((#[trigger] table@[i]).key@ == "kp"@ || table@[i].key@ == "ki"@)
            && (table@[i].value is Integer || table@[i].value is Float)))
    ||| key == "limits"@ && (entry.value matches Value::Table(table) && (forall|i: int|
        0 <= i < table@.len() ==> (#[trigger] table@[i]).key@ == "max_bath_c"@ && (
        table@[i].value is Integer || table@[i].value is Float)))
}

/// A document is taken just where it holds nothing else, and a setpoint.
#[verifier::rlimit(50)]
pub proof fn lemma_which_documents_are_taken(entries: Seq<Entry>)
    ensures
        document_flaw(entries) is None <==> {
            &&& forall|i: int|
                0 <= i < entries.len() ==> may_stand_in_a_document(#[trigger] entries[i])
            &&& !absent(entries, "setpoint_c"@)
        },
{
    assert forall|i: int| 0 <= i < entries.len() implies (top_flaw(#[trigger] entries[i]) is None
        <==> may_stand_in_a_document(entries[i])) by {
        lemma_top_entry(entries[i]);
    }
    lemma_entries_flaw(entries, 0);
    lemma_found_or_absent(entries, "setpoint_c"@, 0);
}

#[verifier::rlimit(50)]
proof fn lemma_top_entry(entry: Entry)
    ensures
        top_flaw(entry) is None <==> may_stand_in_a_document(entry),
{
    reveal_strlit("setpoint_c");
    reveal_strlit("vcc");
    reveal_strlit("api_listen");
    reveal_strlit("mujina_url");
    reveal_strlit("i2c_bus");
    reveal_strlit("vcc_channel");
    reveal_strlit("probe");
    reveal_strlit("control");
    reveal_strlit("limits");
    assert("api_listen"@[0] != "setpoint_c"@[0] && "api_listen"@[0] != "vcc"@[0]);
    assert("mujina_url"@[0] != "setpoint_c"@[0] && "mujina_url"@[0] != "vcc"@[0]
        && "mujina_url"@[0] != "api_listen"@[0]);
    assert("i2c_bus"@[0] != "setpoint_c"@[0] && "i2c_bus"@[0] != "vcc"@[0] && "i2c_bus"@[0]
        != "api_listen"@[0]);
    assert("vcc_channel"@.len() != "vcc"@.len() && "vcc_channel"@[0] != "setpoint_c"@[0]
        && "vcc_channel"@[0] != "api_listen"@[0] && "vcc_channel"@[0] != "mujina_url"@[0]
        && "vcc_channel"@[0] != "i2c_bus"@[0]);
    assert("probe"@[0] != "setpoint_c"@[0] && "probe"@[0] != "vcc"@[0] && "probe"@[0]
        != "api_listen"@[0] && "probe"@[0] != "mujina_url"@[0] && "probe"@[0] != "i2c_bus"@[0]
        && "probe"@[0] != "vcc_channel"@[0]);
    assert("control"@[0] != "setpoint_c"@[0] && "control"@[0] != "vcc"@[0] && "control"@[0]
        != "api_listen"@[0] && "control"@[0] != "mujina_url"@[0] && "control"@[0] != "i2c_bus"@[0]
        && "control"@[0] != "vcc_channel"@[0] && "control"@[0] != "probe"@[0]);
    assert("limits"@[0] != "setpoint_c"@[0] && "limits"@[0] != "vcc"@[0] && "limits"@[0]
        != "api_listen"@[0] && "limits"@[0] != "mujina_url"@[0] && "limits"@[0] != "i2c_bus"@[0]
        && "limits"@[0] != "vcc_channel"@[0] && "limits"@[0] != "probe"@[0] && "limits"@[0]
        != "control"@[0]);
    if let Value::List(items) = entry.value {
        lemma_probes_flaw(items@, 0);
    }
    if let Value::Table(table) = entry.value {
        lemma_leaves_flaw(Schema::Control, table@, 0);
        lemma_leaves_flaw(Schema::Limits, table@, 0);
        assert forall|i: int| 0 <= i < table@.len() implies (leaf_flaw(
            Schema::Control,
            #[trigger] table@[i],
        ) is None <==> (table@[i].key@ == "kp"@ || table@[i].key@ == "ki"@) && (
        table@[i].value is Integer || table@[i].value is Float)) by {}
        assert forall|i: int| 0 <= i < table@.len() implies (leaf_flaw(
            Schema::Limits,
            #[trigger] table@[i],
        ) is None <==> table@[i].key@ == "max_bath_c"@ && (table@[i].value is Integer
            || table@[i].value is Float)) by {}
    }
}

proof fn lemma_probes_flaw(items: Seq<Value>, from: int)
    requires
        0 <= from <= items.len(),
    ensures
        probes_flaw(items, from) is None <==> (forall|i: int|
            from <= i < items.len() ==> (#[trigger] items[i] matches Value::Table(table)
                && table_flaw(Schema::Probe, table@) is None)),
    decreases items.len() - from,
{
    if from < items.len() {
        lemma_probes_flaw(items, from + 1);
        if probes_flaw(items, from) is None {
            assert forall|i: int| from <= i < items.len() implies (
            #[trigger] items[i] matches Value::Table(table) && table_flaw(Schema::Probe, table@) is None) by {
                if i > from {
                    assert(from + 1 <= i);
                }
            }
        } else if forall|i: int|
            from <= i < items.len() ==> (#[trigger] items[i] matches Value::Table(table)
                && table_flaw(Schema::Probe, table@) is None) {
            assert(items[from] matches Value::Table(table) && table_flaw(
                Schema::Probe,
                table@,
            ) is None);
        }
    }
}

/// The first entry with a flaw gives the document's.
pub proof fn lemma_entries_flaw(entries: Seq<Entry>, from: int)
    requires
        0 <= from <= entries.len(),
    ensures
        entries_flaw(entries, from) is None <==> (forall|i: int|
            from <= i < entries.len() ==> top_flaw(#[trigger] entries[i]) is None),
        forall|i: int|
            from <= i < entries.len() && top_flaw(#[trigger] entries[i]) is Some && (forall|j: int|
                from <= j < i ==> top_flaw(#[trigger] entries[j]) is None) ==> entries_flaw(
                entries,
                from,
            ) == top_flaw(entries[i]),
    decreases entries.len() - from,
{
    if from < entries.len() {
        lemma_entries_flaw(entries, from + 1);
        if top_flaw(entries[from]) is None && entries_flaw(entries, from) is None {
            assert forall|i: int| from <= i < entries.len() implies top_flaw(
                #[trigger] entries[i],
            ) is None by {
                if i > from {
                    assert(from + 1 <= i);
                }
            }
        }
        assert forall|i: int|
            from <= i < entries.len() && top_flaw(#[trigger] entries[i]) is Some && (forall|j: int|
                from <= j < i ==> top_flaw(#[trigger] entries[j]) is None) implies entries_flaw(
            entries,
            from,
        ) == top_flaw(entries[i]) by {
            if i > from {
                assert(top_flaw(entries[from]) is None);
            }
        }
    }
}

/// What is said of an entry that may not stand in a probe's table: that
/// the key is unknown, that the ADC has no such channel, or that the
/// value is of another kind.
pub proof fn lemma_what_is_said_of_a_probe_entry(entry: Entry)
    requires
        !may_stand_in_a_probe(entry),
    ensures
        ({
            let key = entry.key@;
            let known = key == "name"@ || key == "channel"@ || key == "offset_c"@ || key
                == "divider_resistor"@ || key == "a"@ || key == "b"@ || key == "c"@;
            let said = leaf_flaw(Schema::Probe, entry);
            let no_channel = key == "channel"@ && entry.value is Integer && 0
                <= entry.value->Integer_0 <= 255;
            &&& !known ==> said == Some(ReadError::Unknown(key))
            &&& no_channel ==> said == Some(ReadError::<Seq<char>>::Channel(entry.value->Integer_0 as u8))
            &&& known && !no_channel ==> said == Some(ReadError::Kind(key))
        }),
{
    lemma_probe_leaf(entry);
    reveal_strlit("name");
    reveal_strlit("channel");
    reveal_strlit("offset_c");
    reveal_strlit("divider_resistor");
    reveal_strlit("a");
    reveal_strlit("b");
    reveal_strlit("c");
    assert("channel"@.len() != "name"@.len());
    assert("offset_c"@.len() != "channel"@.len() && "divider_resistor"@.len() != "channel"@.len()
        && "a"@.len() != "channel"@.len() && "b"@.len() != "channel"@.len() && "c"@.len()
        != "channel"@.len());
}

/// What is said of an entry that may not stand in the document: that
/// its key is unknown, that a text is no socket address, that the ADC
/// has no such channel, what is wrong in its table, or that the value
/// is of another kind.
#[verifier::rlimit(50)]
pub proof fn lemma_what_is_said_of_an_entry(entry: Entry)
    requires
        !may_stand_in_a_document(entry),
    ensures
        ({
            let key = entry.key@;
            let known = key == "setpoint_c"@ || key == "vcc"@ || key == "api_listen"@ || key
                == "mujina_url"@ || key == "i2c_bus"@ || key == "vcc_channel"@ || key == "probe"@
                || key == "control"@ || key == "limits"@;
            let said = top_flaw(entry);
            &&& !known ==> said == Some(ReadError::Unknown(key))
            &&& key == "api_listen"@ ==> said == if entry.value is Text {
                Some(ReadError::Address(entry.value->Text_0@))
            } else {
                Some(ReadError::Kind(key))
            }
            &&& key == "vcc_channel"@ && entry.value is Integer && 0 <= entry.value->Integer_0
                <= 255 ==> said == Some(
                ReadError::<Seq<char>>::Channel(entry.value->Integer_0 as u8),
            )
            &&& key == "vcc_channel"@ && !(entry.value is Integer && 0 <= entry.value->Integer_0
                <= 255) ==> said == Some(ReadError::Kind(key))
            &&& key == "setpoint_c"@ || key == "vcc"@ || key == "mujina_url"@ || key == "i2c_bus"@
                ==> said == Some(ReadError::Kind(key))
            &&& key == "probe"@ && !(entry.value is List) ==> said == Some(ReadError::Kind(key))
            &&& (key == "control"@ || key == "limits"@) && !(entry.value is Table) ==> said
                == Some(ReadError::Kind(key))
            &&& key == "control"@ && entry.value is Table ==> said == table_flaw(
                Schema::Control,
                entry.value->Table_0@,
            )
            &&& key == "limits"@ && entry.value is Table ==> said == table_flaw(
                Schema::Limits,
                entry.value->Table_0@,
            )
            &&& key == "probe"@ && entry.value is List ==> said == probes_flaw(
                entry.value->List_0@,
                0,
            )
        }),
{
    lemma_top_entry(entry);
    reveal_strlit("setpoint_c");
    reveal_strlit("vcc");
    reveal_strlit("api_listen");
    reveal_strlit("mujina_url");
    reveal_strlit("i2c_bus");
    reveal_strlit("vcc_channel");
    reveal_strlit("probe");
    reveal_strlit("control");
    reveal_strlit("limits");
    assert("api_listen"@[0] != "setpoint_c"@[0] && "api_listen"@[0] != "vcc"@[0]);
    assert("mujina_url"@[0] != "setpoint_c"@[0] && "mujina_url"@[0] != "vcc"@[0]
        && "mujina_url"@[0] != "api_listen"@[0]);
    assert("i2c_bus"@[0] != "setpoint_c"@[0] && "i2c_bus"@[0] != "vcc"@[0] && "i2c_bus"@[0]
        != "api_listen"@[0]);
    assert("vcc_channel"@.len() != "vcc"@.len() && "vcc_channel"@[0] != "setpoint_c"@[0]
        && "vcc_channel"@[0] != "api_listen"@[0] && "vcc_channel"@[0] != "mujina_url"@[0]
        && "vcc_channel"@[0] != "i2c_bus"@[0]);
    assert("probe"@[0] != "setpoint_c"@[0] && "probe"@[0] != "vcc"@[0] && "probe"@[0]
        != "api_listen"@[0] && "probe"@[0] != "mujina_url"@[0] && "probe"@[0] != "i2c_bus"@[0]
        && "probe"@[0] != "vcc_channel"@[0]);
    assert("control"@[0] != "setpoint_c"@[0] && "control"@[0] != "vcc"@[0] && "control"@[0]
        != "api_listen"@[0] && "control"@[0] != "mujina_url"@[0] && "control"@[0] != "i2c_bus"@[0]
        && "control"@[0] != "vcc_channel"@[0] && "control"@[0] != "probe"@[0]);
    assert("limits"@[0] != "setpoint_c"@[0] && "limits"@[0] != "vcc"@[0] && "limits"@[0]
        != "api_listen"@[0] && "limits"@[0] != "mujina_url"@[0] && "limits"@[0] != "i2c_bus"@[0]
        && "limits"@[0] != "vcc_channel"@[0] && "limits"@[0] != "probe"@[0] && "limits"@[0]
        != "control"@[0]);
}

/// Which key is told to be missing: the setpoint of a document, and of a
/// probe the first of its name, its channel, its resistor and its
/// coefficients.
pub proof fn lemma_which_key_is_missing(entries: Seq<Entry>)
    ensures
        ({
            let top = document_flaw(entries);
            let probe = table_flaw(Schema::Probe, entries);
            let clean = entries_flaw(entries, 0) is None;
            let tidy = leaves_flaw(Schema::Probe, entries, 0) is None;
            &&& clean && absent(entries, "setpoint_c"@) ==> top == Some(
                ReadError::Missing("setpoint_c"@),
            )
            &&& !clean ==> top == entries_flaw(entries, 0)
            &&& !tidy ==> probe == leaves_flaw(Schema::Probe, entries, 0)
            &&& tidy ==> probe == if absent(entries, "name"@) {
                Some(ReadError::Missing("name"@))
            } else if absent(entries, "channel"@) {
                Some(ReadError::Missing("channel"@))
            } else if absent(entries, "divider_resistor"@) {
                Some(ReadError::Missing("divider_resistor"@))
            } else if absent(entries, "a"@) {
                Some(ReadError::Missing("a"@))
            } else if absent(entries, "b"@) {
                Some(ReadError::Missing("b"@))
            } else if absent(entries, "c"@) {
                Some(ReadError::Missing("c"@))
            } else {
                None
            }
        }),
{
    lemma_found_or_absent(entries, "setpoint_c"@, 0);
    lemma_found_or_absent(entries, "name"@, 0);
    lemma_found_or_absent(entries, "channel"@, 0);
    lemma_found_or_absent(entries, "divider_resistor"@, 0);
    lemma_found_or_absent(entries, "a"@, 0);
    lemma_found_or_absent(entries, "b"@, 0);
    lemma_found_or_absent(entries, "c"@, 0);
}

} // verus!
