//! The snapshot every client reads, and the commands that change it.
//!
//! `State` is the snapshot. `Command` is the only way a client changes
//! it, and `apply` is what a command does: it changes the snapshot, or
//! refuses and leaves it alone. A value that stands already is no
//! change.
use vstd::prelude::*;

use crate::double::Double;
use crate::wording;

verus! {

/// One temperature probe.
#[derive(Debug, Clone, PartialEq)]
pub struct Probe {
    /// Probe name, such as "bath", "inlet", or "outlet".
    pub name: String,
    /// Last reading in degrees Celsius, or None before the first or
    /// while the probe is open or shorted.
    pub celsius: Option<Double>,
    /// The divider voltage behind the last reading, or None when the
    /// source has no ADC.
    pub volts: Option<Double>,
}

/// One chip on a board's chain, as the miner counts it.
#[derive(Debug, Clone, PartialEq)]
pub struct Chip {
    /// The chip's address on the chain.
    pub address: u64,
    /// Nonces it has reported since the thread started, and how many
    /// of them fell short of its own ticket mask.
    pub nonces: u64,
    pub hardware_errors: u64,
    /// Its rate over the last five minutes, from its nonces.
    pub hashrate_hs: Option<Double>,
}

impl Default for Chip {
    /// A chip at address 0 that has counted nothing.
    fn default() -> (c: Self)
        ensures
            c == (Chip { address: 0, nonces: 0, hardware_errors: 0, hashrate_hs: None }),
    {
        Chip { address: 0, nonces: 0, hardware_errors: 0, hashrate_hs: None }
    }
}

/// One hash board, as the miner reports it. Every reading is None when
/// the board does not report it.
#[derive(Debug, Clone, PartialEq)]
pub struct Board {
    /// The miner's key for the board, its model and serial.
    pub name: String,
    /// Hash rate in hashes per second, summed over its threads.
    pub hashrate_hs: Option<Double>,
    /// The hottest chip on the board, in degrees Celsius.
    pub chip_temperature_c: Option<Double>,
    /// The core rail's output.
    pub voltage_v: Option<Double>,
    pub current_a: Option<Double>,
    pub power_w: Option<Double>,
    /// The core rail's input.
    pub input_voltage_v: Option<Double>,
    /// The core regulator's own temperature, in degrees Celsius.
    pub regulator_temperature_c: Option<Double>,
    /// The hottest board sensor, in degrees Celsius.
    pub board_temperature_c: Option<Double>,
    /// The share of full power the board's thread holds, and the most
    /// the board lets it hold. A ceiling under 1.0 means the board is
    /// throttling its thread by heat.
    pub power_fraction: Option<Double>,
    pub power_ceiling: Option<Double>,
    /// Its chips in chain order.
    pub chips: Vec<Chip>,
}

impl Default for Board {
    /// A board without a name, with no readings.
    fn default() -> (b: Self)
        ensures
            b.name@ == ""@,
            b.hashrate_hs is None,
            b.chip_temperature_c is None,
            b.voltage_v is None,
            b.current_a is None,
            b.power_w is None,
            b.input_voltage_v is None,
            b.regulator_temperature_c is None,
            b.board_temperature_c is None,
            b.power_fraction is None,
            b.power_ceiling is None,
            b.chips@.len() == 0,
    {
        Board {
            name: "".to_string(),
            hashrate_hs: None,
            chip_temperature_c: None,
            voltage_v: None,
            current_a: None,
            power_w: None,
            input_voltage_v: None,
            regulator_temperature_c: None,
            board_temperature_c: None,
            power_fraction: None,
            power_ceiling: None,
            chips: Vec::new(),
        }
    }
}

/// What the miner reports, as far as Coinbath cares. Every reading is
/// None until the miner reports it, and None again when it stops.
#[derive(Debug, Clone, PartialEq)]
pub struct Miner {
    /// Whether the last exchange with the miner succeeded.
    pub online: bool,
    /// Hash rate in hashes per second, summed over the miner.
    pub hashrate_hs: Option<Double>,
    /// Power draw in watts, summed over the boards that report it.
    pub power_w: Option<Double>,
    /// The hottest chip temperature any board reports, in degrees
    /// Celsius.
    pub chip_temperature_c: Option<Double>,
    /// The share of full power the miner holds, 0.0 to 1.0: the mean
    /// over its threads of what each holds, or what it was asked when
    /// no thread reports.
    pub power_fraction: Option<Double>,
    /// The lowest ceiling any thread reports, 0.0 to 1.0. Under 1.0 a
    /// board is throttling its thread by heat.
    pub power_ceiling: Option<Double>,
    /// Every board, in the miner's order.
    pub boards: Vec<Board>,
    /// From the miner's own document: how long it has run, the shares
    /// it has submitted, and the job source it works for with the
    /// difficulty that source set.
    pub uptime_secs: Option<u64>,
    pub shares_submitted: Option<u64>,
    pub pool: Option<String>,
    pub difficulty: Option<Double>,
}

impl Miner {
    /// A report that says nothing: offline, with no readings.
    pub open spec fn is_silent(self) -> bool {
        !self.online && self.has_no_details() && self.hashrate_hs is None && self.power_w is None
            && self.chip_temperature_c is None && self.power_fraction is None
            && self.power_ceiling is None
    }

    /// A report with nothing about its boards, its run, or its pool.
    pub open spec fn has_no_details(self) -> bool {
        self.boards@.len() == 0 && self.has_no_account()
    }

    /// A report with nothing about its run or its pool.
    pub open spec fn has_no_account(self) -> bool {
        self.uptime_secs is None && self.shares_submitted is None && self.pool is None
            && self.difficulty is None
    }
}

impl Default for Miner {
    /// Offline, with no readings.
    fn default() -> (m: Self)
        ensures
            m.is_silent(),
    {
        Miner {
            online: false,
            hashrate_hs: None,
            power_w: None,
            chip_temperature_c: None,
            power_fraction: None,
            power_ceiling: None,
            boards: Vec::new(),
            uptime_secs: None,
            shares_submitted: None,
            pool: None,
            difficulty: None,
        }
    }
}

/// Who decides the share of full power to ask for.
#[derive(Debug, Clone, Copy, PartialEq, Eq, Structural)]
pub enum Mode {
    /// The control loop, from the bath temperature.
    Auto,
    /// Whoever last set it by hand.
    Manual,
}

/// The snapshot.
#[derive(Debug, Clone, PartialEq)]
pub struct State {
    /// Target bath temperature in degrees Celsius.
    pub setpoint_c: Double,
    pub mode: Mode,
    /// The share of full power Coinbath asks of the miner, 0.0 to 1.0,
    /// or None while nothing has asked and the miner decides. The
    /// control loop sets it in automatic mode; a client that sets it
    /// puts the state in manual mode.
    pub power_fraction: Option<Double>,
    pub probes: Vec<Probe>,
    /// The divider supply as last measured, in volts.
    pub supply_v: Option<Double>,
    pub miner: Miner,
}

/// The reading of the first probe with a name, if it has one.
pub open spec fn reading_of(probes: Seq<Probe>, name: Seq<char>) -> Option<Double>
    decreases probes.len(),
{
    if probes.len() == 0 {
        None
    } else if probes[0].name@ == name {
        probes[0].celsius
    } else {
        reading_of(probes.drop_first(), name)
    }
}

impl State {
    /// Builds a state with the given setpoint and probe names, and no
    /// readings.
    pub fn new(setpoint_c: Double, probe_names: &[&str]) -> (state: Self)
        ensures
            state.setpoint_c == setpoint_c,
            state.mode == Mode::Auto,
            state.power_fraction is None,
            state.supply_v is None,
            state.miner.is_silent(),
            state.probes@.len() == probe_names@.len(),
            forall|i: int|
                #![trigger state.probes@[i]]
                0 <= i < probe_names@.len() ==> state.probes@[i].name@ == probe_names@[i]@
                    && state.probes@[i].celsius is None && state.probes@[i].volts is None,
    {
        let mut probes: Vec<Probe> = Vec::new();
        let mut i: usize = 0;
        while i < probe_names.len()
            invariant
                i <= probe_names@.len(),
                probes@.len() == i,
                forall|j: int|
                    #![trigger probes@[j]]
                    0 <= j < i ==> probes@[j].name@ == probe_names@[j]@ && probes@[j].celsius is None
                        && probes@[j].volts is None,
            decreases probe_names@.len() - i,
        {
            probes.push(Probe { name: probe_names[i].to_string(), celsius: None, volts: None });
            i = i + 1;
        }
        State {
            setpoint_c,
            mode: Mode::Auto,
            power_fraction: None,
            probes,
            supply_v: None,
            miner: Miner::default(),
        }
    }

    /// The reading of the first probe with a name, if it has one.
    pub fn reading(&self, name: &str) -> (celsius: Option<Double>)
        ensures
            celsius == reading_of(self.probes@, name@),
    {
        let mut i: usize = 0;
        proof {
            assert(self.probes@.skip(0) =~= self.probes@);
        }
        while i < self.probes.len()
            invariant
                i <= self.probes@.len(),
                reading_of(self.probes@.skip(i as int), name@) == reading_of(self.probes@, name@),
            decreases self.probes@.len() - i,
        {
            proof {
                let rest = self.probes@.skip(i as int);
                assert(rest[0] == self.probes@[i as int]);
                assert(rest.drop_first() =~= self.probes@.skip(i + 1));
            }
            if wording::same(self.probes[i].name.as_str(), name) {
                return self.probes[i].celsius;
            }
            i = i + 1;
        }
        None
    }
}

/// A command that was refused, with the reason.
#[derive(Debug, Clone, PartialEq)]
pub struct Rejected(pub String);

/// A value outside its range, which is why a command is refused.
#[derive(Debug, Clone, Copy, PartialEq, Eq, Structural)]
pub enum Refusal {
    /// A target bath temperature, in degrees Celsius.
    Setpoint(Double),
    /// A share of full power.
    PowerFraction(Double),
}

impl Refusal {
    /// The value refused.
    pub fn value(&self) -> (v: Double)
        ensures
            v == match *self {
                Refusal::Setpoint(c) => c,
                Refusal::PowerFraction(p) => p,
            },
    {
        match self {
            Refusal::Setpoint(c) => *c,
            Refusal::PowerFraction(p) => *p,
        }
    }

    /// The reason in words, with the refused value as `shown`.
    pub open spec fn text_spec(self, shown: Seq<char>) -> Seq<char> {
        match self {
            Refusal::Setpoint(_) => "setpoint "@ + shown + " C is outside 0..=95 C"@,
            Refusal::PowerFraction(_) => "power fraction "@ + shown + " is outside 0..=1"@,
        }
    }

    /// The reason in words, with the refused value as `shown`.
    pub fn rejected(&self, shown: &str) -> (r: Rejected)
        ensures
            r.0@ == self.text_spec(shown@),
    {
        match self {
            Refusal::Setpoint(_) => {
                let mut text = "setpoint ".to_string();
                text.append(shown);
                text.append(" C is outside 0..=95 C");
                Rejected(text)
            },
            Refusal::PowerFraction(_) => {
                let mut text = "power fraction ".to_string();
                text.append(shown);
                text.append(" is outside 0..=1");
                Rejected(text)
            },
        }
    }
}

/// A change a client asks for.
#[derive(Debug)]
pub enum Command {
    /// Sets the target bath temperature.
    SetSetpoint { celsius: Double },
    /// Sets the share of full power to ask of the miner, and leaves the
    /// mode alone.
    SetPowerFraction { fraction: Double },
    /// Hands the power request to the control loop or takes it away.
    SetMode { mode: Mode },
    /// Records a probe reading, by probe index. `celsius` is None when
    /// the probe is open or shorted; `volts` is None when the source
    /// has no ADC.
    ProbeReading { index: usize, volts: Option<Double>, celsius: Option<Double> },
    /// Records the measured divider supply.
    Supply { volts: Double },
    /// Records what the miner last reported.
    MinerReport(Miner),
}

impl Command {
    /// Whether those who watch the snapshot are woken by the command
    /// though it changes nothing: every exchange with the miner is news.
    pub fn always_wakes(&self) -> (r: bool)
        ensures
            r == (*self is MinerReport),
    {
        match self {
            Command::MinerReport(_) => true,
            _ => false,
        }
    }
}

/// What came of a command: whether the snapshot changed, and why it was
/// refused, if it was.
#[derive(Debug, Clone, Copy, PartialEq, Eq, Structural)]
pub struct Outcome {
    pub changed: bool,
    pub refused: Option<Refusal>,
}

impl Outcome {
    /// Whether this is what the one who asked is told: nothing, or why
    /// the command was refused.
    pub open spec fn tells(self, shown: Seq<char>, r: Result<(), Rejected>) -> bool {
        match self.refused {
            None => r is Ok,
            Some(why) => r matches Err(e) && e.0@ == why.text_spec(shown),
        }
    }

    /// What the one who asked is told, with a refused value as `shown`.
    pub fn result(&self, shown: &str) -> (r: Result<(), Rejected>)
        ensures
            self.tells(shown@, r),
    {
        match &self.refused {
            None => Ok(()),
            Some(why) => Err(why.rejected(shown)),
        }
    }
}

/// 95.0, as a double's bits.
pub const SETPOINT_MAX_C: u64 = 0x4057_c000_0000_0000;

/// 1.0, as a double's bits.
pub const FULL_POWER: u64 = 0x3ff0_0000_0000_0000;

/// Bath temperatures outside 0 to 95 degrees Celsius are a client's
/// mistake, and the top is where a sous vide bath stops being one.
pub open spec fn setpoint_in_range(celsius: Double) -> bool {
    celsius.is_finite() && (Double { bits: 0 }).at_most(celsius) && celsius.at_most(
        Double { bits: SETPOINT_MAX_C },
    )
}

/// The miner's own range: 0.0 is off and 1.0 is full power.
pub open spec fn fraction_in_range(fraction: Double) -> bool {
    fraction.is_finite() && (Double { bits: 0 }).at_most(fraction) && fraction.at_most(
        Double { bits: FULL_POWER },
    )
}

/// Refuses a setpoint outside its range.
pub fn validate_setpoint(celsius: Double) -> (r: Result<(), Refusal>)
    ensures
        r == if setpoint_in_range(celsius) {
            Ok::<(), Refusal>(())
        } else {
            Err(Refusal::Setpoint(celsius))
        },
{
    if celsius.is_finite() && (Double { bits: 0 }).at_most(celsius) && celsius.at_most(
        Double { bits: SETPOINT_MAX_C },
    ) {
        Ok(())
    } else {
        Err(Refusal::Setpoint(celsius))
    }
}

/// Refuses a share of full power outside its range.
pub fn validate_power_fraction(fraction: Double) -> (r: Result<(), Refusal>)
    ensures
        r == if fraction_in_range(fraction) {
            Ok::<(), Refusal>(())
        } else {
            Err(Refusal::PowerFraction(fraction))
        },
{
    if fraction.is_finite() && (Double { bits: 0 }).at_most(fraction) && fraction.at_most(
        Double { bits: FULL_POWER },
    ) {
        Ok(())
    } else {
        Err(Refusal::PowerFraction(fraction))
    }
}

/// Whether two readings, where there are any, are the same to the bit.
pub fn same_reading(a: Option<Double>, b: Option<Double>) -> (r: bool)
    ensures
        r == (a == b),
{
    match (a, b) {
        (Some(x), Some(y)) => x.bits == y.bits,
        (None, None) => true,
        _ => false,
    }
}

/// Whether two chips' counts are the same.
pub fn same_chip(a: &Chip, b: &Chip) -> (r: bool)
    ensures
        r == (*a == *b),
{
    a.address == b.address && a.nonces == b.nonces && a.hardware_errors == b.hardware_errors
        && same_reading(a.hashrate_hs, b.hashrate_hs)
}

/// Whether two boards' reports are the same.
pub open spec fn same_board_spec(a: Board, b: Board) -> bool {
    &&& a.name@ == b.name@
    &&& a.hashrate_hs == b.hashrate_hs
    &&& a.chip_temperature_c == b.chip_temperature_c
    &&& a.voltage_v == b.voltage_v
    &&& a.current_a == b.current_a
    &&& a.power_w == b.power_w
    &&& a.input_voltage_v == b.input_voltage_v
    &&& a.regulator_temperature_c == b.regulator_temperature_c
    &&& a.board_temperature_c == b.board_temperature_c
    &&& a.power_fraction == b.power_fraction
    &&& a.power_ceiling == b.power_ceiling
    &&& a.chips@ == b.chips@
}

/// Whether two boards' reports are the same.
pub fn same_board(a: &Board, b: &Board) -> (r: bool)
    ensures
        r == same_board_spec(*a, *b),
{
    if a.chips.len() != b.chips.len() {
        return false;
    }
    let mut i: usize = 0;
    while i < a.chips.len()
        invariant
            i <= a.chips@.len() == b.chips@.len(),
            forall|j: int| 0 <= j < i ==> a.chips@[j] == b.chips@[j],
        decreases a.chips@.len() - i,
    {
        if !same_chip(&a.chips[i], &b.chips[i]) {
            return false;
        }
        i = i + 1;
    }
    assert(a.chips@ =~= b.chips@);
    wording::same(a.name.as_str(), b.name.as_str())
        && same_reading(a.hashrate_hs, b.hashrate_hs)
        && same_reading(a.chip_temperature_c, b.chip_temperature_c)
        && same_reading(a.voltage_v, b.voltage_v)
        && same_reading(a.current_a, b.current_a)
        && same_reading(a.power_w, b.power_w)
        && same_reading(a.input_voltage_v, b.input_voltage_v)
        && same_reading(a.regulator_temperature_c, b.regulator_temperature_c)
        && same_reading(a.board_temperature_c, b.board_temperature_c)
        && same_reading(a.power_fraction, b.power_fraction)
        && same_reading(a.power_ceiling, b.power_ceiling)
}

/// Whether two texts, where there are any, are the same.
pub open spec fn same_text_spec(a: Option<String>, b: Option<String>) -> bool {
    match (a, b) {
        (Some(x), Some(y)) => x@ == y@,
        (None, None) => true,
        _ => false,
    }
}

fn same_text(a: &Option<String>, b: &Option<String>) -> (r: bool)
    ensures
        r == same_text_spec(*a, *b),
{
    match (a, b) {
        (Some(x), Some(y)) => wording::same(x.as_str(), y.as_str()),
        (None, None) => true,
        _ => false,
    }
}

/// Whether two miner's reports are the same.
pub open spec fn same_report_spec(a: Miner, b: Miner) -> bool {
    &&& a.online == b.online
    &&& a.hashrate_hs == b.hashrate_hs
    &&& a.power_w == b.power_w
    &&& a.chip_temperature_c == b.chip_temperature_c
    &&& a.power_fraction == b.power_fraction
    &&& a.power_ceiling == b.power_ceiling
    &&& a.boards@.len() == b.boards@.len()
    &&& forall|i: int|
        0 <= i < a.boards@.len() ==> same_board_spec(#[trigger] a.boards@[i], b.boards@[i])
    &&& a.uptime_secs == b.uptime_secs
    &&& a.shares_submitted == b.shares_submitted
    &&& same_text_spec(a.pool, b.pool)
    &&& a.difficulty == b.difficulty
}

/// Whether two miner's reports are the same.
pub fn same_report(a: &Miner, b: &Miner) -> (r: bool)
    ensures
        r == same_report_spec(*a, *b),
{
    if a.boards.len() != b.boards.len() {
        return false;
    }
    let mut i: usize = 0;
    while i < a.boards.len()
        invariant
            i <= a.boards@.len() == b.boards@.len(),
            forall|j: int|
                0 <= j < i ==> same_board_spec(#[trigger] a.boards@[j], b.boards@[j]),
        decreases a.boards@.len() - i,
    {
        if !same_board(&a.boards[i], &b.boards[i]) {
            assert(!same_board_spec(a.boards@[i as int], b.boards@[i as int]));
            return false;
        }
        i = i + 1;
    }
    a.online == b.online
        && same_reading(a.hashrate_hs, b.hashrate_hs)
        && same_reading(a.power_w, b.power_w)
        && same_reading(a.chip_temperature_c, b.chip_temperature_c)
        && same_reading(a.power_fraction, b.power_fraction)
        && same_reading(a.power_ceiling, b.power_ceiling)
        && a.uptime_secs == b.uptime_secs
        && a.shares_submitted == b.shares_submitted
        && same_text(&a.pool, &b.pool)
        && same_reading(a.difficulty, b.difficulty)
}

/// What a command does to a snapshot.
pub open spec fn applied(before: State, command: Command, after: State, out: Outcome) -> bool {
    match command {
        Command::SetSetpoint { celsius } => if setpoint_in_range(celsius) {
            &&& after == State { setpoint_c: celsius, ..before }
            &&& out == Outcome { changed: before.setpoint_c != celsius, refused: None }
        } else {
            &&& after == before
            &&& out == Outcome { changed: false, refused: Some(Refusal::Setpoint(celsius)) }
        },
        Command::SetPowerFraction { fraction } => if fraction_in_range(fraction) {
            &&& after == State { power_fraction: Some(fraction), ..before }
            &&& out == Outcome { changed: before.power_fraction != Some(fraction), refused: None }
        } else {
            &&& after == before
            &&& out == Outcome { changed: false, refused: Some(Refusal::PowerFraction(fraction)) }
        },
        Command::SetMode { mode } => {
            &&& after == State { mode, ..before }
            &&& out == Outcome { changed: before.mode != mode, refused: None }
        },
        Command::ProbeReading { index, volts, celsius } => if index < before.probes@.len() && (
        before.probes@[index as int].celsius != celsius || before.probes@[index as int].volts
            != volts) {
            &&& after.probes@ == before.probes@.update(
                index as int,
                Probe { name: before.probes@[index as int].name, celsius, volts },
            )
            &&& after.setpoint_c == before.setpoint_c
            &&& after.mode == before.mode
            &&& after.power_fraction == before.power_fraction
            &&& after.supply_v == before.supply_v
            &&& after.miner == before.miner
            &&& out == Outcome { changed: true, refused: None }
        } else {
            &&& after == before
            &&& out == Outcome { changed: false, refused: None }
        },
        Command::Supply { volts } => {
            &&& after == State { supply_v: Some(volts), ..before }
            &&& out == Outcome { changed: before.supply_v != Some(volts), refused: None }
        },
        Command::MinerReport(miner) => if same_report_spec(before.miner, miner) {
            &&& after == before
            &&& out == Outcome { changed: false, refused: None }
        } else {
            &&& after == State { miner, ..before }
            &&& out == Outcome { changed: true, refused: None }
        },
    }
}

/// Applies one command and reports what came of it.
pub fn apply(state: &mut State, command: Command) -> (out: Outcome)
    ensures
        applied(*old(state), command, *final(state), out),
{
    match command {
        Command::SetSetpoint { celsius } => match validate_setpoint(celsius) {
            Ok(()) => {
                let changed = state.setpoint_c.bits != celsius.bits;
                state.setpoint_c = celsius;
                Outcome { changed, refused: None }
            },
            Err(why) => Outcome { changed: false, refused: Some(why) },
        },
        Command::SetPowerFraction { fraction } => match validate_power_fraction(fraction) {
            Ok(()) => {
                let changed = !same_reading(state.power_fraction, Some(fraction));
                state.power_fraction = Some(fraction);
                Outcome { changed, refused: None }
            },
            Err(why) => Outcome { changed: false, refused: Some(why) },
        },
        Command::SetMode { mode } => {
            let changed = state.mode != mode;
            state.mode = mode;
            Outcome { changed, refused: None }
        },
        Command::ProbeReading { index, volts, celsius } => {
            if index < state.probes.len() && (!same_reading(
                state.probes[index].celsius,
                celsius,
            ) || !same_reading(state.probes[index].volts, volts)) {
                let probe = &mut state.probes[index];
                probe.celsius = celsius;
                probe.volts = volts;
                Outcome { changed: true, refused: None }
            } else {
                Outcome { changed: false, refused: None }
            }
        },
        Command::Supply { volts } => {
            let changed = !same_reading(state.supply_v, Some(volts));
            state.supply_v = Some(volts);
            Outcome { changed, refused: None }
        },
        Command::MinerReport(miner) => {
            let changed = !same_report(&state.miner, &miner);
            if changed {
                state.miner = miner;
            }
            Outcome { changed, refused: None }
        },
    }
}

/// The commands that set the share of full power by hand: manual mode
/// first, so the control loop stays out of it, then the share.
pub fn by_hand(fraction: Double) -> (commands: (Command, Command))
    ensures
        commands.0 == (Command::SetMode { mode: Mode::Manual }),
        commands.1 == (Command::SetPowerFraction { fraction }),
{
    (Command::SetMode { mode: Mode::Manual }, Command::SetPowerFraction { fraction })
}

// What every command keeps.
/// The setpoint and the request, when there is one, within their
/// ranges.
pub open spec fn in_bounds(state: State) -> bool {
    setpoint_in_range(state.setpoint_c) && (state.power_fraction matches Some(p)
        ==> fraction_in_range(p))
}

/// No command takes the setpoint or the request out of its range.
pub proof fn lemma_bounds_are_kept(before: State, command: Command, after: State, out: Outcome)
    requires
        applied(before, command, after, out),
        in_bounds(before),
    ensures
        in_bounds(after),
{
}

/// A command reports a change just when the snapshot after it differs,
/// and a refused one never does.
pub proof fn lemma_a_change_is_a_difference(
    before: State,
    command: Command,
    after: State,
    out: Outcome,
)
    requires
        applied(before, command, after, out),
    ensures
        out.changed <==> after != before,
        out.refused is Some ==> after == before,
{
    match command {
        Command::ProbeReading { index, .. } => {
            if out.changed {
                assert(after.probes@[index as int] != before.probes@[index as int]);
            }
        },
        _ => {},
    }
}

/// A command is refused exactly when it carries a value outside its
/// range, and the refusal names that value.
pub proof fn lemma_refused_iff_out_of_range(
    before: State,
    command: Command,
    after: State,
    out: Outcome,
)
    requires
        applied(before, command, after, out),
    ensures
        out.refused == match command {
            Command::SetSetpoint { celsius } => if setpoint_in_range(celsius) {
                None
            } else {
                Some(Refusal::Setpoint(celsius))
            },
            Command::SetPowerFraction { fraction } => if fraction_in_range(fraction) {
                None
            } else {
                Some(Refusal::PowerFraction(fraction))
            },
            _ => None,
        },
{
}

/// No command adds, drops, moves, or renames a probe.
pub proof fn lemma_probes_keep_their_names(
    before: State,
    command: Command,
    after: State,
    out: Outcome,
)
    requires
        applied(before, command, after, out),
    ensures
        after.probes@.len() == before.probes@.len(),
        forall|i: int|
            0 <= i < before.probes@.len() ==> (#[trigger] after.probes@[i]).name
                == before.probes@[i].name,
{
}

/// Setting the share by hand leaves manual mode, and the share asked
/// unless it is out of range.
pub proof fn lemma_by_hand_is_manual(
    before: State,
    between: State,
    after: State,
    fraction: Double,
    first: Outcome,
    second: Outcome,
)
    requires
        applied(before, Command::SetMode { mode: Mode::Manual }, between, first),
        applied(between, Command::SetPowerFraction { fraction }, after, second),
    ensures
        after.mode == Mode::Manual,
        fraction_in_range(fraction) ==> after == (State {
            mode: Mode::Manual,
            power_fraction: Some(fraction),
            ..before
        }),
        !fraction_in_range(fraction) ==> after == (State { mode: Mode::Manual, ..before })
            && second.refused == Some(Refusal::PowerFraction(fraction)),
{
}

/// A reading recorded for the first probe with a name is that name's
/// reading from then on.
pub proof fn lemma_recorded_reading_is_read_back(
    before: State,
    index: usize,
    volts: Option<Double>,
    celsius: Option<Double>,
    after: State,
    out: Outcome,
)
    requires
        applied(before, Command::ProbeReading { index, volts, celsius }, after, out),
        index < before.probes@.len(),
        forall|i: int|
            0 <= i < index ==> (#[trigger] before.probes@[i]).name@
                != before.probes@[index as int].name@,
    ensures
        reading_of(after.probes@, before.probes@[index as int].name@) == celsius,
{
    lemma_reading_at(after.probes@, index as int);
}

/// Without a probe of that name there is no reading of it.
pub proof fn lemma_no_reading(probes: Seq<Probe>, name: Seq<char>)
    requires
        forall|i: int| 0 <= i < probes.len() ==> (#[trigger] probes[i]).name@ != name,
    ensures
        reading_of(probes, name) is None,
    decreases probes.len(),
{
    if probes.len() > 0 {
        let rest = probes.drop_first();
        assert forall|i: int| 0 <= i < rest.len() implies (#[trigger] rest[i]).name@ != name by {
            assert(rest[i] == probes[i + 1]);
        }
        lemma_no_reading(rest, name);
    }
}

/// The first probe with its name is the one read by it.
pub proof fn lemma_reading_at(probes: Seq<Probe>, index: int)
    requires
        0 <= index < probes.len(),
        forall|i: int| 0 <= i < index ==> (#[trigger] probes[i]).name@ != probes[index].name@,
    ensures
        reading_of(probes, probes[index].name@) == probes[index].celsius,
    decreases index,
{
    if index > 0 {
        let rest = probes.drop_first();
        assert(rest[index - 1] == probes[index]);
        assert forall|i: int| 0 <= i < index - 1 implies (#[trigger] rest[i]).name@ != rest[index
            - 1].name@ by {
            assert(rest[i] == probes[i + 1]);
        }
        lemma_reading_at(rest, index - 1);
    }
}

// What the snapshot says after a command.
/// Whether two boards say the same.
spec fn agree(a: Board, b: Board) -> bool {
    &&& a.name@ =~= b.name@
    &&& (a.hashrate_hs, a.chip_temperature_c, a.voltage_v) == (
        b.hashrate_hs,
        b.chip_temperature_c,
        b.voltage_v,
    )
    &&& (a.current_a, a.power_w, a.input_voltage_v) == (b.current_a, b.power_w, b.input_voltage_v)
    &&& (a.regulator_temperature_c, a.board_temperature_c) == (
        b.regulator_temperature_c,
        b.board_temperature_c,
    )
    &&& (a.power_fraction, a.power_ceiling) == (b.power_fraction, b.power_ceiling)
    &&& a.chips@.len() == b.chips@.len()
    &&& forall|i: int| 0 <= i < a.chips@.len() ==> #[trigger] a.chips@[i] == b.chips@[i]
}

/// After a miner's report the snapshot says what the report says, of
/// the miner and of every board, and nothing else has changed.
#[verifier::rlimit(50)]
pub proof fn lemma_a_report_is_what_the_snapshot_says(
    before: State,
    miner: Miner,
    after: State,
    out: Outcome,
)
    requires
        applied(before, Command::MinerReport(miner), after, out),
    ensures
        after.miner.online == miner.online,
        after.miner.hashrate_hs == miner.hashrate_hs,
        after.miner.power_w == miner.power_w,
        after.miner.chip_temperature_c == miner.chip_temperature_c,
        after.miner.power_fraction == miner.power_fraction,
        after.miner.power_ceiling == miner.power_ceiling,
        after.miner.uptime_secs == miner.uptime_secs,
        after.miner.shares_submitted == miner.shares_submitted,
        after.miner.difficulty == miner.difficulty,
        after.miner.pool is Some <==> miner.pool is Some,
        after.miner.pool is Some ==> after.miner.pool->0@ == miner.pool->0@,
        after.miner.boards@.len() == miner.boards@.len(),
        forall|i: int|
            #![trigger after.miner.boards@[i]]
            #![trigger miner.boards@[i]]
            0 <= i < miner.boards@.len() ==> {
                let (a, b) = (after.miner.boards@[i], miner.boards@[i]);
                &&& a.name@ == b.name@
                &&& a.hashrate_hs == b.hashrate_hs
                &&& a.chip_temperature_c == b.chip_temperature_c
                &&& a.voltage_v == b.voltage_v
                &&& a.current_a == b.current_a
                &&& a.power_w == b.power_w
                &&& a.input_voltage_v == b.input_voltage_v
                &&& a.regulator_temperature_c == b.regulator_temperature_c
                &&& a.board_temperature_c == b.board_temperature_c
                &&& a.power_fraction == b.power_fraction
                &&& a.power_ceiling == b.power_ceiling
                &&& a.chips@ == b.chips@
            },
        after.setpoint_c == before.setpoint_c,
        after.mode == before.mode,
        after.power_fraction == before.power_fraction,
        after.probes == before.probes,
        after.supply_v == before.supply_v,
        out.refused is None,
{
    assert forall|i: int| 0 <= i < miner.boards@.len() implies agree(
        #[trigger] after.miner.boards@[i],
        miner.boards@[i],
    ) by {}
    assert forall|i: int|
        #![trigger after.miner.boards@[i]]
        #![trigger miner.boards@[i]]
        0 <= i < miner.boards@.len() implies after.miner.boards@[i].chips@
        == miner.boards@[i].chips@ by {
        assert(agree(after.miner.boards@[i], miner.boards@[i]));
        assert(after.miner.boards@[i].chips@ =~= miner.boards@[i].chips@);
    }
}

/// After any other command that is taken, the snapshot has what the
/// command carries and is otherwise what it was.
pub proof fn lemma_a_command_sets_what_it_carries(
    before: State,
    command: Command,
    after: State,
    out: Outcome,
)
    requires
        applied(before, command, after, out),
    ensures
        !(command is MinerReport) ==> after.miner == before.miner,
        !(command is SetSetpoint) ==> after.setpoint_c == before.setpoint_c,
        !(command is SetPowerFraction) ==> after.power_fraction == before.power_fraction,
        !(command is SetMode) ==> after.mode == before.mode,
        !(command is ProbeReading) ==> after.probes == before.probes,
        !(command is Supply) ==> after.supply_v == before.supply_v,
        command matches Command::SetMode { mode } ==> after.mode == mode && out.refused is None,
        command matches Command::Supply { volts } ==> after.supply_v == Some(volts)
            && out.refused is None,
        command matches Command::SetSetpoint { celsius } ==> {
            let taken = !celsius.is_nan() && (Double { bits: 0 }).at_most(celsius)
                && celsius.at_most(Double { bits: 0x4057_c000_0000_0000 });
            &&& taken ==> after.setpoint_c == celsius && out.refused is None
            &&& !taken ==> after.setpoint_c == before.setpoint_c && out.refused == Some(
                Refusal::Setpoint(celsius),
            )
        },
        command matches Command::SetPowerFraction { fraction } ==> {
            let taken = !fraction.is_nan() && (Double { bits: 0 }).at_most(fraction)
                && fraction.at_most(Double { bits: 0x3ff0_0000_0000_0000 });
            &&& taken ==> after.power_fraction == Some(fraction) && out.refused is None
            &&& !taken ==> after.power_fraction == before.power_fraction && out.refused == Some(
                Refusal::PowerFraction(fraction),
            )
        },
        command matches Command::ProbeReading { index, volts, celsius } ==> {
            &&& out.refused is None
            &&& after.probes@.len() == before.probes@.len()
            &&& index < before.probes@.len() ==> after.probes@[index as int].celsius == celsius
                && after.probes@[index as int].volts == volts
                && after.probes@[index as int].name == before.probes@[index as int].name
            &&& forall|i: int|
                0 <= i < before.probes@.len() && i != index ==> #[trigger] after.probes@[i]
                    == before.probes@[i]
        },
{
}

/// A silent miner is offline and reports nothing at all.
pub proof fn lemma_a_silent_miner_reports_nothing(miner: Miner)
    ensures
        miner.is_silent() <==> {
            &&& !miner.online
            &&& miner.hashrate_hs is None
            &&& miner.power_w is None
            &&& miner.chip_temperature_c is None
            &&& miner.power_fraction is None
            &&& miner.power_ceiling is None
            &&& miner.boards@.len() == 0
            &&& miner.uptime_secs is None
            &&& miner.shares_submitted is None
            &&& miner.pool is None
            &&& miner.difficulty is None
        },
        miner.has_no_details() <==> miner.boards@.len() == 0 && miner.has_no_account(),
        miner.has_no_account() <==> miner.uptime_secs is None && miner.shares_submitted is None
            && miner.pool is None && miner.difficulty is None,
{
}

/// Whoever asked is told nothing but that it was done, or why it was
/// not, with the value they asked for.
pub proof fn lemma_what_is_told(out: Outcome, shown: Seq<char>, r: Result<(), Rejected>)
    requires
        out.tells(shown, r),
    ensures
        r is Ok <==> out.refused is None,
        out.refused is Some && out.refused->0 is Setpoint ==> r->Err_0.0@ == "setpoint "@ + shown
            + " C is outside 0..=95 C"@,
        out.refused is Some && out.refused->0 is PowerFraction ==> r->Err_0.0@
            == "power fraction "@ + shown + " is outside 0..=1"@,
{
}

} // verus!
