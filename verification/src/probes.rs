//! The thermistors as configured, and what a reading of one means.
use vstd::prelude::*;

use crate::adc::Channel;
use crate::double::Double;
use crate::state::Command;
use crate::thermistor;
use crate::thermistor::Thermistor;
use crate::wording;

verus! {

/// One thermistor on one ADC input, as configured.
#[derive(Debug, Clone, PartialEq)]
pub struct ProbeConfig {
    /// Probe name, such as "bath".
    pub name: String,
    /// The ADC input the divider feeds.
    pub channel: Channel,
    /// Correction added to the converted reading, in degrees Celsius,
    /// from calibration against a reference thermometer.
    pub offset_c: Double,
    /// The fixed resistor in the divider, in ohms.
    pub divider_resistor: Double,
    /// Steinhart-Hart coefficients.
    pub a: Double,
    pub b: Double,
    pub c: Double,
}

impl ProbeConfig {
    pub open spec fn thermistor_spec(self) -> Thermistor {
        Thermistor { divider_resistor: self.divider_resistor, a: self.a, b: self.b, c: self.c }
    }

    /// The thermistor's own parameters.
    pub fn thermistor(&self) -> (t: Thermistor)
        ensures
            t == self.thermistor_spec(),
    {
        Thermistor { divider_resistor: self.divider_resistor, a: self.a, b: self.b, c: self.c }
    }

    /// The corrected temperature at a resistance with this natural
    /// logarithm, in degrees Celsius.
    pub fn corrected(&self, ln_r: Double) -> (celsius: Double)
        ensures
            celsius == self.thermistor_spec().celsius_at(ln_r).plus(self.offset_c),
    {
        self.thermistor().resistance_to_celsius(ln_r).plus(self.offset_c)
    }
}

/// Everything the reader needs from the configuration.
#[derive(Debug, Clone, PartialEq)]
pub struct ProbesConfig {
    /// The I2C bus the ADC is on.
    pub i2c_bus: String,
    /// The divider supply, in volts, used when `vcc_channel` is unset
    /// or reads out of range.
    pub vcc: Double,
    /// An ADC input wired to the divider supply, read every cycle so
    /// the conversion is ratiometric.
    pub vcc_channel: Option<Channel>,
    /// Probes in index order, which is the order the state reports.
    pub probes: Vec<ProbeConfig>,
}

/// What is wrong with a setup, the probes by their index.
#[derive(Debug, Clone, Copy, PartialEq, Eq, Structural)]
pub enum Problem {
    NoProbes,
    VccNotPositive,
    Unnamed(usize),
    ResistorNotPositive(usize),
    OnVccChannel(usize),
    /// Two probes on one channel, the earlier first.
    SharedChannel(usize, usize),
}

/// The first of the probes from `j` up, before `i`, on the same channel
/// as probe `i`.
pub open spec fn sharing(probes: Seq<ProbeConfig>, i: int, j: int) -> Option<int>
    decreases i - j,
{
    if j >= i {
        None
    } else if probes[j].channel == probes[i].channel {
        Some(j)
    } else {
        sharing(probes, i, j + 1)
    }
}

impl ProbesConfig {
    /// What is wrong with one probe.
    pub open spec fn probe_problem(self, i: int) -> Option<Problem> {
        let p = self.probes@[i];
        if p.name@.len() == 0 {
            Some(Problem::Unnamed(i as usize))
        } else if !(Double { bits: 0 }).below(p.divider_resistor) {
            Some(Problem::ResistorNotPositive(i as usize))
        } else if self.vcc_channel == Some(p.channel) {
            Some(Problem::OnVccChannel(i as usize))
        } else {
            match sharing(self.probes@, i, 0) {
                Some(j) => Some(Problem::SharedChannel(j as usize, i as usize)),
                None => None,
            }
        }
    }

    /// What is wrong with the first bad probe from `i` up.
    pub open spec fn problem_from(self, i: int) -> Option<Problem>
        decreases self.probes@.len() - i,
    {
        if i >= self.probes@.len() {
            None
        } else {
            match self.probe_problem(i) {
                Some(p) => Some(p),
                None => self.problem_from(i + 1),
            }
        }
    }

    /// What is wrong with the setup: nothing configured, then no
    /// supply, then the first bad probe.
    pub open spec fn problem(self) -> Option<Problem> {
        if self.probes@.len() == 0 {
            Some(Problem::NoProbes)
        } else if !(Double { bits: 0 }).below(self.vcc) {
            Some(Problem::VccNotPositive)
        } else {
            self.problem_from(0)
        }
    }

    /// Probe names in index order.
    pub fn names(&self) -> (names: Vec<&str>)
        ensures
            names@.len() == self.probes@.len(),
            forall|i: int|
                0 <= i < names@.len() ==> (#[trigger] names@[i])@ == self.probes@[i].name@,
    {
        let mut names: Vec<&str> = Vec::new();
        let mut i: usize = 0;
        while i < self.probes.len()
            invariant
                i <= self.probes@.len(),
                names@.len() == i,
                forall|j: int| 0 <= j < i ==> (#[trigger] names@[j])@ == self.probes@[j].name@,
            decreases self.probes@.len() - i,
        {
            names.push(self.probes[i].name.as_str());
            i = i + 1;
        }
        names
    }

    /// The first earlier probe on the same channel.
    fn earlier_on_channel(&self, i: usize) -> (j: Option<usize>)
        requires
            i < self.probes@.len(),
        ensures
            match j {
                Some(k) => k < i && sharing(self.probes@, i as int, 0) == Some(k as int),
                None => sharing(self.probes@, i as int, 0) is None,
            },
    {
        let mut j: usize = 0;
        while j < i
            invariant
                j <= i < self.probes@.len(),
                sharing(self.probes@, i as int, 0) == sharing(self.probes@, i as int, j as int),
            decreases i - j,
        {
            if self.probes[j].channel == self.probes[i].channel {
                return Some(j);
            }
            j = j + 1;
        }
        None
    }

    /// Rejects an empty, duplicated, or physically impossible setup.
    pub fn validate(&self) -> (r: Result<(), Problem>)
        ensures
            r == match self.problem() {
                Some(p) => Err::<(), Problem>(p),
                None => Ok(()),
            },
    {
        if self.probes.len() == 0 {
            return Err(Problem::NoProbes);
        }
        let zero = Double { bits: 0 };
        if !zero.below(self.vcc) {
            return Err(Problem::VccNotPositive);
        }
        let mut i: usize = 0;
        while i < self.probes.len()
            invariant
                i <= self.probes@.len(),
                zero == (Double { bits: 0 }),
                self.problem() == self.problem_from(i as int),
            decreases self.probes@.len() - i,
        {
            let p = &self.probes[i];
            if p.name.as_str().is_empty() {
                return Err(Problem::Unnamed(i));
            }
            if !zero.below(p.divider_resistor) {
                return Err(Problem::ResistorNotPositive(i));
            }
            if let Some(channel) = self.vcc_channel {
                if channel == p.channel {
                    return Err(Problem::OnVccChannel(i));
                }
            }
            if let Some(j) = self.earlier_on_channel(i) {
                return Err(Problem::SharedChannel(j, i));
            }
            i = i + 1;
        }
        Ok(())
    }

    /// A problem of this setup, so its probes exist.
    pub open spec fn has_probes_of(self, problem: Problem) -> bool {
        match problem {
            Problem::NoProbes => true,
            Problem::VccNotPositive => true,
            Problem::Unnamed(i) => i < self.probes@.len(),
            Problem::ResistorNotPositive(i) => i < self.probes@.len(),
            Problem::OnVccChannel(i) => i < self.probes@.len(),
            Problem::SharedChannel(j, i) => j < self.probes@.len() && i < self.probes@.len(),
        }
    }

    /// A problem in words.
    pub open spec fn problem_text(self, problem: Problem) -> Seq<char> {
        match problem {
            Problem::NoProbes => "no probes configured"@,
            Problem::VccNotPositive => "vcc must be positive"@,
            Problem::Unnamed(i) => "probe "@ + wording::digits(i as nat) + " has no name"@,
            Problem::ResistorNotPositive(i) => "probe "@ + self.probes@[i as int].name@
                + ": divider_resistor must be positive"@,
            Problem::OnVccChannel(i) => "probe "@ + self.probes@[i as int].name@
                + " shares channel "@ + ("A"@ + wording::digits(
                self.probes@[i as int].channel.number() as nat,
            )) + " with vcc_channel"@,
            Problem::SharedChannel(j, i) => "probes "@ + self.probes@[j as int].name@ + " and "@
                + self.probes@[i as int].name@ + " share channel "@ + ("A"@ + wording::digits(
                self.probes@[i as int].channel.number() as nat,
            )),
        }
    }

    /// A problem in words.
    pub fn describe(&self, problem: Problem) -> (text: String)
        requires
            self.has_probes_of(problem),
        ensures
            text@ == self.problem_text(problem),
    {
        match problem {
            Problem::NoProbes => "no probes configured".to_string(),
            Problem::VccNotPositive => "vcc must be positive".to_string(),
            Problem::Unnamed(i) => {
                let mut text = "probe ".to_string();
                wording::push_digits(&mut text, i as u128);
                text.append(" has no name");
                text
            },
            Problem::ResistorNotPositive(i) => {
                let mut text = "probe ".to_string();
                text.append(self.probes[i].name.as_str());
                text.append(": divider_resistor must be positive");
                text
            },
            Problem::OnVccChannel(i) => {
                let mut text = "probe ".to_string();
                text.append(self.probes[i].name.as_str());
                text.append(" shares channel ");
                text.append(self.probes[i].channel.to_text().as_str());
                text.append(" with vcc_channel");
                text
            },
            Problem::SharedChannel(j, i) => {
                let mut text = "probes ".to_string();
                text.append(self.probes[j].name.as_str());
                text.append(" and ");
                text.append(self.probes[i].name.as_str());
                text.append(" share channel ");
                text.append(self.probes[i].channel.to_text().as_str());
                text
            },
        }
    }
}

/// A setup without a problem has probes, a supply, a name and a divider
/// for each probe, and every input used once.
pub proof fn lemma_a_valid_setup(config: ProbesConfig)
    requires
        config.problem() is None,
    ensures
        config.probes@.len() > 0,
        (Double { bits: 0 }).below(config.vcc),
        forall|i: int|
            0 <= i < config.probes@.len() ==> (#[trigger] config.probes@[i]).name@.len() > 0 && (
            Double { bits: 0 }).below(config.probes@[i].divider_resistor) && config.vcc_channel
                != Some(config.probes@[i].channel),
        forall|i: int, j: int|
            0 <= j < i < config.probes@.len() ==> (#[trigger] config.probes@[j]).channel != (
            #[trigger] config.probes@[i]).channel,
{
    assert forall|i: int| 0 <= i < config.probes@.len() implies config.probe_problem(i) is None by {
        lemma_no_problem_from(config, 0, i);
    }
    assert forall|i: int| 0 <= i < config.probes@.len() implies (#[trigger] config.probes@[
        i
    ]).name@.len() > 0 && (Double { bits: 0 }).below(config.probes@[i].divider_resistor)
        && config.vcc_channel != Some(config.probes@[i].channel) by {
        assert(config.probe_problem(i) is None);
    }
    assert forall|i: int, j: int| 0 <= j < i < config.probes@.len() implies (
    #[trigger] config.probes@[j]).channel != (#[trigger] config.probes@[i]).channel by {
        assert(config.probe_problem(i) is None);
        lemma_sharing_none(config.probes@, i, 0, j);
    }
}

/// The problem found with a setup is about probes it has.
pub proof fn lemma_problem_has_its_probes(config: ProbesConfig)
    ensures
        config.problem() matches Some(p) ==> config.has_probes_of(p),
{
    assert(config.probes.len() == config.probes@.len());
    lemma_problem_from_has_its_probes(config, 0);
}

proof fn lemma_problem_from_has_its_probes(config: ProbesConfig, i: int)
    requires
        0 <= i,
        config.probes@.len() <= usize::MAX,
    ensures
        config.problem_from(i) matches Some(p) ==> config.has_probes_of(p),
    decreases config.probes@.len() - i,
{
    if i < config.probes@.len() {
        lemma_sharing_bounds(config.probes@, i, 0);
        lemma_problem_from_has_its_probes(config, i + 1);
    }
}

proof fn lemma_sharing_bounds(probes: Seq<ProbeConfig>, i: int, j: int)
    requires
        0 <= j,
    ensures
        sharing(probes, i, j) matches Some(k) ==> j <= k < i && probes[k].channel
            == probes[i].channel,
    decreases i - j,
{
    if j < i {
        lemma_sharing_bounds(probes, i, j + 1);
    }
}

proof fn lemma_sharing_none(probes: Seq<ProbeConfig>, i: int, j: int, k: int)
    requires
        sharing(probes, i, j) is None,
        j <= k < i,
    ensures
        probes[k].channel != probes[i].channel,
    decreases i - j,
{
    if j < k {
        lemma_sharing_none(probes, i, j + 1, k);
    }
}

proof fn lemma_no_problem_from(config: ProbesConfig, from: int, i: int)
    requires
        config.problem_from(from) is None,
        0 <= from <= i < config.probes@.len(),
    ensures
        config.probe_problem(i) is None,
    decreases i - from,
{
    if from < i {
        lemma_no_problem_from(config, from + 1, i);
    }
}

/// How often every probe is read, in milliseconds.
pub const INTERVAL_MS: u64 = 500;

/// Below this the thermistor is open; above `vcc` minus this it is
/// shorted: 0.05, as a double's bits. Either way there is no reading.
pub const FAULT_MARGIN_V: u64 = 0x3fa9_9999_9999_999a;

/// A measured supply outside this range is a wiring fault, and the
/// configured value stands in for it: 2.5 and 3.6, as a double's bits.
pub const SUPPLY_LOW_V: u64 = 0x4004_0000_0000_0000;

pub const SUPPLY_HIGH_V: u64 = 0x400c_cccc_cccc_cccd;

/// A thermistor that cannot be read.
#[derive(Debug, Clone, Copy, PartialEq, Eq, Structural)]
pub enum Wiring {
    Open,
    Shorted,
}

impl Wiring {
    pub open spec fn text_spec(self) -> Seq<char> {
        match self {
            Wiring::Open => "open"@,
            Wiring::Shorted => "shorted"@,
        }
    }

    /// The fault in a word.
    pub fn to_text(self) -> (text: &'static str)
        ensures
            text@ == self.text_spec(),
    {
        match self {
            Wiring::Open => "open",
            Wiring::Shorted => "shorted",
        }
    }
}

/// The fault a divider voltage shows, if any.
pub open spec fn wiring_spec(volts: Double, vcc: Double) -> Option<Wiring> {
    if volts.below(Double { bits: FAULT_MARGIN_V }) {
        Some(Wiring::Open)
    } else if vcc.minus(Double { bits: FAULT_MARGIN_V }).below(volts) {
        Some(Wiring::Shorted)
    } else {
        None
    }
}

/// The fault a divider voltage shows, if any.
pub fn wiring(volts: Double, vcc: Double) -> (w: Option<Wiring>)
    ensures
        w == wiring_spec(volts, vcc),
{
    let margin = Double { bits: FAULT_MARGIN_V };
    if volts.below(margin) {
        Some(Wiring::Open)
    } else if vcc.minus(margin).below(volts) {
        Some(Wiring::Shorted)
    } else {
        None
    }
}

/// Classifies a divider voltage as a reading or a fault.
pub fn classify(volts: Double, vcc: Double) -> (r: Result<Double, &'static str>)
    ensures
        match wiring_spec(volts, vcc) {
            None => r == Ok::<Double, &'static str>(volts),
            Some(w) => r is Err && r->Err_0@ == w.text_spec(),
        },
{
    match wiring(volts, vcc) {
        None => Ok(volts),
        Some(w) => Err(w.to_text()),
    }
}

/// Whether a measured supply is one.
pub open spec fn supply_in_range(volts: Double) -> bool {
    (Double { bits: SUPPLY_LOW_V }).at_most(volts) && volts.at_most(Double { bits: SUPPLY_HIGH_V })
}

/// What a cycle makes of the supply.
#[derive(Debug, Clone, Copy, PartialEq, Eq, Structural)]
pub struct Supply {
    /// The supply to convert with.
    pub vcc: Double,
    /// The measured supply to report, if it was measured.
    pub report: Option<Double>,
    /// Whether a supply fault began or cleared.
    pub news: bool,
}

/// What a cycle makes of one probe's volts.
#[derive(Debug, Clone, Copy, PartialEq, Eq, Structural)]
pub struct Reading {
    /// The fault it shows, if any, and whether that is news.
    pub fault: Option<Wiring>,
    pub news: bool,
    /// The thermistor's resistance, where there is a reading.
    pub ohms: Option<Double>,
}

/// The reader between cycles: the faults it has already reported.
#[derive(Debug, Clone)]
pub struct Reader {
    pub faults: Vec<Option<Wiring>>,
    pub supply_fault: bool,
}

impl Reader {
    /// A reader that has seen no faults.
    pub fn new(config: &ProbesConfig) -> (r: Self)
        ensures
            r.faults@ == Seq::new(config.probes@.len(), |i: int| None::<Wiring>),
            !r.supply_fault,
    {
        let mut faults: Vec<Option<Wiring>> = Vec::new();
        let mut i: usize = 0;
        while i < config.probes.len()
            invariant
                i <= config.probes@.len(),
                faults@ == Seq::new(i as nat, |i: int| None::<Wiring>),
            decreases config.probes@.len() - i,
        {
            faults.push(None);
            assert(faults@ =~= Seq::new((i + 1) as nat, |i: int| None::<Wiring>));
            i = i + 1;
        }
        Reader { faults, supply_fault: false }
    }

    /// Takes in the supply's mean volts, or None where the bus read
    /// failed or no input is wired to the supply. A measured supply in
    /// range is reported and converted with; otherwise the configured
    /// one is. A failed read changes nothing.
    pub fn take_supply(&mut self, config: &ProbesConfig, measured: Option<Double>) -> (s: Supply)
        ensures
            s == match measured {
                Some(volts) => if supply_in_range(volts) {
                    Supply { vcc: volts, report: Some(volts), news: old(self).supply_fault }
                } else {
                    Supply { vcc: config.vcc, report: None, news: !old(self).supply_fault }
                },
                None => Supply { vcc: config.vcc, report: None, news: false },
            },
            final(self).faults == old(self).faults,
            final(self).supply_fault == match measured {
                Some(volts) => !supply_in_range(volts),
                None => old(self).supply_fault,
            },
    {
        match measured {
            Some(volts) => {
                let in_range = (Double { bits: SUPPLY_LOW_V }).at_most(volts) && volts.at_most(
                    Double { bits: SUPPLY_HIGH_V },
                );
                let was_fault = self.supply_fault;
                self.supply_fault = !in_range;
                if in_range {
                    Supply { vcc: volts, report: Some(volts), news: was_fault }
                } else {
                    Supply { vcc: config.vcc, report: None, news: !was_fault }
                }
            },
            None => Supply { vcc: config.vcc, report: None, news: false },
        }
    }

    /// Takes in one probe's mean volts. An open or shorted probe has no
    /// resistance; the change is news once.
    pub fn take_volts(
        &mut self,
        config: &ProbesConfig,
        index: usize,
        volts: Double,
        vcc: Double,
    ) -> (r: Reading)
        requires
            index < config.probes@.len(),
            old(self).faults@.len() == config.probes@.len(),
        ensures
            reads(*old(self), *final(self), *config, index as int, volts, vcc, r),
    {
        let fault = wiring(volts, vcc);
        let before = self.faults[index];
        let news = match (fault, before) {
            (None, None) => false,
            (Some(a), Some(b)) => a != b,
            _ => true,
        };
        self.faults.set(index, fault);
        let ohms = match fault {
            Some(_) => None,
            None => Some(config.probes[index].thermistor().resistance(volts, vcc)),
        };
        Reading { fault, news, ohms }
    }

    /// Takes in one probe's mean volts, or None where the bus read
    /// failed, which gives no reading and changes nothing.
    pub fn take_reading(
        &mut self,
        config: &ProbesConfig,
        index: usize,
        measured: Option<Double>,
        vcc: Double,
    ) -> (r: Option<Reading>)
        requires
            index < config.probes@.len(),
            old(self).faults@.len() == config.probes@.len(),
        ensures
            match measured {
                Some(volts) => r matches Some(x) && reads(
                    *old(self),
                    *final(self),
                    *config,
                    index as int,
                    volts,
                    vcc,
                    x,
                ),
                None => r is None && *final(self) == *old(self),
            },
    {
        match measured {
            Some(volts) => Some(self.take_volts(config, index, volts, vcc)),
            None => None,
        }
    }
}

/// Whether this is what a reader makes of one probe's volts, and how it
/// is left.
pub open spec fn reads(
    before: Reader,
    after: Reader,
    config: ProbesConfig,
    index: int,
    volts: Double,
    vcc: Double,
    r: Reading,
) -> bool {
    &&& r.fault == wiring_spec(volts, vcc)
    &&& r.news == (r.fault != before.faults@[index])
    &&& r.ohms == match r.fault {
        Some(_) => None,
        None => Some(thermistor::upper_leg(config.probes@[index].divider_resistor, volts, vcc)),
    }
    &&& after.faults@ == before.faults@.update(index, r.fault)
    &&& after.supply_fault == before.supply_fault
}

/// The command that records one probe's volts, and its temperature
/// where the natural logarithm of its resistance is at hand.
pub open spec fn report_spec(
    config: ProbesConfig,
    index: usize,
    volts: Double,
    ln_r: Option<Double>,
) -> Command {
    Command::ProbeReading {
        index,
        volts: Some(volts),
        celsius: match ln_r {
            Some(x) => Some(
                config.probes@[index as int].thermistor_spec().celsius_at(x).plus(
                    config.probes@[index as int].offset_c,
                ),
            ),
            None => None,
        },
    }
}

/// The command that records one probe's volts, and its temperature
/// where the natural logarithm of its resistance is at hand.
pub fn report(config: &ProbesConfig, index: usize, volts: Double, ln_r: Option<Double>) -> (c:
    Command)
    requires
        index < config.probes@.len(),
    ensures
        c == report_spec(*config, index, volts, ln_r),
{
    let celsius = match ln_r {
        Some(x) => Some(config.probes[index].corrected(x)),
        None => None,
    };
    Command::ProbeReading { index, volts: Some(volts), celsius }
}

/// The command that a probe's reading sends: none where the bus read
/// failed, so that the probe keeps its last value.
pub open spec fn sent_spec(
    config: ProbesConfig,
    index: usize,
    measured: Option<Double>,
    ln_r: Option<Double>,
) -> Option<Command> {
    match measured {
        Some(volts) => Some(report_spec(config, index, volts, ln_r)),
        None => None,
    }
}

/// The command that a probe's reading sends, if it sends one.
pub fn sent(
    config: &ProbesConfig,
    index: usize,
    measured: Option<Double>,
    ln_r: Option<Double>,
) -> (c: Option<Command>)
    requires
        index < config.probes@.len(),
    ensures
        c == sent_spec(*config, index, measured, ln_r),
{
    match measured {
        Some(volts) => Some(report(config, index, volts, ln_r)),
        None => None,
    }
}

/// A failed read of a probe sends nothing and leaves the reader alone.
/// Any other sends the volts, with no temperature just where the probe
/// is open or shorted, and else the thermistor's with the offset added,
/// by whatever function gives the logarithm.
pub proof fn lemma_what_a_probe_sends(
    before: Reader,
    after: Reader,
    config: ProbesConfig,
    index: usize,
    measured: Option<Double>,
    vcc: Double,
    r: Option<Reading>,
    ln: spec_fn(Double) -> Double,
)
    requires
        index < config.probes@.len(),
        before.faults@.len() == config.probes@.len(),
        match measured {
            Some(volts) => r matches Some(x) && reads(
                before,
                after,
                config,
                index as int,
                volts,
                vcc,
                x,
            ),
            None => r is None && after == before,
        },
    ensures
        ({
            let ln_r = match r {
                Some(x) => match x.ohms {
                    Some(ohms) => Some(ln(ohms)),
                    None => None,
                },
                None => None,
            };
            let probe = config.probes@[index as int];
            let margin = Double { bits: FAULT_MARGIN_V };
            sent_spec(config, index, measured, ln_r) == match measured {
                None => None,
                Some(volts) => Some(
                    Command::ProbeReading {
                        index,
                        volts: Some(volts),
                        celsius: if volts.below(margin) || vcc.minus(margin).below(volts) {
                            None
                        } else {
                            Some(
                                probe.thermistor_spec().celsius_at(
                                    ln(thermistor::upper_leg(probe.divider_resistor, volts, vcc)),
                                ).plus(probe.offset_c),
                            )
                        },
                    },
                ),
            }
        }),
        measured is None ==> after == before,
{
}

// What decides.
/// A divider under a twentieth of a volt is open, and one within a
/// twentieth of its supply is shorted; any other voltage between is
/// read.
pub proof fn lemma_when_a_thermistor_cannot_be_read(volts: Double, vcc: Double)
    ensures
        ({
            let margin = Double { bits: 0x3fa9_9999_9999_999a };
            &&& volts.below(margin) <==> wiring_spec(volts, vcc) == Some(Wiring::Open)
            &&& !volts.below(margin) && vcc.minus(margin).below(volts) <==> wiring_spec(volts, vcc)
                == Some(Wiring::Shorted)
            &&& margin.at_most(volts) && volts.at_most(vcc.minus(margin)) ==> wiring_spec(
                volts,
                vcc,
            ) is None
        }),
        Wiring::Open.text_spec() == "open"@,
        Wiring::Shorted.text_spec() == "shorted"@,
{
}

/// A measured supply is one from 2.5 to 3.6 V.
pub proof fn lemma_which_supplies_are_taken(volts: Double)
    ensures
        supply_in_range(volts) <==> (Double { bits: 0x4004_0000_0000_0000 }).at_most(volts)
            && volts.at_most(Double { bits: 0x400c_cccc_cccc_cccd }),
{
}

/// What a reader makes of a probe's volts is the probe's own: it
/// remembers its fault, tells a change of it, and gives a resistance
/// just where there is none; what it knows of the others stays.
pub proof fn lemma_a_reading_is_the_probes_own(
    before: Reader,
    after: Reader,
    config: ProbesConfig,
    index: int,
    volts: Double,
    vcc: Double,
    r: Reading,
    other: int,
)
    requires
        0 <= index < before.faults@.len(),
        before.faults@.len() == config.probes@.len(),
        reads(before, after, config, index, volts, vcc, r),
    ensures
        after.faults@.len() == before.faults@.len(),
        after.faults@[index] == r.fault,
        0 <= other < before.faults@.len() && other != index ==> after.faults@[other]
            == before.faults@[other],
        r.news <==> after.faults@[index] != before.faults@[index],
        r.ohms is Some <==> r.fault is None,
        r.fault is None <==> wiring_spec(volts, vcc) is None,
        r.ohms matches Some(ohms) ==> ohms == thermistor::upper_leg(
            config.probes@[index].divider_resistor,
            volts,
            vcc,
        ),
        after.supply_fault == before.supply_fault,
{
}

/// A probe's thermistor has its coefficients.
pub proof fn lemma_a_thermistor_is_its_probes(probe: ProbeConfig)
    ensures
        probe.thermistor_spec().divider_resistor == probe.divider_resistor,
        probe.thermistor_spec().a == probe.a,
        probe.thermistor_spec().b == probe.b,
        probe.thermistor_spec().c == probe.c,
{
}

/// A setup with probes, a supply, a name and a divider for each probe,
/// and every input used once, has no problem.
pub proof fn lemma_a_possible_setup_is_taken(config: ProbesConfig)
    requires
        config.probes@.len() > 0,
        (Double { bits: 0 }).below(config.vcc),
        forall|i: int|
            0 <= i < config.probes@.len() ==> (#[trigger] config.probes@[i]).name@.len() > 0 && (
            Double { bits: 0 }).below(config.probes@[i].divider_resistor) && config.vcc_channel
                != Some(config.probes@[i].channel),
        forall|i: int, j: int|
            0 <= j < i < config.probes@.len() ==> (#[trigger] config.probes@[j]).channel != (
            #[trigger] config.probes@[i]).channel,
    ensures
        config.problem() is None,
{
    assert forall|i: int| 0 <= i < config.probes@.len() implies config.probe_problem(i) is None by {
        lemma_sharing_bounds(config.probes@, i, 0);
        assert(config.probes@[i].name@.len() > 0);
    }
    lemma_nothing_from(config, 0);
}

proof fn lemma_nothing_from(config: ProbesConfig, from: int)
    requires
        0 <= from,
        forall|i: int| 0 <= i < config.probes@.len() ==> config.probe_problem(i) is None,
    ensures
        config.problem_from(from) is None,
    decreases config.probes@.len() - from,
{
    if from < config.probes@.len() {
        assert(config.probe_problem(from) is None);
        lemma_nothing_from(config, from + 1);
    }
}

/// Which problem is told: that there are no probes, then that there is
/// no supply, then that of the first probe that has one, of which no
/// name comes first, then the divider, then the supply's input, and
/// then an input that an earlier probe is on.
pub proof fn lemma_which_problem_is_told(config: ProbesConfig, i: int)
    ensures
        config.probes@.len() == 0 ==> config.problem() == Some(Problem::NoProbes),
        config.probes@.len() > 0 && !(Double { bits: 0 }).below(config.vcc) ==> config.problem()
            == Some(Problem::VccNotPositive),
        0 <= i < config.probes@.len() && (Double { bits: 0 }).below(config.vcc) && (forall|j: int|
            0 <= j < i ==> config.probe_problem(j) is None) ==> {
            let p = config.probes@[i];
            &&& p.name@.len() == 0 ==> config.problem() == Some(Problem::Unnamed(i as usize))
            &&& p.name@.len() > 0 && !(Double { bits: 0 }).below(p.divider_resistor)
                ==> config.problem() == Some(Problem::ResistorNotPositive(i as usize))
            &&& p.name@.len() > 0 && (Double { bits: 0 }).below(p.divider_resistor)
                && config.vcc_channel == Some(p.channel) ==> config.problem() == Some(
                Problem::OnVccChannel(i as usize),
            )
            &&& p.name@.len() > 0 && (Double { bits: 0 }).below(p.divider_resistor)
                && config.vcc_channel != Some(p.channel) ==> forall|j: int|
                0 <= j < i && (#[trigger] config.probes@[j]).channel == p.channel && (forall|k: int|
                    0 <= k < j ==> (#[trigger] config.probes@[k]).channel != p.channel)
                    ==> config.problem() == Some(Problem::SharedChannel(j as usize, i as usize))
        },
{
    if 0 <= i < config.probes@.len() && (forall|j: int|
        0 <= j < i ==> config.probe_problem(j) is None) {
        if config.probe_problem(i) is Some {
            lemma_the_first_problem(config, 0, i);
        }
        let p = config.probes@[i];
        assert forall|j: int|
            0 <= j < i && (#[trigger] config.probes@[j]).channel == p.channel && (forall|k: int|
                0 <= k < j ==> (#[trigger] config.probes@[k]).channel != p.channel) implies sharing(
            config.probes@,
            i,
            0,
        ) == Some(j) by {
            lemma_the_first_sharing(config.probes@, i, 0, j);
        }
    }
}

proof fn lemma_the_first_problem(config: ProbesConfig, from: int, i: int)
    requires
        0 <= from <= i < config.probes@.len(),
        forall|j: int| 0 <= j < i ==> config.probe_problem(j) is None,
        config.probe_problem(i) is Some,
    ensures
        config.problem_from(from) == config.probe_problem(i),
    decreases i - from,
{
    if from < i {
        assert(config.probe_problem(from) is None);
        lemma_the_first_problem(config, from + 1, i);
    }
}

proof fn lemma_the_first_sharing(probes: Seq<ProbeConfig>, i: int, from: int, j: int)
    requires
        0 <= from <= j < i,
        probes[j].channel == probes[i].channel,
        forall|k: int| 0 <= k < j ==> (#[trigger] probes[k]).channel != probes[i].channel,
    ensures
        sharing(probes, i, from) == Some(j),
    decreases j - from,
{
    if from < j {
        assert(probes[from].channel != probes[i].channel);
        lemma_the_first_sharing(probes, i, from + 1, j);
    }
}

} // verus!
