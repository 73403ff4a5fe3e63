//! What the command line prints, and what the daemon logs.
use vstd::prelude::*;

use crate::calibration::{Missing, Residual, Sample, Terms};
use crate::double::Double;
use crate::history;
use crate::screen;
use crate::state::{Miner, Probe, State};
use crate::wording;

verus! {

/// A temperature in both units, since the bath is set in Fahrenheit at
/// the table and held in Celsius inside.
pub open spec fn temp_spec(celsius: Double) -> Seq<char> {
    wording::fixed_spec(celsius, 1) + " C ("@ + wording::fixed_spec(
        screen::in_fahrenheit_spec(celsius),
        1,
    ) + " F)"@
}

/// Appends a temperature in both units.
fn push_temp(text: &mut String, celsius: Double)
    ensures
        final(text)@ == old(text)@ + temp_spec(celsius),
{
    let ghost start = text@;
    wording::push_fixed(text, celsius, 1);
    text.append(" C (");
    wording::push_fixed(text, screen::in_fahrenheit(celsius), 1);
    text.append(" F)");
    assert(text@ =~= start + temp_spec(celsius));
}

/// A temperature in both units.
pub fn temp(celsius: Double) -> (text: String)
    ensures
        text@ == temp_spec(celsius),
{
    let mut text = String::new();
    push_temp(&mut text, celsius);
    assert(text@ =~= temp_spec(celsius));
    text
}

/// A temperature in degrees Celsius, given in either unit.
pub fn in_celsius(temperature: Double, fahrenheit: bool) -> (c: Double)
    ensures
        c == if fahrenheit {
            temperature.minus(Double { bits: screen::THIRTY_TWO }).times(
                Double { bits: screen::FIVE },
            ).over(Double { bits: screen::NINE })
        } else {
            temperature
        },
{
    if fahrenheit {
        temperature.minus(Double { bits: screen::THIRTY_TWO }).times(
            Double { bits: screen::FIVE },
        ).over(Double { bits: screen::NINE })
    } else {
        temperature
    }
}

/// A line's name, in its column.
pub open spec fn named(name: Seq<char>) -> Seq<char> {
    wording::left_in_spec(name, 9)
}

/// A probe's line: its temperature, or that it has none, and its volts
/// where it has them.
pub open spec fn probe_line_spec(probe: Probe) -> Seq<char> {
    named(probe.name@) + match probe.celsius {
        Some(c) => temp_spec(c),
        None => "no reading"@,
    } + match probe.volts {
        Some(v) => "  "@ + screen::with_unit_spec(v, 3, " V"@),
        None => Seq::<char>::empty(),
    }
}

/// A probe's line.
pub fn probe_line(probe: &Probe) -> (text: String)
    ensures
        text@ == probe_line_spec(*probe),
{
    let mut text = String::new();
    wording::push_left_in(&mut text, probe.name.as_str(), 9);
    match probe.celsius {
        Some(c) => {
            push_temp(&mut text, c);
        },
        None => {
            text.append("no reading");
        },
    }
    if let Some(v) = probe.volts {
        text.append("  ");
        text.append(screen::with_unit(v, 3, " V").as_str());
    }
    assert(text@ =~= probe_line_spec(*probe));
    text
}

/// The miner's line: its hash rate, its power, and the share it holds.
pub open spec fn miner_line_spec(miner: Miner) -> Seq<char> {
    named("miner"@) + match history::terahashes_spec(miner.hashrate_hs) {
        Some(h) => screen::with_unit_spec(h, 2, " TH/s"@),
        None => "unknown"@,
    } + ", "@ + match miner.power_w {
        Some(w) => screen::with_unit_spec(w, 0, " W"@),
        None => "unknown"@,
    } + ", power fraction "@ + match miner.power_fraction {
        Some(f) => wording::fixed_spec(f, 2),
        None => "unset"@,
    }
}

/// The miner's line.
pub fn miner_line(miner: &Miner) -> (text: String)
    ensures
        text@ == miner_line_spec(*miner),
{
    let mut text = String::new();
    wording::push_left_in(&mut text, "miner", 9);
    match history::terahashes(miner.hashrate_hs) {
        Some(h) => {
            text.append(screen::with_unit(h, 2, " TH/s").as_str());
        },
        None => {
            text.append("unknown");
        },
    }
    text.append(", ");
    match miner.power_w {
        Some(w) => {
            text.append(screen::with_unit(w, 0, " W").as_str());
        },
        None => {
            text.append("unknown");
        },
    }
    text.append(", power fraction ");
    match miner.power_fraction {
        Some(f) => {
            wording::push_fixed(&mut text, f, 2);
        },
        None => {
            text.append("unset");
        },
    }
    assert(text@ =~= miner_line_spec(*miner));
    text
}

/// The lines of some texts.
pub open spec fn lines_of(lines: Seq<String>) -> Seq<Seq<char>> {
    lines.map_values(|l: String| l@)
}

/// The status: the setpoint, the probes, the supply where it is
/// measured, and the miner.
pub open spec fn status_spec(state: State) -> Seq<Seq<char>> {
    seq![named("setpoint"@) + temp_spec(state.setpoint_c)] + Seq::new(
        state.probes@.len(),
        |i: int| probe_line_spec(state.probes@[i]),
    ) + match state.supply_v {
        Some(v) => seq![named("supply"@) + screen::with_unit_spec(v, 3, " V"@)],
        None => Seq::<Seq<char>>::empty(),
    } + seq![miner_line_spec(state.miner)]
}

/// The status, line by line.
pub fn status(state: &State) -> (lines: Vec<String>)
    ensures
        lines_of(lines@) == status_spec(*state),
{
    let mut lines: Vec<String> = Vec::new();
    let mut first = String::new();
    wording::push_left_in(&mut first, "setpoint", 9);
    push_temp(&mut first, state.setpoint_c);
    assert(first@ =~= named("setpoint"@) + temp_spec(state.setpoint_c));
    lines.push(first);
    let ghost want = status_spec(*state);
    let mut i: usize = 0;
    while i < state.probes.len()
        invariant
            i <= state.probes@.len(),
            want == status_spec(*state),
            lines@.len() == i + 1,
            lines_of(lines@) =~= want.take(i + 1),
        decreases state.probes@.len() - i,
    {
        let line = probe_line(&state.probes[i]);
        let ghost before = lines@;
        lines.push(line);
        assert(lines_of(lines@) =~= lines_of(before).push(line@));
        i = i + 1;
    }
    let ghost so_far = lines_of(lines@);
    if let Some(v) = state.supply_v {
        let mut line = String::new();
        wording::push_left_in(&mut line, "supply", 9);
        line.append(screen::with_unit(v, 3, " V").as_str());
        assert(line@ =~= named("supply"@) + screen::with_unit_spec(v, 3, " V"@));
        lines.push(line);
        assert(lines_of(lines@) =~= so_far.push(line@));
    }
    let ghost before_last = lines_of(lines@);
    let last = miner_line(&state.miner);
    lines.push(last);
    assert(lines_of(lines@) =~= before_last.push(last@));
    assert(lines_of(lines@) =~= want);
    lines
}

/// A calibration sample's line.
pub fn sample_line(sample: &Sample) -> (text: String)
    ensures
        text@ == named(sample.probe@) + screen::with_unit_spec(sample.volts, 4, " V of "@)
            + screen::with_unit_spec(sample.supply_v, 4, " V, spread "@) + screen::with_unit_spec(
            sample.spread_v,
            4,
            " V"@,
        ),
{
    let mut text = String::new();
    wording::push_left_in(&mut text, sample.probe.as_str(), 9);
    text.append(screen::with_unit(sample.volts, 4, " V of ").as_str());
    text.append(screen::with_unit(sample.supply_v, 4, " V, spread ").as_str());
    text.append(screen::with_unit(sample.spread_v, 4, " V").as_str());
    assert(text@ =~= named(sample.probe@) + screen::with_unit_spec(sample.volts, 4, " V of "@)
        + screen::with_unit_spec(sample.supply_v, 4, " V, spread "@) + screen::with_unit_spec(
        sample.spread_v,
        4,
        " V"@,
    ));
    text
}

/// Why a snapshot cannot be part of a calibration point, in words.
pub fn missing_text(missing: Missing, state: &State) -> (text: String)
    requires
        missing matches Missing::Volts(i) ==> i < state.probes@.len(),
    ensures
        text@ == match missing {
            Missing::Supply => "the daemon reports no supply voltage; set vcc_channel"@,
            Missing::Volts(i) => "probe "@ + state.probes@[i as int].name@
                + " reports no volts; is the daemon on the ADC?"@,
        },
{
    match missing {
        Missing::Supply => "the daemon reports no supply voltage; set vcc_channel".to_string(),
        Missing::Volts(i) => {
            let mut text = "probe ".to_string();
            text.append(state.probes[i].name.as_str());
            text.append(" reports no volts; is the daemon on the ADC?");
            text
        },
    }
}

/// The heading over a probe's fit.
pub fn fit_heading(name: &str, count: usize, terms: Terms) -> (text: String)
    ensures
        text@ == "# "@ + name@ + ": "@ + wording::digits(count as nat) + " points, "@ + match terms {
            Terms::Two => "Two"@,
            Terms::Three => "Three"@,
        } + " terms; fitted minus reference"@,
{
    let mut text = "# ".to_string();
    text.append(name);
    text.append(": ");
    wording::push_digits(&mut text, count as u128);
    text.append(" points, ");
    text.append(terms.to_text());
    text.append(" terms; fitted minus reference");
    text
}

/// A point's line under a fit.
pub fn residual_line(residual: &Residual) -> (text: String)
    ensures
        text@ == "#   "@ + wording::left_in_spec(residual.label@, 12) + wording::right_in_spec(
            wording::fixed_spec(residual.reference_c, 2),
            7,
        ) + " C  "@ + wording::signed_spec(residual.miss_c, 3) + " C"@,
{
    let mut text = "#   ".to_string();
    wording::push_left_in(&mut text, residual.label.as_str(), 12);
    wording::push_right_in(&mut text, wording::fixed(residual.reference_c, 2).as_str(), 7);
    text.append(" C  ");
    wording::push_signed(&mut text, residual.miss_c, 3);
    text.append(" C");
    text
}

/// What to say of a number of terms that is not 2 or 3.
pub fn terms_text(n: u8) -> (text: String)
    ensures
        text@ == "--terms must be 2 or 3, not "@ + wording::digits(n as nat),
{
    let mut text = "--terms must be 2 or 3, not ".to_string();
    wording::push_digits(&mut text, n as u128);
    text
}

/// The first `n` probes with their readings, for the log.
pub open spec fn readings_spec(probes: Seq<Probe>, n: int) -> Seq<char>
    decreases n,
{
    if n <= 0 {
        Seq::<char>::empty()
    } else {
        let p = probes[n - 1];
        readings_spec(probes, n - 1) + (if n > 1 {
            " "@
        } else {
            Seq::<char>::empty()
        }) + p.name@ + match p.celsius {
            Some(c) => "="@ + wording::fixed_spec(c, 1),
            None => "=?"@,
        }
    }
}

/// The probes with their readings, for the log.
pub fn readings(state: &State) -> (text: String)
    ensures
        text@ == readings_spec(state.probes@, state.probes@.len() as int),
{
    let mut text = String::new();
    let mut i: usize = 0;
    assert(text@ =~= readings_spec(state.probes@, 0));
    while i < state.probes.len()
        invariant
            i <= state.probes@.len(),
            text@ == readings_spec(state.probes@, i as int),
        decreases state.probes@.len() - i,
    {
        let ghost before = text@;
        if i > 0 {
            text.append(" ");
        }
        let p = &state.probes[i];
        text.append(p.name.as_str());
        match p.celsius {
            Some(c) => {
                text.append("=");
                wording::push_fixed(&mut text, c, 1);
            },
            None => {
                text.append("=?");
            },
        }
        assert(text@ =~= readings_spec(state.probes@, i + 1));
        i = i + 1;
    }
    text
}

// What the lines say.
/// A temperature is said in Celsius, then in Fahrenheit, each with one
/// decimal.
pub proof fn lemma_a_temperature_is_said_twice(celsius: Double)
    ensures
        temp_spec(celsius) == wording::fixed_spec(celsius, 1) + " C ("@ + wording::fixed_spec(
            screen::in_fahrenheit_spec(celsius),
            1,
        ) + " F)"@,
{
}

/// The status says the setpoint first and the miner last; between, each
/// probe in order by its name, with its temperature or that it has
/// none, and the supply where it is measured.
#[verifier::rlimit(50)]
pub proof fn lemma_what_the_status_says(state: State, i: int)
    ensures
        ({
            let lines = status_spec(state);
            let n = state.probes@.len() as int;
            let miner = state.miner;
            &&& lines.len() == n + 2 + if state.supply_v is Some {
                1int
            } else {
                0int
            }
            &&& lines[0] == wording::left_in_spec("setpoint"@, 9) + temp_spec(state.setpoint_c)
            &&& 0 <= i < n ==> {
                let p = state.probes@[i];
                lines[i + 1] == wording::left_in_spec(p.name@, 9) + (match p.celsius {
                    Some(c) => temp_spec(c),
                    None => "no reading"@,
                }) + match p.volts {
                    Some(v) => "  "@ + (wording::fixed_spec(v, 3) + " V"@),
                    None => Seq::<char>::empty(),
                }
            }
            &&& state.supply_v matches Some(v) ==> lines[n + 1] == wording::left_in_spec(
                "supply"@,
                9,
            ) + (wording::fixed_spec(v, 3) + " V"@)
            &&& lines[lines.len() - 1] == wording::left_in_spec("miner"@, 9) + (
            match miner.hashrate_hs {
                Some(h) => wording::fixed_spec(
                    h.over(Double { bits: 0x426d_1a94_a200_0000 }),
                    2,
                ) + " TH/s"@,
                None => "unknown"@,
            }) + ", "@ + (match miner.power_w {
                Some(w) => wording::fixed_spec(w, 0) + " W"@,
                None => "unknown"@,
            }) + ", power fraction "@ + match miner.power_fraction {
                Some(f) => wording::fixed_spec(f, 2),
                None => "unset"@,
            }
        }),
{
}

/// Each probe adds its name and its reading to the log's line, behind a
/// space where it is not the first.
pub proof fn lemma_every_probe_is_logged(probes: Seq<Probe>, p: Probe)
    ensures
        readings_spec(Seq::<Probe>::empty(), 0) == Seq::<char>::empty(),
        readings_spec(probes.push(p), probes.len() as int + 1) == readings_spec(
            probes,
            probes.len() as int,
        ) + (if probes.len() > 0 {
            " "@
        } else {
            Seq::<char>::empty()
        }) + p.name@ + match p.celsius {
            Some(c) => "="@ + wording::fixed_spec(c, 1),
            None => "=?"@,
        },
{
    lemma_logged_of_a_start(probes, probes.push(p), probes.len() as int);
    assert(probes.push(p)[probes.len() as int] == p);
}

proof fn lemma_logged_of_a_start(a: Seq<Probe>, b: Seq<Probe>, n: int)
    requires
        0 <= n <= a.len(),
        n <= b.len(),
        forall|i: int| 0 <= i < n ==> #[trigger] a[i] == b[i],
    ensures
        readings_spec(a, n) == readings_spec(b, n),
    decreases n,
{
    if n > 0 {
        assert(a[n - 1] == b[n - 1]);
        lemma_logged_of_a_start(a, b, n - 1);
    }
}

} // verus!
