//! The control loop, which turns the bath's temperature error into a
//! share of the miner's full power.
//!
//! `Controller` is the arithmetic, a proportional-integral law with
//! anti-windup, stepped once per period. `Regulator` is the loop: it
//! reads the bath probe from the snapshot, steps the controller, and
//! says what to ask for, while the state is in automatic mode.
//!
//! The loop is also the fail-safe. A `Fault`, which is a missing bath
//! reading, a bath over its limit, or a miner that is not answering,
//! asks for nothing in either mode. The boards have water plates and
//! no fans, so power without water flowing cooks them, and the loop
//! asks for nothing until it has water temperatures in hand. The
//! chips' own temperatures are the miner's business: each board caps
//! its thread by its die and reports the ceiling, which the display
//! shows.
use vstd::arithmetic::mul::*;
use vstd::arithmetic::power2::*;
use vstd::prelude::*;

use crate::double;
use crate::double::Double;
use crate::ieee;
use crate::order;
use crate::rounding;
use crate::state;
use crate::state::{Command, Mode, Outcome, State};
use crate::wording;

verus! {

/// How often the loop steps, in milliseconds. Water moves slowly; the
/// miner's telemetry arrives every two seconds.
pub const PERIOD_MS: u64 = 2000;

/// The period in seconds, 2.0, as a double's bits.
pub const PERIOD_S: u64 = 0x4000_0000_0000_0000;

/// Time constant of the filter on the bath reading in seconds, 30.0,
/// as a double's bits. The water moves a quarter degree a minute at
/// full power, so half a minute of smoothing lags it by an eighth of a
/// degree and takes the probe's remaining noise out of the request.
pub const BATH_FILTER_S: u64 = 0x403e_0000_0000_0000;

/// A request within this much of the last one is not sent, since every
/// change makes the miner re-plan its frequency: 0.03, as a double's
/// bits. At the default gain this is six hundredths of a degree.
pub const REQUEST_DEADBAND: u64 = 0x3f9e_b851_eb85_1eb8;

/// 0.5, as a double's bits.
pub const DEFAULT_KP: u64 = 0x3fe0_0000_0000_0000;

/// 0.0008, as a double's bits.
pub const DEFAULT_KI: u64 = 0x3f4a_36e2_eb1c_432d;

/// 90.0, as a double's bits.
pub const DEFAULT_MAX_BATH_C: u64 = 0x4056_8000_0000_0000;

/// 1.0, as a double's bits.
pub const ONE: u64 = 0x3ff0_0000_0000_0000;

/// 2.0, as a double's bits.
pub const TWO: u64 = 0x4000_0000_0000_0000;

/// Tuning, from the configuration file.
#[derive(Debug, Clone, Copy, PartialEq)]
pub struct Gains {
    /// Share of full power per degree Celsius of error.
    pub kp: Double,
    /// Share of full power per degree Celsius of accumulated error per
    /// second.
    pub ki: Double,
}

impl Default for Gains {
    /// Full power from two degrees below the setpoint, and an integral
    /// that takes about ten minutes to match the proportional term at
    /// a steady one-degree error. The rig's bath is about 38 kJ/K and
    /// heats 0.24 C/min at 150 W, so a tighter band would hunt.
    fn default() -> (g: Self)
        ensures
            g.kp.bits == DEFAULT_KP,
            g.ki.bits == DEFAULT_KI,
    {
        Gains { kp: Double { bits: DEFAULT_KP }, ki: Double { bits: DEFAULT_KI } }
    }
}

/// Where the fail-safe steps in, from the configuration file.
#[derive(Debug, Clone, Copy, PartialEq)]
pub struct Limits {
    /// Bath temperature above which nothing is asked, in degrees
    /// Celsius.
    pub max_bath_c: Double,
}

impl Default for Limits {
    /// The bath limit sits above any sous vide setpoint.
    fn default() -> (l: Self)
        ensures
            l.max_bath_c.bits == DEFAULT_MAX_BATH_C,
    {
        Limits { max_bath_c: Double { bits: DEFAULT_MAX_BATH_C } }
    }
}

/// A reason to ask for nothing.
#[derive(Debug, Clone, Copy, PartialEq, Eq, Structural)]
pub enum Fault {
    /// The bath probe has no reading.
    NoBathReading,
    /// The bath is above its limit.
    BathOverLimit(Double),
    /// The miner is not answering, so its chip temperatures are
    /// unknown; when it answers again it starts at full power until
    /// told otherwise.
    MinerOffline,
}

impl Fault {
    /// The fault in words.
    pub fn to_text(&self) -> (text: String)
        ensures
            text@ == match *self {
                Fault::NoBathReading => "no bath reading"@,
                Fault::BathOverLimit(c) => "bath at "@ + wording::fixed_spec(c, 1)
                    + " C is over its limit"@,
                Fault::MinerOffline => "miner not answering"@,
            },
    {
        match self {
            Fault::NoBathReading => "no bath reading".to_string(),
            Fault::BathOverLimit(c) => {
                let mut text = "bath at ".to_string();
                wording::push_fixed(&mut text, *c, 1);
                text.append(" C is over its limit");
                text
            },
            Fault::MinerOffline => "miner not answering".to_string(),
        }
    }
}

/// Whether two faults are the same, their readings compared as numbers.
pub open spec fn same_fault_spec(a: Option<Fault>, b: Option<Fault>) -> bool {
    match (a, b) {
        (None, None) => true,
        (Some(Fault::NoBathReading), Some(Fault::NoBathReading)) => true,
        (Some(Fault::MinerOffline), Some(Fault::MinerOffline)) => true,
        (Some(Fault::BathOverLimit(x)), Some(Fault::BathOverLimit(y))) => x.equals(y),
        _ => false,
    }
}

/// Whether two faults are the same, their readings compared as numbers.
pub fn same_fault(a: Option<Fault>, b: Option<Fault>) -> (r: bool)
    ensures
        r == same_fault_spec(a, b),
{
    match (a, b) {
        (None, None) => true,
        (Some(Fault::NoBathReading), Some(Fault::NoBathReading)) => true,
        (Some(Fault::MinerOffline), Some(Fault::MinerOffline)) => true,
        (Some(Fault::BathOverLimit(x)), Some(Fault::BathOverLimit(y))) => x.equals(y),
        _ => false,
    }
}

/// The bath probe's reading in a snapshot.
pub open spec fn bath_reading_spec(state: State) -> Option<Double> {
    state::reading_of(state.probes@, "bath"@)
}

/// The bath probe's reading, by name.
pub fn bath_reading(state: &State) -> (celsius: Option<Double>)
    ensures
        celsius == bath_reading_spec(*state),
{
    state.reading("bath")
}

/// The fault in a snapshot, if any.
pub open spec fn fault_spec(state: State, limits: Limits) -> Option<Fault> {
    match bath_reading_spec(state) {
        None => Some(Fault::NoBathReading),
        Some(bath_c) => if limits.max_bath_c.below(bath_c) {
            Some(Fault::BathOverLimit(bath_c))
        } else if !state.miner.online {
            Some(Fault::MinerOffline)
        } else {
            None
        },
    }
}

/// The fault in a snapshot, if any.
pub fn fault(state: &State, limits: &Limits) -> (f: Option<Fault>)
    ensures
        f == fault_spec(*state, *limits),
{
    match bath_reading(state) {
        None => Some(Fault::NoBathReading),
        Some(bath_c) => if limits.max_bath_c.below(bath_c) {
            Some(Fault::BathOverLimit(bath_c))
        } else if !state.miner.online {
            Some(Fault::MinerOffline)
        } else {
            None
        },
    }
}

/// A proportional-integral controller on temperature.
#[derive(Debug, Clone, Copy)]
pub struct Controller {
    pub gains: Gains,
    /// Accumulated error, in degree-seconds.
    pub integral: Double,
    /// The bath reading after the filter, or None before the first.
    pub filtered_c: Option<Double>,
}

/// A reading of weight `dt` over the filter's time constant, at most
/// all of it, moved toward from `last`.
pub open spec fn filtered(last: Option<Double>, bath_c: Double, dt: Double) -> Double {
    match last {
        Some(f) => f.plus(
            bath_c.minus(f).times(
                dt.over(Double { bits: BATH_FILTER_S }).lesser(Double { bits: ONE }),
            ),
        ),
        None => bath_c,
    }
}

impl Controller {
    /// A controller with nothing accumulated and nothing filtered.
    pub open spec fn fresh(gains: Gains) -> Controller {
        Controller { gains, integral: Double { bits: 0 }, filtered_c: None }
    }

    pub fn new(gains: Gains) -> (c: Self)
        ensures
            c == Self::fresh(gains),
    {
        Controller { gains, integral: Double { bits: 0 }, filtered_c: None }
    }

    /// Passes a bath reading through the filter and returns the
    /// smoothed value. The first reading seeds the filter.
    pub fn filter(&mut self, bath_c: Double, dt: Double) -> (smooth: Double)
        ensures
            smooth == filtered(old(self).filtered_c, bath_c, dt),
            old(self).filtered_c is None ==> smooth == bath_c,
            *final(self) == (Controller { filtered_c: Some(smooth), ..*old(self) }),
    {
        let smooth = match self.filtered_c {
            Some(f) => f.plus(
                bath_c.minus(f).times(
                    dt.over(Double { bits: BATH_FILTER_S }).lesser(Double { bits: ONE }),
                ),
            ),
            None => bath_c,
        };
        self.filtered_c = Some(smooth);
        smooth
    }

    /// The accumulated error if a step of `dt` seconds is taken in.
    pub open spec fn accumulated(self, error: Double, dt: Double) -> Double {
        self.integral.plus(error.times(dt))
    }

    /// The law: proportional to the error and to the accumulated error.
    pub open spec fn law(self, error: Double, integral: Double) -> Double {
        self.gains.kp.times(error).plus(self.gains.ki.times(integral))
    }

    /// Whether taking the step in would push the output further out of
    /// 0 to 1, in the direction the error pushes.
    pub open spec fn saturated(self, error: Double, dt: Double) -> bool {
        let proposed = self.law(error, self.accumulated(error, dt));
        ||| (Double { bits: ONE }).below(proposed) && (Double { bits: 0 }).below(error)
        ||| proposed.below(Double { bits: 0 }) && error.below(Double { bits: 0 })
    }

    /// The accumulated error after a step.
    pub open spec fn integral_after(self, error: Double, dt: Double) -> Double {
        if self.saturated(error, dt) {
            self.integral
        } else {
            self.accumulated(error, dt)
        }
    }

    /// The share a step asks for.
    pub open spec fn output(self, error: Double, dt: Double) -> Double {
        self.law(error, self.integral_after(error, dt)).held_to(
            Double { bits: 0 },
            Double { bits: ONE },
        )
    }

    /// Steps the controller by `dt` seconds and returns the share of
    /// full power, 0.0 to 1.0.
    ///
    /// The integral holds still while the output is saturated in the
    /// direction the error pushes, so a long heat-up from cold does
    /// not overshoot when the bath arrives.
    pub fn step(&mut self, setpoint_c: Double, bath_c: Double, dt: Double) -> (share: Double)
        ensures
            share == old(self).output(setpoint_c.minus(bath_c), dt),
            share.is_nan() || state::fraction_in_range(share),
            *final(self) == (Controller {
                integral: old(self).integral_after(setpoint_c.minus(bath_c), dt),
                ..*old(self)
            }),
    {
        let zero = Double { bits: 0 };
        let one = Double { bits: ONE };
        let error = setpoint_c.minus(bath_c);
        let taken_in = self.integral.plus(error.times(dt));
        let proposed = self.gains.kp.times(error).plus(self.gains.ki.times(taken_in));
        let saturated_high = one.below(proposed) && zero.below(error);
        let saturated_low = proposed.below(zero) && error.below(zero);
        if !saturated_high && !saturated_low {
            self.integral = taken_in;
        }
        self.gains.kp.times(error).plus(self.gains.ki.times(self.integral)).held_to(zero, one)
    }

    /// Forgets the accumulated error and the filter, for when the loop
    /// takes over after a spell of manual control.
    pub fn reset(&mut self)
        ensures
            *final(self) == Self::fresh(old(self).gains),
    {
        self.integral = Double { bits: 0 };
        self.filtered_c = None;
    }
}

/// Whether a request is worth sending after the last one. A small
/// change is not worth a frequency re-plan, except at the ends of the
/// range, which the miner treats as states.
pub open spec fn worth_sending_spec(last: Option<Double>, fraction: Double) -> bool {
    match last {
        Some(last) => {
            ||| (Double { bits: REQUEST_DEADBAND }).at_most(fraction.minus(last).magnitude())
            ||| fraction.equals(Double { bits: 0 }) && !last.equals(Double { bits: 0 })
            ||| fraction.equals(Double { bits: ONE }) && !last.equals(Double { bits: ONE })
        },
        None => true,
    }
}

/// Whether a request is worth sending after the last one.
pub fn worth_sending(last: Option<Double>, fraction: Double) -> (r: bool)
    ensures
        r == worth_sending_spec(last, fraction),
{
    let zero = Double { bits: 0 };
    let one = Double { bits: ONE };
    match last {
        Some(last) => {
            (Double { bits: REQUEST_DEADBAND }).at_most(fraction.minus(last).magnitude()) || (
            fraction.equals(zero) && !last.equals(zero)) || (fraction.equals(one) && !last.equals(
                one,
            ))
        },
        None => true,
    }
}

/// What one turn of the loop comes to.
#[derive(Debug, Clone, Copy, PartialEq, Eq, Structural)]
pub struct Turn {
    /// The share to ask the state for, or None to leave it alone.
    pub send: Option<Double>,
    /// The fault found, and whether it is news.
    pub fault: Option<Fault>,
    pub fault_changed: bool,
}

/// The control loop between its turns.
#[derive(Debug, Clone, Copy)]
pub struct Regulator {
    pub controller: Controller,
    pub limits: Limits,
    /// Whether the controller was stepped in the last turn.
    pub stepping: bool,
    pub last_fault: Option<Fault>,
}

impl Regulator {
    /// A loop that has not turned yet.
    pub fn new(gains: Gains, limits: Limits) -> (r: Self)
        ensures
            r == (Regulator {
                controller: Controller::fresh(gains),
                limits,
                stepping: false,
                last_fault: None,
            }),
    {
        Regulator { controller: Controller::new(gains), limits, stepping: false, last_fault: None }
    }

    /// The controller a step starts from: afresh unless the last turn
    /// stepped too.
    pub open spec fn starting(self) -> Controller {
        if self.stepping {
            self.controller
        } else {
            Controller::fresh(self.controller.gains)
        }
    }

    /// The bath reading after the filter, in a turn that steps.
    pub open spec fn smoothed(self, state: State) -> Double {
        filtered(self.starting().filtered_c, bath_reading_spec(state)->0, Double { bits: PERIOD_S })
    }

    /// The share a turn that steps comes to.
    pub open spec fn share(self, state: State) -> Double {
        self.starting().output(
            state.setpoint_c.minus(self.smoothed(state)),
            Double { bits: PERIOD_S },
        )
    }

    /// The share a turn wants: nothing in a fault, the controller's in
    /// automatic mode, and no opinion in manual mode.
    pub open spec fn wanted(self, state: State) -> Option<Double> {
        if fault_spec(state, self.limits) is Some {
            Some(Double { bits: 0 })
        } else if state.mode == Mode::Auto {
            Some(self.share(state))
        } else {
            None
        }
    }

    /// The controller after a turn.
    pub open spec fn controller_after(self, state: State) -> Controller {
        if fault_spec(state, self.limits) is None && state.mode == Mode::Auto {
            Controller {
                gains: self.controller.gains,
                integral: self.starting().integral_after(
                    state.setpoint_c.minus(self.smoothed(state)),
                    Double { bits: PERIOD_S },
                ),
                filtered_c: Some(self.smoothed(state)),
            }
        } else {
            self.controller
        }
    }

    /// What a turn comes to.
    pub open spec fn turned(self, state: State) -> Turn {
        let fault = fault_spec(state, self.limits);
        Turn {
            send: match self.wanted(state) {
                Some(share) => if worth_sending_spec(state.power_fraction, share) {
                    Some(share)
                } else {
                    None
                },
                None => None,
            },
            fault,
            fault_changed: !same_fault_spec(fault, self.last_fault),
        }
    }

    /// The loop after a turn.
    pub open spec fn after(self, state: State) -> Regulator {
        let fault = fault_spec(state, self.limits);
        Regulator {
            controller: self.controller_after(state),
            limits: self.limits,
            stepping: fault is None && state.mode == Mode::Auto,
            last_fault: if same_fault_spec(fault, self.last_fault) {
                self.last_fault
            } else {
                fault
            },
        }
    }

    /// Takes one turn, once per period.
    ///
    /// A fault asks for nothing, in either mode. Without a fault,
    /// automatic mode asks for the controller's share, and manual mode
    /// leaves the request alone. The controller starts afresh when
    /// automatic mode returns or a fault clears.
    pub fn turn(&mut self, state: &State) -> (t: Turn)
        ensures
            t == old(self).turned(*state),
            *final(self) == old(self).after(*state),
    {
        let found = fault(state, &self.limits);
        let fault_changed = !same_fault(found, self.last_fault);
        if fault_changed {
            self.last_fault = found;
        }
        let wanted: Option<Double>;
        if found.is_some() {
            self.stepping = false;
            wanted = Some(Double { bits: 0 });
        } else {
            match state.mode {
                Mode::Auto => {
                    if !self.stepping {
                        self.controller.reset();
                        self.stepping = true;
                    }
                    let dt = Double { bits: PERIOD_S };
                    let bath_c = bath_reading(state).unwrap();
                    let smooth = self.controller.filter(bath_c, dt);
                    wanted = Some(self.controller.step(state.setpoint_c, smooth, dt));
                },
                Mode::Manual => {
                    self.stepping = false;
                    wanted = None;
                },
            }
        }
        let send = match wanted {
            Some(share) => if worth_sending(state.power_fraction, share) {
                Some(share)
            } else {
                None
            },
            None => None,
        };
        Turn { send, fault: found, fault_changed }
    }
}

// What the filter promises.
/// A reading equal to the filtered one leaves it where it is.
pub proof fn lemma_a_steady_reading_stays(last: Double, bath_c: Double, dt: Double)
    requires
        last.is_finite(),
        bath_c.equals(last),
        dt.is_finite(),
        dt.rank() >= 0,
    ensures
        filtered(Some(last), bath_c, dt).equals(last),
{
    let zero = Double { bits: 0 };
    lemma_weight(dt);
    let weight = dt.over(Double { bits: BATH_FILTER_S }).lesser(Double { bits: ONE });
    double::lemma_order_is_of_values(bath_c, last);
    order::lemma_negated(last);
    let moved = bath_c.minus(last);
    order::lemma_plus_rank(bath_c, last.negated());
    ieee::lemma_rounded_zero(rounding::binary64(), 1);
    double::lemma_times_zero(weight, moved);
    ieee::lemma_units_zero(rounding::binary64());
    order::lemma_plus_rank(last, moved.times(weight));
    order::lemma_nearest_rank_of_units(last);
}

/// Whether the difference of a reading from the last value has no
/// rounding in it.
pub open spec fn is_exact(last: Double, bath_c: Double) -> bool {
    order::units(bath_c.minus(last)) == order::units(bath_c) - order::units(last)
}

/// An exact difference added back is the reading itself.
proof fn lemma_an_exact_difference_adds_up(last: Double, bath_c: Double)
    requires
        last.is_finite(),
        bath_c.minus(last).is_finite(),
    ensures
        bath_c.is_finite(),
        is_exact(last, bath_c) ==> last.plus(bath_c.minus(last)).equals(bath_c),
{
    order::lemma_finite_parts(bath_c, last.negated());
    order::lemma_plus_rank(last, bath_c.minus(last));
    order::lemma_nearest_rank_of_units(bath_c);
}

/// From the filter's time constant on, the whole of the difference is
/// taken: the result is the reading, up to the rounding of the
/// difference and of the sum, and exactly where the difference is exact.
pub proof fn lemma_a_long_step_reaches_the_reading(last: Double, bath_c: Double, dt: Double)
    requires
        bath_c.minus(last).is_finite(),
        last.is_finite(),
        dt.is_finite(),
        (Double { bits: BATH_FILTER_S }).at_most(dt),
    ensures
        filtered(Some(last), bath_c, dt).equals(last.plus(bath_c.minus(last))),
        is_exact(last, bath_c) ==> filtered(Some(last), bath_c, dt).equals(bath_c),
{
    lemma_an_exact_difference_adds_up(last, bath_c);
    let one = Double { bits: ONE };
    let by = Double { bits: BATH_FILTER_S };
    let moved = bath_c.minus(last);
    order::lemma_over_keeps_order(by, dt, by);
    order::lemma_over_itself(by);
    let weight = dt.over(by).lesser(one);
    assert(weight.equals(one));
    order::lemma_times_one(moved);
    order::lemma_plus_keeps_order(moved.times(weight), moved, last);
    order::lemma_plus_keeps_order(moved, moved.times(weight), last);
}

/// What the filter gives lies between the last value and the reading,
/// the reading up to the rounding of the difference and of the sum, and
/// the reading itself where the difference is exact.
pub proof fn lemma_the_filter_stays_between(last: Double, bath_c: Double, dt: Double)
    requires
        last.is_finite(),
        bath_c.minus(last).is_finite(),
        dt.is_finite(),
        dt.rank() >= 0,
    ensures
        last.at_most(bath_c) ==> last.at_most(filtered(Some(last), bath_c, dt)) && filtered(
            Some(last),
            bath_c,
            dt,
        ).at_most(last.plus(bath_c.minus(last))),
        bath_c.at_most(last) ==> last.plus(bath_c.minus(last)).at_most(
            filtered(Some(last), bath_c, dt),
        ) && filtered(Some(last), bath_c, dt).at_most(last),
        is_exact(last, bath_c) ==> last.plus(bath_c.minus(last)).equals(bath_c),
{
    lemma_an_exact_difference_adds_up(last, bath_c);
    let zero = Double { bits: 0 };
    let one = Double { bits: ONE };
    lemma_weight(dt);
    let weight = dt.over(Double { bits: BATH_FILTER_S }).lesser(one);
    let moved = bath_c.minus(last);
    ieee::lemma_units_zero(rounding::binary64());
    order::lemma_plus_rank(last, zero);
    order::lemma_nearest_rank_of_units(last);
    order::lemma_negated(last);
    order::lemma_plus_rank(last, last.negated());
    ieee::lemma_rounded_zero(rounding::binary64(), 1);
    order::lemma_times_one(moved);
    double::lemma_times_zero(moved, zero);
    if last.at_most(bath_c) {
        order::lemma_plus_keeps_order(last, bath_c, last.negated());
        order::lemma_times_keeps_order(zero, weight, moved);
        order::lemma_times_keeps_order(weight, one, moved);
        order::lemma_plus_keeps_order(zero, moved.times(weight), last);
        order::lemma_plus_keeps_order(moved.times(weight), moved, last);
    }
    if bath_c.at_most(last) {
        order::lemma_plus_keeps_order(bath_c, last, last.negated());
        order::lemma_times_turns_order(zero, weight, moved);
        order::lemma_times_turns_order(weight, one, moved);
        order::lemma_plus_keeps_order(moved.times(weight), zero, last);
        order::lemma_plus_keeps_order(moved, moved.times(weight), last);
    }
}

/// A reading's weight is a share.
proof fn lemma_weight(dt: Double)
    requires
        dt.is_finite(),
        dt.rank() >= 0,
    ensures
        ({
            let weight = dt.over(Double { bits: BATH_FILTER_S }).lesser(Double { bits: ONE });
            &&& weight.is_finite()
            &&& 0 <= weight.rank() <= ONE
        }),
{
    order::lemma_over_at_least_one(dt, Double { bits: BATH_FILTER_S });
}

// What the loop promises.
/// In a fault the loop asks for nothing, in either mode: after its
/// turn, once what it sends is applied, the request stands at zero and
/// the mode is what it was.
pub proof fn lemma_a_fault_asks_for_nothing(r: Regulator, state: State, after: State, out: Outcome)
    requires
        fault_spec(state, r.limits) is Some,
        r.turned(state).send matches Some(share) ==> state::applied(
            state,
            Command::SetPowerFraction { fraction: share },
            after,
            out,
        ),
        r.turned(state).send is None ==> after == state,
    ensures
        after.power_fraction matches Some(share) && share.equals(Double { bits: 0 }),
        after.mode == state.mode,
        out.refused is None || r.turned(state).send is None,
{
}

/// Without a bath reading, with the bath over its limit, or with the
/// miner not answering, there is a fault, and in no other case.
pub proof fn lemma_when_there_is_a_fault(state: State, limits: Limits)
    ensures
        fault_spec(state, limits) is Some <==> (bath_reading_spec(state) is None || (
        bath_reading_spec(state) matches Some(c) && limits.max_bath_c.below(c))
            || !state.miner.online),
{
}

/// In manual mode without a fault the loop leaves the request and its
/// controller alone.
pub proof fn lemma_manual_mode_is_left_alone(r: Regulator, state: State)
    requires
        fault_spec(state, r.limits) is None,
        state.mode == Mode::Manual,
    ensures
        r.turned(state).send is None,
        r.after(state).controller == r.controller,
{
}

/// The first automatic turn after a fault or after manual mode steps a
/// fresh controller on the reading as it is, whatever came before.
pub proof fn lemma_automatic_mode_starts_afresh(
    r: Regulator,
    before: State,
    state: State,
)
    requires
        fault_spec(before, r.limits) is Some || before.mode == Mode::Manual,
        fault_spec(state, r.limits) is None,
        state.mode == Mode::Auto,
    ensures
        r.after(before).share(state) == Controller::fresh(r.controller.gains).output(
            state.setpoint_c.minus(bath_reading_spec(state)->0),
            Double { bits: PERIOD_S },
        ),
{
}

/// What the loop sends is a share of full power: the state task accepts
/// it, unless the arithmetic itself has come to nothing.
pub proof fn lemma_requests_are_in_range(r: Regulator, state: State)
    ensures
        r.turned(state).send matches Some(share) ==> share.is_nan() || state::fraction_in_range(
            share,
        ),
{
}

/// A share the loop wants and does not send is within the deadband of
/// the request that stands, and is not a new end of the range.
pub proof fn lemma_what_is_not_sent_is_small(r: Regulator, state: State)
    requires
        r.wanted(state) is Some,
        r.turned(state).send is None,
    ensures
        state.power_fraction matches Some(last) && ({
            let share = r.wanted(state)->0;
            &&& !(Double { bits: REQUEST_DEADBAND }).at_most(share.minus(last).magnitude())
            &&& share.equals(Double { bits: 0 }) ==> last.equals(Double { bits: 0 })
            &&& share.equals(Double { bits: ONE }) ==> last.equals(Double { bits: ONE })
        }),
{
}

/// A controller after a run of readings.
pub open spec fn ran(c: Controller, setpoint_c: Double, baths: Seq<Double>, dt: Double) -> Controller
    decreases baths.len(),
{
    if baths.len() == 0 {
        c
    } else {
        ran(
            Controller {
                integral: c.integral_after(setpoint_c.minus(baths[0]), dt),
                ..c
            },
            setpoint_c,
            baths.drop_first(),
            dt,
        )
    }
}

/// A heat-up that stays saturated leaves nothing behind, however long.
pub proof fn lemma_a_saturated_run_accumulates_nothing(
    c: Controller,
    setpoint_c: Double,
    baths: Seq<Double>,
    dt: Double,
)
    requires
        forall|i: int|
            0 <= i < baths.len() ==> c.saturated(setpoint_c.minus(#[trigger] baths[i]), dt),
    ensures
        ran(c, setpoint_c, baths, dt) == c,
    decreases baths.len(),
{
    if baths.len() > 0 {
        assert(c.saturated(setpoint_c.minus(baths[0]), dt));
        let rest = baths.drop_first();
        assert forall|i: int| 0 <= i < rest.len() implies c.saturated(
            setpoint_c.minus(#[trigger] rest[i]),
            dt,
        ) by {
            assert(rest[i] == baths[i + 1]);
        }
        lemma_a_saturated_run_accumulates_nothing(c, setpoint_c, rest, dt);
    }
}

/// At the setpoint, with nothing accumulated, the output is zero and
/// nothing is accumulated still.
pub proof fn lemma_at_the_setpoint_nothing_is_asked(c: Controller, setpoint_c: Double, dt: Double)
    requires
        c.integral.bits == 0,
        c.gains.kp.is_finite(),
        c.gains.ki.is_finite(),
        setpoint_c.is_finite(),
        dt.is_finite(),
    ensures
        c.output(setpoint_c.minus(setpoint_c), dt).equals(Double { bits: 0 }),
        c.integral_after(setpoint_c.minus(setpoint_c), dt).bits == 0,
{
    let error = setpoint_c.minus(setpoint_c);
    double::lemma_minus_itself(setpoint_c);
    double::lemma_times_zero(dt, error);
    let moved = error.times(dt);
    double::lemma_plus_zeros(c.integral, moved);
    let integral = c.integral.plus(moved);
    double::lemma_times_zero(c.gains.kp, error);
    double::lemma_times_zero(c.gains.ki, integral);
    double::lemma_plus_zeros(c.gains.kp.times(error), c.gains.ki.times(integral));
}

/// The default proportional gain is worth full power at two degrees.
proof fn lemma_default_gain_at_two_degrees()
    ensures
        (Double { bits: DEFAULT_KP }).times(Double { bits: TWO }) == (Double { bits: ONE }),
{
    let f = rounding::binary64();
    ieee::lemma_format_bounds(f);
    let (h, t, o) = (0x3fe0_0000_0000_0000nat, 0x4000_0000_0000_0000nat, 0x3ff0_0000_0000_0000nat);
    let b = f.binade();
    assert(b == 0x10_0000_0000_0000);
    assert(h / b == 1022 && h % b == 0);
    assert(t / b == 1024 && t % b == 0);
    assert(o / b == 1023 && o % b == 0);
    let d = pow2(1074);
    assert(f.units(h) == b * pow2(1021));
    assert(f.units(t) == b * pow2(1023));
    assert(f.units(o) == b * pow2(1022));
    lemma_pow2_adds(1021, 1023);
    lemma_pow2_adds(1022, 1022);
    lemma_pow2_adds(52, 1022);
    assert(f.units(h) * f.units(t) == (b * pow2(1022)) * (b * pow2(1022))) by (nonlinear_arith)
        requires
            f.units(h) == b * pow2(1021),
            f.units(t) == b * pow2(1023),
            pow2(1021) * pow2(1023) == pow2(1022) * pow2(1022),
    ;
    assert(b * pow2(1022) == d);
    assert(f.units(h) * f.units(t) == f.units(o) * d);
    lemma_pow2_pos(1074);
    lemma_mul_basics(d as int);
    ieee::lemma_rounded_scaled(f, f.units(o), 1, d, 0);
    ieee::lemma_rounded_exact(f, o);
}

/// With the default gains, and no lead of the bath over the setpoint
/// accumulated, the loop asks for full power from two degrees below the
/// setpoint.
pub proof fn lemma_full_power_from_two_degrees_below(
    c: Controller,
    setpoint_c: Double,
    bath_c: Double,
)
    requires
        c.gains.kp.bits == DEFAULT_KP,
        c.gains.ki.bits == DEFAULT_KI,
        double::is_nonnegative(c.integral),
        (Double { bits: TWO }).at_most(setpoint_c.minus(bath_c)),
    ensures
        c.output(setpoint_c.minus(bath_c), Double { bits: PERIOD_S }) == (Double { bits: ONE }),
{
    let error = setpoint_c.minus(bath_c);
    let dt = Double { bits: PERIOD_S };
    ieee::lemma_format_bounds(rounding::binary64());
    lemma_default_gain_at_two_degrees();
    if error.is_finite() {
        order::lemma_times_keeps_order(Double { bits: TWO }, error, c.gains.kp);
        double::lemma_times_sign(c.gains.kp, error);
        double::lemma_times_sign(error, dt);
    }
    let taken_in = c.accumulated(error, dt);
    double::lemma_plus_nonnegative(c.integral, error.times(dt));
    if taken_in.is_finite() {
        double::lemma_times_sign(c.gains.ki, taken_in);
    }
    if c.integral.is_finite() {
        double::lemma_times_sign(c.gains.ki, c.integral);
    }
    let share = c.gains.kp.times(error);
    double::lemma_plus_nonnegative(share, c.gains.ki.times(taken_in));
    double::lemma_plus_nonnegative(share, c.gains.ki.times(c.integral));
}

/// With no shortfall accumulated, a bath at or over the setpoint is
/// asked nothing.
pub proof fn lemma_a_hot_bath_is_asked_nothing(c: Controller, error: Double, dt: Double)
    requires
        c.integral.is_finite(),
        double::is_nonpositive(c.integral),
        c.gains.kp.is_finite(),
        double::is_nonnegative(c.gains.kp),
        c.gains.ki.is_finite(),
        double::is_nonnegative(c.gains.ki),
        dt.is_finite(),
        double::is_nonnegative(dt),
        error.is_finite(),
        error.at_most(Double { bits: 0 }),
        c.accumulated(error, dt).is_finite() || !double::is_zero(c.gains.ki),
    ensures
        c.output(error, dt).equals(Double { bits: 0 }),
{
    ieee::lemma_format_bounds(rounding::binary64());
    let taken_in = c.accumulated(error, dt);
    double::lemma_times_sign(c.gains.kp, error);
    double::lemma_times_sign(error, dt);
    double::lemma_times_sign(c.gains.ki, c.integral);
    double::lemma_plus_nonpositive(c.integral, error.times(dt));
    if taken_in.is_finite() {
        double::lemma_times_sign(c.gains.ki, taken_in);
    }
    let share = c.gains.kp.times(error);
    double::lemma_plus_nonpositive(share, c.gains.ki.times(taken_in));
    double::lemma_plus_nonpositive(share, c.gains.ki.times(c.integral));
}

// What a turn makes of what it is given.
/// The bath is read from the first probe named so, and from no other.
pub proof fn lemma_the_bath_is_the_probe_named_so(state: State, i: int)
    ensures
        0 <= i < state.probes@.len() && state.probes@[i].name@ == "bath"@ && (forall|j: int|
            0 <= j < i ==> (#[trigger] state.probes@[j]).name@ != "bath"@) ==> bath_reading_spec(
            state,
        ) == state.probes@[i].celsius,
        (forall|j: int|
            0 <= j < state.probes@.len() ==> (#[trigger] state.probes@[j]).name@ != "bath"@)
            ==> bath_reading_spec(state) is None,
{
    if 0 <= i < state.probes@.len() && state.probes@[i].name@ == "bath"@ {
        if forall|j: int| 0 <= j < i ==> (#[trigger] state.probes@[j]).name@ != "bath"@ {
            state::lemma_reading_at(state.probes@, i);
        }
    }
    if forall|j: int| 0 <= j < state.probes@.len() ==> (#[trigger] state.probes@[j]).name@ != "bath"@ {
        state::lemma_no_reading(state.probes@, "bath"@);
    }
}

/// Which fault there is: no reading comes before a bath over its limit,
/// and that before a silent miner.
pub proof fn lemma_which_fault_it_is(state: State, limits: Limits)
    ensures
        bath_reading_spec(state) is None ==> fault_spec(state, limits) == Some(
            Fault::NoBathReading,
        ),
        bath_reading_spec(state) matches Some(c) && limits.max_bath_c.below(c) ==> fault_spec(
            state,
            limits,
        ) == Some(Fault::BathOverLimit(bath_reading_spec(state)->0)),
        (bath_reading_spec(state) matches Some(c) && !limits.max_bath_c.below(c))
            && !state.miner.online ==> fault_spec(state, limits) == Some(Fault::MinerOffline),
        (bath_reading_spec(state) matches Some(c) && !limits.max_bath_c.below(c))
            && state.miner.online ==> fault_spec(state, limits) is None,
{
}

/// A turn that follows another in automatic mode, without a fault,
/// carries on from what that one left: the reading moves the filtered
/// one on, the error is added to what was accumulated, and the share is
/// that of both. Past full power or below none, in the direction the
/// error pushes, what was accumulated stays.
#[verifier::rlimit(50)]
pub proof fn lemma_a_turn_carries_the_loop_on(
    r: Regulator,
    state: State,
    last: Double,
    bath_c: Double,
)
    requires
        r.stepping,
        r.controller.filtered_c == Some(last),
        state.mode == Mode::Auto,
        state.miner.online,
        state::reading_of(state.probes@, "bath"@) == Some(bath_c),
        !r.limits.max_bath_c.below(bath_c),
    ensures
        ({
            let weight = (Double { bits: 0x4000_0000_0000_0000 }).over(
                Double { bits: 0x403e_0000_0000_0000 },
            ).lesser(Double { bits: 0x3ff0_0000_0000_0000 });
            let smooth = last.plus(bath_c.minus(last).times(weight));
            let dt = Double { bits: 0x4000_0000_0000_0000 };
            let zero = Double { bits: 0 };
            let one = Double { bits: 0x3ff0_0000_0000_0000 };
            let (kp, ki) = (r.controller.gains.kp, r.controller.gains.ki);
            let after = r.after(state).controller;
            let error = state.setpoint_c.minus(smooth);
            let grown = r.controller.integral.plus(error.times(dt));
            let proposed = kp.times(error).plus(ki.times(grown));
            let kept = kp.times(error).plus(ki.times(r.controller.integral));
            &&& r.after(state).stepping
            &&& after.gains == r.controller.gains
            &&& after.filtered_c == Some(smooth)
            &&& zero.at_most(proposed) && proposed.at_most(one) ==> {
                &&& after.integral == grown
                &&& r.wanted(state) == Some(proposed)
            }
            &&& one.below(proposed) && !zero.below(error) ==> {
                &&& after.integral == grown
                &&& r.wanted(state) == Some(one)
            }
            &&& proposed.below(zero) && !error.below(zero) ==> {
                &&& after.integral == grown
                &&& r.wanted(state) == Some(zero)
            }
            &&& (one.below(proposed) && zero.below(error)) || (proposed.below(zero) && error.below(
                zero,
            )) ==> {
                &&& after.integral == r.controller.integral
                &&& one.below(kept) ==> r.wanted(state) == Some(one)
                &&& kept.below(zero) ==> r.wanted(state) == Some(zero)
                &&& zero.at_most(kept) && kept.at_most(one) ==> r.wanted(state) == Some(kept)
            }
        }),
{
}

/// The first turn in automatic mode, or after a fault, does the same
/// from the reading as it is and nothing accumulated.
#[verifier::rlimit(50)]
pub proof fn lemma_a_first_turn_starts_the_loop(r: Regulator, state: State, bath_c: Double)
    requires
        !r.stepping,
        state.mode == Mode::Auto,
        state.miner.online,
        state::reading_of(state.probes@, "bath"@) == Some(bath_c),
        !r.limits.max_bath_c.below(bath_c),
    ensures
        ({
            let smooth = bath_c;
            let nothing = Double { bits: 0 };
            let dt = Double { bits: 0x4000_0000_0000_0000 };
            let zero = Double { bits: 0 };
            let one = Double { bits: 0x3ff0_0000_0000_0000 };
            let (kp, ki) = (r.controller.gains.kp, r.controller.gains.ki);
            let after = r.after(state).controller;
            let error = state.setpoint_c.minus(smooth);
            let grown = nothing.plus(error.times(dt));
            let proposed = kp.times(error).plus(ki.times(grown));
            let kept = kp.times(error).plus(ki.times(nothing));
            &&& r.after(state).stepping
            &&& after.gains == r.controller.gains
            &&& after.filtered_c == Some(smooth)
            &&& zero.at_most(proposed) && proposed.at_most(one) ==> {
                &&& after.integral == grown
                &&& r.wanted(state) == Some(proposed)
            }
            &&& one.below(proposed) && !zero.below(error) ==> {
                &&& after.integral == grown
                &&& r.wanted(state) == Some(one)
            }
            &&& proposed.below(zero) && !error.below(zero) ==> {
                &&& after.integral == grown
                &&& r.wanted(state) == Some(zero)
            }
            &&& (one.below(proposed) && zero.below(error)) || (proposed.below(zero) && error.below(
                zero,
            )) ==> {
                &&& after.integral == nothing
                &&& one.below(kept) ==> r.wanted(state) == Some(one)
                &&& kept.below(zero) ==> r.wanted(state) == Some(zero)
                &&& zero.at_most(kept) && kept.at_most(one) ==> r.wanted(state) == Some(kept)
            }
        }),
{
}

/// What is wanted is sent just where nothing stands, or what stands is
/// 0.03 or more away, or the share is a new end of the range.
pub proof fn lemma_what_is_sent(r: Regulator, state: State, share: Double)
    requires
        r.wanted(state) == Some(share),
    ensures
        ({
            let zero = Double { bits: 0 };
            let one = Double { bits: 0x3ff0_0000_0000_0000 };
            let band = Double { bits: 0x3f9e_b851_eb85_1eb8 };
            let worth = match state.power_fraction {
                None => true,
                Some(last) => band.at_most(share.minus(last).magnitude()) || (share.equals(zero)
                    && !last.equals(zero)) || (share.equals(one) && !last.equals(one)),
            };
            r.turned(state).send == if worth {
                Some(share)
            } else {
                None
            }
        }),
{
}

/// A loop that stands still is news just when its fault changes, and a
/// spell of manual mode or a fault ends the stepping.
pub proof fn lemma_what_a_turn_leaves(r: Regulator, state: State)
    ensures
        r.after(state).limits == r.limits,
        r.turned(state).fault == fault_spec(state, r.limits),
        fault_spec(state, r.limits) is Some || state.mode == Mode::Manual ==> !r.after(
            state,
        ).stepping && r.after(state).controller == r.controller,
        fault_spec(state, r.limits) is None && r.last_fault is None ==> !r.turned(
            state,
        ).fault_changed,
        fault_spec(state, r.limits) is None && r.last_fault is Some ==> r.turned(
            state,
        ).fault_changed && r.after(state).last_fault is None,
        fault_spec(state, r.limits) is Some && r.last_fault is None ==> r.turned(
            state,
        ).fault_changed && r.after(state).last_fault == fault_spec(state, r.limits),
{
}

/// The loop after `n` turns on a state that stays the same.
pub open spec fn after_turns(r: Regulator, state: State, n: nat) -> Regulator
    decreases n,
{
    if n == 0 {
        r
    } else {
        after_turns(r, state, (n - 1) as nat).after(state)
    }
}

/// An amount with a step added `n` times.
pub open spec fn with_steps(amount: Double, step: Double, n: nat) -> Double
    decreases n,
{
    if n == 0 {
        amount
    } else {
        with_steps(amount, step, (n - 1) as nat).plus(step)
    }
}

/// On a bath that stays where it is, the error of every period is
/// accumulated, turn by turn, as long as the share is within its range,
/// and the share grows by it.
#[verifier::rlimit(50)]
pub proof fn lemma_a_steady_error_accumulates(
    r: Regulator,
    state: State,
    bath_c: Double,
    n: nat,
)
    requires
        r.stepping,
        r.controller.filtered_c == Some(bath_c),
        bath_c.is_finite(),
        !double::is_zero(bath_c),
        state.mode == Mode::Auto,
        state.miner.online,
        state::reading_of(state.probes@, "bath"@) == Some(bath_c),
        !r.limits.max_bath_c.below(bath_c),
        forall|i: nat|
            0 < i <= n ==> {
                let share = r.controller.gains.kp.times(state.setpoint_c.minus(bath_c)).plus(
                    r.controller.gains.ki.times(
                        #[trigger] with_steps(
                            r.controller.integral,
                            state.setpoint_c.minus(bath_c).times(
                                Double { bits: 0x4000_0000_0000_0000 },
                            ),
                            i,
                        ),
                    ),
                );
                (Double { bits: 0 }).at_most(share) && share.at_most(
                    Double { bits: 0x3ff0_0000_0000_0000 },
                )
            },
    ensures
        ({
            let error = state.setpoint_c.minus(bath_c);
            let grown = with_steps(
                r.controller.integral,
                error.times(Double { bits: 0x4000_0000_0000_0000 }),
                n,
            );
            &&& after_turns(r, state, n).controller.integral == grown
            &&& after_turns(r, state, n).controller.filtered_c == Some(bath_c)
            &&& after_turns(r, state, n).controller.gains == r.controller.gains
            &&& after_turns(r, state, n).stepping
            &&& after_turns(r, state, n).limits == r.limits
            &&& n > 0 ==> after_turns(r, state, (n - 1) as nat).wanted(state) == Some(
                r.controller.gains.kp.times(error).plus(r.controller.gains.ki.times(grown)),
            )
        }),
    decreases n,
{
    if n > 0 {
        let before = after_turns(r, state, (n - 1) as nat);
        lemma_a_steady_error_accumulates(r, state, bath_c, (n - 1) as nat);
        lemma_a_steady_reading_is_kept(bath_c);
        lemma_a_turn_carries_the_loop_on(before, state, bath_c, bath_c);
        let error = state.setpoint_c.minus(bath_c);
        assert(with_steps(
            r.controller.integral,
            error.times(Double { bits: 0x4000_0000_0000_0000 }),
            n,
        ) == before.controller.integral.plus(
            error.times(Double { bits: 0x4000_0000_0000_0000 }),
        ));
    }
}

/// A reading equal to the filtered one leaves its bits alone.
proof fn lemma_a_steady_reading_is_kept(bath_c: Double)
    requires
        bath_c.is_finite(),
        !double::is_zero(bath_c),
    ensures
        ({
            let weight = (Double { bits: 0x4000_0000_0000_0000 }).over(
                Double { bits: 0x403e_0000_0000_0000 },
            ).lesser(Double { bits: 0x3ff0_0000_0000_0000 });
            bath_c.plus(bath_c.minus(bath_c).times(weight)) == bath_c
        }),
{
    let f = rounding::binary64();
    let dt = Double { bits: PERIOD_S };
    lemma_weight(dt);
    let weight = dt.over(Double { bits: BATH_FILTER_S }).lesser(Double { bits: ONE });
    double::lemma_minus_itself(bath_c);
    double::lemma_times_zero(weight, Double { bits: 0 });
    let moved = bath_c.minus(bath_c).times(weight);
    ieee::lemma_format_bounds(f);
    ieee::lemma_units_zero(f);
    ieee::lemma_units_increase(f, 0, bath_c.num().mag as nat);
    ieee::lemma_rounded_exact(f, bath_c.num().mag as nat);
}

/// Within its range the share is the error times its gain and what is
/// accumulated, this period's error included, times its own: neither
/// term is left out.
pub proof fn lemma_both_terms_count(c: Controller, error: Double, dt: Double)
    ensures
        ({
            let zero = Double { bits: 0 };
            let one = Double { bits: 0x3ff0_0000_0000_0000 };
            let grown = c.integral.plus(error.times(dt));
            let both = c.gains.kp.times(error).plus(c.gains.ki.times(grown));
            zero.at_most(both) && both.at_most(one) ==> c.output(error, dt) == both
        }),
{
}

/// A fault is told once: it is news where it was not there before, or
/// was another, or a bath over its limit that reads another number; and
/// what was told is kept.
pub proof fn lemma_a_fault_is_told_once(r: Regulator, state: State)
    ensures
        ({
            let (now, before) = (fault_spec(state, r.limits), r.last_fault);
            let news = r.turned(state).fault_changed;
            &&& now == Some(Fault::NoBathReading) ==> (news <==> before != Some(
                Fault::NoBathReading,
            ))
            &&& now == Some(Fault::MinerOffline) ==> (news <==> before != Some(Fault::MinerOffline))
            &&& now matches Some(Fault::BathOverLimit(c)) ==> (!news <==> (
            before matches Some(Fault::BathOverLimit(last)) && !c.is_nan() && !last.is_nan()
                && c.rank() == last.rank()))
            &&& news ==> r.after(state).last_fault == now
            &&& !news ==> r.after(state).last_fault == before
        }),
{
}

} // verus!
