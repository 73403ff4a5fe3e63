//! What the HTTP JSON API answers.
//!
//! `GET /api/v0/state` returns the snapshot. `PUT /api/v0/setpoint`
//! takes a bare JSON number in degrees Celsius, and
//! `PUT /api/v0/power_fraction` a bare JSON number from 0.0 to 1.0,
//! which also puts the state in manual mode. `PUT /api/v0/mode` takes
//! `"auto"` or `"manual"`. Each returns the snapshot after the change,
//! or 400 with the reason it was refused.
use vstd::prelude::*;

use crate::double::Double;
use crate::state;
use crate::state::{Command, Mode, Outcome, Rejected, State};
use crate::wording;

verus! {

/// The statuses the API answers with.
pub const OK: u16 = 200;

pub const BAD_REQUEST: u16 = 400;

pub const INTERNAL_SERVER_ERROR: u16 = 500;

/// Why a change was not made.
#[derive(Debug, Clone, PartialEq)]
pub enum Failure {
    /// The state task refused it.
    Rejected(Rejected),
    /// It never reached the state task, or got no reply, with the error
    /// in words.
    Other(String),
}

/// What an answer carries.
#[derive(Debug, Clone, PartialEq)]
pub enum Body {
    /// The snapshot.
    Snapshot(State),
    /// A reason or an error in words.
    Text(String),
}

/// A status and what goes with it.
#[derive(Debug, Clone, PartialEq)]
pub struct Answer {
    pub status: u16,
    pub body: Body,
}

/// The answer to a change: the snapshot after it, the reason it was
/// refused, or the error it failed with.
pub open spec fn reply_spec(result: Result<(), Failure>, snapshot: State) -> Answer {
    match result {
        Ok(_) => Answer { status: OK, body: Body::Snapshot(snapshot) },
        Err(Failure::Rejected(why)) => Answer { status: BAD_REQUEST, body: Body::Text(why.0) },
        Err(Failure::Other(error)) => Answer {
            status: INTERNAL_SERVER_ERROR,
            body: Body::Text(error),
        },
    }
}

/// Answers a change with the snapshot after it, or with the reason the
/// state task refused it.
pub fn reply(result: Result<(), Failure>, snapshot: State) -> (answer: Answer)
    ensures
        answer == reply_spec(result, snapshot),
{
    match result {
        Ok(()) => Answer { status: OK, body: Body::Snapshot(snapshot) },
        Err(Failure::Rejected(why)) => Answer { status: BAD_REQUEST, body: Body::Text(why.0) },
        Err(Failure::Other(error)) => Answer {
            status: INTERNAL_SERVER_ERROR,
            body: Body::Text(error),
        },
    }
}

/// What a change came to, as the state task told it.
pub open spec fn told(result: Result<(), Rejected>) -> Result<(), Failure> {
    match result {
        Ok(_) => Ok(()),
        Err(why) => Err(Failure::Rejected(why)),
    }
}

/// The mode a name means.
pub fn mode_named(name: &str) -> (mode: Option<Mode>)
    ensures
        mode == if name@ == "auto"@ {
            Some(Mode::Auto)
        } else if name@ == "manual"@ {
            Some(Mode::Manual)
        } else {
            None
        },
{
    if wording::same(name, "auto") {
        Some(Mode::Auto)
    } else if wording::same(name, "manual") {
        Some(Mode::Manual)
    } else {
        None
    }
}

/// The name of a mode.
pub fn mode_name(mode: Mode) -> (name: &'static str)
    ensures
        name@ == match mode {
            Mode::Auto => "auto"@,
            Mode::Manual => "manual"@,
        },
{
    match mode {
        Mode::Auto => "auto",
        Mode::Manual => "manual",
    }
}

/// A setpoint outside 0 to 95 C is answered 400 with the reason and
/// changes nothing; any other is answered 200 with the snapshot after
/// it, where it is the setpoint and nothing else is changed.
pub proof fn lemma_a_setpoint_is_set_or_refused(
    before: State,
    celsius: Double,
    after: State,
    out: Outcome,
    shown: Seq<char>,
    result: Result<(), Rejected>,
)
    requires
        state::applied(before, Command::SetSetpoint { celsius }, after, out),
        out.tells(shown, result),
    ensures
        state::setpoint_in_range(celsius) ==> {
            &&& after == (State { setpoint_c: celsius, ..before })
            &&& reply_spec(told(result), after) == (Answer {
                status: OK,
                body: Body::Snapshot(after),
            })
        },
        !state::setpoint_in_range(celsius) ==> {
            &&& after == before
            &&& reply_spec(told(result), after).status == BAD_REQUEST
            &&& reply_spec(told(result), after).body matches Body::Text(why) && why@
                == "setpoint "@ + shown + " C is outside 0..=95 C"@
        },
{
}

/// A power fraction set by hand puts the state in manual mode. One
/// outside 0 to 1 is answered 400 with the reason and changes nothing
/// else; any other is answered 200 with the snapshot after it, where it
/// is the request.
pub proof fn lemma_a_power_fraction_is_set_or_refused(
    before: State,
    between: State,
    after: State,
    fraction: Double,
    first: Outcome,
    second: Outcome,
    shown: Seq<char>,
    result: Result<(), Rejected>,
)
    requires
        state::applied(before, Command::SetMode { mode: Mode::Manual }, between, first),
        state::applied(between, Command::SetPowerFraction { fraction }, after, second),
        second.tells(shown, result),
    ensures
        first.refused is None,
        state::fraction_in_range(fraction) ==> {
            &&& after == (State {
                mode: Mode::Manual,
                power_fraction: Some(fraction),
                ..before
            })
            &&& reply_spec(told(result), after) == (Answer {
                status: OK,
                body: Body::Snapshot(after),
            })
        },
        !state::fraction_in_range(fraction) ==> {
            &&& after == (State { mode: Mode::Manual, ..before })
            &&& reply_spec(told(result), after).status == BAD_REQUEST
            &&& reply_spec(told(result), after).body matches Body::Text(why) && why@
                == "power fraction "@ + shown + " is outside 0..=1"@
        },
{
}

/// A mode is always taken, changes nothing else, and is answered 200
/// with the snapshot after it.
pub proof fn lemma_a_mode_is_taken(
    before: State,
    mode: Mode,
    after: State,
    out: Outcome,
    shown: Seq<char>,
    result: Result<(), Rejected>,
)
    requires
        state::applied(before, Command::SetMode { mode }, after, out),
        out.tells(shown, result),
    ensures
        after == (State { mode, ..before }),
        reply_spec(told(result), after) == (Answer { status: OK, body: Body::Snapshot(after) }),
{
}

/// A change that was made is answered 200 with the snapshot; one that
/// was refused 400, and one that failed 500, each with its reason.
pub proof fn lemma_how_a_change_is_answered(
    result: Result<(), Failure>,
    snapshot: State,
    refused: Result<(), Rejected>,
)
    ensures
        result is Ok ==> reply_spec(result, snapshot) == (Answer {
            status: 200,
            body: Body::Snapshot(snapshot),
        }),
        result matches Err(Failure::Rejected(why)) ==> reply_spec(result, snapshot) == (Answer {
            status: 400,
            body: Body::Text(why.0),
        }),
        result matches Err(Failure::Other(error)) ==> reply_spec(result, snapshot) == (Answer {
            status: 500,
            body: Body::Text(error),
        }),
        refused is Ok <==> told(refused) is Ok,
        refused matches Err(why) ==> told(refused) == Err::<(), Failure>(Failure::Rejected(why)),
{
}

} // verus!
