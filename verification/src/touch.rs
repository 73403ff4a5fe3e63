//! Taps from the touchscreen's raw events.
//!
//! `Decoder` turns the raw event stream of a multitouch panel into
//! `Tap`s in frame pixels: one tap per finger-down, at the first
//! position reported for it.
use vstd::arithmetic::div_mod::*;
use vstd::arithmetic::mul::*;
use vstd::arithmetic::power2::*;
use vstd::prelude::*;

use crate::display::Size;
use crate::double;
use crate::double::Double;
use crate::ieee;
use crate::order;
use crate::rounding;

verus! {

/// The panel's name contains this. The 10-inch bar screen's controller
/// reports itself as "wch.cn TouchScreen"; the node numbers move, so
/// the name is the handle.
pub const DEVICE_NAME: &'static str = "TouchScreen";

/// How long to wait before looking for the panel again, in
/// milliseconds.
pub const RETRY_MS: u64 = 10000;

/// The kinds of raw event: the end of a report, a key, and an axis.
pub const EV_SYN: u16 = 0x00;

pub const EV_KEY: u16 = 0x01;

pub const EV_ABS: u16 = 0x03;

/// The axes of a single touch, and of a touch among several.
pub const ABS_X: u16 = 0x00;

pub const ABS_Y: u16 = 0x01;

pub const ABS_MT_POSITION_X: u16 = 0x35;

pub const ABS_MT_POSITION_Y: u16 = 0x36;

pub const ABS_MT_TRACKING_ID: u16 = 0x39;

/// The key that is down while the panel is touched.
pub const BTN_TOUCH: u16 = 0x14a;

/// One finger down, in frame pixels.
#[derive(Debug, Clone, Copy, PartialEq, Eq, Structural)]
pub struct Tap {
    pub x: i32,
    pub y: i32,
}

/// The raw range of an axis.
#[derive(Debug, Clone, Copy, PartialEq, Eq, Structural)]
pub struct Axis {
    pub min: i32,
    pub max: i32,
}

impl Axis {
    /// A raw value's place on `0..length`: its share of the range, at
    /// least one wide, of the length, held to the ends.
    pub open spec fn scaled(self, value: int, length: int) -> int {
        let span = if self.max - self.min < 1 {
            1
        } else {
            self.max - self.min
        };
        let place = Double::of_spec(value - self.min).over(Double::of_spec(span)).times(
            Double::of_spec(length),
        ).truncated_spec(i32::MIN as int, i32::MAX as int);
        if place < 0 {
            0
        } else if place > length - 1 {
            length - 1
        } else {
            place
        }
    }

    /// Maps a raw value onto `0..length`.
    pub fn scale(&self, value: i32, length: u32) -> (place: i32)
        requires
            1 <= length <= i32::MAX,
        ensures
            place == self.scaled(value as int, length as int),
            0 <= place < length,
    {
        let width: i64 = self.max as i64 - self.min as i64;
        let span: i64 = if width < 1 {
            1
        } else {
            width
        };
        let from: i64 = value as i64 - self.min as i64;
        let fraction = Double::of(from).over(Double::of(span));
        let place: i64 = fraction.times(Double::of(length as i64)).truncated(
            i32::MIN as i64,
            i32::MAX as i64,
        );
        if place < 0 {
            0
        } else if place > length as i64 - 1 {
            (length - 1) as i32
        } else {
            place as i32
        }
    }
}

/// A place never falls as the raw value grows.
pub proof fn lemma_scale_keeps_order(axis: Axis, value: i32, more: i32, length: int)
    requires
        value <= more,
        1 <= length <= i32::MAX,
    ensures
        axis.scaled(value as int, length) <= axis.scaled(more as int, length),
{
    let span = if axis.max - axis.min < 1 {
        1
    } else {
        axis.max - axis.min
    };
    let (x, y) = (Double::of_spec(value - axis.min), Double::of_spec(more - axis.min));
    let (by, wide) = (Double::of_spec(span), Double::of_spec(length));
    lemma_divides(value - axis.min, span);
    lemma_divides(more - axis.min, span);
    order::lemma_of_is_exact(length);
    order::lemma_of_keeps_order(value - axis.min, more - axis.min);
    order::lemma_over_keeps_order(x, y, by);
    order::lemma_times_keeps_order(x.over(by), y.over(by), wide);
    order::lemma_truncated_keeps_order(
        x.over(by).times(wide),
        y.over(by).times(wide),
        i32::MIN as int,
        i32::MAX as int,
    );
}

/// The ends of the axis, and what is past them, are the ends of the
/// frame.
pub proof fn lemma_scale_maps_the_ends(axis: Axis, value: i32, length: int)
    requires
        1 <= length <= i32::MAX,
    ensures
        value <= axis.min ==> axis.scaled(value as int, length) == 0,
        axis.min < axis.max <= value ==> axis.scaled(value as int, length) == length - 1,
{
    let span = if axis.max - axis.min < 1 {
        1
    } else {
        axis.max - axis.min
    };
    let zero = Double { bits: 0 };
    let one = Double { bits: 0x3ff0_0000_0000_0000 };
    let (x, by, wide) = (
        Double::of_spec(value - axis.min),
        Double::of_spec(span),
        Double::of_spec(length),
    );
    lemma_divides(value - axis.min, span);
    order::lemma_of_is_exact(length);
    if value <= axis.min {
        double::lemma_times_sign(x.over(by), wide);
        order::lemma_truncated_keeps_order(
            x.over(by).times(wide),
            zero,
            i32::MIN as int,
            i32::MAX as int,
        );
        order::lemma_of_is_exact(0);
        order::lemma_truncated_of(0, i32::MIN as int, i32::MAX as int);
        order::lemma_truncated_keeps_order(
            zero,
            Double::of_spec(0),
            i32::MIN as int,
            i32::MAX as int,
        );
    }
    if axis.min < axis.max <= value {
        order::lemma_of_keeps_order(span, value - axis.min);
        order::lemma_over_keeps_order(by, x, by);
        order::lemma_over_itself(by);
        order::lemma_times_keeps_order(one, x.over(by), wide);
        order::lemma_times_one(wide);
        order::lemma_truncated_keeps_order(
            wide,
            x.over(by).times(wide),
            i32::MIN as int,
            i32::MAX as int,
        );
        order::lemma_truncated_of(length, i32::MIN as int, i32::MAX as int);
    }
}

/// A place's share of the range is a number, with the place's sign.
proof fn lemma_divides(from: int, span: int)
    requires
        -0x1_0000_0000 <= from <= 0x1_0000_0000,
        1 <= span <= 0x1_0000_0000,
    ensures
        Double::of_spec(span).is_finite(),
        Double::of_spec(span).rank() > 0,
        Double::of_spec(from).over(Double::of_spec(span)).is_finite(),
        from <= 0 ==> Double::of_spec(from).over(Double::of_spec(span)).rank() <= 0,
{
    let one = Double { bits: 0x3ff0_0000_0000_0000 };
    order::lemma_of_is_exact(from);
    order::lemma_of_is_exact(span);
    order::lemma_of_is_exact(1);
    order::lemma_of_keeps_order(1, span);
    order::lemma_one();
    lemma_mul_basics(pow2(1074) as int);
    double::lemma_order_is_of_values(one, Double::of_spec(1));
    order::lemma_over_at_least_one(Double::of_spec(from), Double::of_spec(span));
}

/// What a raw event means to the decoder.
pub enum Meaning {
    /// The horizontal position.
    X,
    /// The vertical position.
    Y,
    /// The key down or up.
    Key(bool),
    /// A finger down or up.
    Finger(bool),
    /// The end of a report.
    End,
    /// Nothing.
    Nothing,
}

/// What a raw event means.
pub open spec fn meaning(event_type: u16, code: u16, value: i32) -> Meaning {
    if event_type == EV_ABS {
        if code == ABS_MT_POSITION_X || code == ABS_X {
            Meaning::X
        } else if code == ABS_MT_POSITION_Y || code == ABS_Y {
            Meaning::Y
        } else if code == ABS_MT_TRACKING_ID {
            Meaning::Finger(value != -1)
        } else {
            Meaning::Nothing
        }
    } else if event_type == EV_KEY && code == BTN_TOUCH {
        Meaning::Key(value != 0)
    } else if event_type == EV_SYN {
        Meaning::End
    } else {
        Meaning::Nothing
    }
}

/// The state machine over raw events.
///
/// A tap is reported when a touch begins, at the position in force at
/// the end of that report, so the first report of a new finger carries
/// the tap and dragging afterward does nothing. A touch begins with
/// BTN_TOUCH going to 1, or with a tracking id that is not -1 on a
/// panel that sends no BTN_TOUCH, whichever other fingers are down.
/// Once a panel has sent BTN_TOUCH, a tracking id begins a touch only
/// where none is down.
#[derive(Debug, Clone, Copy, PartialEq, Eq, Structural)]
pub struct Decoder {
    pub frame: Size,
    pub x_axis: Axis,
    pub y_axis: Axis,
    pub x: i32,
    pub y: i32,
    pub down: bool,
    pub began: bool,
    /// Whether the panel has sent BTN_TOUCH.
    pub has_key: bool,
}

impl Decoder {
    /// A decoder that has seen nothing.
    pub fn new(frame: Size, x_axis: Axis, y_axis: Axis) -> (d: Self)
        ensures
            d == (Decoder {
                frame,
                x_axis,
                y_axis,
                x: 0,
                y: 0,
                down: false,
                began: false,
                has_key: false,
            }),
            frame.fits() ==> d.wf(),
    {
        Decoder {
            frame,
            x_axis,
            y_axis,
            x: 0,
            y: 0,
            down: false,
            began: false,
            has_key: false,
        }
    }

    /// The frame has pixels, and the position is one of them.
    pub open spec fn wf(self) -> bool {
        self.frame.fits() && 0 <= self.x < self.frame.width && 0 <= self.y < self.frame.height
    }

    /// Whether a raw event begins a touch: the key going down, or a
    /// finger, which counts beside others where the panel has no key.
    pub open spec fn begins(self, event_type: u16, code: u16, value: i32) -> bool {
        match meaning(event_type, code, value) {
            Meaning::Key(down) => down && !self.down,
            Meaning::Finger(down) => down && (!self.down || !self.has_key),
            _ => false,
        }
    }

    /// The decoder after a raw event.
    pub open spec fn after(self, event_type: u16, code: u16, value: i32) -> Decoder {
        match meaning(event_type, code, value) {
            Meaning::X => Decoder {
                x: self.x_axis.scaled(value as int, self.frame.width as int) as i32,
                ..self
            },
            Meaning::Y => Decoder {
                y: self.y_axis.scaled(value as int, self.frame.height as int) as i32,
                ..self
            },
            Meaning::Key(down) => Decoder {
                down,
                began: self.began || self.begins(event_type, code, value),
                has_key: true,
                ..self
            },
            Meaning::Finger(down) => Decoder {
                down,
                began: self.began || self.begins(event_type, code, value),
                ..self
            },
            Meaning::End => Decoder { began: false, ..self },
            Meaning::Nothing => self,
        }
    }

    /// The tap a raw event reports: the position at the end of a report
    /// in which a touch began.
    pub open spec fn tap(self, event_type: u16, code: u16, value: i32) -> Option<Tap> {
        if meaning(event_type, code, value) is End && self.began {
            Some(Tap { x: self.x, y: self.y })
        } else {
            None
        }
    }

    /// Feeds one raw event and returns a tap when a report ends one
    /// that began a touch.
    pub fn feed(&mut self, event_type: u16, code: u16, value: i32) -> (tap: Option<Tap>)
        requires
            old(self).wf(),
        ensures
            final(self).wf(),
            *final(self) == old(self).after(event_type, code, value),
            tap == old(self).tap(event_type, code, value),
    {
        if event_type == EV_ABS {
            if code == ABS_MT_POSITION_X || code == ABS_X {
                self.x = self.x_axis.scale(value, self.frame.width);
            } else if code == ABS_MT_POSITION_Y || code == ABS_Y {
                self.y = self.y_axis.scale(value, self.frame.height);
            } else if code == ABS_MT_TRACKING_ID {
                let down = value != -1;
                if down && (!self.down || !self.has_key) {
                    self.began = true;
                }
                self.down = down;
            }
            None
        } else if event_type == EV_KEY && code == BTN_TOUCH {
            let down = value != 0;
            if down && !self.down {
                self.began = true;
            }
            self.down = down;
            self.has_key = true;
            None
        } else if event_type == EV_SYN {
            let tap = if self.began {
                Some(Tap { x: self.x, y: self.y })
            } else {
                None
            };
            self.began = false;
            tap
        } else {
            None
        }
    }
}

/// A raw event: its kind, its code, and its value.
pub type Event = (u16, u16, i32);

/// The decoder after some events.
pub open spec fn fed(d: Decoder, events: Seq<Event>) -> Decoder
    decreases events.len(),
{
    if events.len() == 0 {
        d
    } else {
        let e = events.last();
        fed(d, events.drop_last()).after(e.0, e.1, e.2)
    }
}

/// The taps some events report.
pub open spec fn taps(d: Decoder, events: Seq<Event>) -> Seq<Tap>
    decreases events.len(),
{
    if events.len() == 0 {
        Seq::<Tap>::empty()
    } else {
        let before = events.drop_last();
        let e = events.last();
        match fed(d, before).tap(e.0, e.1, e.2) {
            Some(tap) => taps(d, before).push(tap),
            None => taps(d, before),
        }
    }
}

/// How many of the events begin a touch.
pub open spec fn touches(d: Decoder, events: Seq<Event>) -> nat
    decreases events.len(),
{
    if events.len() == 0 {
        0
    } else {
        let before = events.drop_last();
        let e = events.last();
        touches(d, before) + if fed(d, before).begins(e.0, e.1, e.2) {
            1nat
        } else {
            0nat
        }
    }
}

/// Every tap is in the frame.
pub proof fn lemma_taps_are_in_the_frame(d: Decoder, events: Seq<Event>)
    requires
        d.wf(),
    ensures
        fed(d, events).wf(),
        fed(d, events).frame == d.frame,
        forall|i: int|
            0 <= i < taps(d, events).len() ==> 0 <= (#[trigger] taps(d, events)[i]).x < d.frame.width
                && 0 <= taps(d, events)[i].y < d.frame.height,
    decreases events.len(),
{
    if events.len() > 0 {
        lemma_taps_are_in_the_frame(d, events.drop_last());
        let e = events.last();
        let before = fed(d, events.drop_last());
        lemma_scaled_fits(before.x_axis, e.2, before.frame.width as int);
        lemma_scaled_fits(before.y_axis, e.2, before.frame.height as int);
        let earlier = taps(d, events.drop_last());
        assert forall|i: int| 0 <= i < taps(d, events).len() implies 0 <= (#[trigger] taps(
            d,
            events,
        )[i]).x < d.frame.width && 0 <= taps(d, events)[i].y < d.frame.height by {
            if i < earlier.len() {
                assert(taps(d, events)[i] == earlier[i]);
            }
        }
    }
}

/// A place on the frame is on the frame.
proof fn lemma_scaled_fits(axis: Axis, value: i32, length: int)
    requires
        1 <= length <= i32::MAX,
    ensures
        0 <= axis.scaled(value as int, length) < length,
{
}

/// A touch is at most one tap: there are never more taps than touches,
/// and a touch not yet reported is one of them.
pub proof fn lemma_a_touch_is_one_tap(d: Decoder, events: Seq<Event>)
    requires
        !d.began,
    ensures
        taps(d, events).len() + if fed(d, events).began {
            1nat
        } else {
            0
        } <= touches(d, events),
    decreases events.len(),
{
    if events.len() > 0 {
        lemma_a_touch_is_one_tap(d, events.drop_last());
    }
}

/// Whether an event puts the key or a finger down.
pub open spec fn presses(e: Event) -> bool {
    match meaning(e.0, e.1, e.2) {
        Meaning::Key(down) => down,
        Meaning::Finger(down) => down,
        _ => false,
    }
}

/// Whether an event takes the key or a finger away.
pub open spec fn lifts(e: Event) -> bool {
    match meaning(e.0, e.1, e.2) {
        Meaning::Key(down) => !down,
        Meaning::Finger(down) => !down,
        _ => false,
    }
}

/// After a tap, nothing is another until something goes down again:
/// dragging and lifting do nothing.
pub proof fn lemma_dragging_does_nothing(d: Decoder, events: Seq<Event>)
    requires
        !d.began,
        forall|i: int| 0 <= i < events.len() ==> !presses(#[trigger] events[i]),
    ensures
        taps(d, events).len() == 0,
        !fed(d, events).began,
    decreases events.len(),
{
    if events.len() > 0 {
        let before = events.drop_last();
        assert forall|i: int| 0 <= i < before.len() implies !presses(#[trigger] before[i]) by {
            assert(before[i] == events[i]);
        }
        lemma_dragging_does_nothing(d, before);
        assert(!presses(events[events.len() - 1]));
    }
}

/// On a panel with the key, nothing done while it stays down is another
/// tap.
pub proof fn lemma_the_key_is_one_touch(d: Decoder, events: Seq<Event>)
    requires
        d.has_key,
        d.down,
        !d.began,
        forall|i: int| 0 <= i < events.len() ==> !lifts(#[trigger] events[i]),
    ensures
        taps(d, events).len() == 0,
        fed(d, events).has_key,
        fed(d, events).down,
        !fed(d, events).began,
    decreases events.len(),
{
    if events.len() > 0 {
        let before = events.drop_last();
        assert forall|i: int| 0 <= i < before.len() implies !lifts(#[trigger] before[i]) by {
            assert(before[i] == events[i]);
        }
        lemma_the_key_is_one_touch(d, before);
        assert(!lifts(events[events.len() - 1]));
    }
}

/// A report in which a touch begins ends in one tap, at the position in
/// force there.
pub proof fn lemma_a_touch_taps_where_its_report_ends(
    d: Decoder,
    down: Event,
    rest: Seq<Event>,
    end: Event,
)
    requires
        d.begins(down.0, down.1, down.2),
        forall|i: int|
            0 <= i < rest.len() ==> !(meaning(
                (#[trigger] rest[i]).0,
                rest[i].1,
                rest[i].2,
            ) is End),
        meaning(end.0, end.1, end.2) is End,
    ensures
        ({
            let begun = d.after(down.0, down.1, down.2);
            let at = fed(begun, rest);
            &&& taps(begun, rest).len() == 0
            &&& at.tap(end.0, end.1, end.2) == Some(Tap { x: at.x, y: at.y })
            &&& !at.after(end.0, end.1, end.2).began
        }),
    decreases rest.len(),
{
    if rest.len() > 0 {
        let before = rest.drop_last();
        assert forall|i: int| 0 <= i < before.len() implies !(meaning(
            (#[trigger] before[i]).0,
            before[i].1,
            before[i].2,
        ) is End) by {
            assert(before[i] == rest[i]);
        }
        lemma_a_touch_taps_where_its_report_ends(d, down, before, end);
        assert(!(meaning(
            rest[rest.len() - 1].0,
            rest[rest.len() - 1].1,
            rest[rest.len() - 1].2,
        ) is End));
    }
}

/// On a panel that sends no BTN_TOUCH every finger that goes down
/// begins a touch, whichever others are down.
pub proof fn lemma_every_finger_is_a_touch_without_the_key(d: Decoder, e: Event)
    requires
        !d.has_key,
        meaning(e.0, e.1, e.2) == Meaning::Finger(true),
    ensures
        d.begins(e.0, e.1, e.2),
        !d.after(e.0, e.1, e.2).has_key,
{
}

// What each event does.
/// The panel's events by their numbers: a position along, a position
/// down, a finger, the key, the end of a report, and nothing else.
pub proof fn lemma_what_events_mean(event_type: u16, code: u16, value: i32)
    ensures
        meaning(event_type, code, value) == (if event_type == 3 && (code == 0x35 || code == 0) {
            Meaning::X
        } else if event_type == 3 && (code == 0x36 || code == 1) {
            Meaning::Y
        } else if event_type == 3 && code == 0x39 {
            Meaning::Finger(value != -1)
        } else if event_type == 1 && code == 0x14a {
            Meaning::Key(value != 0)
        } else if event_type == 0 {
            Meaning::End
        } else {
            Meaning::Nothing
        }),
{
}

/// A position along moves the touch along by its own axis and leaves
/// the other; a position down the other way round; a key or a finger
/// moves neither, and the end of a report only ends it.
pub proof fn lemma_what_an_event_moves(d: Decoder, e: Event)
    ensures
        ({
            let after = d.after(e.0, e.1, e.2);
            let m = meaning(e.0, e.1, e.2);
            &&& after.frame == d.frame && after.x_axis == d.x_axis && after.y_axis == d.y_axis
            &&& m == Meaning::X ==> after.x == d.x_axis.scaled(
                e.2 as int,
                d.frame.width as int,
            ) as i32 && after.y == d.y
            &&& m == Meaning::Y ==> after.y == d.y_axis.scaled(
                e.2 as int,
                d.frame.height as int,
            ) as i32 && after.x == d.x
            &&& m != Meaning::X ==> after.x == d.x
            &&& m != Meaning::Y ==> after.y == d.y
            &&& m matches Meaning::Key(down) ==> after.down == down && after.has_key
            &&& m matches Meaning::Finger(down) ==> after.down == down && after.has_key
                == d.has_key
            &&& m == Meaning::X || m == Meaning::Y || m == Meaning::End || m == Meaning::Nothing
                ==> after.down == d.down && after.has_key == d.has_key
            &&& m == Meaning::Key(true) && !d.down ==> after.began
            &&& m == Meaning::Finger(true) && !d.down ==> after.began
            &&& m == Meaning::Key(false) || m == Meaning::Finger(false) ==> after.began == d.began
            &&& m == Meaning::End ==> !after.began
            &&& d.tap(e.0, e.1, e.2) == if m == Meaning::End && d.began {
                Some(Tap { x: d.x, y: d.y })
            } else {
                None
            }
        }),
{
}

/// A place is in proportion: where the range of an axis is a power of
/// two, it is the share of the length that the value is of the range.
#[verifier::rlimit(50)]
pub proof fn lemma_a_place_is_in_proportion(axis: Axis, value: i32, length: int, m: nat)
    requires
        axis.max - axis.min == pow2(m),
        m <= 30,
        axis.min <= value < axis.max,
        1 <= length <= i32::MAX,
        (value - axis.min) * length < 0x20_0000_0000_0000,
    ensures
        axis.scaled(value as int, length) == (value - axis.min) * length / (pow2(m) as int),
{
    let (v, n, span) = (value - axis.min, length, pow2(m) as int);
    let f = rounding::binary64();
    let p = pow2(1074) as int;
    let rest = pow2((1074 - m) as nat) as int;
    lemma_pow2_pos(1074);
    lemma_pow2_pos(m);
    lemma_pow2_pos((1074 - m) as nat);
    lemma_pow2_adds(m, (1074 - m) as nat);
    lemma2_to64();
    if m < 30 {
        lemma_pow2_strictly_increases(m, 30);
    }
    order::lemma_of_is_exact(v);
    order::lemma_of_is_exact(span);
    order::lemma_of_is_exact(n);
    let (x, by, wide) = (Double::of_spec(v), Double::of_spec(span), Double::of_spec(n));
    ieee::lemma_format_bounds(f);
    lemma2_to64_rest();
    assert(span * p > 0) by (nonlinear_arith)
        requires
            span > 0,
            p > 0,
    ;
    order::lemma_units_sign(by);
    order::lemma_over_rank(x, by);
    assert((v * p) * p == (v * rest) * (span * p) && 1 * (span * p) == span * p) by (nonlinear_arith)
        requires
            p == span * rest,
    ;
    order::lemma_nearest_rank_scaled(v * rest, 1, span * p);
    let share = x.over(by);
    lemma_stands_at(share, v as nat, (1074 - m) as nat);
    order::lemma_times_rank(share, wide);
    assert((v * rest) * (n * p) == ((v * n) * rest) * p && 1 * p == p) by (nonlinear_arith);
    order::lemma_nearest_rank_scaled((v * n) * rest, 1, p);
    assert(0 <= v * n) by (nonlinear_arith)
        requires
            0 <= v,
            0 <= n,
    ;
    let place = share.times(wide);
    lemma_stands_at(place, (v * n) as nat, (1074 - m) as nat);
    let q = (v * n) / span;
    assert(((v * n) * rest) / p == q) by {
        lemma_div_denominator((v * n) * rest, rest, span);
        lemma_div_multiples_vanish(v * n, rest);
        lemma_mul_is_commutative(v * n, rest);
        lemma_mul_is_commutative(span, rest);
    }
    assert(0 <= q < n) by (nonlinear_arith)
        requires
            0 <= v < span,
            1 <= n,
            q == (v * n) / span,
    ;
}

/// A double that stands where a number of units of up to 53 bits does
/// has that many.
proof fn lemma_stands_at(x: Double, size: nat, k: nat)
    requires
        !x.is_nan(),
        size < 0x20_0000_0000_0000,
        k <= 1074,
        x.rank() == order::nearest_rank((size * pow2(k)) as int, 1),
    ensures
        x.is_finite(),
        rounding::binary64().units(x.num().mag as nat) == size * pow2(k),
        order::units(x) == size * pow2(k),
{
    let f = rounding::binary64();
    ieee::lemma_format_bounds(f);
    ieee::lemma_units_zero(f);
    lemma2_to64_rest();
    let mag = ieee::lemma_representable(f, size, k);
    ieee::lemma_rounded_exact(f, mag);
    assert(x.rank() == mag);
}

} // verus!
