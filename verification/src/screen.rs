//! The two screens, laid out from a snapshot and its histories.
//!
//! `Screen::render` lays a page out as a list of items to draw and
//! returns the buttons on it, each a rectangle and the action a tap
//! there means. The layout is designed at 1424 by 280, the 10-inch bar
//! panel, and scales with the frame's height. Temperatures are shown in
//! Fahrenheit for the table and Celsius for the engineering, since the
//! bath is set in Fahrenheit and the chips are read in Celsius.
use vstd::arithmetic::div_mod::*;
use vstd::arithmetic::power2::*;
use vstd::prelude::*;

use crate::control;
use crate::control::{Fault, Limits};
use crate::display::Size;
use crate::double::Double;
use crate::history;
use crate::history::{Histories, History};
use crate::image;
use crate::image::Image;
use crate::order;
use crate::paint::Rgb;
use crate::single;
use crate::single::Single;
use crate::state;
use crate::state::{Board, Chip, Command, Miner, Mode, Probe, State};
use crate::text;
use crate::text::{Align, Face, Style};
use crate::wording;

verus! {

/// Graphite surfaces and the lifted accent red of the Mujina site in
/// dark mode.
pub const BACKGROUND: Rgb = [0x0e, 0x0f, 0x12];

pub const PANEL: Rgb = [0x16, 0x17, 0x1c];

pub const BORDER: Rgb = [0x27, 0x29, 0x31];

pub const TEXT: Rgb = [0xe7, 0xe8, 0xec];

pub const DIM: Rgb = [0x99, 0x9b, 0xa4];

pub const LINE: Rgb = [0xb5, 0xb7, 0xbf];

pub const ACCENT: Rgb = [0xd0, 0x55, 0x55];

/// The height the layout is designed at. The panel is 1424 wide.
pub const DESIGN_HEIGHT: u16 = 280;

/// How far a setpoint button moves the setpoint: one degree Fahrenheit,
/// the unit on the table, five ninths of a degree Celsius, as a
/// double's bits.
pub const SETPOINT_STEP_C: u64 = 0x3fe1_c71c_71c7_1c72;

/// The least each sparkline's vertical range spans, so steady readings
/// draw flat instead of their noise filling the box: two degrees
/// Fahrenheit for the water, a board's worth of hash rate, a third of a
/// board's power.
pub const TEMPERATURE_SPAN_C: u64 = 0x3ff1_c71c_71c7_1c72;

pub const HASHRATE_SPAN_THS: u64 = 0x3ff0_0000_0000_0000;

pub const POWER_SPAN_W: u64 = 0x4039_0000_0000_0000;

/// 9, 5, 32, 60, 100, and 1, as a double's bits.
pub const NINE: u64 = 0x4022_0000_0000_0000;

pub const FIVE: u64 = 0x4014_0000_0000_0000;

pub const THIRTY_TWO: u64 = 0x4040_0000_0000_0000;

pub const SIXTY: u64 = 0x404e_0000_0000_0000;

pub const HUNDRED: u64 = 0x4059_0000_0000_0000;

pub const ONE: u64 = 0x3ff0_0000_0000_0000;

/// Which page is up.
#[derive(Debug, Clone, Copy, PartialEq, Eq, Structural)]
pub enum Page {
    Main,
    Boards,
}

impl Default for Page {
    fn default() -> (p: Self)
        ensures
            p == Page::Main,
    {
        Page::Main
    }
}

impl Page {
    pub open spec fn other_spec(self) -> Page {
        match self {
            Page::Main => Page::Boards,
            Page::Boards => Page::Main,
        }
    }

    /// The other page.
    #[verifier::when_used_as_spec(other_spec)]
    pub fn other(self) -> (p: Self)
        ensures
            p == self.other_spec(),
    {
        match self {
            Page::Main => Page::Boards,
            Page::Boards => Page::Main,
        }
    }
}

/// Flipping the page twice is back where it was, and once is not.
pub proof fn lemma_flipping_twice_is_back(page: Page)
    ensures
        page.other().other() == page,
        page.other() != page,
{
}

/// What a tap on a button asks for.
#[derive(Debug, Clone, Copy, PartialEq, Eq, Structural)]
pub enum Action {
    SetpointUp,
    SetpointDown,
    TogglePage,
}

/// A rectangle in frame pixels.
#[derive(Debug, Clone, Copy, PartialEq, Eq, Structural)]
pub struct Area {
    pub x: i32,
    pub y: i32,
    pub width: i32,
    pub height: i32,
}

impl Area {
    pub open spec fn contains_spec(&self, x: i32, y: i32) -> bool {
        self.x <= x < self.x + self.width && self.y <= y < self.y + self.height
    }

    /// Whether a point is in the rectangle, its right and bottom edges
    /// left out.
    #[verifier::when_used_as_spec(contains_spec)]
    pub fn contains(&self, x: i32, y: i32) -> (r: bool)
        ensures
            r == self.contains_spec(x, y),
    {
        let (px, py): (i64, i64) = (x as i64, y as i64);
        let (left, top): (i64, i64) = (self.x as i64, self.y as i64);
        px >= left && px < left + self.width as i64 && py >= top && py < top + self.height as i64
    }
}

/// A tappable rectangle.
#[derive(Debug, Clone, Copy, PartialEq, Eq, Structural)]
pub struct Button {
    pub area: Area,
    pub action: Action,
}

/// The action of the first button from `i` up that a point is in.
pub open spec fn hit_from(buttons: Seq<Button>, x: i32, y: i32, i: int) -> Option<Action>
    decreases buttons.len() - i,
{
    if i >= buttons.len() {
        None
    } else if buttons[i].area.contains(x, y) {
        Some(buttons[i].action)
    } else {
        hit_from(buttons, x, y, i + 1)
    }
}

/// The action under a point, if any.
pub fn hit(buttons: &[Button], x: i32, y: i32) -> (action: Option<Action>)
    ensures
        action == hit_from(buttons@, x, y, 0),
{
    let mut i: usize = 0;
    while i < buttons.len()
        invariant
            i <= buttons@.len(),
            hit_from(buttons@, x, y, 0) == hit_from(buttons@, x, y, i as int),
        decreases buttons@.len() - i,
    {
        if buttons[i].area.contains(x, y) {
            return Some(buttons[i].action);
        }
        i = i + 1;
    }
    None
}

/// A tap means something just where a button is, and it is a button
/// there that says what.
pub proof fn lemma_a_tap_hits_a_button(buttons: Seq<Button>, x: i32, y: i32, from: int)
    requires
        0 <= from,
    ensures
        match hit_from(buttons, x, y, from) {
            Some(action) => exists|i: int|
                from <= i < buttons.len() && (#[trigger] buttons[i]).area.contains(x, y)
                    && buttons[i].action == action,
            None => forall|i: int|
                from <= i < buttons.len() ==> !(#[trigger] buttons[i]).area.contains(x, y),
        },
    decreases buttons.len() - from,
{
    if from < buttons.len() {
        lemma_a_tap_hits_a_button(buttons, x, y, from + 1);
    }
}

/// The setpoint a button asks for.
pub open spec fn nudged(setpoint_c: Double, up: bool) -> Double {
    if up {
        setpoint_c.plus(Double { bits: SETPOINT_STEP_C })
    } else {
        setpoint_c.plus((Double { bits: SETPOINT_STEP_C }).negated())
    }
}

/// What a tap at a point does: the page that is up after it, and the
/// command it sends. A setpoint out of range is the state task's to
/// refuse.
pub fn tapped(page: Page, buttons: &[Button], x: i32, y: i32, setpoint_c: Double) -> (r: (
    Page,
    Option<Command>,
))
    ensures
        r == match hit_from(buttons@, x, y, 0) {
            Some(Action::SetpointUp) => (
                page,
                Some(Command::SetSetpoint { celsius: nudged(setpoint_c, true) }),
            ),
            Some(Action::SetpointDown) => (
                page,
                Some(Command::SetSetpoint { celsius: nudged(setpoint_c, false) }),
            ),
            Some(Action::TogglePage) => (page.other(), None),
            None => (page, None),
        },
{
    let step = Double { bits: SETPOINT_STEP_C };
    match hit(buttons, x, y) {
        Some(Action::SetpointUp) => (
            page,
            Some(Command::SetSetpoint { celsius: setpoint_c.plus(step) }),
        ),
        Some(Action::SetpointDown) => (
            page,
            Some(Command::SetSetpoint { celsius: setpoint_c.plus(step.negated()) }),
        ),
        Some(Action::TogglePage) => (page.other(), None),
        None => (page, None),
    }
}

// Words.
/// A temperature in degrees Fahrenheit, from Celsius.
pub open spec fn in_fahrenheit_spec(celsius: Double) -> Double {
    celsius.times(Double { bits: NINE }).over(Double { bits: FIVE }).plus(
        Double { bits: THIRTY_TWO },
    )
}

/// A temperature in degrees Fahrenheit, from Celsius.
pub fn in_fahrenheit(celsius: Double) -> (f: Double)
    ensures
        f == in_fahrenheit_spec(celsius),
{
    celsius.times(Double { bits: NINE }).over(Double { bits: FIVE }).plus(
        Double { bits: THIRTY_TWO },
    )
}

pub open spec fn fahrenheit_spec(celsius: Double, decimals: nat) -> Seq<char> {
    wording::fixed_spec(in_fahrenheit_spec(celsius), decimals) + "\u{00B0}F"@
}

/// Degrees Fahrenheit with the sign, from Celsius.
pub fn fahrenheit(celsius: Double, decimals: u32) -> (text: String)
    ensures
        text@ == fahrenheit_spec(celsius, decimals as nat),
{
    let mut text = wording::fixed(in_fahrenheit(celsius), decimals);
    text.append("\u{00B0}F");
    text
}

/// A number with a unit behind it.
pub open spec fn with_unit_spec(x: Double, decimals: nat, unit: Seq<char>) -> Seq<char> {
    wording::fixed_spec(x, decimals) + unit
}

/// A number with a unit behind it.
pub fn with_unit(x: Double, decimals: u32, unit: &str) -> (text: String)
    ensures
        text@ == with_unit_spec(x, decimals as nat, unit@),
{
    let mut text = wording::fixed(x, decimals);
    text.append(unit);
    text
}

/// A reading with a unit, or two dashes where there is none.
pub open spec fn reading_spec(x: Option<Double>, decimals: nat, unit: Seq<char>) -> Seq<char> {
    match x {
        Some(v) => with_unit_spec(v, decimals, unit),
        None => "--"@,
    }
}

fn reading(x: Option<Double>, decimals: u32, unit: &str) -> (text: String)
    ensures
        text@ == reading_spec(x, decimals as nat, unit@),
{
    match x {
        Some(v) => with_unit(v, decimals, unit),
        None => "--".to_string(),
    }
}

/// How a sparkline's values are labeled.
#[derive(Debug, Clone, Copy, PartialEq, Eq, Structural)]
pub enum Unit {
    /// Celsius shown in Fahrenheit.
    Fahrenheit,
    /// With one decimal.
    Tenths,
    /// With none.
    Whole,
}

pub open spec fn label_spec(unit: Unit, x: Double) -> Seq<char> {
    match unit {
        Unit::Fahrenheit => fahrenheit_spec(x, 1),
        Unit::Tenths => wording::fixed_spec(x, 1),
        Unit::Whole => wording::fixed_spec(x, 0),
    }
}

fn label_of(unit: Unit, x: Double) -> (text: String)
    ensures
        text@ == label_spec(unit, x),
{
    match unit {
        Unit::Fahrenheit => fahrenheit(x, 1),
        Unit::Tenths => wording::fixed(x, 1),
        Unit::Whole => wording::fixed(x, 0),
    }
}

/// The time a sparkline covers, in whole seconds under a minute and in
/// whole minutes from there.
pub open spec fn span_text_spec(span: Double) -> Seq<char> {
    if span.below(Double { bits: SIXTY }) {
        wording::digits(span.truncated_spec(0, u32::MAX as int) as nat) + "s"@
    } else {
        wording::digits(
            span.over(Double { bits: SIXTY }).truncated_spec(0, u32::MAX as int) as nat,
        ) + "m"@
    }
}

fn span_text(span: Double) -> (text: String)
    ensures
        text@ == span_text_spec(span),
{
    if span.below(Double { bits: SIXTY }) {
        let n: i64 = span.truncated(0, u32::MAX as i64);
        let mut text = wording::decimal(n as u64);
        text.append("s");
        text
    } else {
        let n: i64 = span.over(Double { bits: SIXTY }).truncated(0, u32::MAX as i64);
        let mut text = wording::decimal(n as u64);
        text.append("m");
        text
    }
}

/// The mode's name, and the color it is shown in.
pub open spec fn mode_spec(mode: Mode) -> (Seq<char>, Rgb) {
    match mode {
        Mode::Auto => ("AUTO"@, DIM),
        Mode::Manual => ("MANUAL"@, ACCENT),
    }
}

/// The mode's name, and the color it is shown in.
pub fn mode_label(mode: Mode) -> (r: (&'static str, Rgb))
    ensures
        (r.0@, r.1) == mode_spec(mode),
{
    match mode {
        Mode::Auto => ("AUTO", DIM),
        Mode::Manual => ("MANUAL", ACCENT),
    }
}

/// A fault in the header's words.
pub open spec fn status_spec(fault: Fault) -> Seq<char> {
    match fault {
        Fault::NoBathReading => "no bath reading"@,
        Fault::BathOverLimit(_) => "bath over limit"@,
        Fault::MinerOffline => "miner offline"@,
    }
}

fn status(fault: Fault) -> (text: &'static str)
    ensures
        text@ == status_spec(fault),
{
    match fault {
        Fault::NoBathReading => "no bath reading",
        Fault::BathOverLimit(_) => "bath over limit",
        Fault::MinerOffline => "miner offline",
    }
}

// Drawing.
/// Which history a sparkline draws.
#[derive(Debug, Clone, Copy, PartialEq, Eq, Structural)]
pub enum Line {
    Bath,
    Inlet,
    Outlet,
    Hashrate,
    Power,
}

/// A sparkline: its box, the width of its plot, which leaves room at
/// the right for the labels, the least its range spans, the latest
/// value, and the reference line, with their labels.
#[derive(Debug, Clone, PartialEq)]
pub struct Spark<T> {
    pub area: Area,
    pub line: Line,
    pub plot_width: Single,
    pub min_span: Double,
    pub last: Double,
    pub last_label: T,
    pub reference: Option<(Double, T)>,
}

/// One thing to draw, its words of type `T`.
#[derive(Debug, Clone, PartialEq)]
pub enum Item<T> {
    /// A filled rectangle.
    Fill { area: Area, color: Rgb },
    /// A rounded panel with a one-pixel border.
    Panel { area: Area, radius: i32 },
    /// Text with its top at `y`.
    Text { style: Style, align: Align, x: i32, y: i32, text: T },
    /// The badger, scaled to a height.
    Badger { x: i32, y: i32, height: u32 },
    /// A sparkline.
    Spark(Spark<T>),
}

/// An item with its words as sequences of characters.
pub type Drawn = Item<Seq<char>>;

impl Item<String> {
    pub open spec fn model(self) -> Drawn {
        match self {
            Item::Fill { area, color } => Item::Fill { area, color },
            Item::Panel { area, radius } => Item::Panel { area, radius },
            Item::Text { style, align, x, y, text } => Item::Text { style, align, x, y, text: text@ },
            Item::Badger { x, y, height } => Item::Badger { x, y, height },
            Item::Spark(s) => Item::Spark(s.model()),
        }
    }
}

impl Spark<String> {
    pub open spec fn model(self) -> Spark<Seq<char>> {
        Spark {
            area: self.area,
            line: self.line,
            plot_width: self.plot_width,
            min_span: self.min_span,
            last: self.last,
            last_label: self.last_label@,
            reference: match self.reference {
                Some(r) => Some((r.0, r.1@)),
                None => None,
            },
        }
    }
}

/// A coordinate as a signed integer, the nearest there is.
pub open spec fn near_spec(x: int) -> i32 {
    if x < i32::MIN {
        i32::MIN
    } else if x > i32::MAX {
        i32::MAX
    } else {
        x as i32
    }
}

fn near(x: i128) -> (n: i32)
    ensures
        n == near_spec(x as int),
{
    if x < i32::MIN as i128 {
        i32::MIN
    } else if x > i32::MAX as i128 {
        i32::MAX
    } else {
        x as i32
    }
}

/// Half a length, cut toward zero.
pub open spec fn half_spec(x: int) -> int {
    if x < 0 {
        -((-x) / 2)
    } else {
        x / 2
    }
}

fn half(x: i128) -> (h: i128)
    requires
        -0x1_0000_0000_0000_0000 <= x <= 0x1_0000_0000_0000_0000,
    ensures
        h == half_spec(x as int),
        -0x8000_0000_0000_0000 <= h <= 0x8000_0000_0000_0000,
{
    if x < 0 {
        -((-x) / 2)
    } else {
        x / 2
    }
}

pub open spec fn area_spec(x: int, y: int, width: int, height: int) -> Area {
    Area {
        x: near_spec(x),
        y: near_spec(y),
        width: near_spec(width),
        height: near_spec(height),
    }
}

fn area_at(x: i128, y: i128, width: i128, height: i128) -> (a: Area)
    ensures
        a == area_spec(x as int, y as int, width as int, height as int),
{
    Area { x: near(x), y: near(y), width: near(width), height: near(height) }
}

pub open spec fn text_at(style: Style, align: Align, x: int, y: int, text: Seq<char>) -> Drawn {
    Item::Text { style, align, x: near_spec(x), y: near_spec(y), text }
}

/// A frame's size and the scale from the design height.
#[derive(Debug, Clone, Copy, PartialEq)]
pub struct Canvas {
    pub width: i32,
    pub height: i32,
    pub scale: Single,
}

impl Canvas {
    pub open spec fn of(size: Size) -> Canvas {
        Canvas {
            width: size.width as i32,
            height: size.height as i32,
            scale: Single::of_spec(size.height as int).over(Single::of_spec(DESIGN_HEIGHT as int)),
        }
    }

    /// The canvas of a frame.
    pub fn new(size: Size) -> (c: Self)
        requires
            size.fits(),
        ensures
            c == Canvas::of(size),
            c.width == size.width,
            c.height == size.height,
    {
        Canvas {
            width: size.width as i32,
            height: size.height as i32,
            scale: Single::of(size.height as i64).over(Single::of(DESIGN_HEIGHT as i64)),
        }
    }

    /// A design length in frame pixels, to the nearest.
    pub open spec fn px(self, design: int) -> int {
        Single::of_spec(design).times(self.scale).rounded_off_spec(
            i32::MIN as int,
            i32::MAX as int,
        )
    }

    /// A design length in frame pixels, to the nearest.
    pub fn scaled(&self, design: u16) -> (n: i128)
        ensures
            n == self.px(design as int),
            i32::MIN <= n <= i32::MAX,
    {
        let n: i64 = Single::of(design as i64).times(self.scale).rounded_off(
            i32::MIN as i64,
            i32::MAX as i64,
        );
        n as i128
    }

    /// A design length in frame pixels, as a height.
    pub open spec fn rows_spec(self, design: int) -> u32 {
        if self.px(design) < 0 {
            0
        } else {
            self.px(design) as u32
        }
    }

    fn rows(&self, design: u16) -> (n: u32)
        ensures
            n == self.rows_spec(design as int),
    {
        let n = self.scaled(design);
        if n < 0 {
            0
        } else {
            n as u32
        }
    }

    pub open spec fn style_spec(self, face: Face, design: int, color: Rgb) -> Style {
        Style { face, px: Single::of_spec(design).times(self.scale), color }
    }

    /// A text style with its design size scaled to the frame.
    pub fn style(&self, face: Face, design: u16, color: Rgb) -> (s: Style)
        ensures
            s == self.style_spec(face, design as int, color),
    {
        Style { face, px: Single::of(design as i64).times(self.scale), color }
    }

    pub open spec fn label_style_spec(self) -> Style {
        self.style_spec(Face::Medium, 16, DIM)
    }

    /// The style of labels, in which the mode is measured.
    pub fn label_style(&self) -> (s: Style)
        ensures
            s == self.label_style_spec(),
    {
        self.style(Face::Medium, 16, DIM)
    }
}

/// The items of a page as they are laid out.
#[derive(Debug, Clone, PartialEq)]
pub struct Sheet {
    pub items: Vec<Item<String>>,
}

impl Sheet {
    pub open spec fn shown(self) -> Seq<Drawn> {
        self.items@.map_values(|i: Item<String>| i.model())
    }

    fn put(&mut self, item: Item<String>)
        ensures
            final(self).shown() == old(self).shown().push(item.model()),
    {
        self.items.push(item);
        assert(self.shown() =~= old(self).shown().push(item.model()));
    }

    fn text(&mut self, style: Style, align: Align, x: i128, y: i128, text: &str)
        ensures
            final(self).shown() == old(self).shown().push(
                text_at(style, align, x as int, y as int, text@),
            ),
    {
        self.put(Item::Text { style, align, x: near(x), y: near(y), text: text.to_string() });
    }

    fn fill(&mut self, area: Area, color: Rgb)
        ensures
            final(self).shown() == old(self).shown().push(Item::Fill { area, color }),
    {
        self.put(Item::Fill { area, color });
    }
}

// Sparklines.
/// The latest sample that is not a gap.
pub open spec fn last_known_spec(samples: Seq<Option<Double>>) -> Option<Double>
    decreases samples.len(),
{
    if samples.len() == 0 {
        None
    } else if samples.last() is Some {
        samples.last()
    } else {
        last_known_spec(samples.drop_last())
    }
}

fn last_known(history: &History) -> (last: Option<Double>)
    ensures
        last == last_known_spec(history@),
{
    let samples = history.samples();
    let mut n: usize = samples.len();
    proof {
        assert(samples@.take(n as int) =~= samples@);
    }
    while n > 0
        invariant
            n <= samples@.len(),
            samples@ == history@,
            last_known_spec(samples@) == last_known_spec(samples@.take(n as int)),
        decreases n,
    {
        let ghost part = samples@.take(n as int);
        assert(part.last() == samples@[n - 1]);
        assert(part.drop_last() =~= samples@.take(n - 1));
        if samples[n - 1].is_some() {
            return samples[n - 1];
        }
        n = n - 1;
    }
    None
}

/// A sparkline of a history in an area, never zoomed in past `min_span`
/// data units, with the time it covers at top left where the plot is
/// tall enough; nothing without a reading.
#[verifier::opaque]
pub open spec fn spark_items(
    c: Canvas,
    area: Area,
    line: Line,
    samples: Seq<Option<Double>>,
    span: Double,
    min_span: u64,
    reference: Option<Double>,
    unit: Unit,
) -> Seq<Drawn> {
    match last_known_spec(samples) {
        None => Seq::<Drawn>::empty(),
        Some(last) => seq![
            Item::Spark(
                Spark {
                    area,
                    line,
                    plot_width: Single::of_spec(area.width - c.px(48)),
                    min_span: Double { bits: min_span },
                    last,
                    last_label: label_spec(unit, last),
                    reference: match reference {
                        Some(r) => Some((r, label_spec(unit, r))),
                        None => None,
                    },
                },
            ),
        ] + if area.height >= c.px(70) {
            seq![
                text_at(
                    c.style_spec(Face::Medium, 13, DIM),
                    Align::Left,
                    area.x as int,
                    area.y as int,
                    span_text_spec(span),
                ),
            ]
        } else {
            Seq::<Drawn>::empty()
        },
    }
}

fn spark(
    sheet: &mut Sheet,
    c: &Canvas,
    area: Area,
    line: Line,
    history: &History,
    min_span: u64,
    reference: Option<Double>,
    unit: Unit,
)
    ensures
        final(sheet).shown() == old(sheet).shown() + spark_items(
            *c,
            area,
            line,
            history@,
            history.span_spec(),
            min_span,
            reference,
            unit,
        ),
{
    proof {
        reveal(spark_items);
    }
    let last = match last_known(history) {
        Some(last) => last,
        None => {
            assert(sheet.shown() =~= old(sheet).shown() + Seq::<Drawn>::empty());
            return;
        },
    };
    let plot: i64 = area.width as i64 - c.scaled(48) as i64;
    sheet.put(
        Item::Spark(
            Spark {
                area,
                line,
                plot_width: Single::of(plot),
                min_span: Double { bits: min_span },
                last,
                last_label: label_of(unit, last),
                reference: match reference {
                    Some(r) => Some((r, label_of(unit, r))),
                    None => None,
                },
            },
        ),
    );
    if area.height as i128 >= c.scaled(70) {
        sheet.text(
            c.style(Face::Medium, 13, DIM),
            Align::Left,
            area.x as i128,
            area.y as i128,
            span_text(history.span_secs()).as_str(),
        );
    }
    assert(sheet.shown() =~= old(sheet).shown() + spark_items(
        *c,
        area,
        line,
        history@,
        history.span_spec(),
        min_span,
        reference,
        unit,
    ));
}

impl Spark<String> {
    /// The labels of a drawn sparkline: the latest value's at its marker,
    /// and the reference line's at the right edge, unless the two would
    /// touch.
    pub open spec fn label_items(self, c: Canvas, last_y: int, reference_y: int) -> Seq<Drawn> {
        let small = c.style_spec(Face::Medium, 13, TEXT);
        let x = self.area.x + text::whole_spec(self.plot_width) + c.px(6);
        let up = text::whole_spec(small.px.over(Single { bits: text::TWO }));
        let apart = if last_y < reference_y {
            reference_y - last_y
        } else {
            last_y - reference_y
        };
        seq![text_at(small, Align::Left, x, last_y - up, self.last_label@)] + match self.reference {
            Some(r) => if apart > text::whole_spec(small.px) {
                seq![
                    text_at(
                        Style { color: ACCENT, ..small },
                        Align::Left,
                        x,
                        reference_y - up,
                        r.1@,
                    ),
                ]
            } else {
                Seq::<Drawn>::empty()
            },
            None => Seq::<Drawn>::empty(),
        }
    }

    /// The labels of a drawn sparkline, its latest value plotted at
    /// `last_y` and its reference line, if it has one, at
    /// `reference_y`.
    pub fn labels(&self, c: &Canvas, last_y: i32, reference_y: i32) -> (sheet: Sheet)
        ensures
            sheet.shown() == self.label_items(*c, last_y as int, reference_y as int),
    {
        let mut sheet = Sheet { items: Vec::new() };
        let small = c.style(Face::Medium, 13, TEXT);
        let x: i128 = self.area.x as i128 + text::whole(self.plot_width) as i128 + c.scaled(6);
        let up: i128 = text::whole(small.px.over(Single { bits: text::TWO })) as i128;
        sheet.text(small, Align::Left, x, last_y as i128 - up, self.last_label.as_str());
        if let Some(r) = &self.reference {
            let apart: i128 = if last_y < reference_y {
                reference_y as i128 - last_y as i128
            } else {
                last_y as i128 - reference_y as i128
            };
            if apart > text::whole(small.px) as i128 {
                sheet.text(
                    Style { face: small.face, px: small.px, color: ACCENT },
                    Align::Left,
                    x,
                    reference_y as i128 - up,
                    r.1.as_str(),
                );
            }
        }
        assert(sheet.shown() =~= self.label_items(*c, last_y as int, reference_y as int));
        sheet
    }
}

// The header.
/// The page button, at top right.
pub open spec fn page_button(c: Canvas) -> Area {
    area_spec(c.width - c.px(16) - c.px(110), c.px(6), c.px(110), c.px(30))
}

/// The badger and the wordmark at top left; the page button, the mode,
/// and any fault at top right. The badger is `badger_width` wide, and
/// the mode's name `mode_width`.
#[verifier::opaque]
pub open spec fn header_items(
    c: Canvas,
    badger_width: int,
    mode: Mode,
    mode_width: int,
    fault: Option<Fault>,
    page_label: Seq<char>,
) -> Seq<Drawn> {
    let x = c.px(16);
    let y = c.px(5);
    let button = page_button(c);
    let label = c.label_style_spec();
    let right = button.x - c.px(20);
    let text_y = button.y + c.px(6);
    seq![
        Item::Badger { x: near_spec(x), y: near_spec(y), height: c.rows_spec(32) },
        text_at(
            c.style_spec(Face::Wordmark, 22, TEXT),
            Align::Left,
            x + badger_width + c.px(8),
            y + c.px(5),
            "mujina"@,
        ),
        Item::Panel { area: button, radius: near_spec(c.px(7)) },
        text_at(label, Align::Center, button.x + half_spec(button.width as int), text_y, page_label),
        text_at(
            Style { color: mode_spec(mode).1, ..label },
            Align::Right,
            right,
            text_y,
            mode_spec(mode).0,
        ),
    ] + match fault {
        Some(f) => seq![
            text_at(
                Style { color: ACCENT, ..label },
                Align::Right,
                right - (mode_width + c.px(16)),
                text_y,
                status_spec(f),
            ),
        ],
        None => Seq::<Drawn>::empty(),
    }
}

fn header(
    sheet: &mut Sheet,
    c: &Canvas,
    badger: &Image,
    state: &State,
    limits: &Limits,
    mode_width: i32,
    page_label: &str,
) -> (button: Button)
    ensures
        final(sheet).shown() == old(sheet).shown() + header_items(
            *c,
            image::width_spec(badger.width, badger.height, c.rows_spec(32)),
            state.mode,
            mode_width as int,
            control::fault_spec(*state, *limits),
            page_label@,
        ),
        button == (Button { area: page_button(*c), action: Action::TogglePage }),
{
    proof {
        reveal(header_items);
    }
    let logo_h = c.rows(32);
    let x: i128 = c.scaled(16);
    let y: i128 = c.scaled(5);
    sheet.put(Item::Badger { x: near(x), y: near(y), height: logo_h });
    let badger_width: i128 = badger.width_at(logo_h) as i128;
    sheet.text(
        c.style(Face::Wordmark, 22, TEXT),
        Align::Left,
        x + badger_width + c.scaled(8),
        y + c.scaled(5),
        "mujina",
    );
    let button = area_at(
        c.width as i128 - c.scaled(16) - c.scaled(110),
        c.scaled(6),
        c.scaled(110),
        c.scaled(30),
    );
    let label = c.label_style();
    let text_y: i128 = button.y as i128 + c.scaled(6);
    sheet.put(Item::Panel { area: button, radius: near(c.scaled(7)) });
    sheet.text(
        label,
        Align::Center,
        button.x as i128 + half(button.width as i128),
        text_y,
        page_label,
    );
    let right: i128 = button.x as i128 - c.scaled(20);
    let (mode, mode_color) = mode_label(state.mode);
    sheet.text(
        Style { face: label.face, px: label.px, color: mode_color },
        Align::Right,
        right,
        text_y,
        mode,
    );
    if let Some(f) = control::fault(state, limits) {
        sheet.text(
            Style { face: label.face, px: label.px, color: ACCENT },
            Align::Right,
            right - (mode_width as i128 + c.scaled(16)),
            text_y,
            status(f),
        );
    }
    assert(sheet.shown() =~= old(sheet).shown() + header_items(
        *c,
        image::width_spec(badger.width, badger.height, c.rows_spec(32)),
        state.mode,
        mode_width as int,
        control::fault_spec(*state, *limits),
        page_label@,
    ));
    Button { area: button, action: Action::TogglePage }
}

// The main page.
/// The setpoint's button, the left one down and the right one up.
pub open spec fn setpoint_button(c: Canvas, up: bool) -> Area {
    let top = c.px(46) + c.px(120);
    area_spec(
        c.px(16) + if up {
            c.px(130) + c.px(14)
        } else {
            0
        },
        top,
        c.px(130),
        c.height - c.px(12) - top,
    )
}

/// A setpoint button and its sign.
pub open spec fn button_items(c: Canvas, up: bool) -> Seq<Drawn> {
    let area = setpoint_button(c, up);
    let glyph = c.style_spec(Face::Bold, 64, TEXT);
    seq![
        Item::Panel { area, radius: near_spec(c.px(10)) },
        text_at(
            glyph,
            Align::Center,
            area.x + half_spec(area.width as int),
            area.y + half_spec(area.height - text::whole_spec(glyph.px)) - c.px(5),
            if up {
                "+"@
            } else {
                "\u{2212}"@
            },
        ),
    ]
}

fn setpoint_pad(sheet: &mut Sheet, c: &Canvas, up: bool) -> (area: Area)
    ensures
        final(sheet).shown() == old(sheet).shown() + button_items(*c, up),
        area == setpoint_button(*c, up),
{
    let top: i128 = c.scaled(46) + c.scaled(120);
    let x: i128 = if up {
        c.scaled(16) + (c.scaled(130) + c.scaled(14))
    } else {
        c.scaled(16)
    };
    let area = area_at(x, top, c.scaled(130), c.height as i128 - c.scaled(12) - top);
    let glyph = c.style(Face::Bold, 64, TEXT);
    sheet.put(Item::Panel { area, radius: near(c.scaled(10)) });
    let sign = if up {
        "+"
    } else {
        "\u{2212}"
    };
    sheet.text(
        glyph,
        Align::Center,
        area.x as i128 + half(area.width as i128),
        area.y as i128 + half(area.height as i128 - text::whole(glyph.px) as i128) - c.scaled(5),
        sign,
    );
    assert(sheet.shown() =~= old(sheet).shown() + button_items(*c, up));
    area
}

/// The setpoint and its buttons, in the left column.
#[verifier::opaque]
pub open spec fn setpoint_items(c: Canvas, setpoint_c: Double) -> Seq<Drawn> {
    let top = c.px(46);
    let x = c.px(16);
    seq![
        text_at(c.label_style_spec(), Align::Left, x, top, "SETPOINT"@),
        text_at(
            c.style_spec(Face::Bold, 72, TEXT),
            Align::Left,
            x - c.px(3),
            top + c.px(14),
            fahrenheit_spec(setpoint_c, 0),
        ),
        text_at(
            c.style_spec(Face::Medium, 18, DIM),
            Align::Left,
            x,
            top + c.px(96),
            with_unit_spec(setpoint_c, 1, " \u{00B0}C"@),
        ),
    ] + button_items(c, false) + button_items(c, true)
}

fn setpoint_column(sheet: &mut Sheet, c: &Canvas, setpoint_c: Double) -> (areas: (Area, Area))
    ensures
        final(sheet).shown() == old(sheet).shown() + setpoint_items(*c, setpoint_c),
        areas == (setpoint_button(*c, false), setpoint_button(*c, true)),
{
    proof {
        reveal(setpoint_items);
    }
    let top: i128 = c.scaled(46);
    let x: i128 = c.scaled(16);
    sheet.text(c.label_style(), Align::Left, x, top, "SETPOINT");
    sheet.text(
        c.style(Face::Bold, 72, TEXT),
        Align::Left,
        x - c.scaled(3),
        top + c.scaled(14),
        fahrenheit(setpoint_c, 0).as_str(),
    );
    sheet.text(
        c.style(Face::Medium, 18, DIM),
        Align::Left,
        x,
        top + c.scaled(96),
        with_unit(setpoint_c, 1, " \u{00B0}C").as_str(),
    );
    let down = setpoint_pad(sheet, c, false);
    let up = setpoint_pad(sheet, c, true);
    assert(sheet.shown() =~= old(sheet).shown() + setpoint_items(*c, setpoint_c));
    (down, up)
}

/// One temperature column: its name, its reading in both units, and its
/// sparkline.
#[verifier::opaque]
pub open spec fn temperature_items(
    c: Canvas,
    i: int,
    name: Seq<char>,
    reading: Option<Double>,
    line: Line,
    samples: Seq<Option<Double>>,
    span: Double,
    reference: Option<Double>,
) -> Seq<Drawn> {
    let top = c.px(46);
    let x = c.px(320) + i * (c.px(220) + c.px(20));
    let spark_top = top + c.px(90);
    seq![
        text_at(c.label_style_spec(), Align::Left, x, top, name),
        text_at(
            c.style_spec(Face::Bold, 48, TEXT),
            Align::Left,
            x - c.px(2),
            top + c.px(14),
            match reading {
                Some(t) => fahrenheit_spec(t, 1),
                None => "--"@,
            },
        ),
    ] + match reading {
        Some(t) => seq![
            text_at(
                c.label_style_spec(),
                Align::Left,
                x,
                top + c.px(66),
                with_unit_spec(t, 1, " \u{00B0}C"@),
            ),
        ],
        None => Seq::<Drawn>::empty(),
    } + spark_items(
        c,
        area_spec(x, spark_top, c.px(220), c.height - c.px(12) - spark_top),
        line,
        samples,
        span,
        TEMPERATURE_SPAN_C,
        reference,
        Unit::Fahrenheit,
    )
}

fn temperature_column(
    sheet: &mut Sheet,
    c: &Canvas,
    i: u8,
    name: &str,
    reading: Option<Double>,
    line: Line,
    history: &History,
    reference: Option<Double>,
)
    requires
        i <= 2,
    ensures
        final(sheet).shown() == old(sheet).shown() + temperature_items(
            *c,
            i as int,
            name@,
            reading,
            line,
            history@,
            history.span_spec(),
            reference,
        ),
{
    proof {
        reveal(temperature_items);
    }
    let top: i128 = c.scaled(46);
    let step: i128 = c.scaled(220) + c.scaled(20);
    let across: i128 = if i == 0 {
        0
    } else if i == 1 {
        step
    } else {
        step + step
    };
    assert(across == i * step) by (nonlinear_arith)
        requires
            (i == 0 && across == 0) || (i == 1 && across == step) || (i == 2 && across == step
                + step),
    ;
    let x: i128 = c.scaled(320) + across;
    let spark_top: i128 = top + c.scaled(90);
    sheet.text(c.label_style(), Align::Left, x, top, name);
    let value = match reading {
        Some(t) => fahrenheit(t, 1),
        None => "--".to_string(),
    };
    sheet.text(
        c.style(Face::Bold, 48, TEXT),
        Align::Left,
        x - c.scaled(2),
        top + c.scaled(14),
        value.as_str(),
    );
    if let Some(t) = reading {
        sheet.text(
            c.label_style(),
            Align::Left,
            x,
            top + c.scaled(66),
            with_unit(t, 1, " \u{00B0}C").as_str(),
        );
    }
    let area = area_at(x, spark_top, c.scaled(220), c.height as i128 - c.scaled(12) - spark_top);
    spark(sheet, c, area, line, history, TEMPERATURE_SPAN_C, reference, Unit::Fahrenheit);
    assert(sheet.shown() =~= old(sheet).shown() + temperature_items(
        *c,
        i as int,
        name@,
        reading,
        line,
        history@,
        history.span_spec(),
        reference,
    ));
}

/// Where the miner's column begins, how wide it is, and half of it.
pub open spec fn miner_left(c: Canvas) -> int {
    c.px(320) + 3 * c.px(220) + 2 * c.px(20) + c.px(10)
}

pub open spec fn miner_width(c: Canvas) -> int {
    c.width - c.px(16) - miner_left(c)
}

pub open spec fn miner_half(c: Canvas) -> int {
    half_spec(miner_width(c) - c.px(20))
}

/// One of the miner's figures, with its sparkline.
#[verifier::opaque]
pub open spec fn figure_items(
    c: Canvas,
    x: int,
    name: Seq<char>,
    value: Seq<char>,
    line: Line,
    samples: Seq<Option<Double>>,
    span: Double,
    min_span: u64,
    unit: Unit,
) -> Seq<Drawn> {
    let top = c.px(46);
    seq![
        text_at(c.label_style_spec(), Align::Left, x, top, name),
        text_at(
            c.style_spec(Face::Bold, 40, TEXT),
            Align::Left,
            x - c.px(2),
            top + c.px(14),
            value,
        ),
    ] + spark_items(
        c,
        area_spec(x, top + c.px(62), miner_half(c), c.px(88)),
        line,
        samples,
        span,
        min_span,
        None,
        unit,
    )
}

fn figure(
    sheet: &mut Sheet,
    c: &Canvas,
    x: i128,
    width: i128,
    name: &str,
    value: &str,
    line: Line,
    history: &History,
    min_span: u64,
    unit: Unit,
)
    requires
        -0x100_0000_0000_0000_0000 <= x <= 0x100_0000_0000_0000_0000,
        width == miner_half(*c),
    ensures
        final(sheet).shown() == old(sheet).shown() + figure_items(
            *c,
            x as int,
            name@,
            value@,
            line,
            history@,
            history.span_spec(),
            min_span,
            unit,
        ),
{
    proof {
        reveal(figure_items);
    }
    let top: i128 = c.scaled(46);
    sheet.text(c.label_style(), Align::Left, x, top, name);
    sheet.text(
        c.style(Face::Bold, 40, TEXT),
        Align::Left,
        x - c.scaled(2),
        top + c.scaled(14),
        value,
    );
    let area = area_at(x, top + c.scaled(62), width, c.scaled(88));
    spark(sheet, c, area, line, history, min_span, None, unit);
    assert(sheet.shown() =~= old(sheet).shown() + figure_items(
        *c,
        x as int,
        name@,
        value@,
        line,
        history@,
        history.span_spec(),
        min_span,
        unit,
    ));
}

/// A share held to the range from nothing to full, of a width.
pub open spec fn share_of(width: int, share: Double) -> int {
    Double::of_spec(width).times(
        share.held_to(Double { bits: 0 }, Double { bits: ONE }),
    ).truncated_spec(i32::MIN as int, i32::MAX as int)
}

fn share_width(width: i128, share: Double) -> (w: i128)
    requires
        -0x1_0000_0000_0000 <= width <= 0x1_0000_0000_0000,
    ensures
        w == share_of(width as int, share),
        i32::MIN <= w <= i32::MAX,
{
    let w: i64 = Double::of(width as i64).times(
        share.held_to(Double { bits: 0 }, Double { bits: ONE }),
    ).truncated(i32::MIN as i64, i32::MAX as i64);
    w as i128
}

/// A share in whole percent.
pub open spec fn percent_spec(share: Double) -> Seq<char> {
    wording::fixed_spec(share.times(Double { bits: HUNDRED }), 0)
}

/// Whether heat caps the miner: a ceiling under full power.
pub open spec fn capped_spec(miner: Miner) -> bool {
    match miner.power_ceiling {
        Some(ceiling) => ceiling.below(Double { bits: ONE }),
        None => false,
    }
}

/// What the share bar says: the share asked and the share held, and
/// whether heat caps it.
pub open spec fn share_text_spec(asked: Option<Double>, miner: Miner) -> Seq<char> {
    let share = match (asked, miner.power_fraction) {
        (Some(a), Some(h)) => percent_spec(a) + "% asked, "@ + percent_spec(h) + "% held"@,
        (None, Some(h)) => percent_spec(h) + "% held"@,
        _ => "share unknown"@,
    };
    if capped_spec(miner) {
        share + ", capped by heat"@
    } else {
        share
    }
}

fn share_text(asked: Option<Double>, miner: &Miner) -> (text: String)
    ensures
        text@ == share_text_spec(asked, *miner),
{
    let hundred = Double { bits: HUNDRED };
    let mut text = match (asked, miner.power_fraction) {
        (Some(a), Some(h)) => {
            let mut text = wording::fixed(a.times(hundred), 0);
            text.append("% asked, ");
            wording::push_fixed(&mut text, h.times(hundred), 0);
            text.append("% held");
            text
        },
        (None, Some(h)) => {
            let mut text = wording::fixed(h.times(hundred), 0);
            text.append("% held");
            text
        },
        _ => "share unknown".to_string(),
    };
    if is_capped(miner) {
        text.append(", capped by heat");
    }
    text
}

fn is_capped(miner: &Miner) -> (r: bool)
    ensures
        r == capped_spec(*miner),
{
    match miner.power_ceiling {
        Some(ceiling) => ceiling.below(Double { bits: ONE }),
        None => false,
    }
}

/// The share bar: what the miner holds in red, and a mark where the
/// request stands, with both in words under it, and the hottest chip.
#[verifier::opaque]
pub open spec fn share_items(c: Canvas, asked: Option<Double>, miner: Miner) -> Seq<Drawn> {
    let x = miner_left(c);
    let width = miner_width(c);
    let bar = area_spec(x, c.px(46) + c.px(166), width, c.px(12));
    let note = c.style_spec(Face::Medium, 14, DIM);
    let below = bar.y + c.px(18);
    seq![Item::Fill { area: bar, color: PANEL }] + match miner.power_fraction {
        Some(held) => seq![
            Item::Fill {
                area: Area { width: near_spec(share_of(width, held)), ..bar },
                color: ACCENT,
            },
        ],
        None => Seq::<Drawn>::empty(),
    } + match asked {
        Some(share) => seq![
            Item::Fill {
                area: area_spec(
                    x + share_of(width, share) - c.px(1),
                    bar.y - c.px(3),
                    c.px(3),
                    bar.height + c.px(6),
                ),
                color: TEXT,
            },
        ],
        None => Seq::<Drawn>::empty(),
    } + seq![
        text_at(
            Style {
                color: if capped_spec(miner) {
                    ACCENT
                } else {
                    DIM
                },
                ..note
            },
            Align::Left,
            x,
            below,
            share_text_spec(asked, miner),
        ),
        text_at(
            note,
            Align::Right,
            x + width,
            below,
            match miner.chip_temperature_c {
                Some(t) => "chip "@ + with_unit_spec(t, 0, " \u{00B0}C"@),
                None => "chip --"@,
            },
        ),
    ]
}

fn share_bar(sheet: &mut Sheet, c: &Canvas, x: i128, width: i128, asked: Option<Double>, miner: &Miner)
    requires
        x == miner_left(*c),
        width == miner_width(*c),
        -0x1_0000_0000_0000 <= x <= 0x1_0000_0000_0000,
        -0x1_0000_0000_0000 <= width <= 0x1_0000_0000_0000,
    ensures
        final(sheet).shown() == old(sheet).shown() + share_items(*c, asked, *miner),
{
    proof {
        reveal(share_items);
    }
    let bar = area_at(x, c.scaled(46) + c.scaled(166), width, c.scaled(12));
    sheet.fill(bar, PANEL);
    if let Some(held) = miner.power_fraction {
        let filled = near(share_width(width, held));
        sheet.fill(Area { x: bar.x, y: bar.y, width: filled, height: bar.height }, ACCENT);
    }
    if let Some(share) = asked {
        let mark_x: i128 = x + share_width(width, share);
        sheet.fill(
            area_at(
                mark_x - c.scaled(1),
                bar.y as i128 - c.scaled(3),
                c.scaled(3),
                bar.height as i128 + c.scaled(6),
            ),
            TEXT,
        );
    }
    let below: i128 = bar.y as i128 + c.scaled(18);
    let note = c.style(Face::Medium, 14, DIM);
    let color = if is_capped(miner) {
        ACCENT
    } else {
        DIM
    };
    sheet.text(
        Style { face: note.face, px: note.px, color },
        Align::Left,
        x,
        below,
        share_text(asked, miner).as_str(),
    );
    let mut chip = "chip ".to_string();
    match miner.chip_temperature_c {
        Some(t) => {
            chip.append(with_unit(t, 0, " \u{00B0}C").as_str());
        },
        None => {
            chip = "chip --".to_string();
        },
    }
    sheet.text(note, Align::Right, x + width, below, chip.as_str());
    assert(sheet.shown() =~= old(sheet).shown() + share_items(*c, asked, *miner));
}

/// The main page under its header: the setpoint and its buttons, three
/// temperature columns, the bath with the setpoint as its reference
/// line, and the miner.
#[verifier::opaque]
pub open spec fn main_items(c: Canvas, state: State, h: Histories) -> Seq<Drawn> {
    let x = miner_left(c);
    setpoint_items(c, state.setpoint_c) + temperature_items(
        c,
        0,
        "BATH"@,
        control::bath_reading_spec(state),
        Line::Bath,
        h.bath@,
        h.bath.span_spec(),
        Some(state.setpoint_c),
    ) + temperature_items(
        c,
        1,
        "INLET"@,
        state::reading_of(state.probes@, "inlet"@),
        Line::Inlet,
        h.inlet@,
        h.inlet.span_spec(),
        None,
    ) + temperature_items(
        c,
        2,
        "OUTLET"@,
        state::reading_of(state.probes@, "outlet"@),
        Line::Outlet,
        h.outlet@,
        h.outlet.span_spec(),
        None,
    ) + figure_items(
        c,
        x,
        "HASHRATE"@,
        reading_spec(history::terahashes_spec(state.miner.hashrate_hs), 1, " TH/s"@),
        Line::Hashrate,
        h.hashrate_ths@,
        h.hashrate_ths.span_spec(),
        HASHRATE_SPAN_THS,
        Unit::Tenths,
    ) + figure_items(
        c,
        x + miner_half(c) + c.px(20),
        "POWER"@,
        reading_spec(state.miner.power_w, 0, " W"@),
        Line::Power,
        h.power_w@,
        h.power_w.span_spec(),
        POWER_SPAN_W,
        Unit::Whole,
    ) + share_items(c, state.power_fraction, state.miner)
}

fn main_page(sheet: &mut Sheet, c: &Canvas, state: &State, h: &Histories) -> (areas: (Area, Area))
    ensures
        final(sheet).shown() == old(sheet).shown() + main_items(*c, *state, *h),
        areas == (setpoint_button(*c, false), setpoint_button(*c, true)),
{
    proof {
        reveal(main_items);
    }
    let areas = setpoint_column(sheet, c, state.setpoint_c);
    temperature_column(
        sheet,
        c,
        0,
        "BATH",
        control::bath_reading(state),
        Line::Bath,
        &h.bath,
        Some(state.setpoint_c),
    );
    temperature_column(
        sheet,
        c,
        1,
        "INLET",
        state.reading("inlet"),
        Line::Inlet,
        &h.inlet,
        None,
    );
    temperature_column(
        sheet,
        c,
        2,
        "OUTLET",
        state.reading("outlet"),
        Line::Outlet,
        &h.outlet,
        None,
    );
    let column_w: i128 = c.scaled(220);
    let gap: i128 = c.scaled(20);
    let x: i128 = c.scaled(320) + 3 * column_w + 2 * gap + c.scaled(10);
    let width: i128 = c.width as i128 - c.scaled(16) - x;
    let half_w: i128 = half(width - gap);
    let rate = reading(history::terahashes(state.miner.hashrate_hs), 1, " TH/s");
    figure(
        sheet,
        c,
        x,
        half_w,
        "HASHRATE",
        rate.as_str(),
        Line::Hashrate,
        &h.hashrate_ths,
        HASHRATE_SPAN_THS,
        Unit::Tenths,
    );
    let power = reading(state.miner.power_w, 0, " W");
    figure(
        sheet,
        c,
        x + half_w + gap,
        half_w,
        "POWER",
        power.as_str(),
        Line::Power,
        &h.power_w,
        POWER_SPAN_W,
        Unit::Whole,
    );
    share_bar(sheet, c, x, width, state.power_fraction, &state.miner);
    assert(sheet.shown() =~= old(sheet).shown() + main_items(*c, *state, *h));
    areas
}

// The boards page.
/// One column of the boards table: its heading, its right edge in
/// design pixels, and its decimals.
#[derive(Debug, Clone, Copy, PartialEq)]
pub struct Column {
    pub label: &'static str,
    pub right: u16,
    pub decimals: u32,
}

/// How many columns of one reading the boards table has.
pub const COLUMNS: usize = 8;

/// The right edge of its last column, the share, in design pixels.
pub const SHARE_RIGHT: u16 = 1408;

/// The headings of the boards table.
pub open spec fn heading(i: int) -> Seq<char> {
    if i == 0 {
        "CHIP \u{00B0}C"@
    } else if i == 1 {
        "BOARD \u{00B0}C"@
    } else if i == 2 {
        "REG \u{00B0}C"@
    } else if i == 3 {
        "IN V"@
    } else if i == 4 {
        "CORE V"@
    } else if i == 5 {
        "A"@
    } else if i == 6 {
        "W"@
    } else {
        "TH/s"@
    }
}

/// The right edges of its columns, in design pixels.
pub open spec fn right_edge(i: int) -> int {
    if i == 0 {
        430
    } else if i == 1 {
        560
    } else if i == 2 {
        690
    } else if i == 3 {
        810
    } else if i == 4 {
        1060
    } else if i == 5 {
        940
    } else if i == 6 {
        1180
    } else {
        1310
    }
}

/// The decimals of its columns.
pub open spec fn decimals_of(i: int) -> nat {
    if i == 3 || i == 5 {
        1
    } else if i == 4 {
        3
    } else if i == 7 {
        2
    } else {
        0
    }
}

/// What a board shows in each of its columns.
pub open spec fn field(board: Board, i: int) -> Option<Double> {
    if i == 0 {
        board.chip_temperature_c
    } else if i == 1 {
        board.board_temperature_c
    } else if i == 2 {
        board.regulator_temperature_c
    } else if i == 3 {
        board.input_voltage_v
    } else if i == 4 {
        board.voltage_v
    } else if i == 5 {
        board.current_a
    } else if i == 6 {
        board.power_w
    } else {
        history::terahashes_spec(board.hashrate_hs)
    }
}

fn column(i: usize) -> (c: Column)
    requires
        i < COLUMNS,
    ensures
        c.label@ == heading(i as int),
        c.right == right_edge(i as int),
        c.decimals == decimals_of(i as int),
{
    match i {
        0 => Column { label: "CHIP \u{00B0}C", right: 430, decimals: 0 },
        1 => Column { label: "BOARD \u{00B0}C", right: 560, decimals: 0 },
        2 => Column { label: "REG \u{00B0}C", right: 690, decimals: 0 },
        3 => Column { label: "IN V", right: 810, decimals: 1 },
        4 => Column { label: "CORE V", right: 1060, decimals: 3 },
        5 => Column { label: "A", right: 940, decimals: 1 },
        6 => Column { label: "W", right: 1180, decimals: 0 },
        _ => Column { label: "TH/s", right: 1310, decimals: 2 },
    }
}

fn field_of(board: &Board, i: usize) -> (x: Option<Double>)
    requires
        i < COLUMNS,
    ensures
        x == field(*board, i as int),
{
    match i {
        0 => board.chip_temperature_c,
        1 => board.board_temperature_c,
        2 => board.regulator_temperature_c,
        3 => board.input_voltage_v,
        4 => board.voltage_v,
        5 => board.current_a,
        6 => board.power_w,
        _ => history::terahashes(board.hashrate_hs),
    }
}

/// A cell of the table, or two dashes where there is no reading.
pub open spec fn cell_spec(x: Option<Double>, decimals: nat) -> Seq<char> {
    match x {
        Some(v) => wording::fixed_spec(v, decimals),
        None => "--"@,
    }
}

impl Column {
    fn format(&self, value: Option<Double>) -> (text: String)
        ensures
            text@ == cell_spec(value, self.decimals as nat),
    {
        match value {
            Some(v) => wording::fixed(v, self.decimals),
            None => "--".to_string(),
        }
    }
}

/// The table's headings.
#[verifier::opaque]
pub open spec fn heading_items(c: Canvas) -> Seq<Drawn> {
    let top = c.px(46);
    let label = c.label_style_spec();
    (seq![text_at(label, Align::Left, c.px(16), top, "BOARD"@)] + Seq::new(
        COLUMNS as nat,
        |i: int| text_at(label, Align::Right, c.px(right_edge(i)), top, heading(i)),
    )).push(text_at(label, Align::Right, c.px(SHARE_RIGHT as int), top, "SHARE"@))
}

fn headings(sheet: &mut Sheet, c: &Canvas)
    ensures
        final(sheet).shown() == old(sheet).shown() + heading_items(*c),
{
    proof {
        reveal(heading_items);
    }
    let ghost start = sheet.shown();
    let ghost want = heading_items(*c);
    let top: i128 = c.scaled(46);
    let label = c.label_style();
    sheet.text(label, Align::Left, c.scaled(16), top, "BOARD");
    let mut i: usize = 0;
    assert(sheet.shown() =~= start + want.take(1));
    while i < COLUMNS
        invariant
            i <= COLUMNS,
            top == c.px(46),
            label == c.label_style_spec(),
            want.len() == COLUMNS + 2,
            forall|k: int|
                0 <= k < COLUMNS ==> #[trigger] want[k + 1] == text_at(
                    label,
                    Align::Right,
                    c.px(right_edge(k)),
                    top as int,
                    heading(k),
                ),
            sheet.shown() == start + want.take(i + 1),
        decreases COLUMNS - i,
    {
        let col = column(i);
        assert(want[i + 1] == text_at(
            label,
            Align::Right,
            c.px(right_edge(i as int)),
            top as int,
            col.label@,
        ));
        sheet.text(label, Align::Right, c.scaled(col.right), top, col.label);
        assert(sheet.shown() =~= start + want.take(i + 2));
        i = i + 1;
    }
    sheet.text(label, Align::Right, c.scaled(SHARE_RIGHT), top, "SHARE");
    assert(sheet.shown() =~= start + want);
}

/// The share a board holds against its ceiling.
pub open spec fn board_share_spec(board: Board) -> Seq<char> {
    match (board.power_fraction, board.power_ceiling) {
        (Some(held), Some(ceiling)) => percent_spec(held) + "/"@ + percent_spec(ceiling) + "%"@,
        (Some(held), None) => percent_spec(held) + "%"@,
        _ => "--"@,
    }
}

fn board_share(board: &Board) -> (text: String)
    ensures
        text@ == board_share_spec(*board),
{
    let hundred = Double { bits: HUNDRED };
    match (board.power_fraction, board.power_ceiling) {
        (Some(held), Some(ceiling)) => {
            let mut text = wording::fixed(held.times(hundred), 0);
            text.append("/");
            wording::push_fixed(&mut text, ceiling.times(hundred), 0);
            text.append("%");
            text
        },
        (Some(held), None) => {
            let mut text = wording::fixed(held.times(hundred), 0);
            text.append("%");
            text
        },
        _ => "--".to_string(),
    }
}

/// A board's row with its top at `y`: the serial in its name, each
/// column, and the share it holds against its ceiling.
#[verifier::opaque]
pub open spec fn board_items(c: Canvas, board: Board, y: int) -> Seq<Drawn> {
    let value = c.style_spec(Face::Bold, 24, TEXT);
    (seq![
        text_at(
            value,
            Align::Left,
            c.px(16),
            y + c.px(6),
            wording::behind_last_spec(board.name@, '-'),
        ),
    ] + Seq::new(
        COLUMNS as nat,
        |i: int|
            text_at(
                value,
                Align::Right,
                c.px(right_edge(i)),
                y + c.px(6),
                cell_spec(field(board, i), decimals_of(i)),
            ),
    )).push(
        text_at(
            value,
            Align::Right,
            c.px(SHARE_RIGHT as int),
            y + c.px(6),
            board_share_spec(board),
        ),
    )
}

fn board_row(sheet: &mut Sheet, c: &Canvas, board: &Board, y: i128)
    requires
        -0x1_0000_0000_0000_0000_0000_0000_0000 <= y <= 0x1_0000_0000_0000_0000_0000_0000_0000,
    ensures
        final(sheet).shown() == old(sheet).shown() + board_items(*c, *board, y as int),
{
    proof {
        reveal(board_items);
    }
    let ghost start = sheet.shown();
    let ghost want = board_items(*c, *board, y as int);
    let value = c.style(Face::Bold, 24, TEXT);
    let at: i128 = y + c.scaled(6);
    let name = wording::behind_last(board.name.as_str(), '-');
    sheet.text(value, Align::Left, c.scaled(16), at, name.as_str());
    let mut i: usize = 0;
    assert(sheet.shown() =~= start + want.take(1));
    while i < COLUMNS
        invariant
            i <= COLUMNS,
            at == y + c.px(6),
            value == c.style_spec(Face::Bold, 24, TEXT),
            want.len() == COLUMNS + 2,
            forall|k: int|
                0 <= k < COLUMNS ==> #[trigger] want[k + 1] == text_at(
                    value,
                    Align::Right,
                    c.px(right_edge(k)),
                    at as int,
                    cell_spec(field(*board, k), decimals_of(k)),
                ),
            sheet.shown() == start + want.take(i + 1),
        decreases COLUMNS - i,
    {
        let col = column(i);
        let text = col.format(field_of(board, i));
        assert(want[i + 1] == text_at(
            value,
            Align::Right,
            c.px(right_edge(i as int)),
            at as int,
            text@,
        ));
        sheet.text(value, Align::Right, c.scaled(col.right), at, text.as_str());
        assert(sheet.shown() =~= start + want.take(i + 2));
        i = i + 1;
    }
    sheet.text(value, Align::Right, c.scaled(SHARE_RIGHT), at, board_share(board).as_str());
    assert(sheet.shown() =~= start + want);
}

/// Where row `n` of the table is.
pub open spec fn row_top(c: Canvas, n: int) -> int {
    c.px(46) + c.px(24) + n * c.px(36)
}

/// The rows of the first `n` boards.
pub open spec fn rows_of(c: Canvas, boards: Seq<Board>, n: int) -> Seq<Drawn>
    decreases n,
{
    if n <= 0 {
        Seq::<Drawn>::empty()
    } else {
        rows_of(c, boards, n - 1) + board_items(c, boards[n - 1], row_top(c, n - 1))
    }
}

/// A line across the table, above `y`.
pub open spec fn rule(c: Canvas, y: int) -> Drawn {
    Item::Fill {
        area: area_spec(c.px(16), y - c.px(4), c.width - 2 * c.px(16), c.px(1)),
        color: BORDER,
    }
}

fn draw_rule(sheet: &mut Sheet, c: &Canvas, y: i128)
    requires
        -0x1_0000_0000_0000_0000_0000_0000_0000 <= y <= 0x1_0000_0000_0000_0000_0000_0000_0000,
    ensures
        final(sheet).shown() == old(sheet).shown().push(rule(*c, y as int)),
{
    let x: i128 = c.scaled(16);
    sheet.fill(area_at(x, y - c.scaled(4), c.width as i128 - 2 * x, c.scaled(1)), BORDER);
}

/// What stands in for the rows where there are no boards.
pub open spec fn no_boards(online: bool) -> Seq<char> {
    if online {
        "the miner reports no boards"@
    } else {
        "miner offline"@
    }
}

/// The totals row: the hottest chip, the power, and the hash rate.
#[verifier::opaque]
pub open spec fn total_items(c: Canvas, miner: Miner, y: int) -> Seq<Drawn> {
    let total = c.style_spec(Face::Bold, 24, DIM);
    seq![
        text_at(total, Align::Left, c.px(16), y + c.px(6), "TOTAL"@),
        text_at(
            total,
            Align::Right,
            c.px(right_edge(0)),
            y + c.px(8),
            cell_spec(miner.chip_temperature_c, decimals_of(0)),
        ),
        text_at(
            total,
            Align::Right,
            c.px(right_edge(6)),
            y + c.px(8),
            cell_spec(miner.power_w, decimals_of(6)),
        ),
        text_at(
            total,
            Align::Right,
            c.px(right_edge(7)),
            y + c.px(8),
            cell_spec(history::terahashes_spec(miner.hashrate_hs), decimals_of(7)),
        ),
    ]
}

fn total_row(sheet: &mut Sheet, c: &Canvas, miner: &Miner, y: i128)
    requires
        -0x1_0000_0000_0000_0000_0000_0000_0000 <= y <= 0x1_0000_0000_0000_0000_0000_0000_0000,
    ensures
        final(sheet).shown() == old(sheet).shown() + total_items(*c, *miner, y as int),
{
    proof {
        reveal(total_items);
    }
    let total = c.style(Face::Bold, 24, DIM);
    sheet.text(total, Align::Left, c.scaled(16), y + c.scaled(6), "TOTAL");
    let at: i128 = y + c.scaled(8);
    let chip = column(0);
    sheet.text(
        total,
        Align::Right,
        c.scaled(chip.right),
        at,
        chip.format(miner.chip_temperature_c).as_str(),
    );
    let power = column(6);
    sheet.text(
        total,
        Align::Right,
        c.scaled(power.right),
        at,
        power.format(miner.power_w).as_str(),
    );
    let rate = column(7);
    sheet.text(
        total,
        Align::Right,
        c.scaled(rate.right),
        at,
        rate.format(history::terahashes(miner.hashrate_hs)).as_str(),
    );
    assert(sheet.shown() =~= old(sheet).shown() + total_items(*c, *miner, y as int));
}

// Under the table.
/// 1e9, as a double's bits: hashes in a gigahash.
pub const GIGA: u64 = 0x41cd_cd65_0000_0000;

/// Where line `n` under a table of `lines` rows is.
pub open spec fn detail_top(c: Canvas, lines: int, n: int) -> int {
    row_top(c, lines + 1) + n * c.px(18)
}

/// Where the right edge of chip `j` of the grid is.
pub open spec fn chip_right(c: Canvas, j: int) -> int {
    c.px(180) + j * c.px(56)
}

/// A chip in the grid: its rate in GH/s, red where it has reported
/// hardware errors.
pub open spec fn chip_item(c: Canvas, chip: Chip, j: int, y: int) -> Drawn {
    text_at(
        c.style_spec(
            Face::Medium,
            14,
            if chip.hardware_errors > 0 {
                ACCENT
            } else {
                TEXT
            },
        ),
        Align::Right,
        chip_right(c, j),
        y,
        cell_spec(
            match chip.hashrate_hs {
                Some(h) => Some(h.over(Double { bits: GIGA })),
                None => None,
            },
            0,
        ),
    )
}

/// A board's line of the grid: its serial, and its chips in chain order.
#[verifier::opaque]
pub open spec fn grid_items(c: Canvas, board: Board, y: int) -> Seq<Drawn> {
    seq![
        text_at(
            c.style_spec(Face::Medium, 14, DIM),
            Align::Left,
            c.px(16),
            y,
            wording::behind_last_spec(board.name@, '-'),
        ),
    ] + Seq::new(board.chips@.len(), |j: int| chip_item(c, board.chips@[j], j, y))
}

fn grid_line(sheet: &mut Sheet, c: &Canvas, board: &Board, y: i128)
    ensures
        final(sheet).shown() == old(sheet).shown() + grid_items(*c, *board, y as int),
{
    proof {
        reveal(grid_items);
    }
    let ghost start = sheet.shown();
    let ghost want = grid_items(*c, *board, y as int);
    let name = wording::behind_last(board.name.as_str(), '-');
    sheet.text(c.style(Face::Medium, 14, DIM), Align::Left, c.scaled(16), y, name.as_str());
    assert(sheet.shown() =~= start + want.take(1));
    let step: i128 = c.scaled(56);
    let mut j: usize = 0;
    while j < board.chips.len()
        invariant
            j <= board.chips@.len(),
            step == c.px(56),
            i32::MIN <= step <= i32::MAX,
            want.len() == board.chips@.len() + 1,
            forall|k: int|
                0 <= k < board.chips@.len() ==> #[trigger] want[k + 1] == chip_item(
                    *c,
                    board.chips@[k],
                    k,
                    y as int,
                ),
            sheet.shown() == start + want.take(j + 1),
        decreases board.chips@.len() - j,
    {
        let chip = &board.chips[j];
        let color = if chip.hardware_errors > 0 {
            ACCENT
        } else {
            TEXT
        };
        let rate = match chip.hashrate_hs {
            Some(h) => Some(h.over(Double { bits: GIGA })),
            None => None,
        };
        let text = match rate {
            Some(v) => wording::fixed(v, 0),
            None => "--".to_string(),
        };
        proof {
            lemma_line_in_reach(j as int, step as int);
            assert(want[j + 1] == chip_item(*c, board.chips@[j as int], j as int, y as int));
        }
        let right: i128 = c.scaled(180) + j as i128 * step;
        sheet.text(c.style(Face::Medium, 14, color), Align::Right, right, y, text.as_str());
        assert(sheet.shown() =~= start + want.take(j + 2));
        j = j + 1;
    }
    assert(want.take(j + 1) =~= want);
}

/// A count of lines of a pixel height is in reach.
proof fn lemma_line_in_reach(n: int, h: int)
    requires
        0 <= n <= 0x1_0000_0000_0000_0000,
        i32::MIN <= h <= i32::MAX,
    ensures
        -0x8000_0000 * 0x1_0000_0000_0000_0000 <= n * h <= 0x8000_0000 * 0x1_0000_0000_0000_0000,
{
    assert(-0x8000_0000 * 0x1_0000_0000_0000_0000 <= n * h <= 0x8000_0000
        * 0x1_0000_0000_0000_0000) by (nonlinear_arith)
        requires
            0 <= n <= 0x1_0000_0000_0000_0000,
            -0x8000_0000 <= h <= 0x8000_0000,
    ;
}

/// A count in words, or two dashes where there is none.
pub open spec fn count_spec(n: Option<u64>) -> Seq<char> {
    match n {
        Some(n) => wording::digits(n as nat),
        None => "--"@,
    }
}

fn push_count(text: &mut String, n: Option<u64>)
    ensures
        final(text)@ == old(text)@ + count_spec(n),
{
    match n {
        Some(n) => {
            wording::push_digits(text, n as u128);
        },
        None => {
            text.append("--");
        },
    }
}

/// The pool, its difficulty, the shares submitted, and the miner's
/// uptime in whole minutes.
pub open spec fn pool_text_spec(miner: Miner) -> Seq<char> {
    "pool "@ + match miner.pool {
        Some(pool) => pool@,
        None => "--"@,
    } + ", difficulty "@ + cell_spec(miner.difficulty, 0) + ", shares "@ + count_spec(
        miner.shares_submitted,
    ) + ", up "@ + count_spec(
        match miner.uptime_secs {
            Some(s) => Some((s / 60) as u64),
            None => None,
        },
    ) + " min"@
}

fn pool_text(miner: &Miner) -> (text: String)
    ensures
        text@ == pool_text_spec(*miner),
{
    let mut text = "pool ".to_string();
    match &miner.pool {
        Some(pool) => {
            text.append(pool.as_str());
        },
        None => {
            text.append("--");
        },
    }
    text.append(", difficulty ");
    match miner.difficulty {
        Some(d) => {
            wording::push_fixed(&mut text, d, 0);
        },
        None => {
            text.append("--");
        },
    }
    text.append(", shares ");
    push_count(&mut text, miner.shares_submitted);
    text.append(", up ");
    push_count(
        &mut text,
        match miner.uptime_secs {
            Some(s) => Some(s / 60),
            None => None,
        },
    );
    text.append(" min");
    text
}

/// A voltage, or two dashes where there is none.
pub open spec fn volts_spec(v: Option<Double>) -> Seq<char> {
    cell_spec(v, 3) + " V, "@
}

fn push_volts(text: &mut String, v: Option<Double>)
    ensures
        final(text)@ == old(text)@ + volts_spec(v),
{
    match v {
        Some(v) => {
            wording::push_fixed(text, v, 3);
        },
        None => {
            text.append("--");
        },
    }
    text.append(" V, ");
    assert(text@ =~= old(text)@ + volts_spec(v));
}

/// The first `n` probes with their raw volts.
pub open spec fn probe_volts(probes: Seq<Probe>, n: int) -> Seq<char>
    decreases n,
{
    if n <= 0 {
        Seq::<char>::empty()
    } else {
        probe_volts(probes, n - 1) + (probes[n - 1].name@ + " "@ + volts_spec(probes[n - 1].volts))
    }
}

/// The raw probe and supply volts, the mode, the request, and the fault.
pub open spec fn own_text_spec(state: State, fault: Option<Fault>) -> Seq<char> {
    probe_volts(state.probes@, state.probes@.len() as int) + "supply "@ + volts_spec(state.supply_v)
        + mode_spec(state.mode).0 + ", request "@ + match state.power_fraction {
        Some(f) => percent_spec(f) + "%"@,
        None => "--"@,
    } + match fault {
        Some(f) => ", "@ + status_spec(f),
        None => ", no fault"@,
    }
}

fn own_text(state: &State, fault: Option<Fault>) -> (text: String)
    ensures
        text@ == own_text_spec(*state, fault),
{
    let mut text = String::new();
    let mut i: usize = 0;
    assert(text@ =~= probe_volts(state.probes@, 0));
    while i < state.probes.len()
        invariant
            i <= state.probes@.len(),
            text@ == probe_volts(state.probes@, i as int),
        decreases state.probes@.len() - i,
    {
        let ghost before = text@;
        text.append(state.probes[i].name.as_str());
        text.append(" ");
        push_volts(&mut text, state.probes[i].volts);
        assert(text@ =~= before + (state.probes@[i as int].name@ + " "@ + volts_spec(
            state.probes@[i as int].volts,
        )));
        i = i + 1;
    }
    text.append("supply ");
    push_volts(&mut text, state.supply_v);
    text.append(mode_label(state.mode).0);
    text.append(", request ");
    match state.power_fraction {
        Some(f) => {
            wording::push_fixed(&mut text, f.times(Double { bits: HUNDRED }), 0);
            text.append("%");
        },
        None => {
            text.append("--");
        },
    }
    match fault {
        Some(f) => {
            text.append(", ");
            text.append(status(f));
        },
        None => {
            text.append(", no fault");
        },
    }
    assert(text@ =~= own_text_spec(*state, fault));
    text
}

/// The grid lines of the first `n` boards.
pub open spec fn grids_of(c: Canvas, boards: Seq<Board>, lines: int, n: int) -> Seq<Drawn>
    decreases n,
{
    if n <= 0 {
        Seq::<Drawn>::empty()
    } else {
        grids_of(c, boards, lines, n - 1) + grid_items(
            c,
            boards[n - 1],
            detail_top(c, lines, n - 1),
        )
    }
}

/// Under a table of `lines` rows: a grid of every chip's rate, the
/// miner's own line, and Coinbath's.
#[verifier::opaque]
pub open spec fn detail_items(c: Canvas, state: State, fault: Option<Fault>, lines: int) -> Seq<
    Drawn,
> {
    let n = state.miner.boards@.len() as int;
    let note = c.style_spec(Face::Medium, 14, DIM);
    grids_of(c, state.miner.boards@, lines, n) + seq![
        text_at(
            note,
            Align::Left,
            c.px(16),
            detail_top(c, lines, n),
            pool_text_spec(state.miner),
        ),
        text_at(
            note,
            Align::Left,
            c.px(16),
            detail_top(c, lines, n + 1),
            own_text_spec(state, fault),
        ),
    ]
}

fn detail_y(c: &Canvas, lines: usize, n: i128) -> (y: i128)
    requires
        0 <= n <= 0x1_0000_0000_0000_0000,
    ensures
        y == detail_top(*c, lines as int, n as int),
        -0x1_0000_0000_0000_0000_0000_0000_0000 <= y <= 0x1_0000_0000_0000_0000_0000_0000_0000,
{
    let h: i128 = c.scaled(18);
    let row: i128 = c.scaled(36);
    proof {
        lemma_line_in_reach(n as int, h as int);
        lemma_line_in_reach(lines + 1, row as int);
    }
    c.scaled(46) + c.scaled(24) + (lines as i128 + 1) * row + n * h
}

fn details(sheet: &mut Sheet, c: &Canvas, state: &State, fault: Option<Fault>, lines: usize)
    ensures
        final(sheet).shown() == old(sheet).shown() + detail_items(*c, *state, fault, lines as int),
{
    proof {
        reveal(detail_items);
    }
    let ghost start = sheet.shown();
    let n = state.miner.boards.len();
    let mut i: usize = 0;
    assert(sheet.shown() =~= start + grids_of(*c, state.miner.boards@, lines as int, 0));
    while i < n
        invariant
            i <= n == state.miner.boards@.len(),
            sheet.shown() == start + grids_of(*c, state.miner.boards@, lines as int, i as int),
        decreases n - i,
    {
        grid_line(sheet, c, &state.miner.boards[i], detail_y(c, lines, i as i128));
        assert(sheet.shown() =~= start + grids_of(*c, state.miner.boards@, lines as int, i + 1));
        i = i + 1;
    }
    let note = c.style(Face::Medium, 14, DIM);
    sheet.text(
        note,
        Align::Left,
        c.scaled(16),
        detail_y(c, lines, n as i128),
        pool_text(&state.miner).as_str(),
    );
    sheet.text(
        note,
        Align::Left,
        c.scaled(16),
        detail_y(c, lines, n as i128 + 1),
        own_text(state, fault).as_str(),
    );
    assert(sheet.shown() =~= start + detail_items(*c, *state, fault, lines as int));
}

/// A chip is red in the grid just when it has reported hardware errors.
pub proof fn lemma_a_chip_with_errors_is_red(c: Canvas, chip: Chip, j: int, y: int)
    ensures
        match chip_item(c, chip, j, y) {
            Item::Text { style, .. } => (style.color == ACCENT) == (chip.hardware_errors > 0),
            _ => false,
        },
{
    assert(ACCENT[0] != TEXT[0]);
}

/// The boards page under its header: one row per board with the chain's
/// electricals, a totals row, and the details under them.
#[verifier::opaque]
pub open spec fn boards_items(c: Canvas, state: State, fault: Option<Fault>) -> Seq<Drawn> {
    let miner = state.miner;
    let n = miner.boards@.len() as int;
    let lines = if n == 0 {
        1
    } else {
        n
    };
    heading_items(c).push(rule(c, row_top(c, 0))) + (if n == 0 {
        seq![
            text_at(
                c.style_spec(Face::Medium, 24, DIM),
                Align::Left,
                c.px(16),
                row_top(c, 0) + c.px(6),
                no_boards(miner.online),
            ),
        ]
    } else {
        rows_of(c, miner.boards@, n)
    }).push(rule(c, row_top(c, lines))) + total_items(c, miner, row_top(c, lines)) + detail_items(
        c,
        state,
        fault,
        lines,
    )
}

/// The table's row `n`, and that it is in reach.
fn row_y(c: &Canvas, n: usize) -> (y: i128)
    ensures
        y == row_top(*c, n as int),
        -0x1_0000_0000_0000_0000_0000_0000_0000 <= y <= 0x1_0000_0000_0000_0000_0000_0000_0000,
{
    let h: i128 = c.scaled(36);
    proof {
        lemma_line_in_reach(n as int, h as int);
    }
    c.scaled(46) + c.scaled(24) + n as i128 * h
}

fn boards_page(sheet: &mut Sheet, c: &Canvas, state: &State, fault: Option<Fault>)
    ensures
        final(sheet).shown() == old(sheet).shown() + boards_items(*c, *state, fault),
{
    let miner = &state.miner;
    proof {
        reveal(boards_items);
    }
    let ghost start = sheet.shown();
    headings(sheet, c);
    draw_rule(sheet, c, row_y(c, 0));
    let ghost head = heading_items(*c).push(rule(*c, row_top(*c, 0)));
    assert(sheet.shown() =~= start + head);
    let n = miner.boards.len();
    let mut lines: usize = n;
    let ghost mut body: Seq<Drawn> = Seq::empty();
    if n == 0 {
        let message = if miner.online {
            "the miner reports no boards"
        } else {
            "miner offline"
        };
        sheet.text(
            c.style(Face::Medium, 24, DIM),
            Align::Left,
            c.scaled(16),
            row_y(c, 0) + c.scaled(6),
            message,
        );
        lines = 1;
        proof {
            body =
            seq![
                text_at(
                    c.style_spec(Face::Medium, 24, DIM),
                    Align::Left,
                    c.px(16),
                    row_top(*c, 0) + c.px(6),
                    no_boards(miner.online),
                ),
            ];
            assert(sheet.shown() =~= start + head + body);
        }
    } else {
        let mut i: usize = 0;
        assert(sheet.shown() =~= start + head + rows_of(*c, miner.boards@, 0));
        while i < n
            invariant
                i <= n == miner.boards@.len(),
                sheet.shown() == start + head + rows_of(*c, miner.boards@, i as int),
            decreases n - i,
        {
            board_row(sheet, c, &miner.boards[i], row_y(c, i));
            assert(sheet.shown() =~= start + head + rows_of(*c, miner.boards@, i + 1));
            i = i + 1;
        }
        proof {
            body = rows_of(*c, miner.boards@, n as int);
        }
    }
    let y = row_y(c, lines);
    draw_rule(sheet, c, y);
    assert(sheet.shown() =~= start + head + body.push(rule(*c, y as int)));
    total_row(sheet, c, miner, y);
    details(sheet, c, state, fault, lines);
    assert(sheet.shown() =~= start + boards_items(*c, *state, fault));
}

// The pages.
/// What the page button says on a page.
pub open spec fn page_label_spec(page: Page) -> Seq<char> {
    match page {
        Page::Main => "details \u{203A}"@,
        Page::Boards => "\u{2039} back"@,
    }
}

/// A page over the whole frame.
pub open spec fn page_items(
    c: Canvas,
    badger_width: int,
    limits: Limits,
    page: Page,
    state: State,
    h: Histories,
    mode_width: int,
) -> Seq<Drawn> {
    seq![
        Item::Fill { area: Area { x: 0, y: 0, width: c.width, height: c.height }, color: BACKGROUND },
    ] + header_items(
        c,
        badger_width,
        state.mode,
        mode_width,
        control::fault_spec(state, limits),
        page_label_spec(page),
    ) + match page {
        Page::Main => main_items(c, state, h),
        Page::Boards => boards_items(c, state, control::fault_spec(state, limits)),
    }
}

/// A page's buttons: the page button, and on the main page the
/// setpoint's two.
pub open spec fn page_buttons(c: Canvas, page: Page) -> Seq<Button> {
    let first = Button { area: page_button(c), action: Action::TogglePage };
    match page {
        Page::Main => seq![
            first,
            Button { area: setpoint_button(c, false), action: Action::SetpointDown },
            Button { area: setpoint_button(c, true), action: Action::SetpointUp },
        ],
        Page::Boards => seq![first],
    }
}

/// The image and the limits the screens are laid out with.
#[derive(Debug, Clone, PartialEq)]
pub struct Screen {
    pub badger: Image,
    pub limits: Limits,
}

impl Screen {
    /// The screens with their badger.
    pub fn new(limits: Limits, badger: Image) -> (s: Self)
        ensures
            s.limits == limits,
            s.badger == badger,
    {
        Screen { badger, limits }
    }

    /// Lays `page` out over the whole frame and returns what to draw
    /// and its buttons. `mode_width` is the width of the mode's name in
    /// the label style.
    pub fn render(
        &self,
        size: Size,
        page: Page,
        state: &State,
        histories: &Histories,
        mode_width: i32,
    ) -> (r: (Sheet, Vec<Button>))
        requires
            size.fits(),
        ensures
            r.0.shown() == page_items(
                Canvas::of(size),
                image::width_spec(
                    self.badger.width,
                    self.badger.height,
                    Canvas::of(size).rows_spec(32),
                ),
                self.limits,
                page,
                *state,
                *histories,
                mode_width as int,
            ),
            r.1@ == page_buttons(Canvas::of(size), page),
    {
        let c = Canvas::new(size);
        let mut sheet = Sheet { items: Vec::new() };
        sheet.fill(Area { x: 0, y: 0, width: c.width, height: c.height }, BACKGROUND);
        let ghost ground = sheet.shown();
        assert(ground =~= seq![
            Item::Fill {
                area: Area { x: 0, y: 0, width: c.width, height: c.height },
                color: BACKGROUND,
            },
        ]);
        let label = match page {
            Page::Main => "details \u{203A}",
            Page::Boards => "\u{2039} back",
        };
        let mut buttons: Vec<Button> = Vec::new();
        let first = header(
            &mut sheet,
            &c,
            &self.badger,
            state,
            &self.limits,
            mode_width,
            label,
        );
        buttons.push(first);
        match page {
            Page::Main => {
                let (down, up) = main_page(&mut sheet, &c, state, histories);
                buttons.push(Button { area: down, action: Action::SetpointDown });
                buttons.push(Button { area: up, action: Action::SetpointUp });
            },
            Page::Boards => {
                boards_page(&mut sheet, &c, state, control::fault(state, &self.limits));
            },
        }
        assert(buttons@ =~= page_buttons(c, page));
        (sheet, buttons)
    }
}

// What the words say.
/// The share bar names heat just where the miner reports a ceiling under
/// full power; before that it says the share asked, where one is, and
/// the share held, or that it is unknown.
pub proof fn lemma_heat_is_named_under_a_lower_ceiling(asked: Option<Double>, miner: Miner)
    ensures
        ({
            let text = share_text_spec(asked, miner);
            let hundred = Double { bits: 0x4059_0000_0000_0000 };
            let low = miner.power_ceiling is Some && !miner.power_ceiling->0.is_nan()
                && miner.power_ceiling->0.rank() < 0x3ff0_0000_0000_0000;
            let end = if low {
                ", capped by heat"@
            } else {
                Seq::<char>::empty()
            };
            &&& miner.power_fraction is None ==> text == "share unknown"@ + end
            &&& miner.power_fraction matches Some(held) ==> {
                let held_text = wording::fixed_spec(held.times(hundred), 0) + "% held"@;
                &&& asked is None ==> text == held_text + end
                &&& asked matches Some(a) ==> text == wording::fixed_spec(a.times(hundred), 0)
                    + "% asked, "@ + held_text + end
            }
        }),
{
    let hundred = Double { bits: 0x4059_0000_0000_0000 };
    let text = share_text_spec(asked, miner);
    if let Some(held) = miner.power_fraction {
        let h = wording::fixed_spec(held.times(hundred), 0);
        assert(h + "% held"@ + Seq::<char>::empty() =~= h + "% held"@);
        if let Some(a) = asked {
            let first = wording::fixed_spec(a.times(hundred), 0) + "% asked, "@;
            assert(first + (h + "% held"@) =~= first + h + "% held"@);
            assert(first + (h + "% held"@) + Seq::<char>::empty() =~= first + h + "% held"@);
        }
    } else {
        assert("share unknown"@ + Seq::<char>::empty() =~= "share unknown"@);
    }
}

/// A tap is the first button's that it is on.
pub proof fn lemma_a_tap_is_the_first_buttons(buttons: Seq<Button>, x: i32, y: i32, i: int, from: int)
    requires
        0 <= from <= i < buttons.len(),
        buttons[i].area.x <= x < buttons[i].area.x + buttons[i].area.width,
        buttons[i].area.y <= y < buttons[i].area.y + buttons[i].area.height,
        forall|j: int|
            from <= j < i ==> !{
                let a = (#[trigger] buttons[j]).area;
                a.x <= x < a.x + a.width && a.y <= y < a.y + a.height
            },
    ensures
        hit_from(buttons, x, y, from) == Some(buttons[i].action),
    decreases i - from,
{
    if from < i {
        assert(!buttons[from].area.contains(x, y));
        lemma_a_tap_is_the_first_buttons(buttons, x, y, i, from + 1);
    }
}

/// A setpoint button asks for five ninths of a degree Celsius more, or
/// less: never for less when it is up, nor for more when it is down.
pub proof fn lemma_a_button_moves_the_setpoint(setpoint_c: Double)
    requires
        setpoint_c.is_finite(),
    ensures
        nudged(setpoint_c, true) == setpoint_c.plus(Double { bits: 0x3fe1_c71c_71c7_1c72 }),
        nudged(setpoint_c, false) == setpoint_c.minus(Double { bits: 0x3fe1_c71c_71c7_1c72 }),
        setpoint_c.at_most(nudged(setpoint_c, true)),
        nudged(setpoint_c, false).at_most(setpoint_c),
{
    let zero = Double { bits: 0 };
    let step = Double { bits: SETPOINT_STEP_C };
    crate::ieee::lemma_units_zero(crate::rounding::binary64());
    order::lemma_plus_rank(setpoint_c, zero);
    order::lemma_nearest_rank_of_units(setpoint_c);
    order::lemma_negated(step);
    order::lemma_plus_keeps_order(zero, step, setpoint_c);
    order::lemma_plus_keeps_order(step.negated(), zero, setpoint_c);
}

/// Every five degrees Celsius are nine Fahrenheit, and zero is 32.
pub proof fn lemma_five_degrees_are_nine(celsius: Double, k: int)
    requires
        order::is_whole(celsius, 5 * k),
        -0x100_0000_0000 < k < 0x100_0000_0000,
    ensures
        order::is_whole(in_fahrenheit_spec(celsius), 9 * k + 32),
{
    let (nine, five, more) = (
        Double { bits: NINE },
        Double { bits: FIVE },
        Double { bits: THIRTY_TWO },
    );
    lemma2_to64();
    lemma2_to64_rest();
    order::lemma_constant_is_whole(NINE, 0x402, 0x2_0000_0000_0000, 9, 49);
    order::lemma_constant_is_whole(FIVE, 0x401, 0x4_0000_0000_0000, 5, 50);
    order::lemma_constant_is_whole(THIRTY_TWO, 0x404, 0, 32, 47);
    order::lemma_wholes_compute(celsius, nine, 5 * k, 9);
    let scaled = celsius.times(nine);
    assert((45 * k) % 5 == 0 && (45 * k) / 5 == 9 * k);
    order::lemma_wholes_compute(scaled, five, 45 * k, 5);
    order::lemma_wholes_compute(scaled.over(five), more, 9 * k, 32);
}

/// What is warmer in Celsius is no colder in Fahrenheit.
pub proof fn lemma_fahrenheit_keeps_order(x: Double, y: Double)
    requires
        x.is_finite(),
        y.is_finite(),
        x.at_most(y),
    ensures
        in_fahrenheit_spec(x).at_most(in_fahrenheit_spec(y)),
{
    let (nine, five, more) = (
        Double { bits: NINE },
        Double { bits: FIVE },
        Double { bits: THIRTY_TWO },
    );
    order::lemma_times_keeps_order(x, y, nine);
    order::lemma_over_keeps_order(x.times(nine), y.times(nine), five);
    order::lemma_plus_keeps_order(x.times(nine).over(five), y.times(nine).over(five), more);
}

/// The bar of a share is never longer than the whole, nor shorter for
/// more: nothing for none, and all of it for full power.
pub proof fn lemma_a_bar_is_as_long_as_its_share(width: int, less: Double, more: Double)
    requires
        0 <= width <= i32::MAX,
        less.at_most(more),
    ensures
        0 <= share_of(width, less) <= share_of(width, more) <= width,
        less.at_most(Double { bits: 0 }) ==> share_of(width, less) == 0,
        (Double { bits: 0x3ff0_0000_0000_0000 }).at_most(more) ==> share_of(width, more) == width,
{
    let (zero, one) = (Double { bits: 0 }, Double { bits: ONE });
    let (low, high) = (i32::MIN as int, i32::MAX as int);
    let whole = Double::of_spec(width);
    order::lemma_of_is_exact(width);
    order::lemma_times_one(whole);
    let (a, b) = (less.held_to(zero, one), more.held_to(zero, one));
    order::lemma_times_keeps_order(zero, a, whole);
    order::lemma_times_keeps_order(a, b, whole);
    order::lemma_times_keeps_order(b, one, whole);
    order::lemma_truncated_keeps_order(whole.times(zero), whole.times(a), low, high);
    order::lemma_truncated_keeps_order(whole.times(a), whole.times(b), low, high);
    order::lemma_truncated_keeps_order(whole.times(b), whole.times(one), low, high);
    crate::ieee::lemma_units_zero(crate::rounding::binary64());
    assert(order::is_whole(zero, 0));
    order::lemma_wholes_compute(whole, zero, width, 0);
    order::lemma_whole_is_not_cut(whole.times(zero), 0, low, high);
    order::lemma_units_order(whole, whole.times(one));
    order::lemma_units_order(whole.times(one), whole);
    order::lemma_whole_is_not_cut(whole.times(one), width, low, high);
    if less.at_most(zero) {
        order::lemma_times_keeps_order(a, zero, whole);
        order::lemma_truncated_keeps_order(whole.times(a), whole.times(zero), low, high);
    }
    if one.at_most(more) {
        order::lemma_times_keeps_order(one, b, whole);
        order::lemma_truncated_keeps_order(whole.times(one), whole.times(b), low, high);
    }
}

/// A sparkline's marker stands at the latest reading that is there.
pub proof fn lemma_the_marker_is_the_latest_reading(samples: Seq<Option<Double>>, x: Double)
    ensures
        last_known_spec(samples) == Some(x) <==> exists|i: int|
            0 <= i < samples.len() && #[trigger] samples[i] == Some(x) && (forall|j: int|
                i < j < samples.len() ==> #[trigger] samples[j] is None),
        last_known_spec(samples) is None <==> (forall|j: int|
            0 <= j < samples.len() ==> #[trigger] samples[j] is None),
    decreases samples.len(),
{
    if samples.len() > 0 {
        let before = samples.drop_last();
        let n = samples.len() - 1;
        lemma_the_marker_is_the_latest_reading(before, x);
        if samples[n] is Some {
            if exists|i: int|
                0 <= i < samples.len() && #[trigger] samples[i] == Some(x) && (forall|j: int|
                    i < j < samples.len() ==> #[trigger] samples[j] is None) {
                let i = choose|i: int|
                    0 <= i < samples.len() && #[trigger] samples[i] == Some(x) && (forall|j: int|
                        i < j < samples.len() ==> #[trigger] samples[j] is None);
                assert(i == n);
            }
            if last_known_spec(samples) == Some(x) {
                assert(samples[n] == Some(x));
            }
        } else {
            assert forall|j: int| 0 <= j < n implies before[j] == samples[j] by {}
            if last_known_spec(before) == Some(x) {
                let i = choose|i: int|
                    0 <= i < before.len() && #[trigger] before[i] == Some(x) && (forall|j: int|
                        i < j < before.len() ==> #[trigger] before[j] is None);
                assert(samples[i] == Some(x));
                assert forall|j: int| i < j < samples.len() implies #[trigger] samples[j] is None by {
                    if j < n {
                        assert(before[j] is None);
                    }
                }
            }
            if exists|i: int|
                0 <= i < samples.len() && #[trigger] samples[i] == Some(x) && (forall|j: int|
                    i < j < samples.len() ==> #[trigger] samples[j] is None) {
                let i = choose|i: int|
                    0 <= i < samples.len() && #[trigger] samples[i] == Some(x) && (forall|j: int|
                        i < j < samples.len() ==> #[trigger] samples[j] is None);
                assert(before[i] == Some(x));
                assert forall|j: int| i < j < before.len() implies #[trigger] before[j] is None by {
                    assert(samples[j] is None);
                }
            }
            if last_known_spec(samples) is None {
                assert forall|j: int| 0 <= j < samples.len() implies #[trigger] samples[j] is None by {
                    if j < n {
                        assert(before[j] is None);
                    }
                }
            }
            if forall|j: int| 0 <= j < samples.len() ==> #[trigger] samples[j] is None {
                assert forall|j: int| 0 <= j < before.len() implies #[trigger] before[j] is None by {
                    assert(samples[j] is None);
                }
            }
        }
    }
}

// What a page shows.
/// The words of an item, if it is text.
pub open spec fn words(item: Drawn) -> Option<Seq<char>> {
    match item {
        Item::Text { text, .. } => Some(text),
        _ => None,
    }
}

/// Whether words stand somewhere among the items.
#[verifier::opaque]
pub open spec fn shows(items: Seq<Drawn>, text: Seq<char>) -> bool {
    exists|i: int| 0 <= i < items.len() && words(#[trigger] items[i]) == Some(text)
}

/// Whether words stand somewhere right behind a label.
#[verifier::opaque]
pub open spec fn shows_behind(items: Seq<Drawn>, label: Seq<char>, text: Seq<char>) -> bool {
    exists|i: int|
        0 <= i < items.len() - 1 && words(#[trigger] items[i]) == Some(label) && words(
            items[i + 1],
        ) == Some(text)
}

/// What a part shows, the whole does.
#[verifier::rlimit(50)]
proof fn lemma_shown_in_parts(a: Seq<Drawn>, b: Seq<Drawn>, label: Seq<char>, text: Seq<char>)
    ensures
        shows(a, text) || shows(b, text) ==> shows(a + b, text),
        shows_behind(a, label, text) || shows_behind(b, label, text) ==> shows_behind(
            a + b,
            label,
            text,
        ),
{
    reveal(shows);
    reveal(shows_behind);
    let all = a + b;
    if shows(a, text) {
        let i = choose|i: int| 0 <= i < a.len() && words(#[trigger] a[i]) == Some(text);
        assert(all[i] == a[i]);
    }
    if shows(b, text) {
        let i = choose|i: int| 0 <= i < b.len() && words(#[trigger] b[i]) == Some(text);
        assert(all[a.len() + i] == b[i]);
    }
    if shows_behind(a, label, text) {
        let i = choose|i: int|
            0 <= i < a.len() - 1 && words(#[trigger] a[i]) == Some(label) && words(a[i + 1])
                == Some(text);
        assert(all[i] == a[i] && all[i + 1] == a[i + 1]);
    }
    if shows_behind(b, label, text) {
        let i = choose|i: int|
            0 <= i < b.len() - 1 && words(#[trigger] b[i]) == Some(label) && words(b[i + 1])
                == Some(text);
        assert(all[a.len() + i] == b[i] && all[a.len() + i + 1] == b[i + 1]);
    }
}

/// A temperature's column shows it behind its name, in Fahrenheit and
/// then in Celsius, or two dashes where there is none.
proof fn lemma_a_temperature_is_shown(
    c: Canvas,
    i: int,
    name: Seq<char>,
    reading: Option<Double>,
    line: Line,
    samples: Seq<Option<Double>>,
    span: Double,
    reference: Option<Double>,
)
    ensures
        ({
            let items = temperature_items(c, i, name, reading, line, samples, span, reference);
            &&& reading is None ==> shows_behind(items, name, "--"@)
            &&& reading matches Some(t) ==> {
                let f = wording::fixed_spec(in_fahrenheit_spec(t), 1) + "\u{00B0}F"@;
                &&& shows_behind(items, name, f)
                &&& shows_behind(items, f, wording::fixed_spec(t, 1) + " \u{00B0}C"@)
            }
        }),
{
    reveal(temperature_items);
    reveal(shows_behind);
    let items = temperature_items(c, i, name, reading, line, samples, span, reference);
    assert(words(items[0]) == Some(name));
    if let Some(t) = reading {
        let f = wording::fixed_spec(in_fahrenheit_spec(t), 1) + "\u{00B0}F"@;
        assert(words(items[0int + 1]) == Some(f));
        assert(words(items[1]) == Some(f));
        assert(words(items[1int + 1]) == Some(wording::fixed_spec(t, 1) + " \u{00B0}C"@));
    } else {
        assert(words(items[0int + 1]) == Some("--"@));
    }
}

/// A figure of the miner is shown behind its name.
proof fn lemma_a_figure_is_shown(
    c: Canvas,
    x: int,
    name: Seq<char>,
    value: Seq<char>,
    line: Line,
    samples: Seq<Option<Double>>,
    span: Double,
    min_span: u64,
    unit: Unit,
)
    ensures
        shows_behind(
            figure_items(c, x, name, value, line, samples, span, min_span, unit),
            name,
            value,
        ),
{
    reveal(figure_items);
    reveal(shows_behind);
    let items = figure_items(c, x, name, value, line, samples, span, min_span, unit);
    assert(words(items[0]) == Some(name));
    assert(words(items[0int + 1]) == Some(value));
}

/// The setpoint is shown behind its name, in both units.
proof fn lemma_the_setpoint_is_shown(c: Canvas, setpoint_c: Double)
    ensures
        ({
            let items = setpoint_items(c, setpoint_c);
            let set = wording::fixed_spec(in_fahrenheit_spec(setpoint_c), 0) + "\u{00B0}F"@;
            &&& shows_behind(items, "SETPOINT"@, set)
            &&& shows_behind(items, set, wording::fixed_spec(setpoint_c, 1) + " \u{00B0}C"@)
        }),
{
    reveal(setpoint_items);
    reveal(shows_behind);
    let items = setpoint_items(c, setpoint_c);
    let set = wording::fixed_spec(in_fahrenheit_spec(setpoint_c), 0) + "\u{00B0}F"@;
    assert(words(items[0]) == Some("SETPOINT"@));
    assert(words(items[0int + 1]) == Some(set));
    assert(words(items[1]) == Some(set));
    assert(words(items[1int + 1]) == Some(wording::fixed_spec(setpoint_c, 1) + " \u{00B0}C"@));
}

/// The shares are shown, and the hottest chip behind them.
proof fn lemma_the_share_is_shown(c: Canvas, asked: Option<Double>, miner: Miner)
    ensures
        shows_behind(
            share_items(c, asked, miner),
            share_text_spec(asked, miner),
            match miner.chip_temperature_c {
                Some(t) => "chip "@ + (wording::fixed_spec(t, 0) + " \u{00B0}C"@),
                None => "chip --"@,
            },
        ),
{
    reveal(share_items);
    reveal(shows_behind);
    let items = share_items(c, asked, miner);
    let n = items.len();
    assert(words(items[n - 2]) == Some(share_text_spec(asked, miner)));
    assert(words(items[n - 2 + 1]) is Some);
}

/// What a part of a page shows behind a label, the page does.
proof fn lemma_shown_in_all(
    p0: Seq<Drawn>,
    p1: Seq<Drawn>,
    p2: Seq<Drawn>,
    p3: Seq<Drawn>,
    p4: Seq<Drawn>,
    p5: Seq<Drawn>,
    p6: Seq<Drawn>,
    label: Seq<char>,
    text: Seq<char>,
)
    requires
        shows_behind(p0, label, text) || shows_behind(p1, label, text) || shows_behind(
            p2,
            label,
            text,
        ) || shows_behind(p3, label, text) || shows_behind(p4, label, text) || shows_behind(
            p5,
            label,
            text,
        ) || shows_behind(p6, label, text),
    ensures
        shows_behind(p0 + p1 + p2 + p3 + p4 + p5 + p6, label, text),
        shows(p0 + p1 + p2 + p3 + p4 + p5 + p6, text),
{
    let s1 = p0 + p1;
    let s2 = s1 + p2;
    let s3 = s2 + p3;
    let s4 = s3 + p4;
    let s5 = s4 + p5;
    lemma_shown_in_parts(p0, p1, label, text);
    lemma_shown_in_parts(s1, p2, label, text);
    lemma_shown_in_parts(s2, p3, label, text);
    lemma_shown_in_parts(s3, p4, label, text);
    lemma_shown_in_parts(s4, p5, label, text);
    lemma_shown_in_parts(s5, p6, label, text);
    lemma_shown_behind_is_shown(s5 + p6, label, text);
}

proof fn lemma_shown_behind_is_shown(items: Seq<Drawn>, label: Seq<char>, text: Seq<char>)
    requires
        shows_behind(items, label, text),
    ensures
        shows(items, text),
{
    reveal(shows);
    reveal(shows_behind);
    let i = choose|i: int|
        0 <= i < items.len() - 1 && words(#[trigger] items[i]) == Some(label) && words(
            items[i + 1],
        ) == Some(text);
    assert(words(items[i + 1]) == Some(text));
}

/// The main page shows the setpoint behind its name in Fahrenheit, then
/// in Celsius; the bath, the inlet and the outlet as they are read; the
/// hash rate in terahashes and the power in watts; the shares; and the
/// hottest chip. What is not read is two dashes.
#[verifier::rlimit(50)]
pub proof fn lemma_the_main_page_shows_the_readings(c: Canvas, state: State, h: Histories)
    ensures
        ({
            let items = main_items(c, state, h);
            let miner = state.miner;
            let set = wording::fixed_spec(in_fahrenheit_spec(state.setpoint_c), 0)
                + "\u{00B0}F"@;
            &&& shows_behind(items, "SETPOINT"@, set)
            &&& shows_behind(items, set, wording::fixed_spec(state.setpoint_c, 1) + " \u{00B0}C"@)
            &&& shows_behind(
                items,
                "BATH"@,
                match state::reading_of(state.probes@, "bath"@) {
                    Some(t) => wording::fixed_spec(in_fahrenheit_spec(t), 1) + "\u{00B0}F"@,
                    None => "--"@,
                },
            )
            &&& shows_behind(
                items,
                "INLET"@,
                match state::reading_of(state.probes@, "inlet"@) {
                    Some(t) => wording::fixed_spec(in_fahrenheit_spec(t), 1) + "\u{00B0}F"@,
                    None => "--"@,
                },
            )
            &&& shows_behind(
                items,
                "OUTLET"@,
                match state::reading_of(state.probes@, "outlet"@) {
                    Some(t) => wording::fixed_spec(in_fahrenheit_spec(t), 1) + "\u{00B0}F"@,
                    None => "--"@,
                },
            )
            &&& state::reading_of(state.probes@, "bath"@) matches Some(t) ==> shows(
                items,
                wording::fixed_spec(t, 1) + " \u{00B0}C"@,
            )
            &&& state::reading_of(state.probes@, "inlet"@) matches Some(t) ==> shows(
                items,
                wording::fixed_spec(t, 1) + " \u{00B0}C"@,
            )
            &&& state::reading_of(state.probes@, "outlet"@) matches Some(t) ==> shows(
                items,
                wording::fixed_spec(t, 1) + " \u{00B0}C"@,
            )
            &&& shows_behind(
                items,
                "HASHRATE"@,
                match miner.hashrate_hs {
                    Some(hs) => wording::fixed_spec(
                        hs.over(Double { bits: 0x426d_1a94_a200_0000 }),
                        1,
                    ) + " TH/s"@,
                    None => "--"@,
                },
            )
            &&& shows_behind(
                items,
                "POWER"@,
                match miner.power_w {
                    Some(w) => wording::fixed_spec(w, 0) + " W"@,
                    None => "--"@,
                },
            )
            &&& shows_behind(
                items,
                share_text_spec(state.power_fraction, miner),
                match miner.chip_temperature_c {
                    Some(t) => "chip "@ + (wording::fixed_spec(t, 0) + " \u{00B0}C"@),
                    None => "chip --"@,
                },
            )
        }),
{
    reveal(main_items);
    let x = miner_left(c);
    let miner = state.miner;
    let (bath, inlet, outlet) = (
        control::bath_reading_spec(state),
        state::reading_of(state.probes@, "inlet"@),
        state::reading_of(state.probes@, "outlet"@),
    );
    let p0 = setpoint_items(c, state.setpoint_c);
    let p1 = temperature_items(
        c,
        0,
        "BATH"@,
        bath,
        Line::Bath,
        h.bath@,
        h.bath.span_spec(),
        Some(state.setpoint_c),
    );
    let p2 = temperature_items(
        c,
        1,
        "INLET"@,
        inlet,
        Line::Inlet,
        h.inlet@,
        h.inlet.span_spec(),
        None,
    );
    let p3 = temperature_items(
        c,
        2,
        "OUTLET"@,
        outlet,
        Line::Outlet,
        h.outlet@,
        h.outlet.span_spec(),
        None,
    );
    let rate = reading_spec(history::terahashes_spec(miner.hashrate_hs), 1, " TH/s"@);
    let power = reading_spec(miner.power_w, 0, " W"@);
    let p4 = figure_items(
        c,
        x,
        "HASHRATE"@,
        rate,
        Line::Hashrate,
        h.hashrate_ths@,
        h.hashrate_ths.span_spec(),
        HASHRATE_SPAN_THS,
        Unit::Tenths,
    );
    let p5 = figure_items(
        c,
        x + miner_half(c) + c.px(20),
        "POWER"@,
        power,
        Line::Power,
        h.power_w@,
        h.power_w.span_spec(),
        POWER_SPAN_W,
        Unit::Whole,
    );
    let p6 = share_items(c, state.power_fraction, miner);
    assert(main_items(c, state, h) == p0 + p1 + p2 + p3 + p4 + p5 + p6);
    let set = wording::fixed_spec(in_fahrenheit_spec(state.setpoint_c), 0) + "\u{00B0}F"@;
    let set_c = wording::fixed_spec(state.setpoint_c, 1) + " \u{00B0}C"@;
    lemma_the_setpoint_is_shown(c, state.setpoint_c);
    let chip = match miner.chip_temperature_c {
        Some(t) => "chip "@ + (wording::fixed_spec(t, 0) + " \u{00B0}C"@),
        None => "chip --"@,
    };
    let share = share_text_spec(state.power_fraction, miner);
    lemma_the_share_is_shown(c, state.power_fraction, miner);
    lemma_a_temperature_is_shown(
        c,
        0,
        "BATH"@,
        bath,
        Line::Bath,
        h.bath@,
        h.bath.span_spec(),
        Some(state.setpoint_c),
    );
    lemma_a_temperature_is_shown(
        c,
        1,
        "INLET"@,
        inlet,
        Line::Inlet,
        h.inlet@,
        h.inlet.span_spec(),
        None,
    );
    lemma_a_temperature_is_shown(
        c,
        2,
        "OUTLET"@,
        outlet,
        Line::Outlet,
        h.outlet@,
        h.outlet.span_spec(),
        None,
    );
    lemma_a_figure_is_shown(
        c,
        x,
        "HASHRATE"@,
        rate,
        Line::Hashrate,
        h.hashrate_ths@,
        h.hashrate_ths.span_spec(),
        HASHRATE_SPAN_THS,
        Unit::Tenths,
    );
    lemma_a_figure_is_shown(
        c,
        x + miner_half(c) + c.px(20),
        "POWER"@,
        power,
        Line::Power,
        h.power_w@,
        h.power_w.span_spec(),
        POWER_SPAN_W,
        Unit::Whole,
    );
    lemma_shown_in_all(p0, p1, p2, p3, p4, p5, p6, "SETPOINT"@, set);
    lemma_shown_in_all(p0, p1, p2, p3, p4, p5, p6, set, set_c);
    lemma_shown_in_all(p0, p1, p2, p3, p4, p5, p6, "HASHRATE"@, rate);
    lemma_shown_in_all(p0, p1, p2, p3, p4, p5, p6, "POWER"@, power);
    lemma_shown_in_all(p0, p1, p2, p3, p4, p5, p6, share, chip);
    if let Some(t) = bath {
        let f = wording::fixed_spec(in_fahrenheit_spec(t), 1) + "\u{00B0}F"@;
        let celsius = wording::fixed_spec(t, 1) + " \u{00B0}C"@;
        lemma_shown_in_all(p0, p1, p2, p3, p4, p5, p6, "BATH"@, f);
        lemma_shown_in_all(p0, p1, p2, p3, p4, p5, p6, f, celsius);
    } else {
        lemma_shown_in_all(p0, p1, p2, p3, p4, p5, p6, "BATH"@, "--"@);
    }
    if let Some(t) = inlet {
        let f = wording::fixed_spec(in_fahrenheit_spec(t), 1) + "\u{00B0}F"@;
        let celsius = wording::fixed_spec(t, 1) + " \u{00B0}C"@;
        lemma_shown_in_all(p0, p1, p2, p3, p4, p5, p6, "INLET"@, f);
        lemma_shown_in_all(p0, p1, p2, p3, p4, p5, p6, f, celsius);
    } else {
        lemma_shown_in_all(p0, p1, p2, p3, p4, p5, p6, "INLET"@, "--"@);
    }
    if let Some(t) = outlet {
        let f = wording::fixed_spec(in_fahrenheit_spec(t), 1) + "\u{00B0}F"@;
        let celsius = wording::fixed_spec(t, 1) + " \u{00B0}C"@;
        lemma_shown_in_all(p0, p1, p2, p3, p4, p5, p6, "OUTLET"@, f);
        lemma_shown_in_all(p0, p1, p2, p3, p4, p5, p6, f, celsius);
    } else {
        lemma_shown_in_all(p0, p1, p2, p3, p4, p5, p6, "OUTLET"@, "--"@);
    }
}

/// A page says at its top which mode it is, behind where its button
/// leads, and what the fault is where there is one; and it has its own
/// items behind.
#[verifier::rlimit(50)]
pub proof fn lemma_a_page_says_mode_and_fault(
    c: Canvas,
    badger_width: int,
    limits: Limits,
    page: Page,
    state: State,
    h: Histories,
    mode_width: int,
)
    ensures
        ({
            let items = page_items(c, badger_width, limits, page, state, h, mode_width);
            let leads = match page {
                Page::Main => "details \u{203A}"@,
                Page::Boards => "\u{2039} back"@,
            };
            let mode = match state.mode {
                Mode::Auto => "AUTO"@,
                Mode::Manual => "MANUAL"@,
            };
            let own = match page {
                Page::Main => main_items(c, state, h),
                Page::Boards => boards_items(c, state, control::fault_spec(state, limits)),
            };
            &&& shows_behind(items, leads, mode)
            &&& control::fault_spec(state, limits) matches Some(f) ==> shows_behind(
                items,
                mode,
                match f {
                    Fault::NoBathReading => "no bath reading"@,
                    Fault::BathOverLimit(_) => "bath over limit"@,
                    Fault::MinerOffline => "miner offline"@,
                },
            )
            &&& items[0] == Item::<Seq<char>>::Fill {
                area: Area { x: 0, y: 0, width: c.width, height: c.height },
                color: [0x0eu8, 0x0fu8, 0x12u8],
            }
            &&& items.skip(
                if control::fault_spec(state, limits) is Some {
                    7
                } else {
                    6
                },
            ) == own
        }),
{
    reveal(header_items);
    reveal(shows_behind);
    let items = page_items(c, badger_width, limits, page, state, h, mode_width);
    let leads = page_label_spec(page);
    let mode = mode_spec(state.mode).0;
    let fault = control::fault_spec(state, limits);
    assert(words(items[4]) == Some(leads));
    assert(words(items[4int + 1]) == Some(mode));
    let n: int = if fault is Some {
        7
    } else {
        6
    };
    if let Some(f) = fault {
        assert(words(items[5]) == Some(mode));
        assert(words(items[5int + 1]) == Some(status_spec(f)));
    }
    let own = match page {
        Page::Main => main_items(c, state, h),
        Page::Boards => boards_items(c, state, fault),
    };
    assert(items.skip(n) =~= own);
    assert(BACKGROUND =~= [0x0eu8, 0x0fu8, 0x12u8]);
}

/// The main page's third item on are the setpoint's buttons, the one
/// down first.
#[verifier::rlimit(50)]
proof fn lemma_the_main_page_starts_with_the_setpoint(c: Canvas, state: State, h: Histories)
    ensures
        ({
            let main = main_items(c, state, h);
            &&& main.len() >= 7
            &&& main[3] == Item::<Seq<char>>::Panel {
                area: setpoint_button(c, false),
                radius: near_spec(c.px(10)),
            }
            &&& words(main[4]) == Some("\u{2212}"@)
            &&& main[5] == Item::<Seq<char>>::Panel {
                area: setpoint_button(c, true),
                radius: near_spec(c.px(10)),
            }
            &&& words(main[6]) == Some("+"@)
        }),
{
    reveal(main_items);
    reveal(setpoint_items);
}

/// Every button is where its panel is drawn, with its sign in it: a tap
/// on a plus asks for more, one on a minus for less, and one on the page
/// button for the other page.
#[verifier::rlimit(50)]
pub proof fn lemma_a_button_is_where_it_is_drawn(
    c: Canvas,
    badger_width: int,
    limits: Limits,
    page: Page,
    state: State,
    h: Histories,
    mode_width: int,
    k: int,
)
    requires
        0 <= k < page_buttons(c, page).len(),
    ensures
        ({
            let items = page_items(c, badger_width, limits, page, state, h, mode_width);
            let button = page_buttons(c, page)[k];
            exists|i: int|
                {
                    &&& 0 <= i < items.len() - 1
                    &&& (#[trigger] items[i] matches Item::Panel { area, .. } && area
                        == button.area)
                    &&& words(items[i + 1]) == Some(
                        match button.action {
                            Action::SetpointUp => "+"@,
                            Action::SetpointDown => "\u{2212}"@,
                            Action::TogglePage => match page {
                                Page::Main => "details \u{203A}"@,
                                Page::Boards => "\u{2039} back"@,
                            },
                        },
                    )
                }
        }),
{
    let items = page_items(c, badger_width, limits, page, state, h, mode_width);
    let button = page_buttons(c, page)[k];
    lemma_a_page_says_mode_and_fault(c, badger_width, limits, page, state, h, mode_width);
    if k == 0 {
        reveal(header_items);
        assert(items[3] matches Item::Panel { area, .. } && area == button.area);
        assert(words(items[3int + 1]) == Some(page_label_spec(page)));
    } else {
        let n: int = if control::fault_spec(state, limits) is Some {
            7
        } else {
            6
        };
        let main = main_items(c, state, h);
        let at = n + 3 + 2 * (k - 1);
        lemma_the_main_page_starts_with_the_setpoint(c, state, h);
        assert(items.skip(n)[at - n] == items[at]);
        assert(items.skip(n)[at - n + 1] == items[at + 1]);
        assert(items[at] matches Item::Panel { area, .. } && area == button.area);
        assert(words(items[at + 1]) == Some(
            match button.action {
                Action::SetpointUp => "+"@,
                _ => "\u{2212}"@,
            },
        ));
    }
}

// The boards' table.
/// A column's heading, the reading of a board that stands in it, and
/// with how many decimals.
pub open spec fn stands_in(board: Board, i: int) -> (Seq<char>, Option<Double>, nat) {
    if i == 0 {
        ("CHIP \u{00B0}C"@, board.chip_temperature_c, 0)
    } else if i == 1 {
        ("BOARD \u{00B0}C"@, board.board_temperature_c, 0)
    } else if i == 2 {
        ("REG \u{00B0}C"@, board.regulator_temperature_c, 0)
    } else if i == 3 {
        ("IN V"@, board.input_voltage_v, 1)
    } else if i == 4 {
        ("CORE V"@, board.voltage_v, 3)
    } else if i == 5 {
        ("A"@, board.current_a, 1)
    } else if i == 6 {
        ("W"@, board.power_w, 0)
    } else {
        (
            "TH/s"@,
            match board.hashrate_hs {
                Some(hs) => Some(hs.over(Double { bits: 0x426d_1a94_a200_0000 })),
                None => None,
            },
            2,
        )
    }
}

/// In a board's row each reading stands under its heading, to the same
/// right edge, or two dashes where there is none; no two columns share
/// an edge.
#[verifier::rlimit(50)]
pub proof fn lemma_readings_stand_under_their_headings(c: Canvas, board: Board, y: int, i: int)
    requires
        0 <= i < 8,
    ensures
        ({
            let (name, reading, decimals) = stands_in(board, i);
            let shown = match reading {
                Some(v) => wording::fixed_spec(v, decimals),
                None => "--"@,
            };
            &&& heading_items(c)[i + 1] matches Item::Text { align, x, text, .. } && align
                == Align::Right && text == name && (board_items(c, board, y)[i
                + 1] matches Item::Text { align: align1, x: x1, y: y1, text: text1, .. } && align1
                == Align::Right && x1 == x && y1 == near_spec(y + c.px(6)) && text1 == shown)
        }),
        forall|j: int, k: int| 0 <= j < k < 8 ==> #[trigger] right_edge(j) != #[trigger] right_edge(k),
        words(heading_items(c)[0]) == Some("BOARD"@),
        words(heading_items(c)[9]) == Some("SHARE"@),
        words(board_items(c, board, y)[0]) == Some(wording::behind_last_spec(board.name@, '-')),
        words(board_items(c, board, y)[9]) == Some(
            match board.power_fraction {
                None => "--"@,
                Some(held) => wording::fixed_spec(
                    held.times(Double { bits: 0x4059_0000_0000_0000 }),
                    0,
                ) + match board.power_ceiling {
                    Some(ceiling) => "/"@ + (wording::fixed_spec(
                        ceiling.times(Double { bits: 0x4059_0000_0000_0000 }),
                        0,
                    ) + "%"@),
                    None => "%"@,
                },
            },
        ),
        heading_items(c).len() == 10,
        board_items(c, board, y).len() == 10,
{
    reveal(heading_items);
    reveal(board_items);
    if let (Some(held), Some(ceiling)) = (board.power_fraction, board.power_ceiling) {
        let (a, b) = (percent_spec(held), percent_spec(ceiling));
        assert(a + "/"@ + b + "%"@ =~= a + ("/"@ + (b + "%"@)));
    }
}

/// Every board has its row, in the order of the report, each below the
/// one before by the height of a row.
pub proof fn lemma_every_board_has_its_row(c: Canvas, boards: Seq<Board>, n: int, i: int)
    requires
        0 <= i < n <= boards.len(),
    ensures
        rows_of(c, boards, n).len() == 10 * n,
        rows_of(c, boards, n).subrange(10 * i, 10 * i + 10) == board_items(
            c,
            boards[i],
            c.px(46) + c.px(24) + i * c.px(36),
        ),
    decreases n,
{
    let before = rows_of(c, boards, n - 1);
    let last = board_items(c, boards[n - 1], row_top(c, n - 1));
    lemma_readings_stand_under_their_headings(c, boards[n - 1], row_top(c, n - 1), 0);
    if n > 1 {
        lemma_every_board_has_its_row(
            c,
            boards,
            n - 1,
            if i < n - 1 {
                i
            } else {
                0
            },
        );
    }
    assert(before.len() == 10 * (n - 1));
    let all = rows_of(c, boards, n);
    assert(all == before + last);
    if i < n - 1 {
        assert(all.subrange(10 * i, 10 * i + 10) =~= before.subrange(10 * i, 10 * i + 10));
    } else {
        assert(all.subrange(10 * i, 10 * i + 10) =~= last);
    }
}

/// The boards' page has its headings, then a row for each board, then
/// the totals of the report, and words in place of the rows where there
/// are none.
#[verifier::rlimit(50)]
pub proof fn lemma_the_boards_page_has_every_board(c: Canvas, state: State, fault: Option<Fault>)
    ensures
        ({
            let items = boards_items(c, state, fault);
            let miner = state.miner;
            let n = miner.boards@.len() as int;
            let after = 12 + if n == 0 {
                1
            } else {
                10 * n
            };
            &&& items.take(10) == heading_items(c)
            &&& n > 0 ==> items.subrange(11, 11 + 10 * n) == rows_of(c, miner.boards@, n)
            &&& n == 0 ==> words(items[11]) == Some(
                if miner.online {
                    "the miner reports no boards"@
                } else {
                    "miner offline"@
                },
            )
            &&& words(items[after]) == Some("TOTAL"@)
            &&& words(items[after + 1]) == Some(
                match miner.chip_temperature_c {
                    Some(t) => wording::fixed_spec(t, 0),
                    None => "--"@,
                },
            )
            &&& words(items[after + 2]) == Some(
                match miner.power_w {
                    Some(w) => wording::fixed_spec(w, 0),
                    None => "--"@,
                },
            )
            &&& words(items[after + 3]) == Some(
                match miner.hashrate_hs {
                    Some(hs) => wording::fixed_spec(
                        hs.over(Double { bits: 0x426d_1a94_a200_0000 }),
                        2,
                    ),
                    None => "--"@,
                },
            )
            &&& items.skip(after + 4) == detail_items(
                c,
                state,
                fault,
                if n == 0 {
                    1
                } else {
                    n
                },
            )
        }),
{
    reveal(boards_items);
    let items = boards_items(c, state, fault);
    let miner = state.miner;
    let n = miner.boards@.len() as int;
    if n > 0 {
        lemma_every_board_has_its_row(c, miner.boards@, n, 0);
    }
    let board = arbitrary::<Board>();
    lemma_readings_stand_under_their_headings(c, board, 0, 0);
    let lines = if n == 0 {
        1
    } else {
        n
    };
    let first = heading_items(c).push(rule(c, row_top(c, 0)));
    let middle = (if n == 0 {
        seq![
            text_at(
                c.style_spec(Face::Medium, 24, DIM),
                Align::Left,
                c.px(16),
                row_top(c, 0) + c.px(6),
                no_boards(miner.online),
            ),
        ]
    } else {
        rows_of(c, miner.boards@, n)
    }).push(rule(c, row_top(c, lines)));
    let total = total_items(c, miner, row_top(c, lines));
    let last = detail_items(c, state, fault, lines);
    assert(items == first + middle + total + last);
    reveal(total_items);
    assert(items.take(10) =~= heading_items(c));
    if n > 0 {
        assert(items.subrange(11, 11 + 10 * n) =~= rows_of(c, miner.boards@, n));
    } else {
        assert(items[11] == middle[0]);
    }
    let after = (first.len() + middle.len()) as int;
    assert(items[after] == total[0]);
    assert(items[after + 1] == total[1]);
    assert(items[after + 2] == total[2]);
    assert(items[after + 3] == total[3]);
    assert(items.skip(after + 4) =~= last);
}

/// Behind the table each board's chips stand in a row, each with its
/// hash rate in gigahashes, red where it made errors; then the pool's
/// line, and the controller's own.
pub proof fn lemma_the_details_are_of_the_report(
    c: Canvas,
    state: State,
    fault: Option<Fault>,
    lines: int,
)
    ensures
        ({
            let items = detail_items(c, state, fault, lines);
            let n = items.len();
            let miner = state.miner;
            let shown = |x: Option<Double>|
                match x {
                    Some(v) => wording::fixed_spec(v, 0),
                    None => "--"@,
                };
            let counted = |x: Option<u64>|
                match x {
                    Some(v) => wording::digits(v as nat),
                    None => "--"@,
                };
            &&& n >= 2
            &&& words(items[n - 2]) == Some(
                "pool "@ + match miner.pool {
                    Some(pool) => pool@,
                    None => "--"@,
                } + ", difficulty "@ + shown(miner.difficulty) + ", shares "@ + counted(
                    miner.shares_submitted,
                ) + ", up "@ + match miner.uptime_secs {
                    Some(secs) => wording::digits((secs / 60) as nat),
                    None => "--"@,
                } + " min"@,
            )
            &&& words(items[n - 1]) == Some(own_text_spec(state, fault))
            &&& items.take(n - 2) == grids_of(
                c,
                miner.boards@,
                lines,
                miner.boards@.len() as int,
            )
        }),
{
    reveal(detail_items);
    let items = detail_items(c, state, fault, lines);
    let n = items.len();
    let miner = state.miner;
    let grids = grids_of(c, miner.boards@, lines, miner.boards@.len() as int);
    assert(items.take(n - 2) =~= grids);
}

/// A board's chips are all in its row, in order.
pub proof fn lemma_every_chip_is_shown(c: Canvas, board: Board, y: int, j: int)
    requires
        0 <= j < board.chips@.len(),
    ensures
        ({
            let items = grid_items(c, board, y);
            &&& items.len() == board.chips@.len() + 1
            &&& words(items[0]) == Some(wording::behind_last_spec(board.name@, '-'))
            &&& words(items[j + 1]) == Some(
                match board.chips@[j].hashrate_hs {
                    Some(hs) => wording::fixed_spec(
                        hs.over(Double { bits: 0x41cd_cd65_0000_0000 }),
                        0,
                    ),
                    None => "--"@,
                },
            )
        }),
{
    reveal(grid_items);
}

/// The controller's own line says each probe's voltage by its name, then
/// the supply's, the mode, what is requested, and the fault.
#[verifier::rlimit(50)]
pub proof fn lemma_the_own_line_says_the_state(
    state: State,
    fault: Option<Fault>,
    probes: Seq<Probe>,
    probe: Probe,
)
    ensures
        ({
            let volts = |x: Option<Double>|
                match x {
                    Some(v) => wording::fixed_spec(v, 3),
                    None => "--"@,
                };
            let n = probes.len() as int;
            &&& probe_volts(Seq::<Probe>::empty(), 0) == Seq::<char>::empty()
            &&& probe_volts(probes.push(probe), n + 1) == probe_volts(probes, n) + (probe.name@
                + " "@ + (volts(probe.volts) + " V, "@))
            &&& own_text_spec(state, fault) == probe_volts(
                state.probes@,
                state.probes@.len() as int,
            ) + "supply "@ + (volts(state.supply_v) + " V, "@) + (match state.mode {
                Mode::Auto => "AUTO"@,
                Mode::Manual => "MANUAL"@,
            }) + ", request "@ + (match state.power_fraction {
                Some(f) => wording::fixed_spec(
                    f.times(Double { bits: 0x4059_0000_0000_0000 }),
                    0,
                ) + "%"@,
                None => "--"@,
            }) + (match fault {
                Some(Fault::NoBathReading) => ", "@ + "no bath reading"@,
                Some(Fault::BathOverLimit(_)) => ", "@ + "bath over limit"@,
                Some(Fault::MinerOffline) => ", "@ + "miner offline"@,
                None => ", no fault"@,
            })
        }),
{
    let n = probes.len() as int;
    lemma_volts_of_a_start(probes, probes.push(probe), n);
    assert(probes.push(probe)[n] == probe);
}

proof fn lemma_volts_of_a_start(a: Seq<Probe>, b: Seq<Probe>, n: int)
    requires
        0 <= n <= a.len(),
        n <= b.len(),
        forall|i: int| 0 <= i < n ==> #[trigger] a[i] == b[i],
    ensures
        probe_volts(a, n) == probe_volts(b, n),
    decreases n,
{
    if n > 0 {
        assert(a[n - 1] == b[n - 1]);
        lemma_volts_of_a_start(a, b, n - 1);
    }
}

/// A sparkline is drawn where there is a reading, of its own history,
/// marked with the latest one and what it is; its reference line with
/// what that is; and where it is tall, the time it covers.
#[verifier::rlimit(50)]
pub proof fn lemma_a_sparkline_is_of_its_history(
    c: Canvas,
    area: Area,
    line: Line,
    samples: Seq<Option<Double>>,
    span: Double,
    min_span: u64,
    reference: Option<Double>,
    unit: Unit,
)
    ensures
        ({
            let items = spark_items(c, area, line, samples, span, min_span, reference, unit);
            let said = |x: Double|
                match unit {
                    Unit::Fahrenheit => wording::fixed_spec(in_fahrenheit_spec(x), 1)
                        + "\u{00B0}F"@,
                    Unit::Tenths => wording::fixed_spec(x, 1),
                    Unit::Whole => wording::fixed_spec(x, 0),
                };
            &&& last_known_spec(samples) is None ==> items.len() == 0
            &&& last_known_spec(samples) matches Some(last) ==> {
                &&& items[0] matches Item::Spark(spark) && {
                    &&& spark.area == area
                    &&& spark.line == line
                    &&& spark.min_span.bits == min_span
                    &&& spark.last == last
                    &&& spark.last_label == said(last)
                    &&& reference is None ==> spark.reference is None
                    &&& reference matches Some(r) ==> spark.reference == Some((r, said(r)))
                }
                &&& items.len() == if area.height >= c.px(70) {
                    2int
                } else {
                    1int
                }
                &&& area.height >= c.px(70) ==> words(items[1]) == Some(span_text_spec(span))
            }
        }),
{
    reveal(spark_items);
}

/// A time of whole seconds is said in seconds under a minute, and in
/// whole minutes from there.
pub proof fn lemma_a_span_is_said_in_seconds_or_minutes(span: Double, secs: int)
    requires
        order::is_whole(span, secs),
        0 <= secs <= u32::MAX,
    ensures
        secs < 60 ==> span_text_spec(span) == wording::digits(secs as nat) + "s"@,
        secs >= 60 && secs % 60 == 0 ==> span_text_spec(span) == wording::digits(
            (secs / 60) as nat,
        ) + "m"@,
{
    let sixty = Double { bits: SIXTY };
    lemma2_to64();
    lemma2_to64_rest();
    lemma_pow2_pos(1074);
    order::lemma_constant_is_whole(SIXTY, 0x404, 0xe_0000_0000_0000, 60, 47);
    order::lemma_units_order(sixty, span);
    order::lemma_units_order(span, sixty);
    let p = pow2(1074) as int;
    assert(secs < 60 ==> secs * p < 60 * p) by (nonlinear_arith)
        requires
            p > 0,
    ;
    assert(secs >= 60 ==> secs * p >= 60 * p) by (nonlinear_arith)
        requires
            p > 0,
    ;
    if secs < 60 {
        order::lemma_whole_is_not_cut(span, secs, 0, u32::MAX as int);
    } else if secs % 60 == 0 {
        order::lemma_wholes_compute(span, sixty, secs, 60);
        order::lemma_whole_is_not_cut(span.over(sixty), secs / 60, 0, u32::MAX as int);
    }
}

/// The mode stands out just where it is manual.
pub proof fn lemma_what_stands_out(mode: Mode)
    ensures
        mode_spec(mode).1 == (if mode == Mode::Manual {
            [0xd0u8, 0x55u8, 0x55u8]
        } else {
            [0x99u8, 0x9bu8, 0xa4u8]
        }),
{
    assert(ACCENT =~= [0xd0u8, 0x55u8, 0x55u8]);
    assert(DIM =~= [0x99u8, 0x9bu8, 0xa4u8]);
}

// The layout.
/// On a frame of some multiple of the design height every design length
/// is that multiple of itself, and so are texts.
pub proof fn lemma_lengths_scale_with_the_frame(size: Size, k: int, design: int)
    requires
        size.fits(),
        1 <= k <= 0x800,
        size.height == 280 * k,
        0 <= design <= 0x1000,
    ensures
        Canvas::of(size).width == size.width,
        Canvas::of(size).height == size.height,
        Canvas::of(size).px(design) == k * design,
        single::is_whole(
            Canvas::of(size).style_spec(Face::Bold, design, TEXT).px,
            k * design,
        ),
{
    let c = Canvas::of(size);
    single::lemma_of_is_exact(280 * k);
    single::lemma_of_is_exact(280);
    single::lemma_of_is_exact(design);
    let (tall, one) = (Single::of_spec(280 * k), Single::of_spec(280));
    assert((280 * k) % 280 == 0 && (280 * k) / 280 == k);
    single::lemma_wholes_compute(tall, one, 280 * k, 280);
    assert(0 <= design * k <= 0x80_0000) by (nonlinear_arith)
        requires
            0 <= design <= 0x1000,
            1 <= k <= 0x800,
    ;
    single::lemma_wholes_compute(Single::of_spec(design), c.scale, design, k);
    assert(design * k == k * design) by (nonlinear_arith);
    single::lemma_whole_is_itself(
        Single::of_spec(design).times(c.scale),
        design * k,
        i32::MIN as int,
        i32::MAX as int,
    );
}

/// On a frame of some multiple of the design size the buttons are where
/// they are designed, in the frame, and no two of them overlap.
#[verifier::rlimit(50)]
pub proof fn lemma_buttons_are_apart(size: Size, k: int)
    requires
        1 <= k <= 0x800,
        size.height == 280 * k,
        size.width == 1424 * k,
    ensures
        ({
            let c = Canvas::of(size);
            let (page, down, up) = (
                page_button(c),
                setpoint_button(c, false),
                setpoint_button(c, true),
            );
            &&& (page.x, page.y, page.width, page.height) == (
                (1298 * k) as i32,
                (6 * k) as i32,
                (110 * k) as i32,
                (30 * k) as i32,
            )
            &&& (down.x, down.y, down.width, down.height) == (
                (16 * k) as i32,
                (166 * k) as i32,
                (130 * k) as i32,
                (102 * k) as i32,
            )
            &&& (up.x, up.y, up.width, up.height) == (
                (160 * k) as i32,
                (166 * k) as i32,
                (130 * k) as i32,
                (102 * k) as i32,
            )
            &&& down.x + down.width < up.x
            &&& up.x + up.width < page.x
            &&& page.x + page.width < c.width
            &&& down.y + down.height < c.height
        }),
{
    let c = Canvas::of(size);
    lemma_lengths_scale_with_the_frame(size, k, 16);
    lemma_lengths_scale_with_the_frame(size, k, 110);
    lemma_lengths_scale_with_the_frame(size, k, 6);
    lemma_lengths_scale_with_the_frame(size, k, 30);
    lemma_lengths_scale_with_the_frame(size, k, 46);
    lemma_lengths_scale_with_the_frame(size, k, 120);
    lemma_lengths_scale_with_the_frame(size, k, 130);
    lemma_lengths_scale_with_the_frame(size, k, 14);
    lemma_lengths_scale_with_the_frame(size, k, 12);
}

/// Where an item's words stand.
pub open spec fn place(item: Drawn) -> (int, int) {
    match item {
        Item::Text { x, y, .. } => (x as int, y as int),
        _ => (0, 0),
    }
}

/// On a frame of some multiple of the design size the temperatures stand
/// side by side, each name over its reading, and each sparkline below,
/// as wide as its column.
#[verifier::rlimit(50)]
pub proof fn lemma_the_temperatures_stand_side_by_side(
    size: Size,
    k: int,
    i: int,
    name: Seq<char>,
    t: Double,
    line: Line,
    samples: Seq<Option<Double>>,
    span: Double,
    reference: Option<Double>,
)
    requires
        1 <= k <= 0x800,
        size.height == 280 * k,
        size.width == 1424 * k,
        0 <= i < 3,
    ensures
        ({
            let c = Canvas::of(size);
            let items = temperature_items(c, i, name, Some(t), line, samples, span, reference);
            &&& place(items[0]) == ((320 + 240 * i) * k, 46 * k)
            &&& place(items[1]) == ((318 + 240 * i) * k, 60 * k)
            &&& place(items[2]) == ((320 + 240 * i) * k, 112 * k)
            &&& last_known_spec(samples) is Some ==> (items[3] matches Item::Spark(s)
                && s.area.x == (320 + 240 * i) * k && s.area.y == 136 * k && s.area.width == 220
                * k && s.area.height == 132 * k && s.line == line && s.min_span.bits
                == 0x3ff1_c71c_71c7_1c72 && single::is_whole(s.plot_width, 172 * k) && (
            reference matches Some(r) ==> s.reference is Some && (s.reference->0).0 == r))
        }),
{
    reveal(temperature_items);
    reveal(spark_items);
    lemma_lengths_scale_with_the_frame(size, k, 46);
    lemma_lengths_scale_with_the_frame(size, k, 320);
    lemma_lengths_scale_with_the_frame(size, k, 220);
    lemma_lengths_scale_with_the_frame(size, k, 20);
    lemma_lengths_scale_with_the_frame(size, k, 90);
    lemma_lengths_scale_with_the_frame(size, k, 2);
    lemma_lengths_scale_with_the_frame(size, k, 14);
    lemma_lengths_scale_with_the_frame(size, k, 66);
    lemma_lengths_scale_with_the_frame(size, k, 12);
    lemma_lengths_scale_with_the_frame(size, k, 48);
    assert(i * (220 * k + 20 * k) == 240 * i * k) by (nonlinear_arith);
    assert((320 + 240 * i) * k == 320 * k + 240 * i * k) by (nonlinear_arith);
    assert((318 + 240 * i) * k == 318 * k + 240 * i * k) by (nonlinear_arith);
    assert(0 <= 240 * i * k <= 480 * k) by (nonlinear_arith)
        requires
            0 <= i <= 2,
            1 <= k,
    ;
    single::lemma_of_is_exact(172 * k);
}

/// The share bar is drawn over its whole width, then in red as far as
/// the share that is held, with a mark where the one asked for ends; the
/// words below it are red just where heat caps the miner.
#[verifier::rlimit(50)]
pub proof fn lemma_the_share_bar_is_drawn(size: Size, k: int, held: Double, asked: Double, miner: Miner)
    requires
        1 <= k <= 0x400,
        size.height == 280 * k,
        size.width == 1424 * k,
        miner.power_fraction == Some(held),
    ensures
        ({
            let c = Canvas::of(size);
            let items = share_items(c, Some(asked), miner);
            let low = miner.power_ceiling is Some && miner.power_ceiling->0.below(
                Double { bits: 0x3ff0_0000_0000_0000 },
            );
            &&& items.len() == 5
            &&& items[0] matches Item::Fill { area, color } && area.x == 1030 * k && area.y == 212
                * k && area.width == 378 * k && area.height == 12 * k && color == PANEL
            &&& items[1] matches Item::Fill { area, color } && area.x == 1030 * k && area.y == 212
                * k && area.width == near_spec(share_of(378 * k, held)) && area.height == 12 * k
                && color == ACCENT
            &&& items[2] matches Item::Fill { area, color } && area.x == near_spec(
                1030 * k + share_of(378 * k, asked) - k,
            ) && area.y == 209 * k && area.width == 3 * k && area.height == 18 * k && color
                == TEXT
            &&& place(items[3]) == (1030 * k, 230 * k)
            &&& place(items[4]) == (1408 * k, 230 * k)
            &&& items[3] matches Item::Text { style, align, .. } && align == Align::Left
                && style.color == if low {
                ACCENT
            } else {
                DIM
            }
            &&& items[4] matches Item::Text { align, .. } && align == Align::Right
        }),
{
    reveal(share_items);
    lemma_lengths_scale_with_the_frame(size, k, 320);
    lemma_lengths_scale_with_the_frame(size, k, 220);
    lemma_lengths_scale_with_the_frame(size, k, 20);
    lemma_lengths_scale_with_the_frame(size, k, 10);
    lemma_lengths_scale_with_the_frame(size, k, 16);
    lemma_lengths_scale_with_the_frame(size, k, 46);
    lemma_lengths_scale_with_the_frame(size, k, 166);
    lemma_lengths_scale_with_the_frame(size, k, 12);
    lemma_lengths_scale_with_the_frame(size, k, 18);
    lemma_lengths_scale_with_the_frame(size, k, 1);
    lemma_lengths_scale_with_the_frame(size, k, 3);
    lemma_lengths_scale_with_the_frame(size, k, 6);
    assert(miner_left(Canvas::of(size)) == 1030 * k);
    assert(miner_width(Canvas::of(size)) == 378 * k);
}

/// The totals stand under the headings of what they are totals of, and
/// the rows, the rules and the details below each other.
#[verifier::rlimit(50)]
pub proof fn lemma_the_table_is_in_line(size: Size, k: int, miner: Miner, y: int, n: int, j: int)
    requires
        1 <= k <= 0x400,
        size.height == 280 * k,
        size.width == 1424 * k,
        0 <= n <= 0x1000,
        0 <= j <= 0x1000,
    ensures
        ({
            let c = Canvas::of(size);
            let (totals, heads) = (total_items(c, miner, y), heading_items(c));
            &&& place(totals[1]).0 == place(heads[1]).0
            &&& place(totals[2]).0 == place(heads[7]).0
            &&& place(totals[3]).0 == place(heads[8]).0
            &&& place(heads[1]).0 == 430 * k
            &&& place(heads[2]).0 == 560 * k
            &&& place(heads[3]).0 == 690 * k
            &&& place(heads[4]).0 == 810 * k
            &&& place(heads[6]).0 == 940 * k
            &&& place(heads[5]).0 == 1060 * k
            &&& place(heads[7]).0 == 1180 * k
            &&& place(heads[8]).0 == 1310 * k
            &&& place(heads[9]).0 == 1408 * k
            &&& row_top(c, n) == (70 + 36 * n) * k
            &&& detail_top(c, n, j) == (106 + 36 * n + 18 * j) * k
            &&& chip_right(c, j) == (180 + 56 * j) * k
            &&& rule(c, row_top(c, n)) matches Item::Fill { area, color } && area.x == 16 * k
                && area.y == (66 + 36 * n) * k && area.width == 1392 * k && area.height == k
                && color == BORDER
        }),
{
    reveal(total_items);
    reveal(heading_items);
    let designs = seq![16int, 46, 24, 36, 18, 180, 56, 4, 1, 430, 560, 690, 810, 940, 1060, 1180, 1310, 1408];
    assert forall|i: int| 0 <= i < designs.len() implies Canvas::of(size).px(#[trigger] designs[i])
        == k * designs[i] by {
        lemma_lengths_scale_with_the_frame(size, k, designs[i]);
    }
    assert(designs[0] == 16 && designs[1] == 46 && designs[2] == 24 && designs[3] == 36);
    assert(designs[4] == 18 && designs[5] == 180 && designs[6] == 56 && designs[7] == 4);
    assert(designs[8] == 1 && designs[9] == 430 && designs[10] == 560 && designs[11] == 690);
    assert(designs[12] == 810 && designs[13] == 940 && designs[14] == 1060 && designs[15] == 1180);
    assert(designs[16] == 1310 && designs[17] == 1408);
    assert(n * (k * 36) == 36 * n * k && j * (k * 18) == 18 * j * k && j * (k * 56) == 56 * j * k)
        by (nonlinear_arith);
    assert((n + 1) * (k * 36) == 36 * n * k + 36 * k) by (nonlinear_arith);
    assert((70 + 36 * n) * k == 70 * k + 36 * n * k) by (nonlinear_arith);
    assert((66 + 36 * n) * k == 66 * k + 36 * n * k) by (nonlinear_arith);
    assert((106 + 36 * n + 18 * j) * k == 106 * k + 36 * n * k + 18 * j * k) by (nonlinear_arith);
    assert((180 + 56 * j) * k == 180 * k + 56 * j * k) by (nonlinear_arith);
    assert(0 <= 36 * n * k <= 36 * 0x1000 * 0x400) by (nonlinear_arith)
        requires
            0 <= n <= 0x1000,
            1 <= k <= 0x400,
    ;
}

/// A coordinate is itself where it fits, and else the end it is past;
/// half of a length is cut toward nothing.
pub proof fn lemma_coordinates_are_near(x: int)
    ensures
        i32::MIN <= x <= i32::MAX ==> near_spec(x) == x,
        x > i32::MAX ==> near_spec(x) == i32::MAX,
        x < i32::MIN ==> near_spec(x) == i32::MIN,
        x >= 0 ==> 0 <= x - 2 * half_spec(x) <= 1,
        half_spec(-x) == -half_spec(x),
{
}

/// A sparkline's label stands at its marker, and that of its reference
/// at its line where the two are further apart than a line of text.
pub proof fn lemma_where_labels_stand(s: Spark<String>, c: Canvas, last_y: int, reference_y: int)
    ensures
        ({
            let items = s.label_items(c, last_y, reference_y);
            let small = c.style_spec(Face::Medium, 13, TEXT).px;
            let (low, high) = (i32::MIN as int, i32::MAX as int);
            let up = small.over(Single { bits: 0x4000_0000 }).truncated_spec(low, high);
            let tall = small.truncated_spec(low, high);
            let apart = last_y - reference_y > tall || reference_y - last_y > tall;
            let x = s.area.x + s.plot_width.truncated_spec(low, high) + c.px(6);
            &&& items.len() == if s.reference is Some && apart {
                2int
            } else {
                1int
            }
            &&& words(items[0]) == Some(s.last_label@)
            &&& place(items[0]) == (near_spec(x) as int, near_spec(last_y - up) as int)
            &&& s.reference is Some && apart ==> words(items[1]) == Some((s.reference->0).1@)
                && place(items[1]) == (near_spec(x) as int, near_spec(reference_y - up) as int)
        }),
{
}

} // verus!
