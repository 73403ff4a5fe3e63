//! The Mujina client's decisions: what the miner's tree says, and when
//! the power request is written to it.
//!
//! Every poll reads the whole tree and reports what Coinbath cares
//! about: the hash rate summed over threads, the power summed over
//! regulators, the hottest chip, the share of full power the threads
//! hold, and the lowest ceiling a board puts on its thread, and the same
//! board by board. Whenever
//! the state's requested share differs from what the miner was last
//! told, it is written, and it is written again after the miner comes
//! back from an outage, since a restarted miner forgets.
use vstd::prelude::*;

use crate::double::{self, Double};
use crate::state::{Board, Miner};
use crate::wording;

verus! {

/// Where the miner's API is by default. Mujina binds to loopback on
/// port 7785 unless told otherwise.
pub const DEFAULT_URL: &'static str = "http://127.0.0.1:7785";

/// How often the miner is polled, in milliseconds.
pub const POLL_MS: u64 = 2000;

/// Longer than this, in milliseconds, and the miner is as good as gone
/// for this poll.
pub const TIMEOUT_MS: u64 = 3000;

/// A JSON value, as far as the summary reads it.
#[derive(Debug, PartialEq)]
pub enum Tree {
    /// A number, as the double nearest to it.
    Number(Double),
    /// An object's members, in order, each name once.
    Object(Vec<Member>),
    /// Anything else.
    Other,
}

/// One member of an object.
#[derive(Debug, PartialEq)]
pub struct Member {
    pub name: String,
    pub value: Tree,
}

/// The members of an object, or none for anything else.
pub open spec fn members_of(tree: Tree) -> Seq<Member> {
    match tree {
        Tree::Object(members) => members@,
        _ => Seq::<Member>::empty(),
    }
}

/// Where the first member with a name is, from `i` up.
pub open spec fn member_at(members: Seq<Member>, name: Seq<char>, i: int) -> Option<int>
    decreases members.len() - i,
{
    if i >= members.len() {
        None
    } else if members[i].name@ == name {
        Some(i)
    } else {
        member_at(members, name, i + 1)
    }
}

/// An object's member with a name.
pub open spec fn field(tree: Tree, name: Seq<char>) -> Option<Tree> {
    match member_at(members_of(tree), name, 0) {
        Some(i) => Some(members_of(tree)[i].value),
        None => None,
    }
}

/// The members of an object's member with a name, or none.
pub open spec fn under(tree: Tree, name: Seq<char>) -> Seq<Member> {
    match field(tree, name) {
        Some(t) => members_of(t),
        None => Seq::<Member>::empty(),
    }
}

/// The number a value is, if it is one.
pub open spec fn as_number(tree: Tree) -> Option<Double> {
    match tree {
        Tree::Number(x) => Some(x),
        _ => None,
    }
}

/// The number under a name, if there is one.
pub open spec fn number_spec(tree: Tree, name: Seq<char>) -> Option<Double> {
    match field(tree, name) {
        Some(t) => as_number(t),
        None => None,
    }
}

/// The numbers under a name in the values of the first `n` members.
pub open spec fn numbers_in(members: Seq<Member>, name: Seq<char>, n: int) -> Seq<Double>
    decreases n,
{
    if n <= 0 {
        Seq::<Double>::empty()
    } else {
        let before = numbers_in(members, name, n - 1);
        match number_spec(members[n - 1].value, name) {
            Some(x) => before.push(x),
            None => before,
        }
    }
}

/// Every number under a name in a group of the first `n` boards.
pub open spec fn readings(boards: Seq<Member>, group: Seq<char>, name: Seq<char>, n: int) -> Seq<
    Double,
>
    decreases n,
{
    if n <= 0 {
        Seq::<Double>::empty()
    } else {
        let members = under(boards[n - 1].value, group);
        readings(boards, group, name, n - 1) + numbers_in(members, name, members.len() as int)
    }
}

/// An EmberOne reports `chip_0_temperature_c` and a Bitaxe reports
/// `asic_temperature_c`. Both are the die.
pub open spec fn is_chip_temperature_spec(name: Seq<char>) -> bool {
    wording::ends_with_spec(name, "_temperature_c"@) && (wording::begins_with_spec(name, "chip_"@)
        || wording::begins_with_spec(name, "asic_"@))
}

/// Any other temperature a board reports is one of its own sensors.
pub open spec fn is_board_temperature_spec(name: Seq<char>) -> bool {
    wording::ends_with_spec(name, "_temperature_c"@) && !is_chip_temperature_spec(name)
}

/// The temperatures among the first `n` members of a board: its chips',
/// or its own sensors'.
pub open spec fn temperatures_in(members: Seq<Member>, chips: bool, n: int) -> Seq<Double>
    decreases n,
{
    if n <= 0 {
        Seq::<Double>::empty()
    } else {
        let before = temperatures_in(members, chips, n - 1);
        let m = members[n - 1];
        let wanted = if chips {
            is_chip_temperature_spec(m.name@)
        } else {
            is_board_temperature_spec(m.name@)
        };
        if wanted && as_number(m.value) is Some {
            before.push(as_number(m.value)->Some_0)
        } else {
            before
        }
    }
}

/// Every temperature of a board: its chips', or its own sensors'.
pub open spec fn temperatures(board: Tree, chips: bool) -> Seq<Double> {
    temperatures_in(members_of(board), chips, members_of(board).len() as int)
}

/// Every number under a name in a board's threads.
pub open spec fn of_threads(board: Tree, name: Seq<char>) -> Seq<Double> {
    let threads = under(board, "threads"@);
    numbers_in(threads, name, threads.len() as int)
}

/// The core regulator's number under a name, if there is one.
pub open spec fn of_core(board: Tree, name: Seq<char>) -> Option<Double> {
    match field(board, "regulators"@) {
        Some(regulators) => match field(regulators, "core"@) {
            Some(core) => number_spec(core, name),
            None => None,
        },
        None => None,
    }
}

/// Every chip temperature of the first `n` boards.
pub open spec fn chip_readings(boards: Seq<Member>, n: int) -> Seq<Double>
    decreases n,
{
    if n <= 0 {
        Seq::<Double>::empty()
    } else {
        chip_readings(boards, n - 1) + temperatures(boards[n - 1].value, true)
    }
}

/// The numbers added up in order, from zero.
pub open spec fn added(xs: Seq<Double>) -> Double
    decreases xs.len(),
{
    if xs.len() == 0 {
        Double { bits: 0 }
    } else {
        added(xs.drop_last()).plus(xs.last())
    }
}

/// A sum, or None of nothing.
pub open spec fn sum_spec(xs: Seq<Double>) -> Option<Double> {
    if xs.len() == 0 {
        None
    } else {
        Some(added(xs))
    }
}

/// A mean, or None of nothing.
pub open spec fn mean_spec(xs: Seq<Double>) -> Option<Double> {
    if xs.len() == 0 {
        None
    } else {
        Some(added(xs).over(Double::of_spec(xs.len() as int)))
    }
}

/// A minimum, or None of nothing.
pub open spec fn min_spec(xs: Seq<Double>) -> Option<Double>
    decreases xs.len(),
{
    if xs.len() == 0 {
        None
    } else {
        Some(
            match min_spec(xs.drop_last()) {
                Some(m) => m.lesser(xs.last()),
                None => xs.last(),
            },
        )
    }
}

/// A maximum, or None of nothing.
pub open spec fn max_spec(xs: Seq<Double>) -> Option<Double>
    decreases xs.len(),
{
    if xs.len() == 0 {
        None
    } else {
        Some(
            match max_spec(xs.drop_last()) {
                Some(m) => m.greater(xs.last()),
                None => xs.last(),
            },
        )
    }
}

/// A sum, and how many were added, that is nothing until then.
#[derive(Debug, Clone, Copy, PartialEq, Eq, Structural)]
struct Tally {
    sum: Double,
    n: usize,
    min: Option<Double>,
    max: Option<Double>,
}

impl Tally {
    spec fn is_of(self, xs: Seq<Double>) -> bool {
        self.n == xs.len() && self.sum == added(xs) && self.min == min_spec(xs) && self.max
            == max_spec(xs)
    }

    fn of(xs: &Vec<Double>) -> (t: Self)
        ensures
            t.is_of(xs@),
    {
        let mut t = Tally { sum: Double { bits: 0 }, n: 0, min: None, max: None };
        let mut i: usize = 0;
        while i < xs.len()
            invariant
                i <= xs@.len(),
                t.is_of(xs@.take(i as int)),
            decreases xs@.len() - i,
        {
            let v = xs[i];
            assert(xs@.take(i + 1).drop_last() =~= xs@.take(i as int));
            t =
            Tally {
                sum: t.sum.plus(v),
                n: i + 1,
                min: Some(
                    match t.min {
                        Some(m) => m.lesser(v),
                        None => v,
                    },
                ),
                max: Some(
                    match t.max {
                        Some(m) => m.greater(v),
                        None => v,
                    },
                ),
            };
            i = i + 1;
        }
        assert(xs@.take(i as int) =~= xs@);
        t
    }

    fn total(&self, Ghost(xs): Ghost<Seq<Double>>) -> (r: Option<Double>)
        requires
            self.is_of(xs),
        ensures
            r == sum_spec(xs),
    {
        if self.n == 0 {
            None
        } else {
            Some(self.sum)
        }
    }

    fn mean(&self, Ghost(xs): Ghost<Seq<Double>>) -> (r: Option<Double>)
        requires
            self.is_of(xs),
        ensures
            r == mean_spec(xs),
    {
        if self.n == 0 {
            None
        } else {
            Some(self.sum.over(Double::count(self.n)))
        }
    }
}

impl Tree {
    /// An object's member with a name.
    pub fn get(&self, name: &str) -> (t: Option<&Tree>)
        ensures
            match t {
                Some(t) => field(*self, name@) == Some(*t),
                None => field(*self, name@) is None,
            },
    {
        match self {
            Tree::Object(members) => {
                let mut i: usize = 0;
                while i < members.len()
                    invariant
                        i <= members@.len(),
                        members_of(*self) == members@,
                        member_at(members@, name@, 0) == member_at(members@, name@, i as int),
                    decreases members@.len() - i,
                {
                    if wording::same(members[i].name.as_str(), name) {
                        return Some(&members[i].value);
                    }
                    i = i + 1;
                }
                None
            },
            _ => None,
        }
    }

    /// The number under a name, if there is one.
    pub fn number(&self, name: &str) -> (x: Option<Double>)
        ensures
            x == number_spec(*self, name@),
    {
        match self.get(name) {
            Some(Tree::Number(x)) => Some(*x),
            _ => None,
        }
    }
}

fn is_chip_temperature(name: &str) -> (r: bool)
    ensures
        r == is_chip_temperature_spec(name@),
{
    wording::ends_with(name, "_temperature_c") && (wording::begins_with(name, "chip_")
        || wording::begins_with(name, "asic_"))
}

/// Appends the numbers under a name in the values of some members.
fn push_numbers(into: &mut Vec<Double>, members: &Vec<Member>, name: &str)
    ensures
        final(into)@ == old(into)@ + numbers_in(members@, name@, members@.len() as int),
{
    let mut i: usize = 0;
    assert(into@ =~= old(into)@ + numbers_in(members@, name@, 0));
    while i < members.len()
        invariant
            i <= members@.len(),
            into@ == old(into)@ + numbers_in(members@, name@, i as int),
        decreases members@.len() - i,
    {
        if let Some(x) = members[i].value.number(name) {
            into.push(x);
        }
        assert(into@ =~= old(into)@ + numbers_in(members@, name@, i + 1));
        i = i + 1;
    }
}

/// Every number under a name in a group of the boards.
fn gather(boards: &Vec<Member>, group: &str, name: &str) -> (xs: Vec<Double>)
    ensures
        xs@ == readings(boards@, group@, name@, boards@.len() as int),
{
    let mut xs: Vec<Double> = Vec::new();
    let mut i: usize = 0;
    while i < boards.len()
        invariant
            i <= boards@.len(),
            xs@ == readings(boards@, group@, name@, i as int),
        decreases boards@.len() - i,
    {
        let ghost before = xs@;
        match boards[i].value.get(group) {
            Some(Tree::Object(members)) => {
                push_numbers(&mut xs, members, name);
            },
            _ => {
                assert(xs@ =~= before + numbers_in(Seq::<Member>::empty(), name@, 0));
            },
        }
        i = i + 1;
    }
    xs
}

/// Appends a board's temperatures: its chips', or its own sensors'.
fn push_temperatures(into: &mut Vec<Double>, board: &Tree, chips: bool)
    ensures
        final(into)@ == old(into)@ + temperatures(*board, chips),
{
    match board {
        Tree::Object(members) => {
            let mut j: usize = 0;
            assert(into@ =~= old(into)@ + temperatures_in(members@, chips, 0));
            while j < members.len()
                invariant
                    j <= members@.len(),
                    into@ == old(into)@ + temperatures_in(members@, chips, j as int),
                decreases members@.len() - j,
            {
                let name = members[j].name.as_str();
                let of_chip = is_chip_temperature(name);
                if of_chip == chips && wording::ends_with(name, "_temperature_c") {
                    if let Tree::Number(x) = &members[j].value {
                        into.push(*x);
                    }
                }
                assert(into@ =~= old(into)@ + temperatures_in(members@, chips, j + 1));
                j = j + 1;
            }
        },
        _ => {
            assert(into@ =~= old(into)@ + temperatures(*board, chips));
        },
    }
}

/// Every chip temperature of the boards.
fn gather_chips(boards: &Vec<Member>) -> (xs: Vec<Double>)
    ensures
        xs@ == chip_readings(boards@, boards@.len() as int),
{
    let mut xs: Vec<Double> = Vec::new();
    let mut i: usize = 0;
    while i < boards.len()
        invariant
            i <= boards@.len(),
            xs@ == chip_readings(boards@, i as int),
        decreases boards@.len() - i,
    {
        push_temperatures(&mut xs, &boards[i].value, true);
        i = i + 1;
    }
    xs
}

/// Every number under a name in a board's threads.
fn gather_threads(board: &Tree, name: &str) -> (xs: Vec<Double>)
    ensures
        xs@ == of_threads(*board, name@),
{
    let mut xs: Vec<Double> = Vec::new();
    if let Some(Tree::Object(members)) = board.get("threads") {
        push_numbers(&mut xs, members, name);
    }
    assert(xs@ =~= of_threads(*board, name@));
    xs
}

/// The core regulator's number under a name, if there is one.
fn core_number(board: &Tree, name: &str) -> (x: Option<Double>)
    ensures
        x == of_core(*board, name@),
{
    match board.get("regulators") {
        Some(regulators) => match regulators.get("core") {
            Some(core) => core.number(name),
            None => None,
        },
        None => None,
    }
}

/// Whether a board's report is what its member of the tree says.
///
/// Its name is the miner's key for it. Its hash rate is the sum over
/// its threads, its chip temperature the hottest of its chips, its
/// board temperature the hottest of its other sensors, and its voltage
/// and power those of its core regulator. The share it holds is the
/// mean over its threads and its ceiling the lowest of theirs. A
/// reading is None when the board does not report it.
pub open spec fn describes(member: Member, board: Board) -> bool {
    let said = member.value;
    &&& board.name@ == member.name@
    &&& board.hashrate_hs == sum_spec(of_threads(said, "hashes_per_s"@))
    &&& board.chip_temperature_c == max_spec(temperatures(said, true))
    &&& board.board_temperature_c == max_spec(temperatures(said, false))
    &&& board.voltage_v == of_core(said, "voltage_v"@)
    &&& board.power_w == of_core(said, "power_w"@)
    &&& board.power_fraction == mean_spec(of_threads(said, "power_fraction"@))
    &&& board.power_ceiling == min_spec(of_threads(said, "power_ceiling"@))
    &&& board.current_a is None
    &&& board.input_voltage_v is None
    &&& board.regulator_temperature_c is None
    &&& board.chips@.len() == 0
}

/// A board's report, from its member of the tree.
fn describe(member: &Member) -> (board: Board)
    ensures
        describes(*member, board),
{
    let said = &member.value;
    let rates = gather_threads(said, "hashes_per_s");
    let held = gather_threads(said, "power_fraction");
    let ceilings = gather_threads(said, "power_ceiling");
    let mut chips: Vec<Double> = Vec::new();
    push_temperatures(&mut chips, said, true);
    assert(chips@ =~= temperatures(*said, true));
    let mut sensors: Vec<Double> = Vec::new();
    push_temperatures(&mut sensors, said, false);
    assert(sensors@ =~= temperatures(*said, false));
    let mut board = Board::default();
    board.name = member.name.clone();
    board.hashrate_hs = Tally::of(&rates).total(Ghost(rates@));
    board.chip_temperature_c = Tally::of(&chips).max;
    board.board_temperature_c = Tally::of(&sensors).max;
    board.voltage_v = core_number(said, "voltage_v");
    board.power_w = core_number(said, "power_w");
    board.power_fraction = Tally::of(&held).mean(Ghost(held@));
    board.power_ceiling = Tally::of(&ceilings).min;
    board
}

/// The boards' reports, in the miner's order.
fn describe_all(members: &Vec<Member>) -> (boards: Vec<Board>)
    ensures
        boards@.len() == members@.len(),
        forall|i: int|
            0 <= i < members@.len() ==> describes(#[trigger] members@[i], boards@[i]),
{
    let mut boards: Vec<Board> = Vec::new();
    let mut i: usize = 0;
    while i < members.len()
        invariant
            i <= members@.len(),
            boards@.len() == i,
            forall|j: int| 0 <= j < i ==> describes(#[trigger] members@[j], boards@[j]),
        decreases members@.len() - i,
    {
        boards.push(describe(&members[i]));
        i = i + 1;
    }
    boards
}

/// Whether a report is what a tree says.
///
/// Hash rate is the sum over every thread of every board. Power is the
/// sum over every regulator that reports it. The chip temperature is
/// the hottest a board reports, under whichever name the board uses for
/// it. The share held is the mean over the threads that report one,
/// else what the miner was asked; the ceiling is the lowest any thread
/// reports. A reading is None when no board reports one. Every board is
/// in the report, in the miner's order.
pub open spec fn summarizes(tree: Tree, miner: Miner) -> bool {
    let boards = under(tree, "boards"@);
    let n = boards.len() as int;
    let held = mean_spec(readings(boards, "threads"@, "power_fraction"@, n));
    &&& miner.online
    &&& miner.hashrate_hs == sum_spec(readings(boards, "threads"@, "hashes_per_s"@, n))
    &&& miner.power_w == sum_spec(readings(boards, "regulators"@, "power_w"@, n))
    &&& miner.chip_temperature_c == max_spec(chip_readings(boards, n))
    &&& miner.power_fraction == if held is Some {
        held
    } else {
        number_spec(tree, "target_power_fraction"@)
    }
    &&& miner.power_ceiling == min_spec(readings(boards, "threads"@, "power_ceiling"@, n))
    &&& miner.boards@.len() == n
    &&& forall|i: int| 0 <= i < n ==> describes(#[trigger] boards[i], miner.boards@[i])
    &&& miner.has_no_account()
}

/// Reduces the miner's tree to what Coinbath cares about.
pub fn summarize(tree: &Tree) -> (miner: Miner)
    ensures
        summarizes(*tree, miner),
{
    let mut miner = Miner::default();
    miner.online = true;
    match tree.get("boards") {
        Some(Tree::Object(boards)) => {
            let rates = gather(boards, "threads", "hashes_per_s");
            let powers = gather(boards, "regulators", "power_w");
            let held = gather(boards, "threads", "power_fraction");
            let ceilings = gather(boards, "threads", "power_ceiling");
            let chips = gather_chips(boards);
            miner.hashrate_hs = Tally::of(&rates).total(Ghost(rates@));
            miner.power_w = Tally::of(&powers).total(Ghost(powers@));
            miner.chip_temperature_c = Tally::of(&chips).max;
            miner.power_ceiling = Tally::of(&ceilings).min;
            miner.power_fraction = Tally::of(&held).mean(Ghost(held@));
            miner.boards = describe_all(boards);
        },
        _ => {},
    }
    if miner.power_fraction.is_none() {
        miner.power_fraction = tree.number("target_power_fraction");
    }
    miner
}

/// A reading is None just when nothing reports it, and never zero for
/// want of a report.
pub proof fn lemma_nothing_reported_is_none(tree: Tree, miner: Miner)
    requires
        summarizes(tree, miner),
    ensures
        ({
            let boards = under(tree, "boards"@);
            let n = boards.len() as int;
            &&& miner.hashrate_hs is None <==> readings(
                boards,
                "threads"@,
                "hashes_per_s"@,
                n,
            ).len() == 0
            &&& miner.power_w is None <==> readings(boards, "regulators"@, "power_w"@, n).len() == 0
            &&& miner.chip_temperature_c is None <==> chip_readings(boards, n).len() == 0
            &&& miner.power_ceiling is None <==> readings(
                boards,
                "threads"@,
                "power_ceiling"@,
                n,
            ).len() == 0
            &&& miner.power_fraction is None <==> readings(
                boards,
                "threads"@,
                "power_fraction"@,
                n,
            ).len() == 0 && number_spec(tree, "target_power_fraction"@) is None
        }),
{
}

/// Without boards a report has no reading but the share the miner was
/// asked for.
pub proof fn lemma_without_boards_there_are_no_readings(tree: Tree, miner: Miner)
    requires
        summarizes(tree, miner),
        under(tree, "boards"@).len() == 0,
    ensures
        miner.hashrate_hs is None,
        miner.power_w is None,
        miner.chip_temperature_c is None,
        miner.power_ceiling is None,
        miner.boards@.len() == 0,
        miner.power_fraction == number_spec(tree, "target_power_fraction"@),
{
}

// The exchange.
/// Whether two requests are the same.
pub open spec fn same_request_spec(a: Option<Double>, b: Option<Double>) -> bool {
    match (a, b) {
        (None, None) => true,
        (Some(x), Some(y)) => x.equals(y),
        _ => false,
    }
}

fn same_request(a: Option<Double>, b: Option<Double>) -> (r: bool)
    ensures
        r == same_request_spec(a, b),
{
    match (a, b) {
        (None, None) => true,
        (Some(x), Some(y)) => x.equals(y),
        _ => false,
    }
}

/// What happened in an exchange with the miner.
#[derive(Debug, PartialEq)]
pub enum Event {
    /// It is time to poll, with this share requested by the state.
    Poll(Option<Double>),
    /// The miner took the share it was asked for.
    Wrote,
    /// The miner's tree.
    Read(Tree),
    /// A request failed.
    Failed,
}

/// What to do next in an exchange with the miner.
#[derive(Debug, PartialEq)]
pub enum Action {
    /// Ask the miner for this share.
    Write(Double),
    /// Read the tree.
    Read,
    /// Report this; `news` where the miner went away or came back.
    Report(Miner, bool),
}

/// The client between events.
#[derive(Debug, Clone, Copy, PartialEq, Eq, Structural)]
pub struct Exchange {
    /// The share the miner holds because this client wrote it. None
    /// until the first write and after any failed exchange, so the next
    /// poll writes the request again.
    pub asserted: Option<Double>,
    /// The share requested at the last poll.
    pub requested: Option<Double>,
    pub was_online: bool,
}

impl Exchange {
    /// Nothing asserted, nothing requested, and no outage yet.
    pub fn new() -> (x: Self)
        ensures
            x == (Exchange { asserted: None, requested: None, was_online: true }),
    {
        Exchange { asserted: None, requested: None, was_online: true }
    }

    /// Whether a changed state asks for something new, and so is worth
    /// an exchange before the next poll.
    pub fn is_new(&self, request: Option<Double>) -> (r: bool)
        ensures
            r == !same_request_spec(request, self.requested),
    {
        !same_request(request, self.requested)
    }

    /// Whether a request has still to be written.
    pub open spec fn owes(self, request: Option<Double>) -> bool {
        request is Some && !same_request_spec(self.asserted, request)
    }

    /// The client after an event.
    pub open spec fn after(self, event: Event) -> Exchange {
        match event {
            Event::Poll(request) => Exchange { requested: request, ..self },
            Event::Wrote => Exchange { asserted: self.requested, ..self },
            Event::Read(_) => Exchange { was_online: true, ..self },
            Event::Failed => Exchange { asserted: None, was_online: false, ..self },
        }
    }

    /// Whether this is what to do about an event: write the request
    /// first where it is owed, then read, then report.
    pub open spec fn answers(self, event: Event, action: Action) -> bool {
        match event {
            Event::Poll(request) => action == if self.owes(request) {
                Action::Write(request->Some_0)
            } else {
                Action::Read
            },
            Event::Wrote => action == Action::Read,
            Event::Read(tree) => match action {
                Action::Report(miner, news) => summarizes(tree, miner) && news
                    == !self.was_online,
                _ => false,
            },
            Event::Failed => match action {
                Action::Report(miner, news) => miner.is_silent() && news == self.was_online,
                _ => false,
            },
        }
    }

    /// Takes in an event and says what to do next.
    pub fn on(&mut self, event: Event) -> (action: Action)
        ensures
            *final(self) == old(self).after(event),
            old(self).answers(event, action),
    {
        match event {
            Event::Poll(request) => {
                self.requested = request;
                match request {
                    Some(fraction) => {
                        if same_request(self.asserted, request) {
                            Action::Read
                        } else {
                            Action::Write(fraction)
                        }
                    },
                    None => Action::Read,
                }
            },
            Event::Wrote => {
                self.asserted = self.requested;
                Action::Read
            },
            Event::Read(tree) => {
                let news = !self.was_online;
                self.was_online = true;
                Action::Report(summarize(&tree), news)
            },
            Event::Failed => {
                let news = self.was_online;
                self.was_online = false;
                self.asserted = None;
                Action::Report(Miner::default(), news)
            },
        }
    }
}

/// After a failed exchange, whatever is requested is written again.
pub proof fn lemma_after_an_outage_the_request_is_written_again(
    x: Exchange,
    fraction: Double,
    action: Action,
)
    requires
        x.after(Event::Failed).answers(Event::Poll(Some(fraction)), action),
    ensures
        action == Action::Write(fraction),
{
}

/// A request the miner has not taken yet is written before anything is
/// read, and read only once it was taken.
pub proof fn lemma_a_new_request_is_written_before_reading(
    x: Exchange,
    request: Option<Double>,
    first: Action,
    second: Action,
)
    requires
        x.owes(request),
        x.answers(Event::Poll(request), first),
        x.after(Event::Poll(request)).answers(Event::Wrote, second),
    ensures
        first == Action::Write(request->Some_0),
        second == Action::Read,
        x.after(Event::Poll(request)).after(Event::Wrote).asserted == request,
{
}

/// A request the miner took is not written again while the miner
/// answers and the request stands.
pub proof fn lemma_a_request_is_written_once(
    x: Exchange,
    fraction: Double,
    tree: Tree,
    action: Action,
)
    requires
        !fraction.is_nan(),
        x.after(Event::Poll(Some(fraction))).after(Event::Wrote).after(Event::Read(tree)).answers(
            Event::Poll(Some(fraction)),
            action,
        ),
    ensures
        action == Action::Read,
{
}

/// Until something is requested, nothing is written.
pub proof fn lemma_nothing_is_written_unasked(x: Exchange, action: Action)
    requires
        x.answers(Event::Poll(None), action),
    ensures
        action == Action::Read,
{
}

/// A miner that does not answer is offline, with no readings.
pub proof fn lemma_an_outage_reads_as_offline(x: Exchange, action: Action)
    requires
        x.answers(Event::Failed, action),
    ensures
        match action {
            Action::Report(miner, _) => miner.is_silent(),
            _ => false,
        },
{
}

// What a tree says, in the terms of its members.
/// A member is found under its name, the first where there are more;
/// where there is none, and in anything but an object, nothing is.
pub proof fn lemma_a_member_is_found_by_its_name(members: Vec<Member>, name: Seq<char>, i: int)
    ensures
        0 <= i < members@.len() && members@[i].name@ == name && (forall|j: int|
            0 <= j < i ==> (#[trigger] members@[j]).name@ != name) ==> field(
            Tree::Object(members),
            name,
        ) == Some(members@[i].value),
        (forall|j: int| 0 <= j < members@.len() ==> (#[trigger] members@[j]).name@ != name)
            ==> field(Tree::Object(members), name) is None,
        field(Tree::Other, name) is None,
{
    if 0 <= i < members@.len() && members@[i].name@ == name && (forall|j: int|
        0 <= j < i ==> (#[trigger] members@[j]).name@ != name) {
        lemma_member_at(members@, name, 0, i);
    }
    if forall|j: int| 0 <= j < members@.len() ==> (#[trigger] members@[j]).name@ != name {
        lemma_no_member_at(members@, name, 0);
    }
}

proof fn lemma_member_at(members: Seq<Member>, name: Seq<char>, from: int, i: int)
    requires
        0 <= from <= i < members.len(),
        members[i].name@ == name,
        forall|j: int| 0 <= j < i ==> (#[trigger] members[j]).name@ != name,
    ensures
        member_at(members, name, from) == Some(i),
    decreases i - from,
{
    if from < i {
        assert(members[from].name@ != name);
        lemma_member_at(members, name, from + 1, i);
    }
}

proof fn lemma_no_member_at(members: Seq<Member>, name: Seq<char>, from: int)
    requires
        0 <= from,
        forall|j: int| 0 <= j < members.len() ==> (#[trigger] members[j]).name@ != name,
    ensures
        member_at(members, name, from) is None,
    decreases members.len() - from,
{
    if from < members.len() {
        assert(members[from].name@ != name);
        lemma_no_member_at(members, name, from + 1);
    }
}

/// What is under a name is a number just where it is written as one.
pub proof fn lemma_only_numbers_are_numbers(tree: Tree, name: Seq<char>, x: Double)
    ensures
        number_spec(tree, name) == Some(x) <==> field(tree, name) == Some(Tree::Number(x)),
{
}

/// One member more is read after the others, where it has a number.
pub proof fn lemma_one_member_more(members: Seq<Member>, name: Seq<char>, m: Member)
    ensures
        numbers_in(members.push(m), name, members.len() as int + 1) == numbers_in(
            members,
            name,
            members.len() as int,
        ) + (match number_spec(m.value, name) {
            Some(x) => seq![x],
            None => Seq::<Double>::empty(),
        }),
        numbers_in(Seq::<Member>::empty(), name, 0) == Seq::<Double>::empty(),
{
    lemma_numbers_of_a_start(members, members.push(m), name, members.len() as int);
    assert(members.push(m)[members.len() as int] == m);
    let before = numbers_in(members, name, members.len() as int);
    if let Some(x) = number_spec(m.value, name) {
        assert(before.push(x) =~= before + seq![x]);
    } else {
        assert(before =~= before + Seq::<Double>::empty());
    }
}

proof fn lemma_numbers_of_a_start(a: Seq<Member>, b: Seq<Member>, name: Seq<char>, n: int)
    requires
        0 <= n <= a.len(),
        n <= b.len(),
        forall|i: int| 0 <= i < n ==> #[trigger] a[i] == b[i],
    ensures
        numbers_in(a, name, n) == numbers_in(b, name, n),
    decreases n,
{
    if n > 0 {
        assert(a[n - 1] == b[n - 1]);
        lemma_numbers_of_a_start(a, b, name, n - 1);
    }
}

/// One board more is read after the others.
pub proof fn lemma_one_board_more(
    boards: Seq<Member>,
    group: Seq<char>,
    name: Seq<char>,
    board: Member,
)
    ensures
        ({
            let members = under(board.value, group);
            readings(boards.push(board), group, name, boards.len() as int + 1) == readings(
                boards,
                group,
                name,
                boards.len() as int,
            ) + numbers_in(members, name, members.len() as int)
        }),
        readings(Seq::<Member>::empty(), group, name, 0) == Seq::<Double>::empty(),
{
    lemma_readings_of_a_start(boards, boards.push(board), group, name, boards.len() as int);
    assert(boards.push(board)[boards.len() as int] == board);
}

proof fn lemma_readings_of_a_start(
    a: Seq<Member>,
    b: Seq<Member>,
    group: Seq<char>,
    name: Seq<char>,
    n: int,
)
    requires
        0 <= n <= a.len(),
        n <= b.len(),
        forall|i: int| 0 <= i < n ==> #[trigger] a[i] == b[i],
    ensures
        readings(a, group, name, n) == readings(b, group, name, n),
    decreases n,
{
    if n > 0 {
        assert(a[n - 1] == b[n - 1]);
        lemma_readings_of_a_start(a, b, group, name, n - 1);
    }
}

/// Among the numbers under a name are just those of the members.
#[verifier::rlimit(50)]
proof fn lemma_what_is_among_the_numbers(members: Seq<Member>, name: Seq<char>, n: int)
    requires
        0 <= n <= members.len(),
    ensures
        forall|k: int, x: Double|
            #![trigger members[k], numbers_in(members, name, n).contains(x)]
            0 <= k < n && number_spec(members[k].value, name) == Some(x) ==> numbers_in(
                members,
                name,
                n,
            ).contains(x),
        forall|x: Double| #[trigger]
            numbers_in(members, name, n).contains(x) ==> exists|k: int|
                0 <= k < n && number_spec((#[trigger] members[k]).value, name) == Some(x),
    decreases n,
{
    if n > 0 {
        lemma_what_is_among_the_numbers(members, name, n - 1);
        let before = numbers_in(members, name, n - 1);
        let now = numbers_in(members, name, n);
        assert forall|k: int, x: Double|
            #![trigger members[k], now.contains(x)]
            0 <= k < n && number_spec(members[k].value, name) == Some(x) implies now.contains(
            x,
        ) by {
            if k < n - 1 {
                assert(before.contains(x));
                let at = choose|at: int| 0 <= at < before.len() && before[at] == x;
                assert(now[at] == x);
            } else {
                assert(now[now.len() - 1] == x);
            }
        }
        assert forall|x: Double| #[trigger] now.contains(x) implies exists|k: int|
            0 <= k < n && number_spec((#[trigger] members[k]).value, name) == Some(x) by {
            let at = choose|at: int| 0 <= at < now.len() && now[at] == x;
            if at < before.len() {
                assert(before[at] == x);
                assert(before.contains(x));
                let k = choose|k: int|
                    0 <= k < n - 1 && number_spec((#[trigger] members[k]).value, name) == Some(x);
                assert(number_spec(members[k].value, name) == Some(x));
            } else {
                assert(number_spec(members[n - 1].value, name) == Some(x));
            }
        }
    }
}

/// Whether a number is a board's, under a name in one of a group.
pub open spec fn reports(board: Member, group: Seq<char>, name: Seq<char>, x: Double) -> bool {
    exists|k: int|
        0 <= k < under(board.value, group).len() && number_spec(
            (#[trigger] under(board.value, group)[k]).value,
            name,
        ) == Some(x)
}

/// Among the readings is a number just where a board reports it.
#[verifier::rlimit(50)]
pub proof fn lemma_what_is_among_the_readings(
    boards: Seq<Member>,
    group: Seq<char>,
    name: Seq<char>,
    n: int,
    x: Double,
)
    requires
        0 <= n <= boards.len(),
    ensures
        readings(boards, group, name, n).contains(x) <==> exists|b: int|
            0 <= b < n && reports(#[trigger] boards[b], group, name, x),
    decreases n,
{
    if n > 0 {
        lemma_what_is_among_the_readings(boards, group, name, n - 1, x);
        let members = under(boards[n - 1].value, group);
        lemma_what_is_among_the_numbers(members, name, members.len() as int);
        let before = readings(boards, group, name, n - 1);
        let new = numbers_in(members, name, members.len() as int);
        let now = readings(boards, group, name, n);
        assert(now == before + new);
        assert(now.contains(x) <==> before.contains(x) || new.contains(x)) by {
            if before.contains(x) {
                let at = choose|at: int| 0 <= at < before.len() && before[at] == x;
                assert(now[at] == x);
            }
            if new.contains(x) {
                let at = choose|at: int| 0 <= at < new.len() && new[at] == x;
                assert(now[before.len() + at] == x);
            }
            if now.contains(x) {
                let at = choose|at: int| 0 <= at < now.len() && now[at] == x;
                if at < before.len() {
                    assert(before[at] == x);
                } else {
                    assert(new[at - before.len()] == x);
                }
            }
        }
        assert(new.contains(x) <==> reports(boards[n - 1], group, name, x));
        if exists|b: int| 0 <= b < n && reports(#[trigger] boards[b], group, name, x) {
            let b = choose|b: int| 0 <= b < n && reports(#[trigger] boards[b], group, name, x);
            if b < n - 1 {
                assert(reports(boards[b], group, name, x));
            }
        }
        if before.contains(x) {
            let b = choose|b: int| 0 <= b < n - 1 && reports(#[trigger] boards[b], group, name, x);
            assert(reports(boards[b], group, name, x));
        }
    }
}

/// Whether a member's name is one of a chip's temperature: it ends as a
/// temperature's does and begins as a chip's.
pub open spec fn names_a_chip(name: Seq<char>) -> bool {
    let end = "_temperature_c"@;
    &&& end.len() <= name.len() && name.skip(name.len() - end.len()) == end
    &&& ("chip_"@.len() <= name.len() && name.take("chip_"@.len() as int) == "chip_"@) || (
    "asic_"@.len() <= name.len() && name.take("asic_"@.len() as int) == "asic_"@)
}

/// Whether a number is a temperature that a board reports: one of its
/// chips', or of anything else.
pub open spec fn is_temperature(board: Member, chips: bool, x: Double) -> bool {
    exists|k: int|
        {
            let name = (#[trigger] members_of(board.value)[k]).name@;
            let end = "_temperature_c"@;
            &&& 0 <= k < members_of(board.value).len()
            &&& members_of(board.value)[k].value == Tree::Number(x)
            &&& end.len() <= name.len() && name.skip(name.len() - end.len()) == end
            &&& names_a_chip(name) == chips
        }
}

#[verifier::rlimit(50)]
proof fn lemma_what_is_among_the_temperatures(members: Seq<Member>, chips: bool, n: int, x: Double)
    requires
        0 <= n <= members.len(),
    ensures
        temperatures_in(members, chips, n).contains(x) <==> exists|k: int|
            {
                let name = (#[trigger] members[k]).name@;
                let end = "_temperature_c"@;
                &&& 0 <= k < n
                &&& members[k].value == Tree::Number(x)
                &&& end.len() <= name.len() && name.skip(name.len() - end.len()) == end
                &&& names_a_chip(name) == chips
            },
    decreases n,
{
    if n > 0 {
        lemma_what_is_among_the_temperatures(members, chips, n - 1, x);
        let before = temperatures_in(members, chips, n - 1);
        let now = temperatures_in(members, chips, n);
        let m = members[n - 1];
        assert(is_chip_temperature_spec(m.name@) == names_a_chip(m.name@));
        if now.len() > before.len() {
            let last = now[now.len() - 1];
            assert(now =~= before.push(last));
            assert(now.contains(x) <==> before.contains(x) || x == last) by {
                if before.contains(x) {
                    let at = choose|at: int| 0 <= at < before.len() && before[at] == x;
                    assert(now[at] == x);
                }
                if x == last {
                    assert(now[now.len() - 1] == x);
                }
                if now.contains(x) {
                    let at = choose|at: int| 0 <= at < now.len() && now[at] == x;
                    if at < before.len() {
                        assert(before[at] == x);
                    }
                }
            }
        }
    }
}

#[verifier::rlimit(50)]
proof fn lemma_what_is_among_the_chips(boards: Seq<Member>, n: int, x: Double)
    requires
        0 <= n <= boards.len(),
    ensures
        chip_readings(boards, n).contains(x) <==> exists|b: int|
            0 <= b < n && is_temperature(#[trigger] boards[b], true, x),
    decreases n,
{
    if n > 0 {
        lemma_what_is_among_the_chips(boards, n - 1, x);
        let members = members_of(boards[n - 1].value);
        lemma_what_is_among_the_temperatures(members, true, members.len() as int, x);
        let before = chip_readings(boards, n - 1);
        let new = temperatures(boards[n - 1].value, true);
        let now = chip_readings(boards, n);
        assert(now == before + new);
        assert(now.contains(x) <==> before.contains(x) || new.contains(x)) by {
            if before.contains(x) {
                let at = choose|at: int| 0 <= at < before.len() && before[at] == x;
                assert(now[at] == x);
            }
            if new.contains(x) {
                let at = choose|at: int| 0 <= at < new.len() && new[at] == x;
                assert(now[before.len() + at] == x);
            }
            if now.contains(x) {
                let at = choose|at: int| 0 <= at < now.len() && now[at] == x;
                if at < before.len() {
                    assert(before[at] == x);
                } else {
                    assert(new[at - before.len()] == x);
                }
            }
        }
        assert(new.contains(x) <==> is_temperature(boards[n - 1], true, x));
        if exists|b: int| 0 <= b < n && is_temperature(#[trigger] boards[b], true, x) {
            let b = choose|b: int| 0 <= b < n && is_temperature(#[trigger] boards[b], true, x);
            if b < n - 1 {
                assert(is_temperature(boards[b], true, x));
            }
        }
        if before.contains(x) {
            let b = choose|b: int| 0 <= b < n - 1 && is_temperature(#[trigger] boards[b], true, x);
            assert(is_temperature(boards[b], true, x));
        }
    }
}

// What becomes of the readings.
/// The largest reading is one of them and none is above it, unless none
/// is a number.
pub proof fn lemma_the_largest_is_one_of_them(xs: Seq<Double>)
    ensures
        max_spec(xs) is None <==> xs.len() == 0,
        max_spec(xs) matches Some(m) ==> xs.contains(m) && (forall|i: int|
            0 <= i < xs.len() && !(#[trigger] xs[i]).is_nan() ==> xs[i].at_most(m)),
    decreases xs.len(),
{
    if xs.len() > 0 {
        let before = xs.drop_last();
        lemma_the_largest_is_one_of_them(before);
        let m = max_spec(xs)->0;
        assert forall|i: int| 0 <= i < xs.len() && !(#[trigger] xs[i]).is_nan() implies xs[i].at_most(
            m,
        ) by {
            if i < xs.len() - 1 {
                assert(before[i] == xs[i]);
            }
        }
        if m == xs.last() {
            assert(xs[xs.len() - 1] == m);
        } else {
            let at = choose|at: int| 0 <= at < before.len() && before[at] == m;
            assert(xs[at] == m);
        }
    }
}

/// The smallest reading is one of them and none is below it, unless
/// none is a number.
pub proof fn lemma_the_smallest_is_one_of_them(xs: Seq<Double>)
    ensures
        min_spec(xs) is None <==> xs.len() == 0,
        min_spec(xs) matches Some(m) ==> xs.contains(m) && (forall|i: int|
            0 <= i < xs.len() && !(#[trigger] xs[i]).is_nan() ==> m.at_most(xs[i])),
    decreases xs.len(),
{
    if xs.len() > 0 {
        let before = xs.drop_last();
        lemma_the_smallest_is_one_of_them(before);
        let m = min_spec(xs)->0;
        assert forall|i: int| 0 <= i < xs.len() && !(#[trigger] xs[i]).is_nan() implies m.at_most(
            xs[i],
        ) by {
            if i < xs.len() - 1 {
                assert(before[i] == xs[i]);
            }
        }
        if m == xs.last() {
            assert(xs[xs.len() - 1] == m);
        } else {
            let at = choose|at: int| 0 <= at < before.len() && before[at] == m;
            assert(xs[at] == m);
        }
    }
}

/// A sum is of every reading: one more is added to it, and where none
/// is negative, none is above it.
pub proof fn lemma_a_sum_is_of_every_reading(xs: Seq<Double>, x: Double)
    ensures
        sum_spec(xs) is None <==> xs.len() == 0,
        sum_spec(seq![x]) == Some((Double { bits: 0 }).plus(x)),
        sum_spec(xs) matches Some(sum) ==> sum_spec(xs.push(x)) == Some(sum.plus(x)),
        (forall|i: int| 0 <= i < xs.len() ==> double::is_nonnegative(#[trigger] xs[i])) && xs.len()
            > 0 ==> (forall|i: int| 0 <= i < xs.len() ==> (#[trigger] xs[i]).at_most(
            sum_spec(xs)->0,
        )),
{
    assert(xs.push(x).drop_last() =~= xs);
    assert(seq![x].drop_last() =~= Seq::<Double>::empty());
    assert(added(Seq::<Double>::empty()) == (Double { bits: 0 }));
    if forall|i: int| 0 <= i < xs.len() ==> double::is_nonnegative(#[trigger] xs[i]) {
        lemma_none_is_above_the_sum(xs);
    }
}

proof fn lemma_none_is_above_the_sum(xs: Seq<Double>)
    requires
        forall|i: int| 0 <= i < xs.len() ==> double::is_nonnegative(#[trigger] xs[i]),
    ensures
        double::is_nonnegative(added(xs)),
        forall|i: int| 0 <= i < xs.len() ==> (#[trigger] xs[i]).at_most(added(xs)),
    decreases xs.len(),
{
    if xs.len() > 0 {
        let before = xs.drop_last();
        assert forall|i: int| 0 <= i < before.len() implies double::is_nonnegative(
            #[trigger] before[i],
        ) by {
            assert(before[i] == xs[i]);
        }
        lemma_none_is_above_the_sum(before);
        assert(double::is_nonnegative(xs[xs.len() - 1]));
        double::lemma_plus_nonnegative(added(before), xs.last());
        assert forall|i: int| 0 <= i < xs.len() implies (#[trigger] xs[i]).at_most(added(xs)) by {
            if i < xs.len() - 1 {
                assert(before[i] == xs[i]);
            }
        }
    }
}

/// A mean is the sum of the readings over how many they are.
pub proof fn lemma_a_mean_is_the_sum_over_the_count(xs: Seq<Double>)
    ensures
        mean_spec(xs) is Some <==> sum_spec(xs) is Some,
        sum_spec(xs) matches Some(sum) ==> mean_spec(xs) == Some(
            sum.over(Double::of_spec(xs.len() as int)),
        ),
{
}

/// The chip temperature reported is a chip's, and no chip of any board
/// is hotter; each board's is so among its own chips, and its own
/// temperature among its other sensors.
#[verifier::rlimit(50)]
pub proof fn lemma_the_hottest_is_reported(tree: Tree, miner: Miner, b: int, x: Double)
    requires
        summarizes(tree, miner),
        0 <= b < under(tree, "boards"@).len(),
    ensures
        ({
            let boards = under(tree, "boards"@);
            let board = miner.boards@[b];
            &&& is_temperature(boards[b], true, x) ==> {
                &&& miner.chip_temperature_c is Some
                &&& board.chip_temperature_c is Some
                &&& !x.is_nan() ==> x.at_most(miner.chip_temperature_c->0) && x.at_most(
                    board.chip_temperature_c->0,
                )
            }
            &&& is_temperature(boards[b], false, x) ==> {
                &&& board.board_temperature_c is Some
                &&& !x.is_nan() ==> x.at_most(board.board_temperature_c->0)
            }
            &&& miner.chip_temperature_c matches Some(m) ==> exists|k: int|
                0 <= k < boards.len() && is_temperature(#[trigger] boards[k], true, m)
            &&& board.chip_temperature_c matches Some(m) ==> is_temperature(boards[b], true, m)
            &&& board.board_temperature_c matches Some(m) ==> is_temperature(boards[b], false, m)
        }),
{
    let boards = under(tree, "boards"@);
    let n = boards.len() as int;
    let board = miner.boards@[b];
    assert(describes(boards[b], board));
    let (all, own, other) = (
        chip_readings(boards, n),
        temperatures(boards[b].value, true),
        temperatures(boards[b].value, false),
    );
    let members = members_of(boards[b].value);
    lemma_the_largest_is_one_of_them(all);
    lemma_the_largest_is_one_of_them(own);
    lemma_the_largest_is_one_of_them(other);
    lemma_what_is_among_the_chips(boards, n, x);
    lemma_what_is_among_the_temperatures(members, true, members.len() as int, x);
    lemma_what_is_among_the_temperatures(members, false, members.len() as int, x);
    if let Some(m) = miner.chip_temperature_c {
        lemma_what_is_among_the_chips(boards, n, m);
    }
    if let Some(m) = board.chip_temperature_c {
        lemma_what_is_among_the_temperatures(members, true, members.len() as int, m);
    }
    if let Some(m) = board.board_temperature_c {
        lemma_what_is_among_the_temperatures(members, false, members.len() as int, m);
    }
    if is_temperature(boards[b], true, x) {
        assert(all.contains(x) && own.contains(x));
        let at = choose|at: int| 0 <= at < all.len() && all[at] == x;
        let its = choose|at: int| 0 <= at < own.len() && own[at] == x;
        assert(all[at] == x && own[its] == x);
    }
    if is_temperature(boards[b], false, x) {
        assert(other.contains(x));
        let at = choose|at: int| 0 <= at < other.len() && other[at] == x;
        assert(other[at] == x);
    }
}

/// The ceiling reported is a thread's, and no thread of any board has a
/// lower one; each board's is so among its own threads.
#[verifier::rlimit(50)]
pub proof fn lemma_the_lowest_ceiling_is_reported(tree: Tree, miner: Miner, b: int, x: Double)
    requires
        summarizes(tree, miner),
        0 <= b < under(tree, "boards"@).len(),
    ensures
        ({
            let boards = under(tree, "boards"@);
            let board = miner.boards@[b];
            &&& reports(boards[b], "threads"@, "power_ceiling"@, x) ==> {
                &&& miner.power_ceiling is Some
                &&& board.power_ceiling is Some
                &&& !x.is_nan() ==> miner.power_ceiling->0.at_most(x)
                    && board.power_ceiling->0.at_most(x)
            }
            &&& miner.power_ceiling matches Some(m) ==> exists|k: int|
                0 <= k < boards.len() && reports(
                    #[trigger] boards[k],
                    "threads"@,
                    "power_ceiling"@,
                    m,
                )
            &&& board.power_ceiling matches Some(m) ==> reports(
                boards[b],
                "threads"@,
                "power_ceiling"@,
                m,
            )
        }),
{
    let (group, name) = ("threads"@, "power_ceiling"@);
    let boards = under(tree, "boards"@);
    let n = boards.len() as int;
    let board = miner.boards@[b];
    assert(describes(boards[b], board));
    let all = readings(boards, group, name, n);
    let own = of_threads(boards[b].value, name);
    let threads = under(boards[b].value, group);
    lemma_the_smallest_is_one_of_them(all);
    lemma_the_smallest_is_one_of_them(own);
    lemma_what_is_among_the_readings(boards, group, name, n, x);
    lemma_what_is_among_the_numbers(threads, name, threads.len() as int);
    if let Some(m) = miner.power_ceiling {
        lemma_what_is_among_the_readings(boards, group, name, n, m);
    }
    if reports(boards[b], group, name, x) {
        assert(all.contains(x));
        let k = choose|k: int|
            0 <= k < threads.len() && number_spec((#[trigger] threads[k]).value, name) == Some(x);
        assert(number_spec(threads[k].value, name) == Some(x));
        assert(own.contains(x));
        let at = choose|at: int| 0 <= at < all.len() && all[at] == x;
        let its = choose|at: int| 0 <= at < own.len() && own[at] == x;
        assert(all[at] == x && own[its] == x);
    }
}

/// The hash rate, power and share of a report are those of the readings
/// of that name, and those of each board of its own.
pub proof fn lemma_the_sums_are_of_their_readings(tree: Tree, miner: Miner, b: int)
    requires
        summarizes(tree, miner),
    ensures
        ({
            let boards = under(tree, "boards"@);
            let n = boards.len() as int;
            let held = readings(boards, "threads"@, "power_fraction"@, n);
            &&& miner.online
            &&& miner.uptime_secs is None && miner.shares_submitted is None && miner.pool is None
            &&& miner.difficulty is None
            &&& miner.hashrate_hs == sum_spec(readings(boards, "threads"@, "hashes_per_s"@, n))
            &&& miner.power_w == sum_spec(readings(boards, "regulators"@, "power_w"@, n))
            &&& held.len() > 0 ==> miner.power_fraction == mean_spec(held)
            &&& held.len() == 0 ==> miner.power_fraction == number_spec(
                tree,
                "target_power_fraction"@,
            )
            &&& miner.boards@.len() == n
            &&& 0 <= b < n ==> {
                let (said, board) = (boards[b].value, miner.boards@[b]);
                let threads = under(said, "threads"@);
                let m = threads.len() as int;
                &&& board.name@ == boards[b].name@
                &&& board.current_a is None
                &&& board.input_voltage_v is None
                &&& board.regulator_temperature_c is None
                &&& board.chips@.len() == 0
                &&& board.hashrate_hs == sum_spec(numbers_in(threads, "hashes_per_s"@, m))
                &&& board.power_fraction == mean_spec(numbers_in(threads, "power_fraction"@, m))
                &&& board.voltage_v == match field(said, "regulators"@) {
                    Some(regulators) => match field(regulators, "core"@) {
                        Some(core) => number_spec(core, "voltage_v"@),
                        None => None,
                    },
                    None => None,
                }
                &&& board.power_w == match field(said, "regulators"@) {
                    Some(regulators) => match field(regulators, "core"@) {
                        Some(core) => number_spec(core, "power_w"@),
                        None => None,
                    },
                    None => None,
                }
            }
        }),
{
    if 0 <= b < under(tree, "boards"@).len() {
        assert(describes(under(tree, "boards"@)[b], miner.boards@[b]));
    }
}

// What is done when.
/// A request is written just where it is not, as a number, the share
/// the miner took last, and the miner took what was requested last.
pub proof fn lemma_a_request_is_written_where_it_differs(
    x: Exchange,
    fraction: Double,
    action: Action,
)
    requires
        x.answers(Event::Poll(Some(fraction)), action),
    ensures
        x.asserted is None ==> action == Action::Write(fraction),
        x.asserted matches Some(held) && (held.is_nan() || fraction.is_nan() || held.rank()
            != fraction.rank()) ==> action == Action::Write(fraction),
        (x.asserted matches Some(held) && !held.is_nan() && !fraction.is_nan() && held.rank()
            == fraction.rank()) ==> action == Action::Read,
        x.after(Event::Poll(Some(fraction))).asserted == x.asserted,
        x.after(Event::Poll(Some(fraction))).after(Event::Wrote).asserted == Some(fraction),
        x.after(Event::Poll(Some(fraction))).after(Event::Failed).asserted is None,
        x.after(Event::Poll(Some(fraction))).requested == Some(fraction),
{
}

/// A report is news just where the miner answered before and does not
/// now, or the other way round.
pub proof fn lemma_news_is_a_change(x: Exchange, tree: Tree, read: Action, failed: Action)
    requires
        x.answers(Event::Read(tree), read),
        x.answers(Event::Failed, failed),
    ensures
        read matches Action::Report(miner, news) && miner.online && (news <==> !x.was_online),
        failed matches Action::Report(miner, news) && !miner.online && (news <==> x.was_online),
        x.after(Event::Read(tree)).was_online,
        !x.after(Event::Failed).was_online,
        x.after(Event::Read(tree)).asserted == x.asserted,
        x.after(Event::Wrote).was_online == x.was_online,
{
}

} // verus!
