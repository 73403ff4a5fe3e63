//! Calibration points and the Steinhart-Hart fit.
//!
//! A `Point` is one reference temperature with the averaged divider
//! voltage of each probe that was at that temperature. `rows` picks out
//! a probe's resistances, and `fit` turns them, with their natural
//! logarithms, into coefficients for the configuration.
use vstd::prelude::*;

use crate::double::Double;
use crate::ieee;
use crate::order;
use crate::rounding;
use crate::squares;
use crate::state::{Probe, State};
use crate::thermistor;
use crate::thermistor::Thermistor;
use crate::wording;

verus! {

/// The file of points.
#[derive(Debug, Clone, Default, PartialEq)]
pub struct Points {
    pub points: Vec<Point>,
}

/// One reference temperature and the probes measured at it.
#[derive(Debug, Clone, PartialEq)]
pub struct Point {
    /// A name for the point, such as "ice" or "bath-warm".
    pub label: String,
    /// The reference thermometer's reading, in degrees Celsius.
    pub reference_c: Double,
    /// When the point was taken, as Unix seconds.
    pub taken: u64,
    pub samples: Vec<Sample>,
}

/// One probe's averaged measurement at a point.
#[derive(Debug, Clone, PartialEq)]
pub struct Sample {
    pub probe: String,
    /// Mean divider voltage over the sampling window.
    pub volts: Double,
    /// Mean supply voltage over the same window.
    pub supply_v: Double,
    /// Largest minus smallest divider voltage in the window, a measure
    /// of how settled the probe was.
    pub spread_v: Double,
}

/// How far one point misses the fit.
#[derive(Debug, Clone, PartialEq)]
pub struct Residual {
    pub label: String,
    pub reference_c: Double,
    /// Fitted minus reference, in degrees Celsius.
    pub miss_c: Double,
}

/// A fitted probe: coefficients and how far each point misses.
#[derive(Debug, Clone, PartialEq)]
pub struct Fit {
    pub thermistor: Thermistor,
    pub residuals: Vec<Residual>,
}

/// How many Steinhart-Hart coefficients a fit solves for.
#[derive(Debug, Clone, Copy, PartialEq, Eq, Structural)]
pub enum Terms {
    /// `a` and `b`, with `c` = 0: the B-parameter model.
    Two,
    /// `a`, `b`, and `c`.
    Three,
}

impl Terms {
    /// Three coefficients need four or more points to be determined by
    /// more than the thermometer's rounding; fewer points get the B
    /// model.
    pub fn for_points(n: usize) -> (t: Self)
        ensures
            t == if n >= 4 {
                Terms::Three
            } else {
                Terms::Two
            },
    {
        if n >= 4 {
            Terms::Three
        } else {
            Terms::Two
        }
    }

    /// The terms asked for by their number, or by the count of points
    /// where nothing is asked. Any number but 2 and 3 is refused.
    pub fn chosen(asked: Option<u8>, count: usize) -> (r: Result<Terms, u8>)
        ensures
            r == match asked {
                Some(n) => if n == 2 {
                    Ok::<Terms, u8>(Terms::Two)
                } else if n == 3 {
                    Ok(Terms::Three)
                } else {
                    Err(n)
                },
                None => Ok(
                    if count >= 4 {
                        Terms::Three
                    } else {
                        Terms::Two
                    },
                ),
            },
    {
        match asked {
            Some(2) => Ok(Terms::Two),
            Some(3) => Ok(Terms::Three),
            Some(n) => Err(n),
            None => Ok(Self::for_points(count)),
        }
    }

    /// The terms in a word.
    pub fn to_text(self) -> (text: &'static str)
        ensures
            text@ == match self {
                Terms::Two => "Two"@,
                Terms::Three => "Three"@,
            },
    {
        match self {
            Terms::Two => "Two",
            Terms::Three => "Three",
        }
    }
}

/// One point that measured the probe being fitted.
#[derive(Debug, Clone, PartialEq)]
pub struct Row {
    pub label: String,
    pub reference_c: Double,
    pub ohms: Double,
}

/// A row's label, reference, and resistance.
pub type RowModel = (Seq<char>, Double, Double);

impl Row {
    pub open spec fn model(self) -> RowModel {
        (self.label@, self.reference_c, self.ohms)
    }
}

/// The rows' labels, references, and resistances.
pub open spec fn models(rows: Seq<Row>) -> Seq<RowModel> {
    rows.map_values(|r: Row| r.model())
}

/// Where the first sample of a probe is, from `i` up.
pub open spec fn sample_of(samples: Seq<Sample>, probe: Seq<char>, i: int) -> Option<int>
    decreases samples.len() - i,
{
    if i >= samples.len() {
        None
    } else if samples[i].probe@ == probe {
        Some(i)
    } else {
        sample_of(samples, probe, i + 1)
    }
}

/// A probe's rows among the first `n` points: each point that measured
/// it, with the resistance its first sample shows.
pub open spec fn rows_of(points: Seq<Point>, probe: Seq<char>, resistor: Double, n: int) -> Seq<
    RowModel,
>
    decreases n,
{
    if n <= 0 {
        Seq::<RowModel>::empty()
    } else {
        let before = rows_of(points, probe, resistor, n - 1);
        let p = points[n - 1];
        match sample_of(p.samples@, probe, 0) {
            Some(i) => before.push(
                (
                    p.label@,
                    p.reference_c,
                    thermistor::upper_leg(resistor, p.samples@[i].volts, p.samples@[i].supply_v),
                ),
            ),
            None => before,
        }
    }
}

impl Point {
    /// Where the first sample of a probe is.
    pub fn find(&self, probe: &str) -> (at: Option<usize>)
        ensures
            match at {
                Some(i) => i < self.samples@.len() && sample_of(self.samples@, probe@, 0) == Some(
                    i as int,
                ),
                None => sample_of(self.samples@, probe@, 0) is None,
            },
    {
        let mut i: usize = 0;
        while i < self.samples.len()
            invariant
                i <= self.samples@.len(),
                sample_of(self.samples@, probe@, 0) == sample_of(self.samples@, probe@, i as int),
            decreases self.samples@.len() - i,
        {
            if wording::same(self.samples[i].probe.as_str(), probe) {
                return Some(i);
            }
            i = i + 1;
        }
        None
    }
}

impl Points {
    /// A probe's rows: each point that measured it, with the resistance
    /// its divider shows.
    pub fn rows(&self, probe: &str, divider_resistor: Double) -> (rows: Vec<Row>)
        ensures
            models(rows@) == rows_of(
                self.points@,
                probe@,
                divider_resistor,
                self.points@.len() as int,
            ),
    {
        let mut rows: Vec<Row> = Vec::new();
        let mut i: usize = 0;
        assert(models(rows@) =~= Seq::<RowModel>::empty());
        while i < self.points.len()
            invariant
                i <= self.points@.len(),
                models(rows@) == rows_of(self.points@, probe@, divider_resistor, i as int),
            decreases self.points@.len() - i,
        {
            let point = &self.points[i];
            if let Some(at) = point.find(probe) {
                let sample = &point.samples[at];
                let ohms = thermistor::divider_ohms(
                    divider_resistor,
                    sample.volts,
                    sample.supply_v,
                );
                let ghost before = rows@;
                rows.push(Row { label: point.label.clone(), reference_c: point.reference_c, ohms });
                assert(models(rows@) =~= models(before).push(rows@.last().model()));
            }
            i = i + 1;
        }
        rows
    }
}

/// How many of the first `n` points measured a probe.
pub open spec fn measured_count(points: Seq<Point>, probe: Seq<char>, n: int) -> int
    decreases n,
{
    if n <= 0 {
        0
    } else {
        measured_count(points, probe, n - 1) + if sample_of(
            points[n - 1].samples@,
            probe,
            0,
        ) is Some {
            1int
        } else {
            0
        }
    }
}

/// A probe has one row for each point that measured it, whatever its
/// divider.
pub proof fn lemma_a_row_for_each_measured_point(
    points: Seq<Point>,
    probe: Seq<char>,
    resistor: Double,
    n: int,
)
    requires
        0 <= n,
    ensures
        rows_of(points, probe, resistor, n).len() == measured_count(points, probe, n),
        measured_count(points, probe, n) <= n,
    decreases n,
{
    if n > 0 {
        lemma_a_row_for_each_measured_point(points, probe, resistor, n - 1);
    }
}

impl Points {
    /// How many points measured a probe.
    pub fn count(&self, probe: &str) -> (n: usize)
        ensures
            n == measured_count(self.points@, probe@, self.points@.len() as int),
    {
        let mut n: usize = 0;
        let mut i: usize = 0;
        while i < self.points.len()
            invariant
                n <= i <= self.points@.len(),
                n == measured_count(self.points@, probe@, i as int),
            decreases self.points@.len() - i,
        {
            if self.points[i].find(probe).is_some() {
                n = n + 1;
            }
            i = i + 1;
        }
        n
    }
}

/// Why there is no fit.
#[derive(Debug, Clone, Copy, PartialEq, Eq, Structural)]
pub enum FitError {
    /// Fewer than two points measured the probe.
    TooFew(usize),
    /// Two points, asked for three coefficients.
    TwoForThree,
    /// The points do not determine the coefficients.
    Undetermined,
}

impl FitError {
    pub open spec fn text_spec(self, probe: Seq<char>) -> Seq<char> {
        match self {
            FitError::TooFew(n) => "probe "@ + probe + " has "@ + wording::digits(n as nat)
                + " points; two or more are needed"@,
            FitError::TwoForThree => "probe "@ + probe
                + " has 2 points; three coefficients need 3"@,
            FitError::Undetermined => "points do not determine the coefficients"@,
        }
    }

    /// The reason in words, for a probe.
    pub fn to_text(&self, probe: &str) -> (text: String)
        ensures
            text@ == self.text_spec(probe@),
    {
        match self {
            FitError::TooFew(n) => {
                let mut text = "probe ".to_string();
                text.append(probe);
                text.append(" has ");
                wording::push_digits(&mut text, *n as u128);
                text.append(" points; two or more are needed");
                text
            },
            FitError::TwoForThree => {
                let mut text = "probe ".to_string();
                text.append(probe);
                text.append(" has 2 points; three coefficients need 3");
                text
            },
            FitError::Undetermined => "points do not determine the coefficients".to_string(),
        }
    }
}

/// Below this a pivot or a determinant is nothing: 1e-300, as a
/// double's bits.
pub const LEAST_PIVOT: u64 = 0x01a5_6e1f_c2f8_f359;

/// `1/T` at a temperature in degrees Celsius.
pub open spec fn inverse_kelvin_spec(celsius: Double) -> Double {
    (Double { bits: thermistor::ONE }).over(
        celsius.plus(Double { bits: thermistor::ZERO_C_IN_KELVIN }),
    )
}

fn inverse_kelvin(celsius: Double) -> (y: Double)
    ensures
        y == inverse_kelvin_spec(celsius),
{
    (Double { bits: thermistor::ONE }).over(
        celsius.plus(Double { bits: thermistor::ZERO_C_IN_KELVIN }),
    )
}

/// The sums a line is fitted from.
#[derive(Debug, Clone, Copy, PartialEq, Eq, Structural)]
pub struct Sums {
    pub x: Double,
    pub y: Double,
    pub xx: Double,
    pub xy: Double,
}

/// The sums over the first `n` rows, in order.
pub open spec fn sums_of(rows: Seq<RowModel>, logs: Seq<Double>, n: int) -> Sums
    decreases n,
{
    let zero = Double { bits: 0 };
    if n <= 0 {
        Sums { x: zero, y: zero, xx: zero, xy: zero }
    } else {
        let s = sums_of(rows, logs, n - 1);
        let x = logs[n - 1];
        let y = inverse_kelvin_spec(rows[n - 1].1);
        Sums {
            x: s.x.plus(x),
            y: s.y.plus(y),
            xx: s.xx.plus(x.times(x)),
            xy: s.xy.plus(x.times(y)),
        }
    }
}

/// The line through the sums of `n` rows: y = a + b x with x = ln R and
/// y = 1/T, by Cramer's rule, unless the determinant is nothing.
pub open spec fn line_of(resistor: Double, n: Double, s: Sums) -> Option<Thermistor> {
    let det = n.times(s.xx).minus(s.x.times(s.x));
    if det.magnitude().below(Double { bits: LEAST_PIVOT }) {
        None
    } else {
        let b = n.times(s.xy).minus(s.x.times(s.y)).over(det);
        let a = s.y.minus(b.times(s.x)).over(n);
        Some(Thermistor { divider_resistor: resistor, a, b, c: Double { bits: 0 } })
    }
}

/// Least squares for y = a + b x.
fn least_squares_two(divider_resistor: Double, rows: &Vec<Row>, logs: &Vec<Double>) -> (t: Option<
    Thermistor,
>)
    requires
        rows@.len() == logs@.len(),
    ensures
        t == line_of(
            divider_resistor,
            Double::of_spec(rows@.len() as int),
            sums_of(models(rows@), logs@, rows@.len() as int),
        ),
{
    let n = Double::count(rows.len());
    let zero = Double { bits: 0 };
    let mut s = Sums { x: zero, y: zero, xx: zero, xy: zero };
    let mut i: usize = 0;
    while i < rows.len()
        invariant
            i <= rows@.len() == logs@.len(),
            s == sums_of(models(rows@), logs@, i as int),
        decreases rows@.len() - i,
    {
        let x = logs[i];
        let y = inverse_kelvin(rows[i].reference_c);
        s =
        Sums {
            x: s.x.plus(x),
            y: s.y.plus(y),
            xx: s.xx.plus(x.times(x)),
            xy: s.xy.plus(x.times(y)),
        };
        i = i + 1;
    }
    let det = n.times(s.xx).minus(s.x.times(s.x));
    if det.magnitude().below(Double { bits: LEAST_PIVOT }) {
        return None;
    }
    let b = n.times(s.xy).minus(s.x.times(s.y)).over(det);
    let a = s.y.minus(b.times(s.x)).over(n);
    Some(Thermistor { divider_resistor, a, b, c: zero })
}

// Three coefficients.
/// Three equations in three unknowns: rows of the three factors and
/// the right-hand side.
pub type Grid = Seq<Seq<Double>>;

/// Three rows of four numbers.
pub open spec fn is_grid(g: Grid) -> bool {
    g.len() == 3 && forall|i: int| 0 <= i < 3 ==> (#[trigger] g[i]).len() == 4
}

/// The numbers of a grid.
pub open spec fn numbers(g: Vec<Vec<Double>>) -> Grid {
    g@.map_values(|r: Vec<Double>| r@)
}

/// The functions the curve is a sum of: 1, x, and x cubed.
pub open spec fn basis_spec(x: Double, i: int) -> Double {
    if i == 0 {
        Double { bits: thermistor::ONE }
    } else if i == 1 {
        x
    } else {
        thermistor::cubed_spec(x)
    }
}

fn basis(x: Double, i: usize) -> (b: Double)
    ensures
        b == basis_spec(x, i as int),
{
    if i == 0 {
        Double { bits: thermistor::ONE }
    } else if i == 1 {
        x
    } else {
        thermistor::cubed(x)
    }
}

/// A grid of zeros.
pub open spec fn zero_grid() -> Grid {
    Seq::new(3, |i: int| Seq::new(4, |j: int| Double { bits: 0 }))
}

/// One more observation of the curve, taken into the normal equations.
pub open spec fn observed(g: Grid, x: Double, y: Double) -> Grid {
    Seq::new(
        3,
        |i: int|
            Seq::new(
                4,
                |j: int|
                    g[i][j].plus(
                        basis_spec(x, i).times(
                            if j < 3 {
                                basis_spec(x, j)
                            } else {
                                y
                            },
                        ),
                    ),
            ),
    )
}

/// The normal equations for y = a + b x + c x^3 over the first `n`
/// rows, with x = ln R and y = 1/T.
pub open spec fn normal_of(rows: Seq<RowModel>, logs: Seq<Double>, n: int) -> Grid
    decreases n,
{
    if n <= 0 {
        zero_grid()
    } else {
        observed(
            normal_of(rows, logs, n - 1),
            logs[n - 1],
            inverse_kelvin_spec(rows[n - 1].1),
        )
    }
}

fn zeros() -> (g: Vec<Vec<Double>>)
    ensures
        numbers(g) == zero_grid(),
{
    let mut g: Vec<Vec<Double>> = Vec::new();
    let mut i: usize = 0;
    while i < 3
        invariant
            i <= 3,
            g@.len() == i,
            forall|r: int| 0 <= r < i ==> (#[trigger] g@[r])@ == zero_grid()[r],
        decreases 3 - i,
    {
        let mut row: Vec<Double> = Vec::new();
        let mut j: usize = 0;
        while j < 4
            invariant
                i < 3,
                j <= 4,
                row@.len() == j,
                forall|c: int| 0 <= c < j ==> row@[c] == zero_grid()[i as int][c],
            decreases 4 - j,
        {
            row.push(Double { bits: 0 });
            j = j + 1;
        }
        assert(row@ =~= zero_grid()[i as int]);
        g.push(row);
        i = i + 1;
    }
    assert(numbers(g) =~= zero_grid());
    g
}

fn observe(g: &Vec<Vec<Double>>, x: Double, y: Double) -> (after: Vec<Vec<Double>>)
    requires
        is_grid(numbers(*g)),
    ensures
        numbers(after) == observed(numbers(*g), x, y),
{
    let ghost want = observed(numbers(*g), x, y);
    let mut after: Vec<Vec<Double>> = Vec::new();
    let mut i: usize = 0;
    while i < 3
        invariant
            i <= 3,
            is_grid(numbers(*g)),
            want == observed(numbers(*g), x, y),
            after@.len() == i,
            forall|r: int| 0 <= r < i ==> (#[trigger] after@[r])@ == want[r],
        decreases 3 - i,
    {
        let bi = basis(x, i);
        assert(g@[i as int]@ == numbers(*g)[i as int]);
        let mut row: Vec<Double> = Vec::new();
        let mut j: usize = 0;
        while j < 4
            invariant
                i < 3,
                j <= 4,
                g@.len() == 3,
                g@[i as int]@ == numbers(*g)[i as int],
                g@[i as int]@.len() == 4,
                bi == basis_spec(x, i as int),
                want == observed(numbers(*g), x, y),
                row@.len() == j,
                forall|c: int| 0 <= c < j ==> row@[c] == want[i as int][c],
            decreases 4 - j,
        {
            let other = if j < 3 {
                basis(x, j)
            } else {
                y
            };
            row.push(g[i][j].plus(bi.times(other)));
            j = j + 1;
        }
        assert(row@ =~= want[i as int]);
        after.push(row);
        i = i + 1;
    }
    assert(numbers(after) =~= want);
    after
}

/// The row from `col` up, before `n`, whose factor in that column is
/// largest in magnitude; the last of several. A NaN is larger than any
/// number.
pub open spec fn pivot_of(g: Grid, col: int, n: int) -> int
    decreases n - col,
{
    if n <= col + 1 {
        col
    } else {
        let best = pivot_of(g, col, n - 1);
        if g[best][col].magnitude().bits > g[n - 1][col].magnitude().bits {
            best
        } else {
            n - 1
        }
    }
}

/// A grid with two rows exchanged.
pub open spec fn swapped(g: Grid, a: int, b: int) -> Grid {
    g.update(a, g[b]).update(b, g[a])
}

/// A grid with a column cleared from every row but its own.
pub open spec fn eliminated(g: Grid, col: int) -> Grid {
    Seq::new(
        3,
        |r: int|
            if r == col {
                g[r]
            } else {
                let factor = g[r][col].over(g[col][col]);
                Seq::new(
                    4,
                    |k: int|
                        if k < col {
                            g[r][k]
                        } else {
                            g[r][k].minus(factor.times(g[col][k]))
                        },
                )
            },
    )
}

/// The grid with the columns from `col` up eliminated in turn, each
/// after its pivot is brought up, unless a pivot is nothing.
pub open spec fn reduced(g: Grid, col: int) -> Option<Grid>
    decreases 3 - col,
{
    if col >= 3 {
        Some(g)
    } else {
        let p = pivot_of(g, col, 3);
        if g[p][col].magnitude().below(Double { bits: LEAST_PIVOT }) {
            None
        } else {
            reduced(eliminated(swapped(g, col, p), col), col + 1)
        }
    }
}

/// What three equations solve to.
pub open spec fn solution(g: Grid) -> Option<(Double, Double, Double)> {
    match reduced(g, 0) {
        Some(r) => Some((r[0][3].over(r[0][0]), r[1][3].over(r[1][1]), r[2][3].over(r[2][2]))),
        None => None,
    }
}

/// A pivot is a row at or below its column, no row there has a larger
/// factor, and no later one has as large a factor.
pub proof fn lemma_pivot_is_largest(g: Grid, col: int, n: int)
    requires
        0 <= col < n,
    ensures
        col <= pivot_of(g, col, n) < n,
        forall|j: int|
            col <= j < n ==> (#[trigger] g[j])[col].magnitude().bits <= g[pivot_of(
                g,
                col,
                n,
            )][col].magnitude().bits,
        forall|j: int|
            pivot_of(g, col, n) < j < n ==> (#[trigger] g[j])[col].magnitude().bits < g[pivot_of(
                g,
                col,
                n,
            )][col].magnitude().bits,
    decreases n - col,
{
    if n > col + 1 {
        lemma_pivot_is_largest(g, col, n - 1);
    }
}

fn eliminate(g: &Vec<Vec<Double>>, col: usize) -> (after: Vec<Vec<Double>>)
    requires
        is_grid(numbers(*g)),
        col < 3,
    ensures
        numbers(after) == eliminated(numbers(*g), col as int),
{
    let ghost want = eliminated(numbers(*g), col as int);
    let mut after: Vec<Vec<Double>> = Vec::new();
    assert(g@[col as int]@ == numbers(*g)[col as int]);
    let mut i: usize = 0;
    while i < 3
        invariant
            i <= 3,
            col < 3,
            is_grid(numbers(*g)),
            g@[col as int]@ == numbers(*g)[col as int],
            want == eliminated(numbers(*g), col as int),
            after@.len() == i,
            forall|r: int| 0 <= r < i ==> (#[trigger] after@[r])@ == want[r],
        decreases 3 - i,
    {
        assert(g@[i as int]@ == numbers(*g)[i as int]);
        let factor = g[i][col].over(g[col][col]);
        let mut row: Vec<Double> = Vec::new();
        let mut k: usize = 0;
        while k < 4
            invariant
                i < 3,
                col < 3,
                k <= 4,
                is_grid(numbers(*g)),
                g@[i as int]@ == numbers(*g)[i as int],
                g@[col as int]@ == numbers(*g)[col as int],
                factor == numbers(*g)[i as int][col as int].over(
                    numbers(*g)[col as int][col as int],
                ),
                want == eliminated(numbers(*g), col as int),
                row@.len() == k,
                forall|c: int| 0 <= c < k ==> row@[c] == want[i as int][c],
            decreases 4 - k,
        {
            if i == col || k < col {
                row.push(g[i][k]);
            } else {
                row.push(g[i][k].minus(factor.times(g[col][k])));
            }
            k = k + 1;
        }
        assert(row@ =~= want[i as int]);
        after.push(row);
        i = i + 1;
    }
    assert(numbers(after) =~= want);
    after
}

/// Solves three equations by Gaussian elimination with pivoting.
fn solve3(start: Vec<Vec<Double>>) -> (r: Option<(Double, Double, Double)>)
    requires
        is_grid(numbers(start)),
    ensures
        r == solution(numbers(start)),
{
    let ghost whole = reduced(numbers(start), 0);
    let mut g = start;
    let mut col: usize = 0;
    while col < 3
        invariant
            col <= 3,
            is_grid(numbers(g)),
            whole == reduced(numbers(start), 0),
            reduced(numbers(g), col as int) == whole,
        decreases 3 - col,
    {
        let ghost before = numbers(g);
        let mut pivot: usize = col;
        let mut n: usize = col + 1;
        while n < 3
            invariant
                col < 3,
                is_grid(numbers(g)),
                numbers(g) == before,
                col + 1 <= n <= 3,
                col <= pivot < n,
                pivot == pivot_of(before, col as int, n as int),
            decreases 3 - n,
        {
            assert(g@[n as int]@ == before[n as int]);
            assert(g@[pivot as int]@ == before[pivot as int]);
            if !(g[pivot][col].magnitude().bits > g[n][col].magnitude().bits) {
                pivot = n;
            }
            n = n + 1;
        }
        assert(g@[pivot as int]@ == before[pivot as int]);
        if g[pivot][col].magnitude().below(Double { bits: LEAST_PIVOT }) {
            return None;
        }
        exchange(&mut g, col, pivot);
        g = eliminate(&g, col);
        col = col + 1;
    }
    assert(g@[0]@ == numbers(g)[0]);
    assert(g@[1]@ == numbers(g)[1]);
    assert(g@[2]@ == numbers(g)[2]);
    Some((g[0][3].over(g[0][0]), g[1][3].over(g[1][1]), g[2][3].over(g[2][2])))
}

/// Exchanges two rows.
fn exchange(g: &mut Vec<Vec<Double>>, a: usize, b: usize)
    requires
        a < old(g)@.len(),
        b < old(g)@.len(),
    ensures
        numbers(*final(g)) == swapped(numbers(*old(g)), a as int, b as int),
{
    let row_a = g[a].clone();
    let row_b = g[b].clone();
    proof {
        assert(row_a@ =~= g@[a as int]@);
        assert(row_b@ =~= g@[b as int]@);
    }
    g.set(a, row_b);
    g.set(b, row_a);
    assert(numbers(*g) =~= swapped(numbers(*old(g)), a as int, b as int));
}

/// The curve the rows determine, if they do.
pub open spec fn curve_of(resistor: Double, rows: Seq<RowModel>, logs: Seq<Double>) -> Option<
    Thermistor,
> {
    match solution(normal_of(rows, logs, rows.len() as int)) {
        Some(x) => Some(Thermistor { divider_resistor: resistor, a: x.0, b: x.1, c: x.2 }),
        None => None,
    }
}

/// Least squares for y = a + b x + c x^3.
fn least_squares(divider_resistor: Double, rows: &Vec<Row>, logs: &Vec<Double>) -> (t: Option<
    Thermistor,
>)
    requires
        rows@.len() == logs@.len(),
    ensures
        t == curve_of(divider_resistor, models(rows@), logs@),
{
    let mut g = zeros();
    let mut i: usize = 0;
    while i < rows.len()
        invariant
            i <= rows@.len() == logs@.len(),
            is_grid(numbers(g)),
            numbers(g) == normal_of(models(rows@), logs@, i as int),
        decreases rows@.len() - i,
    {
        g = observe(&g, logs[i], inverse_kelvin(rows[i].reference_c));
        i = i + 1;
    }
    match solve3(g) {
        Some(x) => Some(Thermistor { divider_resistor, a: x.0, b: x.1, c: x.2 }),
        None => None,
    }
}

/// The thermistor some rows show, or why they show none.
pub open spec fn thermistor_of(
    resistor: Double,
    rows: Seq<RowModel>,
    logs: Seq<Double>,
    terms: Terms,
) -> Result<Thermistor, FitError> {
    if rows.len() < 2 {
        Err(FitError::TooFew(rows.len() as usize))
    } else if rows.len() == 2 && terms == Terms::Three {
        Err(FitError::TwoForThree)
    } else {
        match (if terms == Terms::Two {
            line_of(
                resistor,
                Double::of_spec(rows.len() as int),
                sums_of(rows, logs, rows.len() as int),
            )
        } else {
            curve_of(resistor, rows, logs)
        }) {
            Some(t) => Ok(t),
            None => Err(FitError::Undetermined),
        }
    }
}

// What the fit computes, step by step rounded, of the least squares.
/// The rows' 1/T.
pub open spec fn inverse_kelvins(rows: Seq<RowModel>) -> Seq<Double> {
    Seq::new(rows.len(), |i: int| inverse_kelvin_spec(rows[i].1))
}

/// The rows the elimination takes its pivots from.
pub open spec fn pivots_of(g: Grid) -> (int, int, int) {
    let first = pivot_of(g, 0, 3);
    let g1 = eliminated(swapped(g, 0, first), 0);
    let second = pivot_of(g1, 1, 3);
    let g2 = eliminated(swapped(g1, 1, second), 1);
    (first, second, pivot_of(g2, 2, 3))
}

/// Two coefficients are those of the line of least squares over ln R and
/// 1/T, and three those of the curve by the elimination's pivots, each
/// operation rounded to a double.
pub proof fn lemma_a_fit_is_of_least_squares(
    resistor: Double,
    rows: Seq<RowModel>,
    logs: Seq<Double>,
    terms: Terms,
)
    requires
        logs.len() == rows.len(),
        thermistor_of(resistor, rows, logs, terms) is Ok,
    ensures
        ({
            let t = thermistor_of(resistor, rows, logs, terms)->Ok_0;
            let n = rows.len() as int;
            let ys = inverse_kelvins(rows);
            let g = squares::normal(logs, ys, n);
            &&& terms == Terms::Two ==> (t.a, t.b) == squares::line(
                Double::of_spec(n),
                squares::totals(logs, ys, n),
            ) && t.c.bits == 0
            &&& terms == Terms::Three ==> (t.a, t.b, t.c) == squares::unknowns(
                squares::diagonal(g, pivots_of(g)),
            )
        }),
{
    let n = rows.len() as int;
    lemma_sums_are_totals(rows, logs, n);
    lemma_normal_is_normal(rows, logs, n);
    let g = normal_of(rows, logs, n);
    let first = pivot_of(g, 0, 3);
    let g1 = eliminated(swapped(g, 0, first), 0);
    let second = pivot_of(g1, 1, 3);
    let g2 = eliminated(swapped(g1, 1, second), 1);
    let third = pivot_of(g2, 2, 3);
    let g3 = eliminated(swapped(g2, 2, third), 2);
    lemma_step_is_step(g, 0, first);
    lemma_step_is_step(g1, 1, second);
    lemma_step_is_step(g2, 2, third);
    if terms == Terms::Three {
        reveal_with_fuel(reduced, 4);
        assert(reduced(g, 0) == Some(g3));
    }
}

proof fn lemma_sums_are_totals(rows: Seq<RowModel>, logs: Seq<Double>, n: int)
    requires
        0 <= n <= rows.len(),
    ensures
        ({
            let s = sums_of(rows, logs, n);
            let t = squares::totals(logs, inverse_kelvins(rows), n);
            s.x == t.x && s.y == t.y && s.xx == t.xx && s.xy == t.xy
        }),
    decreases n,
{
    if n > 0 {
        lemma_sums_are_totals(rows, logs, n - 1);
    }
}

proof fn lemma_normal_is_normal(rows: Seq<RowModel>, logs: Seq<Double>, n: int)
    requires
        0 <= n <= rows.len(),
    ensures
        normal_of(rows, logs, n) == squares::normal(logs, inverse_kelvins(rows), n),
    decreases n,
{
    let ys = inverse_kelvins(rows);
    if n > 0 {
        lemma_normal_is_normal(rows, logs, n - 1);
        let g = normal_of(rows, logs, n - 1);
        let (x, y) = (logs[n - 1], ys[n - 1]);
        assert(observed(g, x, y) =~~= squares::with_point(g, x, y));
    } else {
        assert(zero_grid() =~~= squares::normal(logs, ys, n));
    }
}

proof fn lemma_step_is_step(g: Grid, col: int, pivot: int)
    ensures
        eliminated(swapped(g, col, pivot), col) == squares::stepped(g, col, pivot),
{
    assert(eliminated(swapped(g, col, pivot), col) =~~= squares::stepped(g, col, pivot));
}

/// Fits `probe` from every point that measured it, with the divider's
/// fixed resistor `divider_resistor` in ohms, by least squares over the
/// chosen number of coefficients. `logs` are the natural logarithms of
/// the resistances of the probe's rows.
pub fn fit(
    points: &Points,
    probe: &str,
    divider_resistor: Double,
    terms: Terms,
    logs: &Vec<Double>,
) -> (r: Result<Fit, FitError>)
    requires
        logs@.len() == measured_count(points.points@, probe@, points.points@.len() as int),
    ensures
        ({
            let rows = rows_of(
                points.points@,
                probe@,
                divider_resistor,
                points.points@.len() as int,
            );
            match thermistor_of(divider_resistor, rows, logs@, terms) {
                Err(e) => r == Err::<Fit, FitError>(e),
                Ok(t) => r is Ok && r->Ok_0.thermistor == t && r->Ok_0.residuals@.len() == rows.len()
                    && forall|i: int|
                    0 <= i < rows.len() ==> {
                        &&& (#[trigger] r->Ok_0.residuals@[i]).label@ == rows[i].0
                        &&& r->Ok_0.residuals@[i].reference_c == rows[i].1
                        &&& r->Ok_0.residuals@[i].miss_c == t.celsius_at(logs@[i]).minus(rows[i].1)
                    },
            }
        }),
{
    let rows = points.rows(probe, divider_resistor);
    proof {
        lemma_a_row_for_each_measured_point(
            points.points@,
            probe@,
            divider_resistor,
            points.points@.len() as int,
        );
    }
    if rows.len() < 2 {
        return Err(FitError::TooFew(rows.len()));
    }
    if rows.len() == 2 && terms == Terms::Three {
        return Err(FitError::TwoForThree);
    }
    let found = match terms {
        Terms::Two => least_squares_two(divider_resistor, &rows, logs),
        Terms::Three => least_squares(divider_resistor, &rows, logs),
    };
    let t = match found {
        Some(t) => t,
        None => {
            return Err(FitError::Undetermined);
        },
    };
    let mut residuals: Vec<Residual> = Vec::new();
    let mut i: usize = 0;
    while i < rows.len()
        invariant
            i <= rows@.len() == logs@.len(),
            residuals@.len() == i,
            forall|j: int|
                0 <= j < i ==> {
                    &&& (#[trigger] residuals@[j]).label@ == models(rows@)[j].0
                    &&& residuals@[j].reference_c == models(rows@)[j].1
                    &&& residuals@[j].miss_c == t.celsius_at(logs@[j]).minus(models(rows@)[j].1)
                },
        decreases rows@.len() - i,
    {
        let row = &rows[i];
        residuals.push(
            Residual {
                label: row.label.clone(),
                reference_c: row.reference_c,
                miss_c: t.resistance_to_celsius(logs[i]).minus(row.reference_c),
            },
        );
        i = i + 1;
    }
    Ok(Fit { thermistor: t, residuals })
}

// The probes a file names.
/// Whether sample `j` of point `i` is of a probe.
pub open spec fn named_at(points: Seq<Point>, i: int, j: int, name: Seq<char>) -> bool {
    0 <= i < points.len() && 0 <= j < points[i].samples@.len() && points[i].samples@[j].probe@
        == name
}

/// Whether any sample is of a probe.
pub open spec fn sampled(points: Seq<Point>, name: Seq<char>) -> bool {
    exists|i: int, j: int| named_at(points, i, j, name)
}

/// Whether any sample before sample `m` of point `n` is of a probe.
pub open spec fn sampled_before(points: Seq<Point>, n: int, m: int, name: Seq<char>) -> bool {
    exists|i: int, j: int| #[trigger]
        named_at(points, i, j, name) && (i < n || (i == n && j < m))
}

/// Whether a list holds a name.
pub open spec fn listed(names: Seq<String>, name: Seq<char>) -> bool {
    exists|i: int| 0 <= i < names.len() && (#[trigger] names[i])@ == name
}

/// Names in order, each once.
pub open spec fn ascending(names: Seq<String>) -> bool {
    forall|i: int, j: int|
        0 <= i < j < names.len() ==> wording::precedes_spec(
            (#[trigger] names[i])@,
            (#[trigger] names[j])@,
        )
}

/// Puts a name into a list in order, unless it is there.
fn enlist(names: &mut Vec<String>, name: &String)
    requires
        ascending(old(names)@),
    ensures
        ascending(final(names)@),
        forall|t: Seq<char>| #[trigger]
            listed(final(names)@, t) <==> (listed(old(names)@, t) || t == name@),
{
    let mut i: usize = 0;
    while i < names.len() && wording::precedes(names[i].as_str(), name.as_str())
        invariant
            i <= names@.len(),
            names@ == old(names)@,
            forall|k: int| 0 <= k < i ==> wording::precedes_spec((#[trigger] names@[k])@, name@),
        decreases names@.len() - i,
    {
        i = i + 1;
    }
    if i < names.len() && wording::same(names[i].as_str(), name.as_str()) {
        proof {
            assert(names@[i as int]@ == name@);
            assert forall|t: Seq<char>| #[trigger]
                listed(names@, t) <==> (listed(old(names)@, t) || t == name@) by {}
        }
        return;
    }
    let ghost before = names@;
    names.insert(i, name.clone());
    proof {
        assert forall|k: int| i <= k < before.len() implies wording::precedes_spec(
            name@,
            (#[trigger] before[k])@,
        ) by {
            wording::lemma_precedes_total(before[i as int]@, name@);
            if k > i {
                wording::lemma_precedes_transitive(name@, before[i as int]@, before[k]@);
            }
        }
        assert forall|p: int, q: int| 0 <= p < q < names@.len() implies wording::precedes_spec(
            (#[trigger] names@[p])@,
            (#[trigger] names@[q])@,
        ) by {
            let op = if p > i {
                p - 1
            } else {
                p
            };
            let oq = if q > i {
                q - 1
            } else {
                q
            };
            if p != i {
                assert(names@[p] == before[op]);
            }
            if q != i {
                assert(names@[q] == before[oq]);
            }
        }
        assert forall|t: Seq<char>| #[trigger]
            listed(names@, t) <==> (listed(before, t) || t == name@) by {
            if listed(before, t) {
                let k = choose|k: int| 0 <= k < before.len() && (#[trigger] before[k])@ == t;
                if k < i {
                    assert(names@[k]@ == t);
                } else {
                    assert(names@[k + 1]@ == t);
                }
            }
            if t == name@ {
                assert(names@[i as int]@ == t);
            }
            if listed(names@, t) {
                let k = choose|k: int| 0 <= k < names@.len() && (#[trigger] names@[k])@ == t;
                if k < i {
                    assert(before[k]@ == t);
                } else if k > i {
                    assert(before[k - 1]@ == t);
                }
            }
        }
    }
}

impl Points {
    /// Every probe with a sample, in order, each once.
    pub fn names(&self) -> (names: Vec<String>)
        ensures
            ascending(names@),
            forall|t: Seq<char>| #[trigger] listed(names@, t) <==> sampled(self.points@, t),
    {
        let mut names: Vec<String> = Vec::new();
        let mut i: usize = 0;
        while i < self.points.len()
            invariant
                i <= self.points@.len(),
                ascending(names@),
                forall|t: Seq<char>| #[trigger]
                    listed(names@, t) <==> sampled_before(self.points@, i as int, 0, t),
            decreases self.points@.len() - i,
        {
            let samples = &self.points[i].samples;
            let mut j: usize = 0;
            while j < samples.len()
                invariant
                    i < self.points@.len(),
                    samples == self.points@[i as int].samples,
                    j <= samples@.len(),
                    ascending(names@),
                    forall|t: Seq<char>| #[trigger]
                        listed(names@, t) <==> sampled_before(self.points@, i as int, j as int, t),
                decreases samples@.len() - j,
            {
                enlist(&mut names, &samples[j].probe);
                proof {
                    let name = samples@[j as int].probe@;
                    assert forall|t: Seq<char>| #[trigger] listed(names@, t) implies sampled_before(
                        self.points@,
                        i as int,
                        j + 1,
                        t,
                    ) by {
                        if t == name {
                            assert(named_at(self.points@, i as int, j as int, t));
                        }
                    }
                    assert forall|t: Seq<char>| sampled_before(
                        self.points@,
                        i as int,
                        j + 1,
                        t,
                    ) implies #[trigger] listed(names@, t) by {
                        let (p, q) = choose|p: int, q: int| #[trigger]
                            named_at(self.points@, p, q, t) && (p < i || (p == i && q < j + 1));
                        if p < i || q < j {
                            assert(sampled_before(self.points@, i as int, j as int, t));
                        }
                    }
                }
                j = j + 1;
            }
            proof {
                assert forall|t: Seq<char>| sampled_before(
                    self.points@,
                    i as int,
                    j as int,
                    t,
                ) == #[trigger] sampled_before(self.points@, i + 1, 0, t) by {
                    if sampled_before(self.points@, i as int, j as int, t) {
                        let (p, q) = choose|p: int, q: int| #[trigger]
                            named_at(self.points@, p, q, t) && (p < i || (p == i && q < j));
                        assert(named_at(self.points@, p, q, t) && p < i + 1);
                    }
                    if sampled_before(self.points@, i + 1, 0, t) {
                        let (p, q) = choose|p: int, q: int| #[trigger]
                            named_at(self.points@, p, q, t) && (p < i + 1 || (p == i + 1 && q < 0));
                        assert(named_at(self.points@, p, q, t) && (p < i || (p == i && q < j)));
                    }
                }
            }
            i = i + 1;
        }
        names
    }
}

// Taking a point.
/// One probe's volts over the sampling window.
#[derive(Debug, Clone, PartialEq)]
pub struct Track {
    pub name: String,
    pub volts: Vec<Double>,
}

/// A track's name and volts.
pub type TrackModel = (Seq<char>, Seq<Double>);

/// The tracks' names and volts.
pub open spec fn tracks_of(tracks: Seq<Track>) -> Seq<TrackModel> {
    tracks.map_values(|t: Track| (t.name@, t.volts@))
}

/// Where the first track of a probe is, from `i` up.
pub open spec fn track_of(tracks: Seq<TrackModel>, name: Seq<char>, i: int) -> Option<int>
    decreases tracks.len() - i,
{
    if i >= tracks.len() {
        None
    } else if tracks[i].0 == name {
        Some(i)
    } else {
        track_of(tracks, name, i + 1)
    }
}

/// The tracks with one more voltage of a probe.
pub open spec fn recorded(tracks: Seq<TrackModel>, name: Seq<char>, volts: Double) -> Seq<
    TrackModel,
> {
    match track_of(tracks, name, 0) {
        Some(i) => tracks.update(i, (tracks[i].0, tracks[i].1.push(volts))),
        None => tracks.push((name, seq![volts])),
    }
}

/// Whether a probe is one of those chosen; all are when none is named.
pub open spec fn chosen_spec(probes: Seq<String>, name: Seq<char>) -> bool {
    probes.len() == 0 || listed(probes, name)
}

/// Why a snapshot cannot be part of a point.
#[derive(Debug, Clone, Copy, PartialEq, Eq, Structural)]
pub enum Missing {
    /// The supply is not measured.
    Supply,
    /// A chosen probe, by its index, has no volts.
    Volts(usize),
}

/// The first chosen probe from `i` up without volts.
pub open spec fn without_volts(probes: Seq<Probe>, chosen: Seq<String>, i: int) -> Option<int>
    decreases probes.len() - i,
{
    if i >= probes.len() {
        None
    } else if chosen_spec(chosen, probes[i].name@) && probes[i].volts is None {
        Some(i)
    } else {
        without_volts(probes, chosen, i + 1)
    }
}

/// The tracks after the first `n` probes of a snapshot.
pub open spec fn gathered(
    tracks: Seq<TrackModel>,
    probes: Seq<Probe>,
    chosen: Seq<String>,
    n: int,
) -> Seq<TrackModel>
    decreases n,
{
    if n <= 0 {
        tracks
    } else {
        let before = gathered(tracks, probes, chosen, n - 1);
        let p = probes[n - 1];
        match p.volts {
            Some(v) => if chosen_spec(chosen, p.name@) {
                recorded(before, p.name@, v)
            } else {
                before
            },
            None => before,
        }
    }
}

/// The numbers added up in order, from negative zero.
pub open spec fn total(xs: Seq<Double>) -> Double
    decreases xs.len(),
{
    if xs.len() == 0 {
        Double { bits: 0x8000_0000_0000_0000 }
    } else {
        total(xs.drop_last()).plus(xs.last())
    }
}

/// The mean of some numbers.
pub open spec fn mean_spec(xs: Seq<Double>) -> Double {
    total(xs).over(Double::of_spec(xs.len() as int))
}

/// The mean of some numbers.
fn mean(xs: &Vec<Double>) -> (m: Double)
    ensures
        m == mean_spec(xs@),
{
    let mut sum = Double { bits: 0x8000_0000_0000_0000 };
    let mut i: usize = 0;
    while i < xs.len()
        invariant
            i <= xs@.len(),
            sum == total(xs@.take(i as int)),
        decreases xs@.len() - i,
    {
        assert(xs@.take(i + 1).drop_last() =~= xs@.take(i as int));
        sum = sum.plus(xs[i]);
        i = i + 1;
    }
    assert(xs@.take(i as int) =~= xs@);
    sum.over(Double::count(xs.len()))
}

/// The most negative and the largest finite doubles, by their bits.
pub const LOWEST: u64 = 0xffef_ffff_ffff_ffff;

pub const HIGHEST: u64 = 0x7fef_ffff_ffff_ffff;

/// The largest of some numbers, NaN left out.
pub open spec fn largest(xs: Seq<Double>) -> Double
    decreases xs.len(),
{
    if xs.len() == 0 {
        Double { bits: LOWEST }
    } else {
        largest(xs.drop_last()).greater(xs.last())
    }
}

/// The smallest of some numbers, NaN left out.
pub open spec fn smallest(xs: Seq<Double>) -> Double
    decreases xs.len(),
{
    if xs.len() == 0 {
        Double { bits: HIGHEST }
    } else {
        smallest(xs.drop_last()).lesser(xs.last())
    }
}

/// The largest and the smallest of some numbers are numbers, in order.
proof fn lemma_extremes(xs: Seq<Double>)
    requires
        xs.len() > 0,
        forall|i: int| 0 <= i < xs.len() ==> (#[trigger] xs[i]).is_finite(),
    ensures
        largest(xs).is_finite(),
        smallest(xs).is_finite(),
        smallest(xs).at_most(largest(xs)),
    decreases xs.len(),
{
    let before = xs.drop_last();
    assert(xs[xs.len() - 1].is_finite());
    if before.len() > 0 {
        assert forall|i: int| 0 <= i < before.len() implies (#[trigger] before[i]).is_finite() by {
            assert(before[i] == xs[i]);
        }
        lemma_extremes(before);
    }
}

/// The spread of some volts is not negative.
pub proof fn lemma_a_spread_is_not_negative(xs: Seq<Double>)
    requires
        xs.len() > 0,
        forall|i: int| 0 <= i < xs.len() ==> (#[trigger] xs[i]).is_finite(),
    ensures
        (Double { bits: 0 }).at_most(largest(xs).minus(smallest(xs))),
{
    lemma_extremes(xs);
    let low = smallest(xs);
    order::lemma_negated(low);
    order::lemma_plus_rank(low, low.negated());
    ieee::lemma_rounded_zero(rounding::binary64(), 1);
    order::lemma_plus_keeps_order(low, largest(xs), low.negated());
}

/// Largest minus smallest.
fn spread(xs: &Vec<Double>) -> (s: Double)
    ensures
        s == largest(xs@).minus(smallest(xs@)),
{
    let mut high = Double { bits: LOWEST };
    let mut low = Double { bits: HIGHEST };
    let mut i: usize = 0;
    while i < xs.len()
        invariant
            i <= xs@.len(),
            high == largest(xs@.take(i as int)),
            low == smallest(xs@.take(i as int)),
        decreases xs@.len() - i,
    {
        assert(xs@.take(i + 1).drop_last() =~= xs@.take(i as int));
        high = high.greater(xs[i]);
        low = low.lesser(xs[i]);
        i = i + 1;
    }
    assert(xs@.take(i as int) =~= xs@);
    high.minus(low)
}

/// A point being taken: each chosen probe's volts and the supply, a
/// snapshot at a time.
#[derive(Debug, Clone, PartialEq)]
pub struct Gathering {
    pub tracks: Vec<Track>,
    pub supply: Vec<Double>,
}

impl Gathering {
    /// Nothing yet.
    pub fn new() -> (g: Self)
        ensures
            g.tracks@.len() == 0,
            g.supply@.len() == 0,
    {
        Gathering { tracks: Vec::new(), supply: Vec::new() }
    }

    /// Records one voltage of a probe.
    fn record(&mut self, name: &String, volts: Double)
        ensures
            tracks_of(final(self).tracks@) == recorded(
                tracks_of(old(self).tracks@),
                name@,
                volts,
            ),
            final(self).supply == old(self).supply,
    {
        let ghost before = tracks_of(self.tracks@);
        let mut i: usize = 0;
        while i < self.tracks.len()
            invariant
                i <= self.tracks@.len(),
                *self == *old(self),
                before == tracks_of(self.tracks@),
                track_of(before, name@, 0) == track_of(before, name@, i as int),
            decreases self.tracks@.len() - i,
        {
            assert(before[i as int] == (
                self.tracks@[i as int].name@,
                self.tracks@[i as int].volts@,
            ));
            if wording::same(self.tracks[i].name.as_str(), name.as_str()) {
                self.tracks[i].volts.push(volts);
                assert(tracks_of(self.tracks@) =~= recorded(before, name@, volts));
                return;
            }
            i = i + 1;
        }
        let mut first: Vec<Double> = Vec::new();
        first.push(volts);
        assert(first@ =~= seq![volts]);
        self.tracks.push(Track { name: name.clone(), volts: first });
        assert(tracks_of(self.tracks@) =~= recorded(before, name@, volts));
    }

    /// Takes in a snapshot: the supply, and the volts of each chosen
    /// probe. One without them stops the gathering, unchanged.
    pub fn take(&mut self, state: &State, chosen: &Vec<String>) -> (r: Result<(), Missing>)
        ensures
            match state.supply_v {
                None => r == Err::<(), Missing>(Missing::Supply) && *final(self) == *old(self),
                Some(v) => match without_volts(state.probes@, chosen@, 0) {
                    Some(i) => r == Err::<(), Missing>(Missing::Volts(i as usize)) && 0 <= i
                        < state.probes@.len() && *final(self) == *old(self),
                    None => r is Ok && final(self).supply@ == old(self).supply@.push(v)
                        && tracks_of(final(self).tracks@) == gathered(
                        tracks_of(old(self).tracks@),
                        state.probes@,
                        chosen@,
                        state.probes@.len() as int,
                    ),
                },
            },
    {
        let supply_v = match state.supply_v {
            Some(v) => v,
            None => {
                return Err(Missing::Supply);
            },
        };
        let mut i: usize = 0;
        while i < state.probes.len()
            invariant
                i <= state.probes@.len(),
                *self == *old(self),
                state.supply_v == Some(supply_v),
                without_volts(state.probes@, chosen@, 0) == without_volts(
                    state.probes@,
                    chosen@,
                    i as int,
                ),
            decreases state.probes@.len() - i,
        {
            let p = &state.probes[i];
            if p.volts.is_none() && is_chosen(chosen, p.name.as_str()) {
                return Err(Missing::Volts(i));
            }
            i = i + 1;
        }
        self.supply.push(supply_v);
        let ghost start = tracks_of(old(self).tracks@);
        let mut k: usize = 0;
        while k < state.probes.len()
            invariant
                k <= state.probes@.len(),
                self.supply@ == old(self).supply@.push(supply_v),
                start == tracks_of(old(self).tracks@),
                tracks_of(self.tracks@) == gathered(start, state.probes@, chosen@, k as int),
            decreases state.probes@.len() - k,
        {
            let p = &state.probes[k];
            if let Some(v) = p.volts {
                if is_chosen(chosen, p.name.as_str()) {
                    self.record(&p.name, v);
                }
            }
            k = k + 1;
        }
        Ok(())
    }

    /// The point the gathering comes to, or None where no probe matched.
    pub fn finish(&self, reference_c: Double, label: String, taken: u64) -> (p: Option<Point>)
        ensures
            p is None <==> self.tracks@.len() == 0,
            p matches Some(p) ==> {
                &&& p.label == label
                &&& p.reference_c == reference_c
                &&& p.taken == taken
                &&& p.samples@.len() == self.tracks@.len()
                &&& forall|i: int|
                    0 <= i < p.samples@.len() ==> self.is_sample(#[trigger] p.samples@[i], i)
            },
    {
        if self.tracks.len() == 0 {
            return None;
        }
        let supply_v = mean(&self.supply);
        let mut samples: Vec<Sample> = Vec::new();
        let mut i: usize = 0;
        while i < self.tracks.len()
            invariant
                i <= self.tracks@.len(),
                supply_v == mean_spec(self.supply@),
                samples@.len() == i,
                forall|j: int| 0 <= j < i ==> self.is_sample(#[trigger] samples@[j], j),
            decreases self.tracks@.len() - i,
        {
            let track = &self.tracks[i];
            samples.push(
                Sample {
                    probe: track.name.clone(),
                    volts: mean(&track.volts),
                    supply_v,
                    spread_v: spread(&track.volts),
                },
            );
            i = i + 1;
        }
        Some(Point { label, reference_c, taken, samples })
    }

    /// Whether a sample is what track `i` comes to.
    pub open spec fn is_sample(self, sample: Sample, i: int) -> bool {
        let track = self.tracks@[i];
        &&& sample.probe@ == track.name@
        &&& sample.volts == mean_spec(track.volts@)
        &&& sample.supply_v == mean_spec(self.supply@)
        &&& sample.spread_v == largest(track.volts@).minus(smallest(track.volts@))
    }
}

/// Whether a probe is one of those chosen; all are when none is named.
fn is_chosen(chosen: &Vec<String>, name: &str) -> (r: bool)
    ensures
        r == chosen_spec(chosen@, name@),
{
    if chosen.len() == 0 {
        return true;
    }
    let mut i: usize = 0;
    while i < chosen.len()
        invariant
            i <= chosen@.len(),
            forall|j: int| 0 <= j < i ==> (#[trigger] chosen@[j])@ != name@,
        decreases chosen@.len() - i,
    {
        if wording::same(chosen[i].as_str(), name) {
            assert(chosen@[i as int]@ == name@);
            return true;
        }
        i = i + 1;
    }
    false
}

/// Every probe has one track.
pub open spec fn tracks_are_distinct(tracks: Seq<TrackModel>) -> bool {
    forall|i: int, j: int|
        0 <= i < j < tracks.len() ==> (#[trigger] tracks[i]).0 != (#[trigger] tracks[j]).0
}

/// Gathering keeps one track for each probe.
pub proof fn lemma_gathering_keeps_one_track_per_probe(
    tracks: Seq<TrackModel>,
    probes: Seq<Probe>,
    chosen: Seq<String>,
    n: int,
)
    requires
        tracks_are_distinct(tracks),
        0 <= n <= probes.len(),
    ensures
        tracks_are_distinct(gathered(tracks, probes, chosen, n)),
    decreases n,
{
    if n > 0 {
        lemma_gathering_keeps_one_track_per_probe(tracks, probes, chosen, n - 1);
        let before = gathered(tracks, probes, chosen, n - 1);
        lemma_track_of(before, probes[n - 1].name@, 0);
    }
}

proof fn lemma_track_of(tracks: Seq<TrackModel>, name: Seq<char>, i: int)
    requires
        0 <= i,
    ensures
        match track_of(tracks, name, i) {
            Some(k) => i <= k < tracks.len() && tracks[k].0 == name,
            None => forall|k: int| i <= k < tracks.len() ==> (#[trigger] tracks[k]).0 != name,
        },
    decreases tracks.len() - i,
{
    if i < tracks.len() {
        lemma_track_of(tracks, name, i + 1);
    }
}

// What a point is made of.
/// The largest of some voltages is one of them, and so is the smallest;
/// all the others are between.
#[verifier::rlimit(50)]
pub proof fn lemma_a_spread_is_between_extremes(xs: Seq<Double>)
    requires
        xs.len() > 0,
        forall|i: int| 0 <= i < xs.len() ==> (#[trigger] xs[i]).is_finite(),
    ensures
        exists|i: int| 0 <= i < xs.len() && #[trigger] xs[i] == largest(xs),
        exists|i: int| 0 <= i < xs.len() && #[trigger] xs[i] == smallest(xs),
        forall|i: int|
            0 <= i < xs.len() ==> (#[trigger] xs[i]).at_most(largest(xs)) && smallest(xs).at_most(
                xs[i],
            ),
    decreases xs.len(),
{
    let before = xs.drop_last();
    let n = xs.len() - 1;
    let last = xs[n];
    assert(last.is_finite());
    if before.len() > 0 {
        assert forall|i: int| 0 <= i < before.len() implies (#[trigger] before[i]).is_finite() by {
            assert(before[i] == xs[i]);
        }
        lemma_a_spread_is_between_extremes(before);
        lemma_extremes(before);
        let hi = choose|i: int| 0 <= i < before.len() && #[trigger] before[i] == largest(before);
        let lo = choose|i: int| 0 <= i < before.len() && #[trigger] before[i] == smallest(before);
        assert(xs[hi] == largest(before) && xs[lo] == smallest(before));
        assert forall|i: int| 0 <= i < xs.len() implies (#[trigger] xs[i]).at_most(largest(xs))
            && smallest(xs).at_most(xs[i]) by {
            if i < n {
                assert(before[i] == xs[i]);
            }
        }
    } else {
        assert(largest(before).bits == LOWEST && smallest(before).bits == HIGHEST);
        assert(largest(xs).equals(last) && smallest(xs).equals(last));
        assert(largest(xs) == last && smallest(xs) == last) by {
            assert(largest(xs) == largest(before) || largest(xs) == last);
            assert(smallest(xs) == smallest(before) || smallest(xs) == last);
        }
    }
}

/// A mean is the sum over how many there are; every voltage is added,
/// and one alone is its own sum.
pub proof fn lemma_a_mean_is_of_every_voltage(xs: Seq<Double>, x: Double)
    ensures
        total(xs.push(x)) == total(xs).plus(x),
        mean_spec(xs) == total(xs).over(Double::of_spec(xs.len() as int)),
        x.is_finite() ==> total(seq![x]).equals(x),
{
    assert(xs.push(x).drop_last() =~= xs);
    assert(seq![x].drop_last() =~= Seq::<Double>::empty());
    if x.is_finite() {
        let none = Double { bits: 0x8000_0000_0000_0000 };
        ieee::lemma_units_zero(rounding::binary64());
        order::lemma_plus_rank(none, x);
        order::lemma_nearest_rank_of_units(x);
        assert(total(Seq::<Double>::empty()) == none);
        assert(total(seq![x]) == none.plus(x));
    }
}

/// A sample is found by its probe's name, the first where there are
/// more.
pub proof fn lemma_a_sample_is_found_by_its_probe(
    samples: Seq<Sample>,
    probe: Seq<char>,
    from: int,
    i: int,
)
    requires
        0 <= from,
    ensures
        from <= i < samples.len() && samples[i].probe@ == probe && (forall|j: int|
            from <= j < i ==> (#[trigger] samples[j]).probe@ != probe) ==> sample_of(
            samples,
            probe,
            from,
        ) == Some(i),
        (forall|j: int| from <= j < samples.len() ==> (#[trigger] samples[j]).probe@ != probe)
            ==> sample_of(samples, probe, from) is None,
    decreases samples.len() - from,
{
    if from < samples.len() {
        lemma_a_sample_is_found_by_its_probe(samples, probe, from + 1, i);
    }
}

/// One point more adds a row just where it measured the probe: its label
/// and reference, and the resistance that its voltage and its supply
/// show; and it is counted just there.
pub proof fn lemma_one_point_more(points: Seq<Point>, probe: Seq<char>, resistor: Double, p: Point)
    ensures
        ({
            let n = points.len() as int;
            let before = rows_of(points, probe, resistor, n);
            let after = rows_of(points.push(p), probe, resistor, n + 1);
            &&& rows_of(Seq::<Point>::empty(), probe, resistor, 0).len() == 0
            &&& sample_of(p.samples@, probe, 0) is None ==> after == before && measured_count(
                points.push(p),
                probe,
                n + 1,
            ) == measured_count(points, probe, n)
            &&& sample_of(p.samples@, probe, 0) matches Some(i) ==> {
                let s = p.samples@[i];
                &&& after == before.push(
                    (
                        p.label@,
                        p.reference_c,
                        thermistor::upper_leg(resistor, s.volts, s.supply_v),
                    ),
                )
                &&& measured_count(points.push(p), probe, n + 1) == measured_count(
                    points,
                    probe,
                    n,
                ) + 1
            }
        }),
{
    lemma_rows_of_a_start(points, points.push(p), probe, resistor, points.len() as int);
    assert(points.push(p)[points.len() as int] == p);
}

proof fn lemma_rows_of_a_start(
    a: Seq<Point>,
    b: Seq<Point>,
    probe: Seq<char>,
    resistor: Double,
    n: int,
)
    requires
        0 <= n <= a.len(),
        n <= b.len(),
        forall|i: int| 0 <= i < n ==> #[trigger] a[i] == b[i],
    ensures
        rows_of(a, probe, resistor, n) == rows_of(b, probe, resistor, n),
        measured_count(a, probe, n) == measured_count(b, probe, n),
    decreases n,
{
    if n > 0 {
        assert(a[n - 1] == b[n - 1]);
        lemma_rows_of_a_start(a, b, probe, resistor, n - 1);
    }
}

/// The voltages gathered of a probe so far.
pub open spec fn volts_of(tracks: Seq<TrackModel>, name: Seq<char>) -> Seq<Double> {
    match track_of(tracks, name, 0) {
        Some(i) => tracks[i].1,
        None => Seq::<Double>::empty(),
    }
}

/// A voltage recorded of a probe is behind those it had, and those of
/// the others stay.
#[verifier::rlimit(50)]
pub proof fn lemma_a_voltage_is_recorded_of_its_probe(
    tracks: Seq<TrackModel>,
    name: Seq<char>,
    volts: Double,
    other: Seq<char>,
)
    requires
        tracks_are_distinct(tracks),
    ensures
        volts_of(recorded(tracks, name, volts), name) == volts_of(tracks, name).push(volts),
        other != name ==> volts_of(recorded(tracks, name, volts), other) == volts_of(tracks, other),
{
    let after = recorded(tracks, name, volts);
    lemma_track_of(tracks, name, 0);
    lemma_track_of(tracks, other, 0);
    lemma_track_of(after, name, 0);
    lemma_track_of(after, other, 0);
    if track_of(tracks, name, 0) is None {
        assert(after[tracks.len() as int].0 == name);
        assert(volts_of(tracks, name).push(volts) =~= seq![volts]);
        let k = track_of(after, name, 0)->0;
        if k < tracks.len() {
            assert(tracks[k].0 == name);
        }
        if other != name {
            if let Some(i) = track_of(tracks, other, 0) {
                assert(after[i] == tracks[i]);
                let j = track_of(after, other, 0)->0;
                assert(after[j].0 == other && j < tracks.len());
                assert(tracks[j].0 == other);
            } else if let Some(j) = track_of(after, other, 0) {
                assert(j < tracks.len());
                assert(tracks[j].0 == other);
            }
        }
    } else {
        let i = track_of(tracks, name, 0)->0;
        assert(after[i].0 == name);
        let k = track_of(after, name, 0)->0;
        assert(after[k].0 == tracks[k].0);
        if other != name {
            if let Some(m) = track_of(tracks, other, 0) {
                assert(after[m] == tracks[m]);
                let j = track_of(after, other, 0)->0;
                assert(after[j].0 == tracks[j].0);
            } else if let Some(j) = track_of(after, other, 0) {
                assert(after[j].0 == tracks[j].0);
                assert(tracks[j].0 == other);
            }
        }
    }
}

/// A snapshot adds to every chosen probe's voltages the one it has of
/// it, and to no other's.
#[verifier::rlimit(50)]
pub proof fn lemma_a_snapshot_adds_a_voltage_to_each(
    tracks: Seq<TrackModel>,
    probes: Seq<Probe>,
    chosen: Seq<String>,
    n: int,
    name: Seq<char>,
    k: int,
)
    requires
        tracks_are_distinct(tracks),
        0 <= n <= probes.len(),
        0 <= k < n ==> probes[k].name@ == name,
        forall|i: int| 0 <= i < n && i != k ==> (#[trigger] probes[i]).name@ != name,
    ensures
        0 <= k < n && probes[k].volts is Some && (chosen.len() == 0 || exists|i: int|
            0 <= i < chosen.len() && (#[trigger] chosen[i])@ == name) ==> volts_of(
            gathered(tracks, probes, chosen, n),
            name,
        ) == volts_of(tracks, name).push(probes[k].volts->0),
        !(0 <= k < n && probes[k].volts is Some && (chosen.len() == 0 || exists|i: int|
            0 <= i < chosen.len() && (#[trigger] chosen[i])@ == name)) ==> volts_of(
            gathered(tracks, probes, chosen, n),
            name,
        ) == volts_of(tracks, name),
    decreases n,
{
    if n > 0 {
        lemma_a_snapshot_adds_a_voltage_to_each(
            tracks,
            probes,
            chosen,
            n - 1,
            name,
            if k == n - 1 {
                -1
            } else {
                k
            },
        );
        lemma_gathering_keeps_one_track_per_probe(tracks, probes, chosen, n - 1);
        let before = gathered(tracks, probes, chosen, n - 1);
        let p = probes[n - 1];
        if let Some(v) = p.volts {
            lemma_a_voltage_is_recorded_of_its_probe(before, p.name@, v, name);
        }
    }
}

/// What is missing is the first chosen probe without a voltage; without
/// a choice every probe is chosen.
pub proof fn lemma_which_voltage_is_missing(
    probes: Seq<Probe>,
    chosen: Seq<String>,
    from: int,
    i: int,
)
    requires
        0 <= from,
    ensures
        chosen.len() == 0 ==> chosen_spec(chosen, probes[i].name@),
        chosen.len() > 0 ==> (chosen_spec(chosen, probes[i].name@) <==> exists|k: int|
            0 <= k < chosen.len() && (#[trigger] chosen[k])@ == probes[i].name@),
        from <= i < probes.len() && chosen_spec(chosen, probes[i].name@) && probes[i].volts is None
            && (forall|j: int|
            from <= j < i ==> !(chosen_spec(chosen, (#[trigger] probes[j]).name@)
                && probes[j].volts is None)) ==> without_volts(probes, chosen, from) == Some(i),
        (forall|j: int|
            from <= j < probes.len() ==> !(chosen_spec(chosen, (#[trigger] probes[j]).name@)
                && probes[j].volts is None)) ==> without_volts(probes, chosen, from) is None,
    decreases probes.len() - from,
{
    if from < probes.len() {
        lemma_which_voltage_is_missing(probes, chosen, from + 1, i);
    }
}

/// When a fit is refused: with fewer than two points, with two for three
/// coefficients, and else only where the points do not tell the
/// coefficients apart; the fixed resistor is kept.
pub proof fn lemma_when_a_fit_is_refused(
    resistor: Double,
    rows: Seq<RowModel>,
    logs: Seq<Double>,
    terms: Terms,
)
    ensures
        ({
            let r = thermistor_of(resistor, rows, logs, terms);
            &&& rows.len() < 2 ==> r == Err::<Thermistor, FitError>(
                FitError::TooFew(rows.len() as usize),
            )
            &&& rows.len() == 2 && terms == Terms::Three ==> r == Err::<Thermistor, FitError>(
                FitError::TwoForThree,
            )
            &&& rows.len() > 2 || (rows.len() == 2 && terms == Terms::Two) ==> r is Ok || r
                == Err::<Thermistor, FitError>(FitError::Undetermined)
            &&& r matches Ok(t) ==> t.divider_resistor == resistor
        }),
{
}

/// The inverse of a temperature is that of its Kelvin, 273.15 above its
/// Celsius.
pub proof fn lemma_temperatures_are_inverted_in_kelvin(celsius: Double)
    ensures
        inverse_kelvin_spec(celsius) == (Double { bits: 0x3ff0_0000_0000_0000 }).over(
            celsius.plus(Double { bits: 0x4071_1266_6666_6666 }),
        ),
{
}

/// A line is told from its points unless the determinant of their sums
/// is smaller than 1e-300, of either sign.
pub proof fn lemma_when_a_line_is_determined(resistor: Double, n: Double, s: Sums)
    ensures
        ({
            let det = n.times(s.xx).minus(s.x.times(s.x));
            line_of(resistor, n, s) is None <==> det.magnitude().below(
                Double { bits: 0x01a5_6e1f_c2f8_f359 },
            )
        }),
{
}

/// What is said of a fit that is refused names the probe and the points
/// it has.
pub proof fn lemma_what_is_said_of_a_fit(probe: Seq<char>, n: usize)
    ensures
        FitError::TooFew(n).text_spec(probe) == "probe "@ + probe + " has "@ + wording::digits(
            n as nat,
        ) + " points; two or more are needed"@,
        FitError::TwoForThree.text_spec(probe) == "probe "@ + probe
            + " has 2 points; three coefficients need 3"@,
        FitError::Undetermined.text_spec(probe) == "points do not determine the coefficients"@,
{
}

/// A point's sample is of one probe's track: its name, the mean of its
/// voltages and of the supply's, and how far apart its voltages are.
pub proof fn lemma_a_sample_is_of_its_track(g: Gathering, sample: Sample, i: int)
    requires
        g.is_sample(sample, i),
    ensures
        sample.probe@ == g.tracks@[i].name@,
        sample.volts == total(g.tracks@[i].volts@).over(
            Double::of_spec(g.tracks@[i].volts@.len() as int),
        ),
        sample.supply_v == total(g.supply@).over(Double::of_spec(g.supply@.len() as int)),
        sample.spread_v == largest(g.tracks@[i].volts@).minus(smallest(g.tracks@[i].volts@)),
{
}

/// A probe is named just where a sample of some point is of it, and the
/// names are in order, each once.
pub proof fn lemma_which_probes_are_named(points: Seq<Point>, names: Seq<String>, name: Seq<char>)
    requires
        ascending(names),
        forall|t: Seq<char>| #[trigger] listed(names, t) <==> sampled(points, t),
    ensures
        (exists|k: int| 0 <= k < names.len() && (#[trigger] names[k])@ == name) <==> (exists|
            i: int,
            j: int,
        |
            0 <= i < points.len() && 0 <= j < points[i].samples@.len() && (
            #[trigger] points[i].samples@[j]).probe@ == name),
        forall|i: int, j: int|
            0 <= i < j < names.len() ==> wording::precedes_spec(
                (#[trigger] names[i])@,
                (#[trigger] names[j])@,
            ) && names[i]@ != names[j]@,
{
    assert(listed(names, name) <==> sampled(points, name));
    if sampled(points, name) {
        let (i, j) = choose|i: int, j: int| named_at(points, i, j, name);
        assert(points[i].samples@[j].probe@ == name);
    }
    if exists|i: int, j: int|
        0 <= i < points.len() && 0 <= j < points[i].samples@.len() && (
        #[trigger] points[i].samples@[j]).probe@ == name {
        let (i, j) = choose|i: int, j: int|
            0 <= i < points.len() && 0 <= j < points[i].samples@.len() && (
            #[trigger] points[i].samples@[j]).probe@ == name;
        assert(named_at(points, i, j, name));
    }
    assert forall|i: int, j: int| 0 <= i < j < names.len() implies wording::precedes_spec(
        (#[trigger] names[i])@,
        (#[trigger] names[j])@,
    ) && names[i]@ != names[j]@ by {
        wording::lemma_precedes_total(names[i]@, names[j]@);
    }
}

} // verus!
