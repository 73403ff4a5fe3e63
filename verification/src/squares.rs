//! The least squares behind a fit.
//!
//! Over doubles the formulas are what a fit computes, each step rounded.
//! Over the reals nothing is rounded, and there they do what their name
//! says: the line and the curve they give miss the points by the least
//! sum of squares.
use vstd::prelude::*;

use crate::number;
use crate::number::Number;

verus! {

// The line.
/// The sums a line is fitted from.
pub struct Totals<N> {
    pub x: N,
    pub y: N,
    pub xx: N,
    pub xy: N,
}

/// The sums over the first `n` points, in order.
pub open spec fn totals<N: Number>(xs: Seq<N>, ys: Seq<N>, n: int) -> Totals<N>
    decreases n,
{
    if n <= 0 {
        Totals { x: N::nothing(), y: N::nothing(), xx: N::nothing(), xy: N::nothing() }
    } else {
        let t = totals(xs, ys, n - 1);
        let (x, y) = (xs[n - 1], ys[n - 1]);
        Totals {
            x: t.x.added(x),
            y: t.y.added(y),
            xx: t.xx.added(x.multiplied(x)),
            xy: t.xy.added(x.multiplied(y)),
        }
    }
}

/// The determinant of the line's normal equations.
pub open spec fn determinant<N: Number>(n: N, t: Totals<N>) -> N {
    n.multiplied(t.xx).taken(t.x.multiplied(t.x))
}

/// The coefficients of the line y = a + b x, by Cramer's rule.
pub open spec fn line<N: Number>(n: N, t: Totals<N>) -> (N, N) {
    let b = n.multiplied(t.xy).taken(t.x.multiplied(t.y)).divided(determinant(n, t));
    (t.y.taken(b.multiplied(t.x)).divided(n), b)
}

/// In exact arithmetic the line satisfies both normal equations.
pub proof fn lemma_the_line_solves_its_normal_equations(n: real, t: Totals<real>)
    requires
        n != 0real,
        determinant(n, t) != 0real,
    ensures
        n * line(n, t).0 + t.x * line(n, t).1 == t.y,
        t.x * line(n, t).0 + t.xx * line(n, t).1 == t.xy,
{
    let (a, b) = line(n, t);
    let (x, y, xx, xy) = (t.x, t.y, t.xx, t.xy);
    let det = determinant(n, t);
    number::lemma_divided_back(n * xy - x * y, det);
    number::lemma_divided_back(y - b * x, n);
    assert(b * det == n * xy - x * y);
    assert(n * a == y - b * x);
    number::lemma_reordered(x, b, 1real);
    assert(n * a + x * b == y);
    let left = x * a + xx * b;
    number::lemma_distributed(n, x * a, xx * b);
    number::lemma_reordered(n, x, a);
    number::lemma_distributed(x, y, b * x);
    number::lemma_reordered(x, b, x);
    number::lemma_reordered(n, xx, b);
    number::lemma_reordered(n * xx, b, 1real);
    number::lemma_distributed(b, n * xx, x * x);
    assert(x * (n * a) == x * y - b * (x * x));
    assert(n * (xx * b) == b * (n * xx));
    assert(n * left == n * xy);
    assert(left == xy) by (nonlinear_arith)
        requires
            n * left == n * xy,
            n != 0real,
    ;
}

// The curve.
/// The functions the curve is a sum of: 1, x, and x cubed.
pub open spec fn term<N: Number>(x: N, i: int) -> N {
    if i == 0 {
        N::unit()
    } else if i == 1 {
        x
    } else {
        x.multiplied(x).multiplied(x)
    }
}

/// Three equations with one more point taken in.
pub open spec fn with_point<N: Number>(g: Seq<Seq<N>>, x: N, y: N) -> Seq<Seq<N>> {
    Seq::new(
        3,
        |i: int|
            Seq::new(
                4,
                |j: int|
                    g[i][j].added(
                        term(x, i).multiplied(
                            if j < 3 {
                                term(x, j)
                            } else {
                                y
                            },
                        ),
                    ),
            ),
    )
}

/// The normal equations for y = a + b x + c x^3 over the first `n`
/// points: rows of the three factors and the right-hand side.
pub open spec fn normal<N: Number>(xs: Seq<N>, ys: Seq<N>, n: int) -> Seq<Seq<N>>
    decreases n,
{
    if n <= 0 {
        Seq::new(3, |i: int| Seq::new(4, |j: int| N::nothing()))
    } else {
        with_point(normal(xs, ys, n - 1), xs[n - 1], ys[n - 1])
    }
}

/// Three equations with two of them exchanged.
pub open spec fn exchanged<N>(g: Seq<Seq<N>>, a: int, b: int) -> Seq<Seq<N>> {
    g.update(a, g[b]).update(b, g[a])
}

/// Three equations with a column cleared from every row but its own.
pub open spec fn cleared<N: Number>(g: Seq<Seq<N>>, col: int) -> Seq<Seq<N>> {
    Seq::new(
        3,
        |r: int|
            if r == col {
                g[r]
            } else {
                let factor = g[r][col].divided(g[col][col]);
                Seq::new(
                    4,
                    |k: int|
                        if k < col {
                            g[r][k]
                        } else {
                            g[r][k].taken(factor.multiplied(g[col][k]))
                        },
                )
            },
    )
}

/// One step of the elimination: the pivot brought up, and its column
/// cleared.
pub open spec fn stepped<N: Number>(g: Seq<Seq<N>>, col: int, pivot: int) -> Seq<Seq<N>> {
    cleared(exchanged(g, col, pivot), col)
}

/// The equations with every column cleared in turn, by these pivots.
pub open spec fn diagonal<N: Number>(g: Seq<Seq<N>>, pivots: (int, int, int)) -> Seq<Seq<N>> {
    stepped(stepped(stepped(g, 0, pivots.0), 1, pivots.1), 2, pivots.2)
}

/// What equations with every column cleared solve to.
pub open spec fn unknowns<N: Number>(g: Seq<Seq<N>>) -> (N, N, N) {
    (g[0][3].divided(g[0][0]), g[1][3].divided(g[1][1]), g[2][3].divided(g[2][2]))
}

/// Three rows of four numbers.
pub open spec fn is_system<N>(g: Seq<Seq<N>>) -> bool {
    g.len() == 3 && forall|i: int| 0 <= i < 3 ==> (#[trigger] g[i]).len() == 4
}

/// Whether three numbers satisfy an equation.
pub open spec fn satisfies(row: Seq<real>, k: (real, real, real)) -> bool {
    row[0] * k.0 + row[1] * k.1 + row[2] * k.2 == row[3]
}

/// Whether three numbers satisfy all three equations.
pub open spec fn solves(g: Seq<Seq<real>>, k: (real, real, real)) -> bool {
    satisfies(g[0], k) && satisfies(g[1], k) && satisfies(g[2], k)
}

/// Whether these pivots are rows at or below their columns, with
/// factors that are not nothing.
pub open spec fn are_pivots(g: Seq<Seq<real>>, pivots: (int, int, int)) -> bool {
    let g1 = stepped(g, 0, pivots.0);
    let g2 = stepped(g1, 1, pivots.1);
    &&& 0 <= pivots.0 < 3
    &&& 1 <= pivots.1 < 3
    &&& pivots.2 == 2
    &&& g[pivots.0][0] != 0real
    &&& g1[pivots.1][1] != 0real
    &&& g2[2][2] != 0real
}

/// Whether the columns before `col` are cleared.
spec fn is_cleared(g: Seq<Seq<real>>, col: int) -> bool {
    &&& is_system(g)
    &&& forall|i: int, j: int|
        0 <= i < 3 && 0 <= j < col && i != j ==> #[trigger] g[i][j] == 0real
    &&& forall|j: int| 0 <= j < col ==> #[trigger] g[j][j] != 0real
}

/// A cleared row is the row less a multiple of the pivot's, so what
/// satisfies both satisfies the row.
proof fn lemma_row_back(
    row: Seq<real>,
    pivot: Seq<real>,
    after: Seq<real>,
    factor: real,
    k: (real, real, real),
)
    requires
        forall|j: int| 0 <= j < 4 ==> #[trigger] after[j] == row[j] - factor * pivot[j],
        satisfies(pivot, k),
        satisfies(after, k),
    ensures
        satisfies(row, k),
{
    assert(after[0] == row[0] - factor * pivot[0]);
    assert(after[1] == row[1] - factor * pivot[1]);
    assert(after[2] == row[2] - factor * pivot[2]);
    assert(after[3] == row[3] - factor * pivot[3]);
    number::lemma_distributed(k.0, row[0], factor * pivot[0]);
    number::lemma_distributed(k.1, row[1], factor * pivot[1]);
    number::lemma_distributed(k.2, row[2], factor * pivot[2]);
    number::lemma_reordered(factor, pivot[0], k.0);
    number::lemma_reordered(factor, pivot[1], k.1);
    number::lemma_reordered(factor, pivot[2], k.2);
    let (p, q, r) = (pivot[0] * k.0, pivot[1] * k.1, pivot[2] * k.2);
    number::lemma_distributed(factor, p + q, r);
    number::lemma_distributed(factor, p, q);
}

/// A step clears one more column, and what solves the equations after
/// it solves those before.
proof fn lemma_step(g: Seq<Seq<real>>, col: int, pivot: int)
    requires
        0 <= col <= pivot < 3,
        is_cleared(g, col),
        g[pivot][col] != 0real,
    ensures
        is_cleared(stepped(g, col, pivot), col + 1),
        forall|k: (real, real, real)| #[trigger]
            solves(stepped(g, col, pivot), k) ==> solves(g, k),
{
    let h = exchanged(g, col, pivot);
    let e = cleared(h, col);
    assert(is_cleared(h, col)) by {
        assert forall|i: int, j: int| 0 <= i < 3 && 0 <= j < col && i != j implies #[trigger] h[i][j]
            == 0real by {
            assert(g[i][j] == 0real);
            assert(g[col][j] == 0real);
            assert(g[pivot][j] == 0real);
        }
        assert forall|j: int| 0 <= j < col implies #[trigger] h[j][j] != 0real by {
            assert(g[j][j] != 0real);
        }
    }
    assert forall|r: int, j: int| 0 <= r < 3 && r != col && 0 <= j < 4 implies #[trigger] e[r][j]
        == h[r][j] - (h[r][col] / h[col][col]) * h[col][j] by {
        if j < col {
            assert(h[col][j] == 0real);
            number::lemma_zero_terms(h[r][col] / h[col][col], 0real);
        }
    }
    assert(is_cleared(e, col + 1)) by {
        assert forall|i: int, j: int| 0 <= i < 3 && 0 <= j < col + 1 && i != j implies
            #[trigger] e[i][j] == 0real by {
            if i == col {
                assert(h[col][j] == 0real);
            } else if j == col {
                let (top, bottom) = (h[i][col], h[col][col]);
                number::lemma_divided_back(top, bottom);
            } else {
                assert(h[i][j] == 0real);
            }
        }
        assert forall|j: int| 0 <= j < col + 1 implies #[trigger] e[j][j] != 0real by {
            if j < col {
                assert(h[j][j] != 0real);
            }
        }
    }
    assert forall|k: (real, real, real)| #[trigger] solves(e, k) implies solves(g, k) by {
        assert(satisfies(h[col], k));
        assert forall|r: int| 0 <= r < 3 implies satisfies(#[trigger] h[r], k) by {
            if r != col {
                assert(satisfies(e[r], k));
                lemma_row_back(h[r], h[col], e[r], h[r][col] / h[col][col], k);
            }
        }
        assert forall|r: int| 0 <= r < 3 implies satisfies(#[trigger] g[r], k) by {
            if r == col {
                assert(h[pivot] == g[col]);
            } else if r == pivot {
                assert(h[col] == g[pivot]);
            } else {
                assert(h[r] == g[r]);
            }
        }
        assert(satisfies(g[0], k) && satisfies(g[1], k) && satisfies(g[2], k));
    }
}

/// In exact arithmetic the elimination solves its equations, whichever
/// rows its pivots are taken from.
pub proof fn lemma_the_elimination_solves_its_equations(
    g: Seq<Seq<real>>,
    pivots: (int, int, int),
)
    requires
        is_system(g),
        are_pivots(g, pivots),
    ensures
        solves(g, unknowns(diagonal(g, pivots))),
{
    let g1 = stepped(g, 0, pivots.0);
    let g2 = stepped(g1, 1, pivots.1);
    let g3 = stepped(g2, 2, pivots.2);
    lemma_step(g, 0, pivots.0);
    lemma_step(g1, 1, pivots.1);
    lemma_step(g2, 2, pivots.2);
    let k = unknowns(g3);
    assert(g3[0][1] == 0real && g3[0][2] == 0real && g3[0][0] != 0real);
    assert(g3[1][0] == 0real && g3[1][2] == 0real && g3[1][1] != 0real);
    assert(g3[2][0] == 0real && g3[2][1] == 0real && g3[2][2] != 0real);
    number::lemma_divided_back(g3[0][3], g3[0][0]);
    number::lemma_divided_back(g3[1][3], g3[1][1]);
    number::lemma_divided_back(g3[2][3], g3[2][2]);
    assert(satisfies(g3[0], k)) by {
        number::lemma_zero_terms(k.1, k.2);
    }
    assert(satisfies(g3[1], k)) by {
        number::lemma_zero_terms(k.0, k.2);
    }
    assert(satisfies(g3[2], k)) by {
        number::lemma_zero_terms(k.0, k.1);
    }
    assert(solves(g3, k));
    assert(solves(g2, k));
    assert(solves(g1, k));
}

// What least squares means.
/// The curve with these coefficients.
pub open spec fn curve(x: real, k: (real, real, real)) -> real {
    k.0 + k.1 * x + k.2 * (x * x * x)
}

/// The squares of what a curve misses the first `n` points by, added up.
pub open spec fn missed(xs: Seq<real>, ys: Seq<real>, k: (real, real, real), n: int) -> real
    decreases n,
{
    if n <= 0 {
        0real
    } else {
        let miss = ys[n - 1] - curve(xs[n - 1], k);
        missed(xs, ys, k, n - 1) + miss * miss
    }
}

/// What a curve misses the first `n` points by, each times one of the
/// terms there, added up.
pub open spec fn moment(
    xs: Seq<real>,
    ys: Seq<real>,
    k: (real, real, real),
    i: int,
    n: int,
) -> real
    decreases n,
{
    if n <= 0 {
        0real
    } else {
        moment(xs, ys, k, i, n - 1) + term(xs[n - 1], i) * (ys[n - 1] - curve(xs[n - 1], k))
    }
}

/// Of two curves, what the second misses more by, when the first's
/// moments vanish.
proof fn lemma_missed_apart(
    xs: Seq<real>,
    ys: Seq<real>,
    k: (real, real, real),
    other: (real, real, real),
    n: int,
)
    ensures
        missed(xs, ys, other, n) >= missed(xs, ys, k, n) - 2real * ((other.0 - k.0) * moment(
            xs,
            ys,
            k,
            0,
            n,
        ) + (other.1 - k.1) * moment(xs, ys, k, 1, n) + (other.2 - k.2) * moment(
            xs,
            ys,
            k,
            2,
            n,
        )),
    decreases n,
{
    let (d0, d1, d2) = (other.0 - k.0, other.1 - k.1, other.2 - k.2);
    if n <= 0 {
        number::lemma_zero_terms(d0, d1);
        number::lemma_zero_terms(d2, 2real);
    } else {
        lemma_missed_apart(xs, ys, k, other, n - 1);
        let (x, y) = (xs[n - 1], ys[n - 1]);
        let (m0, m1, m2) = (
            moment(xs, ys, k, 0, n - 1),
            moment(xs, ys, k, 1, n - 1),
            moment(xs, ys, k, 2, n - 1),
        );
        let cube = x * x * x;
        let miss = y - curve(x, k);
        let further = y - curve(x, other);
        let d = d0 + d1 * x + d2 * cube;
        number::lemma_distributed(x, other.1, k.1);
        number::lemma_distributed(cube, other.2, k.2);
        assert(further == miss - d);
        lemma_square_apart(miss, d);
        assert(further * further >= miss * miss - 2real * (d * miss));
        number::lemma_distributed(miss, d0 + d1 * x, d2 * cube);
        number::lemma_distributed(miss, d0, d1 * x);
        number::lemma_reordered(d1, x, miss);
        number::lemma_reordered(d2, cube, miss);
        assert(1real * miss == miss) by (nonlinear_arith);
        assert(d * miss == d0 * miss + d1 * (x * miss) + d2 * (cube * miss));
        number::lemma_distributed(d0, m0, miss);
        number::lemma_distributed(d1, m1, x * miss);
        number::lemma_distributed(d2, m2, cube * miss);
        assert(moment(xs, ys, k, 0, n) == m0 + miss);
        assert(moment(xs, ys, k, 1, n) == m1 + x * miss);
        assert(moment(xs, ys, k, 2, n) == m2 + cube * miss);
    }
}

/// The square of a difference is no less than its square without the
/// second part's.
proof fn lemma_square_apart(a: real, b: real)
    ensures
        (a - b) * (a - b) >= a * a - 2real * (b * a),
{
    let c = a - b;
    number::lemma_distributed(c, a, b);
    number::lemma_distributed(a, a, b);
    number::lemma_distributed(b, a, b);
    number::lemma_reordered(a, b, 1real);
    assert(b * b >= 0real) by (nonlinear_arith);
}

/// A moment is what an equation leaves over.
proof fn lemma_moment_is_what_is_left(
    xs: Seq<real>,
    ys: Seq<real>,
    k: (real, real, real),
    i: int,
    n: int,
)
    requires
        0 <= i < 3,
    ensures
        ({
            let row = normal(xs, ys, n)[i];
            moment(xs, ys, k, i, n) == row[3] - (row[0] * k.0 + row[1] * k.1 + row[2] * k.2)
        }),
    decreases n,
{
    let (k0, k1, k2) = k;
    if n <= 0 {
        number::lemma_zero_terms(k0, k1);
        number::lemma_zero_terms(k1, k2);
    } else {
        lemma_moment_is_what_is_left(xs, ys, k, i, n - 1);
        let before = normal(xs, ys, n - 1)[i];
        let row = normal(xs, ys, n)[i];
        let (x, y) = (xs[n - 1], ys[n - 1]);
        let t = term(x, i);
        let cube = x * x * x;
        assert(row[0] == before[0] + t * 1real);
        assert(row[1] == before[1] + t * x);
        assert(row[2] == before[2] + t * cube);
        assert(row[3] == before[3] + t * y);
        assert(t * 1real == t) by (nonlinear_arith);
        let on = k0 + k1 * x + k2 * cube;
        number::lemma_distributed(t, y, on);
        number::lemma_distributed(t, k0 + k1 * x, k2 * cube);
        number::lemma_distributed(t, k0, k1 * x);
        number::lemma_distributed(k0, before[0], t);
        number::lemma_distributed(k1, before[1], t * x);
        number::lemma_distributed(k2, before[2], t * cube);
        number::lemma_reordered(t, k1, x);
        number::lemma_reordered(t, x, k1);
        number::lemma_reordered(t, k2, cube);
        number::lemma_reordered(t, cube, k2);
        number::lemma_reordered(k1, x, 1real);
        number::lemma_reordered(k2, cube, 1real);
    }
}

/// Coefficients that solve the normal equations miss the points by the
/// least sum of squares of any.
pub proof fn lemma_normal_equations_give_least_squares(
    xs: Seq<real>,
    ys: Seq<real>,
    k: (real, real, real),
    other: (real, real, real),
)
    requires
        solves(normal(xs, ys, xs.len() as int), k),
    ensures
        missed(xs, ys, k, xs.len() as int) <= missed(xs, ys, other, xs.len() as int),
{
    let n = xs.len() as int;
    lemma_moment_is_what_is_left(xs, ys, k, 0, n);
    lemma_moment_is_what_is_left(xs, ys, k, 1, n);
    lemma_moment_is_what_is_left(xs, ys, k, 2, n);
    lemma_missed_apart(xs, ys, k, other, n);
    number::lemma_zero_terms(other.0 - k.0, other.1 - k.1);
    number::lemma_zero_terms(other.2 - k.2, 2real);
}

/// In exact arithmetic the curve that the elimination gives misses the
/// points by the least sum of squares.
pub proof fn lemma_the_curve_is_least_squares(
    xs: Seq<real>,
    ys: Seq<real>,
    pivots: (int, int, int),
    other: (real, real, real),
)
    requires
        are_pivots(normal(xs, ys, xs.len() as int), pivots),
    ensures
        missed(
            xs,
            ys,
            unknowns(diagonal(normal(xs, ys, xs.len() as int), pivots)),
            xs.len() as int,
        ) <= missed(xs, ys, other, xs.len() as int),
{
    let g = normal(xs, ys, xs.len() as int);
    assert(is_system(g));
    lemma_the_elimination_solves_its_equations(g, pivots);
    lemma_normal_equations_give_least_squares(xs, ys, unknowns(diagonal(g, pivots)), other);
}

/// The line's sums are entries of the normal equations.
proof fn lemma_totals_are_normal(xs: Seq<real>, ys: Seq<real>, n: int)
    requires
        n >= 0,
    ensures
        ({
            let g = normal(xs, ys, n);
            let t = totals(xs, ys, n);
            &&& g[0][0] == n as real
            &&& g[0][1] == t.x
            &&& g[0][3] == t.y
            &&& g[1][0] == t.x
            &&& g[1][1] == t.xx
            &&& g[1][3] == t.xy
        }),
    decreases n,
{
    if n > 0 {
        lemma_totals_are_normal(xs, ys, n - 1);
        let (x, y) = (xs[n - 1], ys[n - 1]);
        assert(1real * 1real == 1real);
        assert(1real * x == x) by (nonlinear_arith);
        assert(1real * y == y) by (nonlinear_arith);
        number::lemma_reordered(1real, x, 1real);
    }
}

/// In exact arithmetic the line misses the points by the least sum of
/// squares of any line.
pub proof fn lemma_the_line_is_least_squares(
    xs: Seq<real>,
    ys: Seq<real>,
    a: real,
    b: real,
)
    requires
        xs.len() > 0,
        determinant(xs.len() as real, totals(xs, ys, xs.len() as int)) != 0real,
    ensures
        ({
            let fitted = line(xs.len() as real, totals(xs, ys, xs.len() as int));
            missed(xs, ys, (fitted.0, fitted.1, 0real), xs.len() as int) <= missed(
                xs,
                ys,
                (a, b, 0real),
                xs.len() as int,
            )
        }),
{
    let n = xs.len() as int;
    let t = totals(xs, ys, n);
    let fitted = line(n as real, t);
    let k = (fitted.0, fitted.1, 0real);
    lemma_the_line_solves_its_normal_equations(n as real, t);
    lemma_totals_are_normal(xs, ys, n);
    lemma_moment_is_what_is_left(xs, ys, k, 0, n);
    lemma_moment_is_what_is_left(xs, ys, k, 1, n);
    let g = normal(xs, ys, n);
    number::lemma_zero_terms(g[0][2], g[1][2]);
    lemma_missed_apart(xs, ys, k, (a, b, 0real), n);
    number::lemma_zero_terms(a - k.0, b - k.1);
    number::lemma_zero_terms(moment(xs, ys, k, 2, n), 2real);
}

} // verus!
