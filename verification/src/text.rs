//! Text on a frame.
//!
//! A string is set glyph by glyph along a pen. A `Glyph` is a
//! rasterized character: where its bitmap stands against the pen, how
//! far the pen moves on, and how much of each pixel it covers.
use vstd::arithmetic::power2::*;
use vstd::prelude::*;

use crate::ieee;
use crate::paint;
use crate::paint::{Frame, Rgb};
use crate::rounding;
use crate::single;
use crate::single::Single;

verus! {

/// Which face to set text in.
#[derive(Debug, Clone, Copy, PartialEq, Eq, Structural)]
pub enum Face {
    Bold,
    Medium,
    /// Bridge Officer, subset to the letters of "mujina".
    Wordmark,
}

/// How a run of text is set.
#[derive(Debug, Clone, Copy, PartialEq)]
pub struct Style {
    pub face: Face,
    pub px: Single,
    pub color: Rgb,
}

/// A rasterized character.
#[derive(Debug, Clone, PartialEq)]
pub struct Glyph {
    /// The bitmap's left edge from the pen, and its bottom edge from
    /// the baseline.
    pub xmin: i32,
    pub ymin: i32,
    pub width: usize,
    pub height: usize,
    /// How far the pen moves on.
    pub advance: Single,
    /// Coverage of 0 to 255, row by row.
    pub coverage: Vec<u8>,
}

impl Glyph {
    /// One coverage for each pixel.
    pub open spec fn wf(self) -> bool {
        self.coverage@.len() == self.width as int * self.height as int
    }

    /// What the glyph, with its bitmap's top-left corner at (`left`,
    /// `top`), lays on a pixel of the frame.
    pub open spec fn coat(self, color: Rgb, left: int, top: int, px: int, py: int) -> paint::Coat {
        let col = px - left;
        let row = py - top;
        if 0 <= col < self.width && 0 <= row < self.height && self.coverage@[row * self.width + col]
            != 0 {
            Some((color, self.coverage@[row * self.width + col]))
        } else {
            None
        }
    }
}

/// The advances added up in order, from negative zero.
pub open spec fn advanced(glyphs: Seq<Glyph>, n: int) -> Single
    decreases n,
{
    if n <= 0 {
        Single { bits: 0x8000_0000 }
    } else {
        advanced(glyphs, n - 1).plus(glyphs[n - 1].advance)
    }
}

/// The advance width of a run of glyphs, in pixels.
pub fn measure(glyphs: &Vec<Glyph>) -> (width: Single)
    ensures
        width == advanced(glyphs@, glyphs@.len() as int),
{
    let mut width = Single { bits: 0x8000_0000 };
    let mut i: usize = 0;
    while i < glyphs.len()
        invariant
            i <= glyphs@.len(),
            width == advanced(glyphs@, i as int),
        decreases glyphs@.len() - i,
    {
        width = width.plus(glyphs[i].advance);
        i = i + 1;
    }
    width
}

/// A length in whole pixels, cut toward zero.
pub open spec fn whole_spec(x: Single) -> int {
    x.truncated_spec(i32::MIN as int, i32::MAX as int)
}

/// A length in whole pixels, cut toward zero.
pub fn whole(x: Single) -> (n: i32)
    ensures
        n == whole_spec(x),
{
    let n: i64 = x.truncated(i32::MIN as i64, i32::MAX as i64);
    n as i32
}

/// Where a run of text stands against its anchor.
#[derive(Debug, Clone, Copy, PartialEq, Eq, Structural)]
pub enum Align {
    /// Its left edge is there.
    Left,
    /// Its right edge is there.
    Right,
    /// It is centered there.
    Center,
}

/// 2.0, as a single's bits.
pub const TWO: u32 = 0x4000_0000;

/// The left edge of a run of text of a width, from its anchor.
pub open spec fn left_edge_spec(align: Align, anchor: int, width: Single) -> int {
    match align {
        Align::Left => anchor,
        Align::Right => anchor - whole_spec(width),
        Align::Center => anchor - whole_spec(width.over(Single { bits: TWO })),
    }
}

/// The left edge of a run of text of a width, from its anchor.
pub fn left_edge(align: Align, anchor: i32, width: Single) -> (x: i64)
    ensures
        x == left_edge_spec(align, anchor as int, width),
{
    match align {
        Align::Left => anchor as i64,
        Align::Right => anchor as i64 - whole(width) as i64,
        Align::Center => anchor as i64 - whole(width.over(Single { bits: TWO })) as i64,
    }
}

/// Where the pen is before glyph `n`, starting at `x`.
pub open spec fn pen(glyphs: Seq<Glyph>, x: int, n: int) -> Single
    decreases n,
{
    if n <= 0 {
        Single::of_spec(x)
    } else {
        pen(glyphs, x, n - 1).plus(glyphs[n - 1].advance)
    }
}

/// A frame's bytes after the first `n` glyphs of a run are drawn with
/// its top-left corner at (`x`, `y`), the baseline `ascent` below.
pub open spec fn drawn(
    before: Seq<u8>,
    width: int,
    glyphs: Seq<Glyph>,
    ascent: Single,
    color: Rgb,
    x: int,
    y: int,
    n: int,
) -> Seq<u8>
    decreases n,
{
    if n <= 0 {
        before
    } else {
        let g = glyphs[n - 1];
        let left = whole_spec(pen(glyphs, x, n - 1)) + g.xmin;
        let top = y + whole_spec(ascent) - g.height - g.ymin;
        paint::painted(
            drawn(before, width, glyphs, ascent, color, x, y, n - 1),
            width,
            |px: int, py: int| g.coat(color, left, top, px, py),
        )
    }
}

/// Draws one glyph with its bitmap's top-left corner at (`left`, `top`).
fn draw_glyph(frame: &mut Frame, glyph: &Glyph, color: Rgb, left: i128, top: i128)
    requires
        old(frame).wf(),
        glyph.wf(),
        -0x2_0000_0000 <= left <= 0x2_0000_0000,
        -0x1_0000_0000_0000_0000_0000 <= top <= 0x2_0000_0000,
    ensures
        final(frame).wf(),
        final(frame).width == old(frame).width,
        final(frame).height == old(frame).height,
        final(frame).data@ == paint::painted(
            old(frame).data@,
            old(frame).width as int,
            |px: int, py: int| glyph.coat(color, left as int, top as int, px, py),
        ),
{
    let width: i128 = frame.width as i128;
    let height: i128 = frame.height as i128;
    let total = glyph.coverage.len();
    let ghost before = frame.data@;
    let ghost w = frame.width as int;
    let ghost len = before.len();
    let mut row: usize = 0;
    while row < glyph.height
        invariant
            glyph.wf(),
            total == glyph.coverage@.len(),
            frame.wf(),
            frame.width == old(frame).width == width == w,
            frame.height == old(frame).height == height,
            before == old(frame).data@,
            len == before.len() == frame.data@.len(),
            row <= glyph.height,
            -0x2_0000_0000 <= left <= 0x2_0000_0000,
            -0x1_0000_0000_0000_0000_0000 <= top <= 0x2_0000_0000,
            forall|p: int|
                0 <= p < len ==> #[trigger] frame.data@[p] == paint::coated(
                    before[p],
                    if paint::row_of(p, w) - top < row {
                        glyph.coat(
                            color,
                            left as int,
                            top as int,
                            paint::column_of(p, w),
                            paint::row_of(p, w),
                        )
                    } else {
                        None
                    },
                    p % 4,
                ),
        decreases glyph.height - row,
    {
        let py: i128 = top + row as i128;
        if 0 <= py && py < height {
            let mut col: usize = 0;
            while col < glyph.width
                invariant
                    glyph.wf(),
                    total == glyph.coverage@.len(),
                    frame.wf(),
                    frame.width == old(frame).width == width == w,
                    frame.height == old(frame).height == height,
                    before == old(frame).data@,
                    len == before.len() == frame.data@.len(),
                    row < glyph.height,
                    col <= glyph.width,
                    -0x2_0000_0000 <= left <= 0x2_0000_0000,
                    py == top + row,
                    0 <= py < height,
                    forall|p: int|
                        0 <= p < len ==> #[trigger] frame.data@[p] == paint::coated(
                            before[p],
                            if paint::row_of(p, w) - top < row || (paint::row_of(p, w) == py
                                && paint::column_of(p, w) - left < col) {
                                glyph.coat(
                                    color,
                                    left as int,
                                    top as int,
                                    paint::column_of(p, w),
                                    paint::row_of(p, w),
                                )
                            } else {
                                None
                            },
                            p % 4,
                        ),
                decreases glyph.width - col,
            {
                proof {
                    assert(0 <= row * glyph.width && row * glyph.width + glyph.width <= glyph.width
                        * glyph.height) by (nonlinear_arith)
                        requires
                            0 <= row < glyph.height,
                            0 <= glyph.width,
                    ;
                }
                let weight = glyph.coverage[row * glyph.width + col];
                let px: i128 = left + col as i128;
                if weight != 0 && 0 <= px && px < width {
                    proof {
                        paint::lemma_in_frame(w, frame.height as int, px as int, py as int);
                        assert(glyph.coat(color, left as int, top as int, px as int, py as int)
                            == Some((color, weight)));
                    }
                    paint::lay(
                        &mut frame.data,
                        frame.width as usize,
                        px as usize,
                        py as usize,
                        color,
                        weight,
                    );
                }
                proof {
                    assert forall|p: int| 0 <= p < len && paint::row_of(p, w) == py
                        && paint::column_of(p, w) - left == col implies 0 <= px < width by {
                        paint::lemma_pixel_of_byte(p, w, frame.height as int);
                    }
                }
                col = col + 1;
            }
            proof {
                assert forall|p: int| 0 <= p < len && paint::row_of(p, w) == py
                    && paint::column_of(p, w) - left >= glyph.width implies glyph.coat(
                    color,
                    left as int,
                    top as int,
                    paint::column_of(p, w),
                    paint::row_of(p, w),
                ) is None by {}
            }
        }
        proof {
            assert forall|p: int| 0 <= p < len && #[trigger] paint::row_of(p, w) == py implies 0
                <= py < height by {
                paint::lemma_pixel_of_byte(p, w, frame.height as int);
            }
        }
        row = row + 1;
    }
    assert(frame.data@ =~= paint::painted(
        before,
        w,
        |px: int, py: int| glyph.coat(color, left as int, top as int, px, py),
    ));
}

/// Draws a run of glyphs with its top-left corner at (`x`, `y`) and its
/// baseline `ascent` below.
pub fn draw(frame: &mut Frame, glyphs: &Vec<Glyph>, ascent: Single, color: Rgb, x: i64, y: i32)
    requires
        old(frame).wf(),
        forall|i: int| 0 <= i < glyphs@.len() ==> (#[trigger] glyphs@[i]).wf(),
    ensures
        final(frame).wf(),
        final(frame).width == old(frame).width,
        final(frame).height == old(frame).height,
        final(frame).data@ == drawn(
            old(frame).data@,
            old(frame).width as int,
            glyphs@,
            ascent,
            color,
            x as int,
            y as int,
            glyphs@.len() as int,
        ),
{
    let baseline: i128 = y as i128 + whole(ascent) as i128;
    let mut at = Single::of(x);
    let mut i: usize = 0;
    while i < glyphs.len()
        invariant
            forall|k: int| 0 <= k < glyphs@.len() ==> (#[trigger] glyphs@[k]).wf(),
            frame.wf(),
            frame.width == old(frame).width,
            frame.height == old(frame).height,
            i <= glyphs@.len(),
            baseline == y + whole_spec(ascent),
            at == pen(glyphs@, x as int, i as int),
            frame.data@ == drawn(
                old(frame).data@,
                old(frame).width as int,
                glyphs@,
                ascent,
                color,
                x as int,
                y as int,
                i as int,
            ),
        decreases glyphs@.len() - i,
    {
        let glyph = &glyphs[i];
        let left: i128 = whole(at) as i128 + glyph.xmin as i128;
        let top: i128 = baseline - glyph.height as i128 - glyph.ymin as i128;
        draw_glyph(frame, glyph, color, left, top);
        at = at.plus(glyph.advance);
        i = i + 1;
    }
}

/// A pixel that no glyph of a run covers stays as it is.
pub proof fn lemma_uncovered_pixels_stay(
    before: Seq<u8>,
    width: int,
    glyphs: Seq<Glyph>,
    ascent: Single,
    color: Rgb,
    x: int,
    y: int,
    n: int,
    p: int,
)
    requires
        0 <= p < before.len(),
        forall|i: int|
            0 <= i < n ==> (#[trigger] glyphs[i]).coat(
                color,
                whole_spec(pen(glyphs, x, i)) + glyphs[i].xmin,
                y + whole_spec(ascent) - glyphs[i].height - glyphs[i].ymin,
                paint::column_of(p, width),
                paint::row_of(p, width),
            ) is None,
    ensures
        drawn(before, width, glyphs, ascent, color, x, y, n).len() == before.len(),
        drawn(before, width, glyphs, ascent, color, x, y, n)[p] == before[p],
    decreases n,
{
    if n > 0 {
        lemma_uncovered_pixels_stay(before, width, glyphs, ascent, color, x, y, n - 1, p);
        assert(glyphs[n - 1].coat(
            color,
            whole_spec(pen(glyphs, x, n - 1)) + glyphs[n - 1].xmin,
            y + whole_spec(ascent) - glyphs[n - 1].height - glyphs[n - 1].ymin,
            paint::column_of(p, width),
            paint::row_of(p, width),
        ) is None);
    }
}

// How a run is set.
/// A run of whole widths is as wide as they are together, and the pen
/// goes on by each.
pub proof fn lemma_a_run_is_as_wide_as_its_glyphs(glyphs: Seq<Glyph>, g: Glyph, x: int)
    ensures
        ({
            let n = glyphs.len() as int;
            &&& advanced(glyphs.push(g), n + 1) == advanced(glyphs, n).plus(g.advance)
            &&& pen(glyphs.push(g), x, n + 1) == pen(glyphs, x, n).plus(g.advance)
            &&& pen(glyphs, x, 0) == Single::of_spec(x)
            &&& forall|v: int, w: int|
                #![trigger single::is_whole(advanced(glyphs, n), v), single::is_whole(g.advance, w)]
                single::is_whole(advanced(glyphs, n), v) && single::is_whole(g.advance, w)
                    && -0x100_0000 < v + w < 0x100_0000 ==> single::is_whole(
                    advanced(glyphs.push(g), n + 1),
                    v + w,
                )
        }),
{
    let n = glyphs.len() as int;
    lemma_advanced_of_a_start(glyphs, glyphs.push(g), x, n);
    assert(glyphs.push(g)[n] == g);
    assert forall|v: int, w: int|
        #![trigger single::is_whole(advanced(glyphs, n), v), single::is_whole(g.advance, w)]
        single::is_whole(advanced(glyphs, n), v) && single::is_whole(g.advance, w) && -0x100_0000
            < v + w < 0x100_0000 implies single::is_whole(advanced(glyphs.push(g), n + 1), v + w) by {
        single::lemma_wholes_compute(advanced(glyphs, n), g.advance, v, w);
    }
}

proof fn lemma_advanced_of_a_start(a: Seq<Glyph>, b: Seq<Glyph>, x: int, n: int)
    requires
        0 <= n <= a.len(),
        n <= b.len(),
        forall|i: int| 0 <= i < n ==> #[trigger] a[i] == b[i],
    ensures
        advanced(a, n) == advanced(b, n),
        pen(a, x, n) == pen(b, x, n),
    decreases n,
{
    if n > 0 {
        assert(a[n - 1] == b[n - 1]);
        lemma_advanced_of_a_start(a, b, x, n - 1);
    }
}

/// A run starts at its anchor, ends at it, or is as far on both sides.
pub proof fn lemma_where_a_run_starts(anchor: int, width: Single, v: int)
    requires
        single::is_whole(width, v),
        0 <= v < 0x100_0000,
    ensures
        left_edge_spec(Align::Left, anchor, width) == anchor,
        left_edge_spec(Align::Right, anchor, width) + v == anchor,
        v % 2 == 0 ==> 2 * left_edge_spec(Align::Center, anchor, width) + v == 2 * anchor,
{
    let two = Single { bits: TWO };
    let (low, high) = (i32::MIN as int, i32::MAX as int);
    single::lemma_whole_is_itself(width, v, low, high);
    assert(single::is_whole(two, 2)) by {
        let f = rounding::binary32();
        ieee::lemma_format_bounds(f);
        assert(f.units(0x4000_0000) == 0x80_0000 * pow2(127));
        lemma2_to64();
        lemma2_to64_rest();
        lemma_pow2_adds(23, 127);
        lemma_pow2_unfold(150);
    }
    if v % 2 == 0 {
        single::lemma_wholes_compute(width, two, v, 2);
        single::lemma_whole_is_itself(width.over(two), v / 2, low, high);
    }
}

/// A glyph lays its color on just the pixels that it covers, as much as
/// it covers them.
pub proof fn lemma_a_glyph_covers_its_pixels(
    g: Glyph,
    color: Rgb,
    left: int,
    top: int,
    col: int,
    row: int,
)
    ensures
        0 <= col < g.width && 0 <= row < g.height ==> ({
            let k = g.coverage@[row * g.width + col];
            &&& k != 0 ==> g.coat(color, left, top, left + col, top + row) == Some((color, k))
            &&& k == 0 ==> g.coat(color, left, top, left + col, top + row) is None
        }),
        !(0 <= col < g.width && 0 <= row < g.height) ==> g.coat(
            color,
            left,
            top,
            left + col,
            top + row,
        ) is None,
{
}

/// Each glyph of a run is painted over those before it, where the pen
/// is, on the baseline.
#[verifier::rlimit(50)]
pub proof fn lemma_glyphs_are_painted_in_turn(
    before: Seq<u8>,
    width: int,
    glyphs: Seq<Glyph>,
    ascent: Single,
    color: Rgb,
    x: int,
    y: int,
    n: int,
)
    requires
        0 <= n < glyphs.len(),
    ensures
        drawn(before, width, glyphs, ascent, color, x, y, 0) == before,
        ({
            let g = glyphs[n];
            let (low, high) = (i32::MIN as int, i32::MAX as int);
            let left = pen(glyphs, x, n).truncated_spec(low, high) + g.xmin;
            let bottom = y + ascent.truncated_spec(low, high) - g.ymin;
            drawn(before, width, glyphs, ascent, color, x, y, n + 1) == paint::painted(
                drawn(before, width, glyphs, ascent, color, x, y, n),
                width,
                |px: int, py: int| g.coat(color, left, bottom - g.height, px, py),
            )
        }),
{
    let g = glyphs[n];
    let left = whole_spec(pen(glyphs, x, n)) + g.xmin;
    let top = y + whole_spec(ascent) - g.height - g.ymin;
    let bottom = y + whole_spec(ascent) - g.ymin;
    let a = |px: int, py: int| g.coat(color, left, top, px, py);
    let b = |px: int, py: int| g.coat(color, left, bottom - g.height, px, py);
    let start = drawn(before, width, glyphs, ascent, color, x, y, n);
    assert(paint::painted(start, width, a) =~= paint::painted(start, width, b));
}

} // verus!
