//! A frame of pixels, and laying colors over it.
use vstd::arithmetic::div_mod::*;
use vstd::prelude::*;

verus! {

/// A color as red, green, blue.
pub type Rgb = [u8; 3];

/// An opaque frame: red, green, blue, and alpha bytes, row by row.
#[derive(Debug, Clone, PartialEq)]
pub struct Frame {
    pub width: u32,
    pub height: u32,
    pub data: Vec<u8>,
}

impl Frame {
    /// Four bytes for each pixel.
    pub open spec fn wf(self) -> bool {
        self.data@.len() == self.width as int * self.height as int * 4
    }
}

/// One channel of a color laid over another with a weight of 0 to 255.
pub open spec fn blended_spec(value: u8, weight: u8, under: u8) -> u8 {
    ((value as int * weight as int + under as int * (255 - weight as int)) / 255) as u8
}

/// One channel of a color laid over another with a weight of 0 to 255.
pub fn blended(value: u8, weight: u8, under: u8) -> (r: u8)
    ensures
        r == blended_spec(value, weight, under),
{
    proof {
        assert(0 <= value as int * weight as int <= 255 * weight as int) by (nonlinear_arith)
            requires
                0 <= value <= 255,
                0 <= weight <= 255,
        ;
        assert(0 <= under as int * (255 - weight as int) <= 255 * (255 - weight as int))
            by (nonlinear_arith)
            requires
                0 <= under <= 255,
                0 <= weight <= 255,
        ;
    }
    let inv: u32 = 255 - weight as u32;
    ((value as u32 * weight as u32 + under as u32 * inv) / 255) as u8
}

/// What is laid on a pixel: nothing, or a color with a weight.
pub type Coat = Option<(Rgb, u8)>;

/// Byte `c` of a pixel under a coat: the color blended in, and opaque.
pub open spec fn coated(under: u8, coat: Coat, c: int) -> u8 {
    match coat {
        None => under,
        Some(s) => if c == 3 {
            255
        } else {
            blended_spec(s.0[c], s.1, under)
        },
    }
}

/// The column and the row of the pixel a byte belongs to.
pub open spec fn column_of(p: int, width: int) -> int {
    (p / 4) % width
}

pub open spec fn row_of(p: int, width: int) -> int {
    (p / 4) / width
}

/// Some frame bytes with a coat over each pixel, by its column and its
/// row.
pub open spec fn painted(before: Seq<u8>, width: int, coats: spec_fn(int, int) -> Coat) -> Seq<u8> {
    Seq::new(
        before.len(),
        |p: int| coated(before[p], coats(column_of(p, width), row_of(p, width)), p % 4),
    )
}

/// A byte belongs to a pixel just when it is one of the pixel's four.
proof fn lemma_bytes_of_pixel(p: int, width: int, x: int, y: int)
    requires
        0 <= p,
        0 <= x < width,
        0 <= y,
    ensures
        (column_of(p, width) == x && row_of(p, width) == y) <==> (y * width + x) * 4 <= p < (y
            * width + x) * 4 + 4,
{
    let q = p / 4;
    lemma_fundamental_div_mod(q, width);
    assert(width * (q / width) == (q / width) * width) by (nonlinear_arith);
    if (y * width + x) * 4 <= p < (y * width + x) * 4 + 4 {
        assert(q == y * width + x);
        lemma_fundamental_div_mod_converse(q, width, y, x);
    }
}

/// Lays a coat over one pixel.
pub fn lay(data: &mut Vec<u8>, width: usize, x: usize, y: usize, color: Rgb, weight: u8)
    requires
        x < width,
        (y * width + x) * 4 + 3 < old(data)@.len(),
    ensures
        final(data)@ == Seq::new(
            old(data)@.len(),
            |p: int|
                if column_of(p, width as int) == x && row_of(p, width as int) == y {
                    coated(old(data)@[p], Some((color, weight)), p % 4)
                } else {
                    old(data)@[p]
                },
        ),
{
    let size = data.len();
    proof {
        assert(0 <= y * width) by (nonlinear_arith)
            requires
                0 <= y,
                0 <= width,
        ;
    }
    let at: usize = (y * width + x) * 4;
    let r = blended(color[0], weight, data[at]);
    let g = blended(color[1], weight, data[at + 1]);
    let b = blended(color[2], weight, data[at + 2]);
    data.set(at, r);
    data.set(at + 1, g);
    data.set(at + 2, b);
    data.set(at + 3, 255);
    proof {
        let want = Seq::new(
            old(data)@.len(),
            |p: int|
                if column_of(p, width as int) == x && row_of(p, width as int) == y {
                    coated(old(data)@[p], Some((color, weight)), p % 4)
                } else {
                    old(data)@[p]
                },
        );
        assert forall|p: int| 0 <= p < data@.len() implies data@[p] == want[p] by {
            lemma_bytes_of_pixel(p, width as int, x as int, y as int);
            if at <= p < at + 4 {
                assert(p % 4 == p - at);
            }
        }
        assert(data@ =~= want);
    }
}

/// The pixel of a column and a row is in the frame.
pub proof fn lemma_in_frame(width: int, height: int, x: int, y: int)
    requires
        0 <= x < width,
        0 <= y < height,
    ensures
        0 <= (y * width + x) * 4,
        (y * width + x) * 4 + 3 < width * height * 4,
{
    assert(0 <= y * width) by (nonlinear_arith)
        requires
            0 <= y,
            0 < width,
    ;
    assert(y * width + width <= width * height) by (nonlinear_arith)
        requires
            0 <= y < height,
            0 < width,
    ;
}

/// A byte of a frame belongs to a pixel of the frame.
pub proof fn lemma_pixel_of_byte(p: int, width: int, height: int)
    requires
        0 <= p < width * height * 4,
        0 <= width,
        0 <= height,
    ensures
        0 < width,
        0 <= column_of(p, width) < width,
        0 <= row_of(p, width) < height,
{
    if width == 0 {
        assert(width * height * 4 == 0) by (nonlinear_arith)
            requires
                width == 0,
        ;
    }
    let q = p / 4;
    lemma_mod_bound(q, width);
    lemma_div_pos_is_pos(q, width);
    if q / width >= height {
        lemma_fundamental_div_mod(q, width);
        assert(width * (q / width) >= width * height) by (nonlinear_arith)
            requires
                q / width >= height,
                0 < width,
        ;
    }
}

// What a coat does.
/// A blend is the weighted mean cut to a whole number: the color under
/// it with no weight, the one laid on with full weight, and between the
/// two else.
#[verifier::rlimit(50)]
pub proof fn lemma_a_blend_is_between(value: u8, weight: u8, under: u8)
    ensures
        ({
            let r = blended_spec(value, weight, under) as int;
            let exact = value as int * weight as int + under as int * (255 - weight as int);
            &&& 255 * r <= exact < 255 * (r + 1)
            &&& weight == 0 ==> r == under
            &&& weight == 255 ==> r == value
            &&& value <= under ==> value <= r <= under
            &&& under <= value ==> under <= r <= value
        }),
{
    let (v, w, u) = (value as int, weight as int, under as int);
    let exact = v * w + u * (255 - w);
    let r = exact / 255;
    assert(0 <= exact <= 255 * 255) by (nonlinear_arith)
        requires
            0 <= v <= 255,
            0 <= w <= 255,
            0 <= u <= 255,
            exact == v * w + u * (255 - w),
    ;
    assert(v <= u ==> 255 * v <= exact <= 255 * u) by (nonlinear_arith)
        requires
            0 <= w <= 255,
            exact == v * w + u * (255 - w),
    ;
    assert(u <= v ==> 255 * u <= exact <= 255 * v) by (nonlinear_arith)
        requires
            0 <= w <= 255,
            exact == v * w + u * (255 - w),
    ;
    assert(w == 0 ==> exact == 255 * u) by (nonlinear_arith)
        requires
            exact == v * w + u * (255 - w),
    ;
    assert(w == 255 ==> exact == 255 * v) by (nonlinear_arith)
        requires
            exact == v * w + u * (255 - w),
    ;
}

/// A pixel without a coat stays; under one each of its colors is
/// blended and it is opaque.
pub proof fn lemma_a_pixel_takes_its_coat(
    before: Seq<u8>,
    width: int,
    coats: spec_fn(int, int) -> Coat,
    x: int,
    y: int,
    c: int,
)
    requires
        0 <= x < width,
        0 <= y,
        0 <= c < 4,
        (y * width + x) * 4 + c < before.len(),
    ensures
        ({
            let p = (y * width + x) * 4 + c;
            let after = painted(before, width, coats);
            &&& after.len() == before.len()
            &&& coats(x, y) is None ==> after[p] == before[p]
            &&& coats(x, y) matches Some((color, weight)) ==> after[p] == if c == 3 {
                255u8
            } else {
                blended_spec(color[c], weight, before[p])
            }
        }),
{
    let p = (y * width + x) * 4 + c;
    assert(0 <= y * width) by (nonlinear_arith)
        requires
            0 <= y,
            0 < width,
    ;
    lemma_bytes_of_pixel(p, width, x, y);
    assert(p % 4 == c);
}

} // verus!
