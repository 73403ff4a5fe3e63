//! Images, decoded from PNG and blitted onto a frame.
use vstd::arithmetic::div_mod::*;
use vstd::arithmetic::mul::*;
use vstd::prelude::*;

use crate::double::Double;
use crate::order;
use crate::paint;
use crate::paint::Frame;

verus! {

/// What `png::Decoder::read_info` finds in a file: the bytes a frame
/// takes, the color type, and the bit depth, or None where it fails.
pub uninterp spec fn png_header(bytes: Seq<u8>) -> Option<(usize, u8, u8)>;

/// What `png::Reader::next_frame` decodes of a file: the width, the
/// height, and the bytes, or None where it fails.
pub uninterp spec fn png_frame(bytes: Seq<u8>) -> Option<(u32, u32, Seq<u8>)>;

/// `png::Decoder::read_info` on the bytes of a file, with the reader's
/// `output_buffer_size`, and its `output_color_type` as the numbers the
/// PNG format gives the color type and the bit depth.
#[verifier::external_body]
fn read_header(bytes: &[u8]) -> (r: Option<(usize, u8, u8)>)
    ensures
        r == png_header(bytes@),
{
    let reader = png::Decoder::new(bytes).read_info().ok()?;
    let (color, depth) = reader.output_color_type();
    Some((reader.output_buffer_size(), color as u8, depth as u8))
}

/// `png::Reader::next_frame` on the bytes of a file, into a buffer of
/// the size its header asks for, cut to the frame's `buffer_size`.
#[verifier::external_body]
fn read_frame(bytes: &[u8], size: usize) -> (r: Option<(u32, u32, Vec<u8>)>)
    requires
        png_header(bytes@) matches Some(h) && h.0 == size,
        size <= isize::MAX,
    ensures
        match r {
            Some(f) => png_frame(bytes@) == Some((f.0, f.1, f.2@)),
            None => png_frame(bytes@) is None,
        },
{
    let mut reader = png::Decoder::new(bytes).read_info().ok()?;
    let mut buf = vec![0u8; size];
    let info = reader.next_frame(&mut buf).ok()?;
    buf.truncate(info.buffer_size());
    Some((info.width, info.height, buf))
}

/// The PNG color types the images here are drawn in: RGB, and RGBA.
pub const RGB: u8 = 2;

pub const RGBA: u8 = 6;

/// A decoded image, straight RGBA.
#[derive(Debug, Clone, PartialEq)]
pub struct Image {
    pub width: u32,
    pub height: u32,
    pub data: Vec<u8>,
}

/// Why a file is no image here.
#[derive(Debug, Clone, Copy, PartialEq, Eq, Structural)]
pub enum ImageError {
    /// It is not a PNG, or not a whole one.
    Unreadable,
    /// Its color type is neither RGB nor RGBA.
    Color(u8),
    /// Its samples are not 8 bits.
    Depth(u8),
    /// It is larger than memory can be, or its bytes are not its
    /// pixels.
    Size,
}

/// RGB bytes with an opaque alpha behind each three.
pub open spec fn with_alpha(rgb: Seq<u8>, pixels: nat) -> Seq<u8> {
    Seq::new(
        pixels * 4,
        |p: int|
            if p % 4 == 3 {
                255u8
            } else {
                rgb[p / 4 * 3 + p % 4]
            },
    )
}

/// Whether a size and some bytes are an image.
pub open spec fn are_pixels(width: u32, height: u32, channels: int, len: int) -> bool {
    width >= 1 && height >= 1 && len == width as int * height as int * channels
}

/// What a file holds, by what the decoder makes of it.
pub open spec fn image_of(
    header: Option<(usize, u8, u8)>,
    frame: Option<(u32, u32, Seq<u8>)>,
) -> Result<(u32, u32, Seq<u8>), ImageError> {
    match header {
        None => Err(ImageError::Unreadable),
        Some(h) => if h.1 != RGB && h.1 != RGBA {
            Err(ImageError::Color(h.1))
        } else if h.2 != 8 {
            Err(ImageError::Depth(h.2))
        } else if h.0 > isize::MAX {
            Err(ImageError::Size)
        } else {
            match frame {
                None => Err(ImageError::Unreadable),
                Some(f) => pixels_of(f.0, f.1, h.1, f.2),
            }
        },
    }
}

/// The straight RGBA of some decoded bytes.
pub open spec fn pixels_of(width: u32, height: u32, color: u8, data: Seq<u8>) -> Result<
    (u32, u32, Seq<u8>),
    ImageError,
> {
    if color == RGBA && are_pixels(width, height, 4, data.len() as int) {
        Ok((width, height, data))
    } else if color == RGB && are_pixels(width, height, 3, data.len() as int) {
        Ok((width, height, with_alpha(data, (width as int * height as int) as nat)))
    } else {
        Err(ImageError::Size)
    }
}

/// The width an image has at a height: the nearest double of its
/// aspect, cut to a whole number.
pub open spec fn width_spec(width: u32, own_height: u32, height: u32) -> int {
    Double::of_spec(width as int).times(Double::of_spec(height as int)).over(
        Double::of_spec(own_height as int),
    ).truncated_spec(0, u32::MAX as int)
}

/// A count as a signed integer; past that there is none.
pub open spec fn countable(n: int) -> int {
    if n > i32::MAX {
        0
    } else {
        n
    }
}

impl Image {
    /// Pixels, and four bytes for each.
    pub open spec fn wf(self) -> bool {
        are_pixels(self.width, self.height, 4, self.data@.len() as int)
    }

    /// An image of decoded bytes of a PNG color type.
    pub fn from_pixels(width: u32, height: u32, color: u8, data: Vec<u8>) -> (r: Result<
        Image,
        ImageError,
    >)
        ensures
            match pixels_of(width, height, color, data@) {
                Ok(p) => r is Ok && r->Ok_0.width == p.0 && r->Ok_0.height == p.1
                    && r->Ok_0.data@ == p.2 && r->Ok_0.wf(),
                Err(e) => r == Err::<Image, ImageError>(e),
            },
    {
        proof {
            assert(width as int * height as int <= 0xffff_ffff * 0xffff_ffff) by (nonlinear_arith)
                requires
                    0 <= width <= 0xffff_ffff,
                    0 <= height <= 0xffff_ffff,
            ;
        }
        let pixels: u128 = width as u128 * height as u128;
        if width == 0 || height == 0 {
            return Err(ImageError::Size);
        }
        if color == RGBA && data.len() as u128 == pixels * 4 {
            return Ok(Image { width, height, data });
        }
        if color == RGB && data.len() as u128 == pixels * 3 {
            let total: usize = data.len();
            let count: usize = total / 3;
            let mut out: Vec<u8> = Vec::new();
            let mut i: usize = 0;
            let ghost want = with_alpha(data@, count as nat);
            while i < count
                invariant
                    i <= count,
                    count * 3 == total == data@.len(),
                    want == with_alpha(data@, count as nat),
                    out@.len() == i * 4,
                    forall|p: int| 0 <= p < i * 4 ==> out@[p] == want[p],
                decreases count - i,
            {
                out.push(data[i * 3]);
                out.push(data[i * 3 + 1]);
                out.push(data[i * 3 + 2]);
                out.push(255);
                i = i + 1;
            }
            assert(out@ =~= want);
            return Ok(Image { width, height, data: out });
        }
        Err(ImageError::Size)
    }

    /// Decodes a PNG. Refuses anything but an 8-bit RGB or RGBA image.
    pub fn from_png(bytes: &[u8]) -> (r: Result<Image, ImageError>)
        ensures
            match image_of(png_header(bytes@), png_frame(bytes@)) {
                Ok(p) => r is Ok && r->Ok_0.width == p.0 && r->Ok_0.height == p.1
                    && r->Ok_0.data@ == p.2 && r->Ok_0.wf(),
                Err(e) => r == Err::<Image, ImageError>(e),
            },
    {
        let (size, color, depth) = match read_header(bytes) {
            Some(h) => h,
            None => {
                return Err(ImageError::Unreadable);
            },
        };
        if color != RGB && color != RGBA {
            return Err(ImageError::Color(color));
        }
        if depth != 8 {
            return Err(ImageError::Depth(depth));
        }
        if size > isize::MAX as usize {
            return Err(ImageError::Size);
        }
        match read_frame(bytes, size) {
            None => Err(ImageError::Unreadable),
            Some((width, height, data)) => Self::from_pixels(width, height, color, data),
        }
    }

    /// The width the image has when scaled to `height` pixels tall.
    pub fn width_at(&self, height: u32) -> (w: u32)
        ensures
            w == width_spec(self.width, self.height, height),
    {
        let w: i64 = Double::of(self.width as i64).times(Double::of(height as i64)).over(
            Double::of(self.height as i64),
        ).truncated(0, u32::MAX as i64);
        w as u32
    }

    /// How many pixels of the image there are to one on the frame.
    pub open spec fn scale(self, height: u32) -> Double {
        Double::of_spec(height as int).over(Double::of_spec(self.height as int))
    }

    /// Which of `n` rows or columns of the image is sampled for one on
    /// the frame.
    pub open spec fn sampled(t: int, scale: Double, n: u32) -> int {
        let at = Double::of_spec(t).over(scale).truncated_spec(0, i64::MAX as int);
        if at > n - 1 {
            n - 1
        } else {
            at
        }
    }

    /// What the image, scaled to a height with its top-left corner at
    /// (`x`, `y`), lays on a pixel of the frame: the nearest of its
    /// pixels, by its alpha.
    pub open spec fn coat(self, x: int, y: int, height: u32, px: int, py: int) -> paint::Coat {
        let tx = px - x;
        let ty = py - y;
        if 0 <= tx < countable(width_spec(self.width, self.height, height)) && 0 <= ty < countable(
            height as int,
        ) {
            let sx = Self::sampled(tx, self.scale(height), self.width);
            let sy = Self::sampled(ty, self.scale(height), self.height);
            let at = (sy * self.width + sx) * 4;
            let alpha = self.data@[at + 3];
            if alpha == 0 {
                None
            } else {
                Some(([self.data@[at], self.data@[at + 1], self.data@[at + 2]], alpha))
            }
        } else {
            None
        }
    }

    fn sample(t: u32, scale: Double, n: u32) -> (s: u32)
        requires
            n >= 1,
        ensures
            s == Self::sampled(t as int, scale, n),
            s < n,
    {
        let at: i64 = Double::of(t as i64).over(scale).truncated(0, i64::MAX);
        if at > n as i64 - 1 {
            n - 1
        } else {
            at as u32
        }
    }

    /// Blits the image with its top-left corner at (`x`, `y`), scaled to
    /// `height` pixels tall with the aspect kept, sampled
    /// nearest-neighbor and blended by its alpha.
    pub fn blit(&self, frame: &mut Frame, x: i32, y: i32, height: u32)
        requires
            self.wf(),
            old(frame).wf(),
        ensures
            final(frame).wf(),
            final(frame).width == old(frame).width,
            final(frame).height == old(frame).height,
            final(frame).data@ == paint::painted(
                old(frame).data@,
                old(frame).width as int,
                |px: int, py: int| self.coat(x as int, y as int, height, px, py),
            ),
    {
        let scale = Double::of(height as i64).over(Double::of(self.height as i64));
        let width = self.width_at(height);
        let cols: u32 = if width > i32::MAX as u32 {
            0
        } else {
            width
        };
        let rows: u32 = if height > i32::MAX as u32 {
            0
        } else {
            height
        };
        let dst_w: i64 = frame.width as i64;
        let dst_h: i64 = frame.height as i64;
        let ghost before = frame.data@;
        let ghost w = frame.width as int;
        let ghost len = before.len();
        let mut ty: u32 = 0;
        while ty < rows
            invariant
                self.wf(),
                frame.wf(),
                frame.width == old(frame).width == dst_w == w,
                frame.height == old(frame).height == dst_h,
                before == old(frame).data@,
                len == before.len() == frame.data@.len(),
                scale == self.scale(height),
                cols == countable(width_spec(self.width, self.height, height)),
                rows == countable(height as int),
                ty <= rows,
                forall|p: int|
                    0 <= p < len ==> #[trigger] frame.data@[p] == paint::coated(
                        before[p],
                        if paint::row_of(p, w) - y < ty {
                            self.coat(
                                x as int,
                                y as int,
                                height,
                                paint::column_of(p, w),
                                paint::row_of(p, w),
                            )
                        } else {
                            None
                        },
                        p % 4,
                    ),
            decreases rows - ty,
        {
            let py: i64 = y as i64 + ty as i64;
            if 0 <= py && py < dst_h {
                let sy = Self::sample(ty, scale, self.height);
                let mut tx: u32 = 0;
                while tx < cols
                    invariant
                        self.wf(),
                        frame.wf(),
                        frame.width == old(frame).width == dst_w == w,
                        frame.height == old(frame).height == dst_h,
                        before == old(frame).data@,
                        len == before.len() == frame.data@.len(),
                        scale == self.scale(height),
                        cols == countable(width_spec(self.width, self.height, height)),
                        rows == countable(height as int),
                        ty < rows,
                        tx <= cols,
                        py == y + ty,
                        0 <= py < dst_h,
                        sy == Self::sampled(ty as int, scale, self.height),
                        sy < self.height,
                        forall|p: int|
                            0 <= p < len ==> #[trigger] frame.data@[p] == paint::coated(
                                before[p],
                                if paint::row_of(p, w) - y < ty || (paint::row_of(p, w) == py
                                    && paint::column_of(p, w) - x < tx) {
                                    self.coat(
                                        x as int,
                                        y as int,
                                        height,
                                        paint::column_of(p, w),
                                        paint::row_of(p, w),
                                    )
                                } else {
                                    None
                                },
                                p % 4,
                            ),
                    decreases cols - tx,
                {
                    let px: i64 = x as i64 + tx as i64;
                    if 0 <= px && px < dst_w {
                        let sx = Self::sample(tx, scale, self.width);
                        let total = self.data.len();
                        proof {
                            paint::lemma_in_frame(
                                self.width as int,
                                self.height as int,
                                sx as int,
                                sy as int,
                            );
                            assert(0 <= sy as int * self.width as int) by (nonlinear_arith)
                                requires
                                    0 <= sy,
                                    0 <= self.width,
                            ;
                        }
                        let at: usize = (sy as usize * self.width as usize + sx as usize) * 4;
                        let alpha = self.data[at + 3];
                        if alpha != 0 {
                            let color = [self.data[at], self.data[at + 1], self.data[at + 2]];
                            proof {
                                paint::lemma_in_frame(w, frame.height as int, px as int, py as int);
                                assert(self.coat(x as int, y as int, height, px as int, py as int)
                                    == Some((color, alpha)));
                            }
                            paint::lay(
                                &mut frame.data,
                                frame.width as usize,
                                px as usize,
                                py as usize,
                                color,
                                alpha,
                            );
                        }
                    }
                    proof {
                        assert forall|p: int| 0 <= p < len && paint::row_of(p, w) == py
                            && paint::column_of(p, w) - x == tx implies 0 <= px < dst_w by {
                            paint::lemma_pixel_of_byte(p, w, frame.height as int);
                        }
                    }
                    tx = tx + 1;
                }
                proof {
                    assert forall|p: int| 0 <= p < len && paint::row_of(p, w) == py
                        && paint::column_of(p, w) - x >= cols implies self.coat(
                        x as int,
                        y as int,
                        height,
                        paint::column_of(p, w),
                        paint::row_of(p, w),
                    ) is None by {}
                }
            }
            proof {
                assert forall|p: int| 0 <= p < len && #[trigger] paint::row_of(p, w) == py implies 0
                    <= py < dst_h by {
                    paint::lemma_pixel_of_byte(p, w, frame.height as int);
                }
            }
            ty = ty + 1;
        }
        assert(frame.data@ =~= paint::painted(
            before,
            w,
            |px: int, py: int| self.coat(x as int, y as int, height, px, py),
        ));
    }
}

// What is drawn of an image.
/// An image without alpha is opaque: each of its pixels has its three
/// bytes, and a fourth of 255.
pub proof fn lemma_an_opaque_image(rgb: Seq<u8>, pixels: nat, k: int)
    requires
        0 <= k < pixels,
    ensures
        with_alpha(rgb, pixels).len() == 4 * pixels,
        with_alpha(rgb, pixels)[4 * k] == rgb[3 * k],
        with_alpha(rgb, pixels)[4 * k + 1] == rgb[3 * k + 1],
        with_alpha(rgb, pixels)[4 * k + 2] == rgb[3 * k + 2],
        with_alpha(rgb, pixels)[4 * k + 3] == 255,
{
}

/// Which pictures are taken: those of 8 bits in red, green and blue,
/// with alpha or without, that have a pixel and all their bytes; and
/// what is said of the others.
#[verifier::rlimit(50)]
pub proof fn lemma_which_pictures_are_taken(
    header: Option<(usize, u8, u8)>,
    frame: Option<(u32, u32, Seq<u8>)>,
)
    ensures
        ({
            let r = image_of(header, frame);
            &&& header is None ==> r is Err && r->Err_0 == ImageError::Unreadable
            &&& header matches Some((size, color, depth)) ==> {
                &&& color != 2 && color != 6 ==> r is Err && r->Err_0 == ImageError::Color(color)
                &&& (color == 2 || color == 6) && depth != 8 ==> r is Err && r->Err_0
                    == ImageError::Depth(depth)
                &&& (color == 2 || color == 6) && depth == 8 && size > isize::MAX ==> r is Err
                    && r->Err_0 == ImageError::Size
                &&& (color == 2 || color == 6) && depth == 8 && size <= isize::MAX
                    && frame is None ==> r is Err && r->Err_0 == ImageError::Unreadable
                &&& (color == 2 || color == 6) && depth == 8 && size <= isize::MAX ==> (
                frame matches Some((w, h, data)) ==> {
                    let n = w as int * h as int;
                    &&& w == 0 || h == 0 ==> r is Err && r->Err_0 == ImageError::Size
                    &&& w > 0 && h > 0 && color == 6 && data.len() == n * 4 ==> r is Ok
                        && r->Ok_0 == (w, h, data)
                    &&& w > 0 && h > 0 && color == 2 && data.len() == n * 3 ==> r is Ok
                        && r->Ok_0.0 == w && r->Ok_0.1 == h && r->Ok_0.2 == with_alpha(
                        data,
                        n as nat,
                    )
                    &&& w > 0 && h > 0 && color == 6 && data.len() != n * 4 ==> r is Err
                        && r->Err_0 == ImageError::Size
                    &&& w > 0 && h > 0 && color == 2 && data.len() != n * 3 ==> r is Err
                        && r->Err_0 == ImageError::Size
                })
            }
        }),
{
}

/// An image scaled to a multiple of its height has that multiple of its
/// width.
pub proof fn lemma_scaling_keeps_the_shape(width: u32, own_height: u32, height: u32, k: int)
    requires
        own_height > 0,
        height == k * own_height,
        width * height < 0x20_0000_0000_0000,
        k * width <= u32::MAX,
    ensures
        width_spec(width, own_height, height) == k * width,
{
    let (w, h, own) = (width as int, height as int, own_height as int);
    order::lemma_of_is_exact(w);
    order::lemma_of_is_exact(h);
    order::lemma_of_is_exact(own);
    let (dw, dh, down) = (Double::of_spec(w), Double::of_spec(h), Double::of_spec(own));
    assert(0 <= w * h) by (nonlinear_arith)
        requires
            0 <= w,
            0 <= h,
    ;
    order::lemma_wholes_compute(dw, dh, w, h);
    assert(w * h == (k * w) * own) by (nonlinear_arith)
        requires
            h == k * own,
    ;
    lemma_div_multiples_vanish(k * w, own);
    lemma_mod_multiples_basic(k * w, own);
    lemma_mul_is_commutative(k * w, own);
    assert(0 <= k * w) by (nonlinear_arith)
        requires
            0 <= h,
            h == k * own,
            own > 0,
            0 <= w,
    ;
    order::lemma_wholes_compute(dw.times(dh), down, w * h, own);
    order::lemma_whole_is_not_cut(dw.times(dh).over(down), k * w, 0, u32::MAX as int);
}

/// At its own height an image is drawn pixel by pixel from its corner,
/// each with its own color and alpha, and nothing around it.
#[verifier::rlimit(50)]
pub proof fn lemma_an_image_is_drawn_as_it_is(image: Image, x: int, y: int, i: int, j: int)
    requires
        image.wf(),
        image.width <= 0x10_0000,
        image.height <= 0x10_0000,
    ensures
        0 <= i < image.width && 0 <= j < image.height ==> ({
            let at = (j * image.width + i) * 4;
            let data = image.data@;
            image.coat(x, y, image.height, x + i, y + j) == if data[at + 3] == 0 {
                None
            } else {
                Some(([data[at], data[at + 1], data[at + 2]], data[at + 3]))
            }
        }),
        !(0 <= i < image.width && 0 <= j < image.height) ==> image.coat(
            x,
            y,
            image.height,
            x + i,
            y + j,
        ) is None,
{
    let (w, h) = (image.width as int, image.height as int);
    assert(w * h < 0x20_0000_0000_0000) by (nonlinear_arith)
        requires
            0 <= w <= 0x10_0000,
            0 <= h <= 0x10_0000,
    ;
    lemma_scaling_keeps_the_shape(image.width, image.height, image.height, 1);
    order::lemma_of_is_exact(h);
    let high = Double::of_spec(h);
    lemma_div_by_self(h);
    lemma_mod_self_0(h);
    order::lemma_wholes_compute(high, high, h, h);
    let scale = image.scale(image.height);
    if 0 <= i < w && 0 <= j < h {
        order::lemma_of_is_exact(i);
        order::lemma_of_is_exact(j);
        lemma_div_basics(i);
        lemma_div_basics(j);
        order::lemma_wholes_compute(Double::of_spec(i), scale, i, 1);
        order::lemma_wholes_compute(Double::of_spec(j), scale, j, 1);
        order::lemma_whole_is_not_cut(Double::of_spec(i).over(scale), i, 0, i64::MAX as int);
        order::lemma_whole_is_not_cut(Double::of_spec(j).over(scale), j, 0, i64::MAX as int);
        assert(Image::sampled(i, scale, image.width) == i);
        assert(Image::sampled(j, scale, image.height) == j);
    }
}

} // verus!
