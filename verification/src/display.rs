//! Where a rendered frame goes: the Linux framebuffer, a PNG file, or
//! nowhere.
//!
//! `Output` is the choice, parsed from the command line. The
//! framebuffer's size and pixel format come from sysfs, so the same
//! binary drives whatever panel is attached; `encode` packs a frame for
//! it.
use std::str::FromStr;
use vstd::arithmetic::div_mod::*;
use vstd::arithmetic::mul::*;
use vstd::prelude::*;

use crate::wording;
use crate::wording::NumberError;

verus! {

/// Where frames go.
#[derive(Debug, Clone, PartialEq, Eq)]
pub enum Output {
    /// A framebuffer device such as `/dev/fb0`.
    Framebuffer(String),
    /// A PNG file, rewritten with every frame.
    Png(String),
    /// Nowhere, for a headless run.
    Nowhere,
}

/// Whether this is what a text says of where frames go.
pub open spec fn chooses(text: Seq<char>, r: Result<Output, String>) -> bool {
    if text == "none"@ {
        r == Ok::<Output, String>(Output::Nowhere)
    } else if wording::ends_with_spec(text, ".png"@) {
        r matches Ok(Output::Png(path)) && path@ == text
    } else if wording::begins_with_spec(text, "/"@) {
        r matches Ok(Output::Framebuffer(path)) && path@ == text
    } else {
        r matches Err(why) && why@ == text + ": expected none, a .png path, or a device path"@
    }
}

impl Output {
    /// `none`, a path ending in `.png`, or a device path.
    pub fn parse(s: &str) -> (r: Result<Output, String>)
        ensures
            chooses(s@, r),
    {
        if wording::same(s, "none") {
            Ok(Output::Nowhere)
        } else if wording::ends_with(s, ".png") {
            Ok(Output::Png(s.to_string()))
        } else if wording::begins_with(s, "/") {
            Ok(Output::Framebuffer(s.to_string()))
        } else {
            let mut why = s.to_string();
            why.append(": expected none, a .png path, or a device path");
            Err(why)
        }
    }
}

impl FromStr for Output {
    type Err = String;

    /// `none`, a path ending in `.png`, or a device path.
    fn from_str(s: &str) -> (r: Result<Self, String>)
        ensures
            chooses(s@, r),
    {
        Output::parse(s)
    }
}

/// A frame size, parsed from `WIDTHxHEIGHT`.
#[derive(Debug, Clone, Copy, PartialEq, Eq, Structural)]
pub struct Size {
    pub width: u32,
    pub height: u32,
}

/// What two numbers around a separator are, the left one's error first.
pub open spec fn pair_spec(text: Seq<char>, at: int) -> Result<(nat, nat), NumberError> {
    match wording::read_spec(text.take(at), u32::MAX as nat) {
        Err(e) => Err(e),
        Ok(w) => match wording::read_spec(text.skip(at + 1), u32::MAX as nat) {
            Err(e) => Err(e),
            Ok(h) => Ok((w, h)),
        },
    }
}

/// What two numbers around a separator are.
fn pair(text: &str, at: usize) -> (r: Result<(u32, u32), NumberError>)
    requires
        at < text@.len(),
    ensures
        match pair_spec(text@, at as int) {
            Ok(p) => r == Ok::<(u32, u32), NumberError>((p.0 as u32, p.1 as u32)) && p.0 <= u32::MAX
                && p.1 <= u32::MAX,
            Err(e) => r == Err::<(u32, u32), NumberError>(e),
        },
{
    proof {
        assert(text@.take(at as int) =~= text@.subrange(0, at as int));
        assert(text@.skip(at + 1) =~= text@.subrange(at + 1, text@.len() as int));
    }
    let n = text.unicode_len();
    let w: u64 = match wording::read(text, 0, at, u32::MAX as u64) {
        Ok(w) => w,
        Err(e) => {
            return Err(e);
        },
    };
    let h: u64 = match wording::read(text, at + 1, n, u32::MAX as u64) {
        Ok(h) => h,
        Err(e) => {
            return Err(e);
        },
    };
    Ok((w as u32, h as u32))
}

/// Why a text is no frame size.
#[derive(Debug, Clone, Copy, PartialEq, Eq, Structural)]
pub enum SizeError {
    NoSeparator,
    Number(NumberError),
    ZeroSide,
}

/// The frame size a text gives, or why it gives none.
pub open spec fn size_spec(text: Seq<char>) -> Result<Size, SizeError> {
    match wording::place_of(text, 'x', 0) {
        None => Err(SizeError::NoSeparator),
        Some(at) => match pair_spec(text, at) {
            Err(e) => Err(SizeError::Number(e)),
            Ok(p) => if p.0 == 0 || p.1 == 0 {
                Err(SizeError::ZeroSide)
            } else {
                Ok(Size { width: p.0 as u32, height: p.1 as u32 })
            },
        },
    }
}

/// Whether this is what a text says of a frame size.
pub open spec fn measures(text: Seq<char>, r: Result<Size, String>) -> bool {
    match size_spec(text) {
        Ok(size) => r == Ok::<Size, String>(size),
        Err(e) => r matches Err(why) && why@ == e.text_spec(text),
    }
}

impl SizeError {
    pub open spec fn text_spec(self, text: Seq<char>) -> Seq<char> {
        match self {
            SizeError::NoSeparator => text + ": expected WIDTHxHEIGHT"@,
            SizeError::Number(e) => text + ": "@ + e.text_spec(),
            SizeError::ZeroSide => text + ": a side is zero"@,
        }
    }

    /// The reason in words, for a text.
    pub fn to_text(&self, text: &str) -> (why: String)
        ensures
            why@ == self.text_spec(text@),
    {
        let mut why = text.to_string();
        match self {
            SizeError::NoSeparator => {
                why.append(": expected WIDTHxHEIGHT");
            },
            SizeError::Number(e) => {
                why.append(": ");
                why.append(e.to_text());
            },
            SizeError::ZeroSide => {
                why.append(": a side is zero");
            },
        }
        why
    }
}

impl Size {
    /// A frame with pixels, each side within a signed integer.
    pub open spec fn fits(self) -> bool {
        1 <= self.width <= i32::MAX && 1 <= self.height <= i32::MAX
    }

    /// Reads `WIDTHxHEIGHT`, neither side zero.
    pub fn parse(s: &str) -> (r: Result<Size, String>)
        ensures
            measures(s@, r),
    {
        let at = match wording::place(s, 'x') {
            Some(at) => at,
            None => {
                return Err(SizeError::NoSeparator.to_text(s));
            },
        };
        match pair(s, at) {
            Err(e) => Err(SizeError::Number(e).to_text(s)),
            Ok((width, height)) => {
                if width == 0 || height == 0 {
                    Err(SizeError::ZeroSide.to_text(s))
                } else {
                    Ok(Size { width, height })
                }
            },
        }
    }
}

impl FromStr for Size {
    type Err = String;

    /// Reads `WIDTHxHEIGHT`, neither side zero.
    fn from_str(s: &str) -> (r: Result<Self, String>)
        ensures
            measures(s@, r),
    {
        Size::parse(s)
    }
}

/// A parsed size has no side of zero.
pub proof fn lemma_a_size_has_pixels(text: Seq<char>)
    ensures
        size_spec(text) matches Ok(size) ==> size.width >= 1 && size.height >= 1,
{
    if let Some(at) = wording::place_of(text, 'x', 0) {
        wording::lemma_read_bounds(text.take(at), u32::MAX as nat);
        wording::lemma_read_bounds(text.skip(at + 1), u32::MAX as nat);
    }
}

/// The pixel formats the framebuffer is driven in.
#[derive(Debug, Clone, Copy, PartialEq, Eq, Structural)]
pub enum Format {
    /// 16 bits, red in the top five.
    Rgb565,
    /// 32 bits, blue in the low byte and the top byte unused.
    Xrgb8888,
}

impl Format {
    pub open spec fn bytes_spec(self) -> usize {
        match self {
            Format::Rgb565 => 2,
            Format::Xrgb8888 => 4,
        }
    }

    /// Bytes per pixel.
    #[verifier::when_used_as_spec(bytes_spec)]
    pub fn bytes(self) -> (n: usize)
        ensures
            n == self.bytes_spec(),
    {
        match self {
            Format::Rgb565 => 2,
            Format::Xrgb8888 => 4,
        }
    }

    /// The format with a number of bits per pixel.
    pub fn with_bits(bits: u32) -> (f: Option<Format>)
        ensures
            f == if bits == 16 {
                Some(Format::Rgb565)
            } else if bits == 32 {
                Some(Format::Xrgb8888)
            } else {
                None
            },
    {
        match bits {
            16 => Some(Format::Rgb565),
            32 => Some(Format::Xrgb8888),
            _ => None,
        }
    }
}

/// The framebuffer's size from its `virtual_size`, two numbers around a
/// comma.
pub fn virtual_size(text: &str) -> (size: Option<Size>)
    ensures
        size == match wording::place_of(text@, ',', 0) {
            None => None,
            Some(at) => match pair_spec(text@, at) {
                Ok(p) => Some(Size { width: p.0 as u32, height: p.1 as u32 }),
                Err(_) => None,
            },
        },
{
    match wording::place(text, ',') {
        None => None,
        Some(at) => match pair(text, at) {
            Ok((width, height)) => Some(Size { width, height }),
            Err(_) => None,
        },
    }
}

/// A number that sysfs gives, up to a limit.
pub fn attribute(text: &str, max: u64) -> (r: Result<u64, NumberError>)
    ensures
        match wording::read_spec(text@, max as nat) {
            Ok(v) => r == Ok::<u64, NumberError>(v as u64) && v <= max,
            Err(e) => r == Err::<u64, NumberError>(e),
        },
{
    assert(text@ =~= text@.subrange(0, text@.len() as int));
    wording::read(text, 0, text.unicode_len(), max)
}

/// What to say of a frame that is not the framebuffer's size; nothing
/// of one that is.
pub fn mismatch(frame: Size, device: Size) -> (why: Option<String>)
    ensures
        why is None <==> frame == device,
        why matches Some(w) ==> w@ == "frame is "@ + wording::digits(frame.width as nat) + "x"@
            + wording::digits(frame.height as nat) + ", framebuffer is "@ + wording::digits(
            device.width as nat,
        ) + "x"@ + wording::digits(device.height as nat),
{
    if frame.width == device.width && frame.height == device.height {
        return None;
    }
    let mut why = "frame is ".to_string();
    wording::push_digits(&mut why, frame.width as u128);
    why.append("x");
    wording::push_digits(&mut why, frame.height as u128);
    why.append(", framebuffer is ");
    wording::push_digits(&mut why, device.width as u128);
    why.append("x");
    wording::push_digits(&mut why, device.height as u128);
    Some(why)
}

// Packing.
/// Byte `k` of a pixel of a red, a green, and a blue, in the device
/// format.
pub open spec fn packed_spec(format: Format, r: u8, g: u8, b: u8, k: int) -> u8 {
    match format {
        Format::Rgb565 => {
            let word: int = (r as int / 8) * 2048 + (g as int / 4) * 32 + b as int / 8;
            if k == 0 {
                (word % 256) as u8
            } else {
                (word / 256) as u8
            }
        },
        Format::Xrgb8888 => if k == 0 {
            b
        } else if k == 1 {
            g
        } else if k == 2 {
            r
        } else {
            0
        },
    }
}

fn packed(format: Format, r: u8, g: u8, b: u8, k: usize) -> (byte: u8)
    requires
        k < format.bytes(),
    ensures
        byte == packed_spec(format, r, g, b, k as int),
{
    match format {
        Format::Rgb565 => {
            let word: u32 = (r as u32 / 8) * 2048 + (g as u32 / 4) * 32 + b as u32 / 8;
            if k == 0 {
                (word % 256) as u8
            } else {
                (word / 256) as u8
            }
        },
        Format::Xrgb8888 => if k == 0 {
            b
        } else if k == 1 {
            g
        } else if k == 2 {
            r
        } else {
            0
        },
    }
}

/// Whether a byte is one of a row's: pixel `q / bytes` of the row, as
/// far as the device goes, `q` bytes behind the row's start.
pub open spec fn in_row(p: int, row: int, width: int, bytes: int, stride: int, len: int) -> bool {
    let q = p - row * stride;
    0 <= q < width * bytes && row * stride + (q / bytes + 1) * bytes <= len
}

/// Byte `p` of the device after the first `n` rows are packed, each at
/// its multiple of the stride, over the rows before.
pub open spec fn packed_at(
    data: Seq<u8>,
    width: int,
    format: Format,
    stride: int,
    len: int,
    n: int,
    p: int,
) -> u8
    decreases n,
{
    if n <= 0 {
        0
    } else if in_row(p, n - 1, width, format.bytes() as int, stride, len) {
        let q = p - (n - 1) * stride;
        let at = ((n - 1) * width + q / (format.bytes() as int)) * 4;
        packed_spec(format, data[at], data[at + 1], data[at + 2], q % (format.bytes() as int))
    } else {
        packed_at(data, width, format, stride, len, n - 1, p)
    }
}

/// Packs one row of an opaque frame at its multiple of the stride.
fn encode_row(
    out: &mut Vec<u8>,
    data: &Vec<u8>,
    width: usize,
    height: usize,
    format: Format,
    stride: usize,
    row: usize,
)
    requires
        row < height,
        data@.len() == width * height * 4,
        old(out)@.len() == stride * height,
        forall|p: int|
            0 <= p < old(out)@.len() ==> #[trigger] old(out)@[p] == packed_at(
                data@,
                width as int,
                format,
                stride as int,
                (stride * height) as int,
                row as int,
                p,
            ),
    ensures
        final(out)@.len() == old(out)@.len(),
        forall|p: int|
            0 <= p < final(out)@.len() ==> #[trigger] final(out)@[p] == packed_at(
                data@,
                width as int,
                format,
                stride as int,
                (stride * height) as int,
                row + 1,
                p,
            ),
{
    let bytes = format.bytes();
    let size = out.len();
    let total = data.len();
    let ghost len: int = (stride * height) as int;
    proof {
        lemma_mul_inequality(row as int, height - 1, stride as int);
        lemma_mul_is_distributive_sub_other_way(stride as int, height as int, 1);
        lemma_mul_is_commutative(stride as int, height as int);
    }
    let from: usize = row * stride;
    let mut p: usize = from;
    let mut col: usize = 0;
    let ghost before = out@;
    while col < width && out.len() - p >= bytes
        invariant
            bytes == format.bytes(),
            2 <= bytes <= 4,
            row < height,
            col <= width,
            total == data@.len() == width * height * 4,
            size == out@.len() == len,
            len == stride * height,
            from == row * stride,
            from <= p <= len,
            p == from + col * bytes,
            forall|i: int|
                0 <= i < len ==> #[trigger] out@[i] == if from <= i < p {
                    packed_at(data@, width as int, format, stride as int, len, row + 1, i)
                } else {
                    packed_at(data@, width as int, format, stride as int, len, row as int, i)
                },
        decreases width - col,
    {
        let at: usize;
        proof {
            lemma_pixel_at(row as int, col as int, width as int, height as int);
        }
        at = (row * width + col) * 4;
        let r = data[at];
        let g = data[at + 1];
        let b = data[at + 2];
        let mut k: usize = 0;
        while k < bytes
            invariant
                bytes == format.bytes(),
                2 <= bytes <= 4,
                col < width,
                row < height,
                k <= bytes,
                total == data@.len() == width * height * 4,
                size == out@.len() == len,
                len == stride * height,
                from == row * stride,
                p == from + col * bytes,
                p + bytes <= len,
                at == (row * width + col) * 4,
                at + 3 < data@.len(),
                r == data@[at as int],
                g == data@[at + 1],
                b == data@[at + 2],
                forall|i: int|
                    0 <= i < len ==> #[trigger] out@[i] == if from <= i < p + k {
                        packed_at(data@, width as int, format, stride as int, len, row + 1, i)
                    } else {
                        packed_at(data@, width as int, format, stride as int, len, row as int, i)
                    },
            decreases bytes - k,
        {
            proof {
                lemma_byte_in_row(
                    (p + k) as int,
                    row as int,
                    col as int,
                    k as int,
                    width as int,
                    bytes as int,
                    stride as int,
                    len,
                );
            }
            out.set(p + k, packed(format, r, g, b, k));
            k = k + 1;
        }
        proof {
            lemma_mul_is_distributive_add_other_way(bytes as int, col as int, 1);
        }
        p = p + bytes;
        col = col + 1;
    }
    proof {
        assert forall|i: int| 0 <= i < len && !(from <= i < p) implies !in_row(
            i,
            row as int,
            width as int,
            bytes as int,
            stride as int,
            len,
        ) by {
            lemma_byte_past_row(
                i,
                row as int,
                col as int,
                width as int,
                bytes as int,
                stride as int,
                len,
            );
        }
    }
}

/// The pixel of a row and a column is in the frame.
proof fn lemma_pixel_at(row: int, col: int, width: int, height: int)
    requires
        0 <= row < height,
        0 <= col < width,
    ensures
        0 <= row * width <= row * width + col < width * height,
        (row * width + col) * 4 + 3 < width * height * 4,
{
    assert(0 <= row * width) by (nonlinear_arith)
        requires
            0 <= row,
            0 < width,
    ;
    assert(row * width + width <= width * height) by (nonlinear_arith)
        requires
            0 <= row < height,
            0 < width,
    ;
}

/// Byte `k` of column `col` is in its row.
proof fn lemma_byte_in_row(
    p: int,
    row: int,
    col: int,
    k: int,
    width: int,
    bytes: int,
    stride: int,
    len: int,
)
    requires
        0 < bytes,
        0 <= k < bytes,
        0 <= col < width,
        p == row * stride + col * bytes + k,
        row * stride + col * bytes + bytes <= len,
    ensures
        in_row(p, row, width, bytes, stride, len),
        (p - row * stride) / bytes == col,
        (p - row * stride) % bytes == k,
{
    let q = p - row * stride;
    lemma_fundamental_div_mod_converse(q, bytes, col, k);
    assert(0 <= col * bytes && col * bytes + bytes <= width * bytes && (col + 1) * bytes == col
        * bytes + bytes) by (nonlinear_arith)
        requires
            0 <= col < width,
            0 < bytes,
    ;
}

/// A byte before a row or behind its columns is not in it.
proof fn lemma_byte_past_row(
    p: int,
    row: int,
    col: int,
    width: int,
    bytes: int,
    stride: int,
    len: int,
)
    requires
        0 < bytes,
        0 <= col <= width,
        p < row * stride || p >= row * stride + col * bytes,
        col == width || row * stride + col * bytes + bytes > len,
    ensures
        !in_row(p, row, width, bytes, stride, len),
{
    let q = p - row * stride;
    if q >= 0 && col < width {
        lemma_div_is_ordered(col * bytes, q, bytes);
        lemma_div_multiples_vanish(col, bytes);
        lemma_mul_is_commutative(col, bytes);
        assert((q / bytes + 1) * bytes >= col * bytes + bytes) by (nonlinear_arith)
            requires
                q / bytes >= col,
                0 < bytes,
        ;
    }
}

/// Packs an opaque frame of red, green, blue, and alpha bytes into the
/// device format, row by row at the device stride.
pub fn encode(
    data: &Vec<u8>,
    width: usize,
    height: usize,
    format: Format,
    stride: usize,
) -> (out: Vec<u8>)
    requires
        width >= 1,
        data@.len() == width * height * 4,
        stride * height <= usize::MAX,
    ensures
        out@ == Seq::new(
            (stride * height) as nat,
            |p: int|
                packed_at(
                    data@,
                    width as int,
                    format,
                    stride as int,
                    (stride * height) as int,
                    height as int,
                    p,
                ),
        ),
{
    let ghost len: int = (stride * height) as int;
    let size = stride * height;
    let mut out: Vec<u8> = Vec::new();
    let mut i: usize = 0;
    while i < size
        invariant
            i <= size,
            out@.len() == i,
            forall|p: int| 0 <= p < i ==> out@[p] == 0,
        decreases size - i,
    {
        out.push(0);
        i = i + 1;
    }
    let mut row: usize = 0;
    while row < height
        invariant
            row <= height,
            data@.len() == width * height * 4,
            len == stride * height,
            out@.len() == len,
            forall|p: int|
                0 <= p < len ==> #[trigger] out@[p] == packed_at(
                    data@,
                    width as int,
                    format,
                    stride as int,
                    len,
                    row as int,
                    p,
                ),
        decreases height - row,
    {
        encode_row(&mut out, data, width, height, format, stride, row);
        row = row + 1;
    }
    assert(out@ =~= Seq::new(
        len as nat,
        |p: int|
            packed_at(
                data@,
                width as int,
                format,
                stride as int,
                (stride * height) as int,
                height as int,
                p,
            ),
    ));
    out
}

/// On a device whose rows hold the frame's, every pixel is where the
/// stride puts it, and the bytes behind a row's pixels are zero.
pub proof fn lemma_rows_are_at_the_stride(
    data: Seq<u8>,
    width: int,
    height: int,
    format: Format,
    stride: int,
    n: int,
    row: int,
    q: int,
)
    requires
        0 <= row < height,
        0 <= n <= height,
        1 <= width,
        width * (format.bytes() as int) <= stride,
        0 <= q < stride,
    ensures
        packed_at(data, width, format, stride, stride * height, n, row * stride + q) == if row < n
            && q < width * (format.bytes() as int) {
            let at = (row * width + q / (format.bytes() as int)) * 4;
            packed_spec(format, data[at], data[at + 1], data[at + 2], q % (format.bytes() as int))
        } else {
            0
        },
    decreases n,
{
    let bytes = format.bytes() as int;
    let p = row * stride + q;
    let len = stride * height;
    if n > 0 {
        lemma_rows_are_at_the_stride(data, width, height, format, stride, n - 1, row, q);
        let last = n - 1;
        let behind = p - last * stride;
        if row == last {
            assert(row * stride + stride <= len) by (nonlinear_arith)
                requires
                    0 <= row < height,
                    0 < stride,
                    len == stride * height,
            ;
            if q < width * bytes {
                assert((q / bytes + 1) * bytes <= width * bytes) by {
                    lemma_div_is_ordered(q, width * bytes - 1, bytes);
                    lemma_fundamental_div_mod(q, bytes);
                    assert((q / bytes + 1) * bytes <= width * bytes) by (nonlinear_arith)
                        requires
                            q == bytes * (q / bytes) + q % bytes,
                            0 <= q % bytes,
                            q < width * bytes,
                            0 < bytes,
                    ;
                }
            }
        } else if row < last {
            assert(behind < 0) by (nonlinear_arith)
                requires
                    behind == row * stride + q - last * stride,
                    row < last,
                    0 <= q < stride,
            ;
        } else {
            assert(behind >= stride) by (nonlinear_arith)
                requires
                    behind == row * stride + q - last * stride,
                    row > last,
                    0 <= q < stride,
            ;
        }
    }
}

// What a text means, and what a pixel becomes.
/// Where frames go: nowhere by that word, else to a picture by its
/// ending, else to a device by its slash; anything else is refused with
/// the text in the reason.
pub proof fn lemma_where_frames_go(text: Seq<char>, r: Result<Output, String>)
    requires
        chooses(text, r),
    ensures
        text == "none"@ <==> r == Ok::<Output, String>(Output::Nowhere),
        r matches Ok(Output::Png(path)) ==> path@ == text && text.len() >= ".png"@.len()
            && text.skip(text.len() - ".png"@.len()) == ".png"@,
        r matches Ok(Output::Framebuffer(path)) ==> path@ == text && text.len() > 0 && text[0]
            == '/',
        text != "none"@ && text.len() >= ".png"@.len() && text.skip(text.len() - ".png"@.len())
            == ".png"@ ==> r is Ok && r->Ok_0 is Png,
        text != "none"@ && !(text.len() >= ".png"@.len() && text.skip(text.len() - ".png"@.len())
            == ".png"@) && text.len() > 0 && text[0] == '/' ==> r is Ok && r->Ok_0 is Framebuffer,
        r matches Err(why) ==> why@ == text + ": expected none, a .png path, or a device path"@,
{
    reveal_strlit("/");
    if text.len() > 0 {
        assert(text.take(1) =~= seq![text[0]]);
        assert("/"@ =~= seq!['/']);
        assert(text.take(1)[0] == text[0]);
        assert("/"@[0] == '/');
    }
}

/// A size written as its width, an x and its height reads back as
/// itself; one with no pixels is refused, and so is a text without an x.
pub proof fn lemma_a_size_reads_back(width: u32, height: u32, text: Seq<char>)
    ensures
        size_spec(wording::digits(width as nat).push('x') + wording::digits(height as nat)) == if width
            == 0 || height == 0 {
            Err::<Size, SizeError>(SizeError::ZeroSide)
        } else {
            Ok(Size { width, height })
        },
        !text.contains('x') ==> size_spec(text) == Err::<Size, SizeError>(SizeError::NoSeparator),
{
    let (w, h) = (wording::digits(width as nat), wording::digits(height as nat));
    let all = w.push('x') + h;
    let n = w.len() as int;
    wording::lemma_digits_are_digits(width as nat);
    assert forall|j: int| 0 <= j < n implies all[j] != 'x' by {
        assert(wording::is_digit(w[j]));
        assert(all[j] == w[j]);
    }
    assert(all[n] == 'x');
    wording::lemma_where_a_character_stands(all, 'x', 0, n);
    assert(all.take(n) =~= w);
    assert(all.skip(n + 1) =~= h);
    wording::lemma_decimal_reads_back(width as nat, u32::MAX as nat);
    wording::lemma_decimal_reads_back(height as nat, u32::MAX as nat);
    if !text.contains('x') {
        assert forall|j: int| 0 <= j < text.len() implies text[j] != 'x' by {}
        wording::lemma_where_a_character_stands(text, 'x', 0, 0);
    }
}

/// A pixel of 16 bits is two bytes, the low one first, with the red's
/// upper five bits on top, then the green's upper six and the blue's
/// upper five; one of 32 bits is its blue, its green, its red, and a
/// byte of zero.
pub proof fn lemma_what_a_pixel_is_packed_to(r: u8, g: u8, b: u8)
    ensures
        ({
            let word = packed_spec(Format::Rgb565, r, g, b, 0) as int + 256 * (packed_spec(
                Format::Rgb565,
                r,
                g,
                b,
                1,
            ) as int);
            &&& word / 2048 == r as int / 8
            &&& (word / 32) % 64 == g as int / 4
            &&& word % 32 == b as int / 8
        }),
        packed_spec(Format::Xrgb8888, r, g, b, 0) == b,
        packed_spec(Format::Xrgb8888, r, g, b, 1) == g,
        packed_spec(Format::Xrgb8888, r, g, b, 2) == r,
        packed_spec(Format::Xrgb8888, r, g, b, 3) == 0,
        Format::Rgb565.bytes() == 2,
        Format::Xrgb8888.bytes() == 4,
{
    let (x, y, z) = (r as int / 8, g as int / 4, b as int / 8);
    let word = x * 2048 + y * 32 + z;
    assert(0 <= x < 32 && 0 <= y < 64 && 0 <= z < 32);
    let (low, high) = (word % 256, word / 256);
    assert(low + 256 * high == word && 0 <= high < 256);
    assert(packed_spec(Format::Rgb565, r, g, b, 0) as int == low);
    assert(packed_spec(Format::Rgb565, r, g, b, 1) as int == high);
    lemma_fundamental_div_mod_converse(word, 2048, x, y * 32 + z);
    lemma_fundamental_div_mod_converse(word, 32, x * 64 + y, z);
    lemma_fundamental_div_mod_converse(x * 64 + y, 64, x, y);
}

/// What is said of a text that is no size names the text and what is
/// wrong with it.
pub proof fn lemma_what_is_said_of_a_size(text: Seq<char>, r: Result<Size, String>)
    requires
        measures(text, r),
    ensures
        size_spec(text) matches Ok(size) ==> r == Ok::<Size, String>(size),
        size_spec(text) is Err ==> r is Err,
        size_spec(text) == Err::<Size, SizeError>(SizeError::NoSeparator) ==> r->Err_0@ == text
            + ": expected WIDTHxHEIGHT"@,
        size_spec(text) == Err::<Size, SizeError>(SizeError::ZeroSide) ==> r->Err_0@ == text
            + ": a side is zero"@,
        size_spec(text) == Err::<Size, SizeError>(SizeError::Number(NumberError::Empty))
            ==> r->Err_0@ == text + ": "@ + "cannot parse integer from empty string"@,
        size_spec(text) == Err::<Size, SizeError>(SizeError::Number(NumberError::InvalidDigit))
            ==> r->Err_0@ == text + ": "@ + "invalid digit found in string"@,
        size_spec(text) == Err::<Size, SizeError>(SizeError::Number(NumberError::TooLarge))
            ==> r->Err_0@ == text + ": "@ + "number too large to fit in target type"@,
{
}

/// A frame fits where each side has a pixel and is within a signed
/// integer.
pub proof fn lemma_which_frames_fit(size: Size)
    ensures
        size.fits() <==> 0 < size.width < 0x8000_0000 && 0 < size.height < 0x8000_0000,
{
}

} // verus!
