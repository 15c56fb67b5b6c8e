//! One-shot capture of a single output: the formats it is offered in, and the
//! normalisation of the pixels (row padding, upside-down frames) into an owned image.
pub use crate::image::SourceImage;

use vstd::prelude::*;

verus! {

/// A pixel format of the shared-memory protocol.
#[derive(Clone, Copy, Debug, PartialEq, Eq, Structural)]
pub enum ShmFormat {
    Argb8888,
    Xrgb8888,
    /// Any other format, by its protocol code.
    Other(u32),
}

/// The format with a given protocol code.
pub open spec fn format_of_code(code: u32) -> ShmFormat {
    if code == 0 {
        ShmFormat::Argb8888
    } else if code == 1 {
        ShmFormat::Xrgb8888
    } else {
        ShmFormat::Other(code)
    }
}

impl ShmFormat {
    /// The protocol code of the format.
    pub open spec fn code_spec(self) -> u32 {
        match self {
            ShmFormat::Argb8888 => 0,
            ShmFormat::Xrgb8888 => 1,
            ShmFormat::Other(code) => code,
        }
    }

    /// The format with a given protocol code.
    pub fn from_code(code: u32) -> (r: Self)
        ensures
            r == format_of_code(code),
            r.code_spec() == code,
    {
        if code == 0 {
            ShmFormat::Argb8888
        } else if code == 1 {
            ShmFormat::Xrgb8888
        } else {
            ShmFormat::Other(code)
        }
    }

    /// The protocol code of the format.
    pub fn code(self) -> (r: u32)
        ensures
            r == self.code_spec(),
    {
        match self {
            ShmFormat::Argb8888 => 0,
            ShmFormat::Xrgb8888 => 1,
            ShmFormat::Other(code) => code,
        }
    }
}

/// What the `buffer` event advertised for a copy into shared memory.
#[derive(Clone, Copy, Debug, PartialEq, Eq, Structural)]
pub struct CaptureFormat {
    pub format: ShmFormat,
    pub width: u32,
    pub height: u32,
    pub stride: u32,
}

/// The formats whose pixels are four bytes: blue, green, red, and alpha or padding.
pub open spec fn supported(format: ShmFormat) -> bool {
    format is Argb8888 || format is Xrgb8888
}

/// Whether pixels of a format can be shown.
pub fn is_supported(format: ShmFormat) -> (r: bool)
    ensures
        r == supported(format),
{
    match format {
        ShmFormat::Argb8888 => true,
        ShmFormat::Xrgb8888 => true,
        ShmFormat::Other(_) => false,
    }
}

/// The row of the capture that becomes row `row` of the image.
pub open spec fn captured_row(height: nat, y_invert: bool, row: nat) -> nat {
    if y_invert {
        (height - 1 - row) as nat
    } else {
        row
    }
}

/// Byte `i` of the image, found in the capture.
pub open spec fn captured_byte(
    canvas: Seq<u8>,
    width: nat,
    height: nat,
    stride: nat,
    y_invert: bool,
    i: nat,
) -> u8 {
    canvas[(captured_row(height, y_invert, i / (width * 4)) * stride + i % (width * 4)) as int]
}

/// The pixels of a capture, tightly packed and top-down.
pub open spec fn normalized(
    canvas: Seq<u8>,
    width: nat,
    height: nat,
    stride: nat,
    y_invert: bool,
) -> Seq<u8> {
    Seq::new(
        width * height * 4,
        |i: int| captured_byte(canvas, width, height, stride, y_invert, i as nat),
    )
}

/// A canvas of `len` bytes holds every row of a capture, and the packed image is not
/// larger than memory can be.
pub open spec fn holds_capture(len: nat, fmt: CaptureFormat) -> bool {
    &&& fmt.height > 0 ==> (fmt.height - 1) * fmt.stride + fmt.width * 4 <= len
    &&& fmt.width * fmt.height * 4 <= isize::MAX
}

/// Whether a canvas of `len` bytes holds every row of a capture.
pub fn canvas_holds_capture(len: usize, fmt: CaptureFormat) -> (r: bool)
    ensures
        r == holds_capture(len as nat, fmt),
{
    let (w, h, s) = (fmt.width as u128, fmt.height as u128, fmt.stride as u128);
    proof {
        let (a, b, c) = (w as int, h as int, s as int);
        assert(0 <= a * b <= 0xffff_ffff * 0xffff_ffff) by (nonlinear_arith)
            requires
                0 <= a <= 0xffff_ffff,
                0 <= b <= 0xffff_ffff,
        ;
        assert(h > 0 ==> 0 <= (b - 1) * c <= 0xffff_ffff * 0xffff_ffff) by (nonlinear_arith)
            requires
                0 <= b <= 0xffff_ffff,
                0 <= c <= 0xffff_ffff,
                h == b,
        ;
    }
    (h == 0 || (h - 1) * s + w * 4 <= len as u128) && w * h * 4 <= isize::MAX as u128
}

/// Copies the captured pixels into a tightly-packed, top-down [`SourceImage`],
/// undoing row padding and `y_invert`.
pub fn normalize(canvas: &[u8], fmt: CaptureFormat, y_invert: bool) -> (r: SourceImage)
    requires
        holds_capture(canvas@.len(), fmt),
    ensures
        r.width == fmt.width,
        r.height == fmt.height,
        r.data@ == normalized(
            canvas@,
            fmt.width as nat,
            fmt.height as nat,
            fmt.stride as nat,
            y_invert,
        ),
        r.well_formed(),
{
    let ghost (w, h, s) = (fmt.width as nat, fmt.height as nat, fmt.stride as nat);
    let ghost image = normalized(canvas@, w, h, s, y_invert);
    let n: usize = canvas.len();
    let mut data: Vec<u8> = Vec::new();
    let mut row: u32 = 0;
    while row < fmt.height
        invariant
            row <= fmt.height,
            n == canvas@.len(),
            w == fmt.width,
            h == fmt.height,
            s == fmt.stride,
            holds_capture(canvas@.len(), fmt),
            image == normalized(canvas@, w, h, s, y_invert),
            data@ == image.take(row as int * (w * 4)),
            0 <= row as int * (w * 4) <= image.len(),
        decreases fmt.height - row,
    {
        let src_row: u32 = if y_invert {
            fmt.height - 1 - row
        } else {
            row
        };
        proof {
            lemma_row_bounds(w, h, s, src_row as nat);
            lemma_row_bounds(w, h, w * 4, row as nat);
            assert(w * 4 * h == w * h * 4) by (nonlinear_arith);
        }
        let row_bytes: usize = fmt.width as usize * 4;
        let start: usize = src_row as usize * fmt.stride as usize;
        let mut column: usize = 0;
        while column < row_bytes
            invariant
                row < fmt.height,
                column <= row_bytes,
                row_bytes == w * 4,
                n == canvas@.len(),
                start == src_row * s,
                start + row_bytes <= n,
                src_row == captured_row(h, y_invert, row as nat),
                h == fmt.height,
                image == normalized(canvas@, w, h, s, y_invert),
                image.len() == w * h * 4,
                row as int * (w * 4) + w * 4 <= image.len(),
                0 <= row as int * (w * 4),
                data@ == image.take(row as int * (w * 4) + column),
            decreases row_bytes - column,
        {
            let ghost before = data@;
            let ghost at = row as int * (w * 4) + column;
            data.push(canvas[start + column]);
            proof {
                vstd::arithmetic::div_mod::lemma_fundamental_div_mod_converse(
                    at,
                    (w * 4) as int,
                    row as int,
                    column as int,
                );
                assert(image[at] == canvas@[start + column]);
                assert(image.take(at + 1) == before.push(image[at]));
            }
            column = column + 1;
        }
        proof {
            let (a, b) = (row as int, (w * 4) as int);
            assert(a * b + b == (a + 1) * b) by (nonlinear_arith);
        }
        row = row + 1;
    }
    proof {
        assert(h * (w * 4) == w * h * 4) by (nonlinear_arith);
        assert(image.take(image.len() as int) == image);
        assert(fmt.width * fmt.height * 4 == w * h * 4);
    }
    SourceImage { data, width: fmt.width, height: fmt.height }
}

/// Every row of a capture starts and ends inside its canvas.
proof fn lemma_row_bounds(w: nat, h: nat, stride: nat, row: nat)
    requires
        row < h,
    ensures
        0 <= row * stride <= (h - 1) * stride,
        stride == w * 4 ==> row * stride + stride <= w * h * 4,
        w * 4 <= w * h * 4,
        w <= w * h,
{
    assert(0 <= row * stride <= (h - 1) * stride) by (nonlinear_arith)
        requires
            row < h,
    ;
    assert(w <= w * h) by (nonlinear_arith)
        requires
            h >= 1,
    ;
    if stride == w * 4 {
        assert(row * stride + stride <= w * h * 4) by (nonlinear_arith)
            requires
                stride == w * 4,
                row < h,
        ;
    }
}

/// A packed, upright capture is already an image.
pub proof fn packed_upright_capture_is_unchanged(data: Seq<u8>, width: nat, height: nat)
    requires
        data.len() == width * height * 4,
    ensures
        normalized(data, width, height, width * 4, false) == data,
{
    let s = width * 4;
    assert forall|i: int| 0 <= i < data.len() implies #[trigger] normalized(
        data,
        width,
        height,
        s,
        false,
    )[i] == data[i] by {
        if s == 0 {
            assert(width * height == 0) by (nonlinear_arith)
                requires
                    width == 0,
            ;
        }
        vstd::arithmetic::div_mod::lemma_fundamental_div_mod(i, s as int);
        assert((i / s as int) * s == s * (i / s as int)) by (nonlinear_arith);
    }
}

/// Turning a capture over twice gives its rows in the order in which they came, without
/// their padding.
pub proof fn turning_over_twice_is_upright(canvas: Seq<u8>, width: nat, height: nat, stride: nat)
    ensures
        normalized(
            normalized(canvas, width, height, stride, true),
            width,
            height,
            width * 4,
            true,
        ) == normalized(canvas, width, height, stride, false),
{
    let s = width * 4;
    let once = normalized(canvas, width, height, stride, true);
    let twice = normalized(once, width, height, s, true);
    let upright = normalized(canvas, width, height, stride, false);
    assert forall|i: int| 0 <= i < upright.len() implies #[trigger] twice[i] == upright[i] by {
        if s == 0 {
            assert(width * height == 0) by (nonlinear_arith)
                requires
                    width == 0,
            ;
        }
        let (row, column) = (i / s as int, i % s as int);
        vstd::arithmetic::div_mod::lemma_fundamental_div_mod(i, s as int);
        assert(width * height * 4 == s * height) by (nonlinear_arith)
            requires
                s == width * 4,
        ;
        assert(0 <= row < height) by (nonlinear_arith)
            requires
                i == s * row + column,
                0 <= column < s,
                0 <= i < s * height,
        ;
        let other = height - 1 - row;
        let j = other * s + column;
        assert(0 <= j < s * height) by (nonlinear_arith)
            requires
                j == other * s + column,
                0 <= other < height,
                0 <= column < s,
        ;
        vstd::arithmetic::div_mod::lemma_fundamental_div_mod_converse(j, s as int, other, column);
        assert(once[j] == canvas[row * stride + column]);
    }
}

/// Turning an upside-down frame over twice gives it back.
pub proof fn turning_over_twice_is_identity(data: Seq<u8>, width: nat, height: nat)
    requires
        data.len() == width * height * 4,
    ensures
        normalized(
            normalized(data, width, height, width * 4, true),
            width,
            height,
            width * 4,
            true,
        ) == data,
{
    turning_over_twice_is_upright(data, width, height, width * 4);
    packed_upright_capture_is_unchanged(data, width, height);
}

/// A padded capture and its packed copy show the same image: padding is never read.
pub proof fn padding_is_ignored(
    a: Seq<u8>,
    b: Seq<u8>,
    width: nat,
    height: nat,
    stride: nat,
    y_invert: bool,
)
    requires
        forall|row: nat, column: nat|
            row < height && column < width * 4 ==> a[(row * stride + column) as int]
                == #[trigger] b[(row * stride + column) as int],
    ensures
        normalized(a, width, height, stride, y_invert) == normalized(
            b,
            width,
            height,
            stride,
            y_invert,
        ),
{
    let s = width * 4;
    let (x, y) = (
        normalized(a, width, height, stride, y_invert),
        normalized(b, width, height, stride, y_invert),
    );
    assert forall|i: int| 0 <= i < x.len() implies #[trigger] x[i] == y[i] by {
        if s == 0 {
            assert(width * height == 0) by (nonlinear_arith)
                requires
                    width == 0,
            ;
        }
        let (row, column) = (i / s as int, i % s as int);
        vstd::arithmetic::div_mod::lemma_fundamental_div_mod(i, s as int);
        assert(width * height * 4 == s * height) by (nonlinear_arith)
            requires
                s == width * 4,
        ;
        assert(0 <= row < height) by (nonlinear_arith)
            requires
                i == s * row + column,
                0 <= column < s,
                0 <= i < s * height,
        ;
        let r = captured_row(height, y_invert, row as nat);
        assert(a[(r * stride + column as nat) as int] == b[(r * stride + column as nat) as int]);
    }
}

/// Row by row, the image holds the pixels of the capture, without the padding behind them:
/// from the top where the capture is upright, from the bottom where it is upside down.
pub proof fn image_holds_the_captured_rows(
    canvas: Seq<u8>,
    width: nat,
    height: nat,
    stride: nat,
    y_invert: bool,
    row: nat,
    column: nat,
)
    requires
        row < height,
        column < width * 4,
    ensures
        ({
            let image = normalized(canvas, width, height, stride, y_invert);
            let from_bottom = height - 1 - row;
            let i = (row * (width * 4) + column) as int;
            &&& image.len() == width * 4 * height
            &&& 0 <= i < image.len()
            &&& !y_invert ==> image[i] == canvas[(row * stride + column) as int]
            &&& y_invert ==> image[i] == canvas[(from_bottom * stride + column) as int]
        }),
{
    let s = width * 4;
    let i = row * s + column;
    assert(width * height * 4 == s * height) by (nonlinear_arith)
        requires
            s == width * 4,
    ;
    assert(0 <= i < s * height) by (nonlinear_arith)
        requires
            i == row * s + column,
            row < height,
            column < s,
    ;
    vstd::arithmetic::div_mod::lemma_fundamental_div_mod_converse(
        i as int,
        s as int,
        row as int,
        column as int,
    );
}

/// A canvas that holds a capture has every byte that is read from it.
pub proof fn held_captures_are_read_inside(len: nat, fmt: CaptureFormat, row: nat, column: nat)
    requires
        holds_capture(len, fmt),
        row < fmt.height,
        column < fmt.width * 4,
    ensures
        row * fmt.stride + column < len,
{
    lemma_row_bounds(fmt.width as nat, fmt.height as nat, fmt.stride as nat, row);
}

/// A canvas that does not hold a capture is too short for its last row, or the image
/// would be larger than memory.
pub proof fn canvases_that_are_long_enough_hold_captures(len: nat, fmt: CaptureFormat)
    requires
        fmt.height >= 1,
        fmt.width >= 1,
        fmt.width * fmt.height * 4 <= isize::MAX,
        (fmt.height - 1) * fmt.stride + (fmt.width * 4 - 1) < len,
    ensures
        holds_capture(len, fmt),
{
}

/// Codes and formats stand for each other, and exactly the formats with the codes zero
/// and one are supported.
pub proof fn formats_keep_their_codes(code: u32)
    ensures
        format_of_code(code).code_spec() == code,
        ShmFormat::Argb8888.code_spec() == 0,
        ShmFormat::Xrgb8888.code_spec() == 1,
        ShmFormat::Other(code).code_spec() == code,
        supported(format_of_code(code)) <==> code == 0 || code == 1,
        supported(ShmFormat::Argb8888),
        supported(ShmFormat::Xrgb8888),
        !supported(ShmFormat::Other(code)),
{
}

} // verus!
