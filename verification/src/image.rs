//! Captured frames and the order of their pixels.
use vstd::prelude::*;

verus! {

/// A frozen captured frame. Always 4 bytes per pixel, top-down, row-major.
///
/// The bytes of a pixel are, in this order, blue, green, red and alpha.
#[derive(Debug)]
pub struct SourceImage {
    pub data: Vec<u8>,
    pub width: u32,
    pub height: u32,
}

/// The place of one byte of the pixel in column `x` and row `y` of an image that is
/// `width` pixels wide and has no padding.
pub open spec fn byte_at(width: nat, x: nat, y: nat, channel: nat) -> nat {
    (y * width + x) * 4 + channel
}

impl SourceImage {
    /// The data holds exactly the pixels of the image.
    pub open spec fn well_formed(self) -> bool {
        self.data@.len() == self.width * self.height * 4
    }

    /// One byte of one pixel.
    pub open spec fn channel(self, x: nat, y: nat, channel: nat) -> u8 {
        self.data@[byte_at(self.width as nat, x, y, channel) as int]
    }

    /// The number of bytes in a row.
    pub fn stride(&self) -> (r: usize)
        requires
            self.width * 4 <= usize::MAX,
        ensures
            r == self.width * 4,
    {
        self.width as usize * 4
    }
}

/// Every pixel fully opaque, its colours kept.
pub open spec fn opaque(data: Seq<u8>) -> Seq<u8> {
    Seq::new(
        data.len(),
        |i: int|
            if i % 4 == 3 {
                0xffu8
            } else {
                data[i]
            },
    )
}

/// Puts the pixels of a frame on a canvas, making every one of them fully opaque (the
/// source may have padding in place of alpha).
pub fn upload(data: &Vec<u8>, canvas: &mut [u8])
    requires
        old(canvas)@.len() == data@.len(),
    ensures
        final(canvas)@ == opaque(data@),
{
    let n: usize = data.len();
    let mut i: usize = 0;
    while i < n
        invariant
            i <= n,
            n == data@.len(),
            canvas@.len() == n,
            forall|j: int| 0 <= j < i ==> #[trigger] canvas@[j] == opaque(data@)[j],
        decreases n - i,
    {
        if i % 4 == 3 {
            canvas[i] = 0xff;
        } else {
            canvas[i] = data[i];
        }
        i = i + 1;
    }
    proof {
        assert(canvas@ =~= opaque(data@));
    }
}

/// A canvas of nothing but fully transparent pixels.
pub open spec fn transparent(len: nat) -> Seq<u8> {
    Seq::new(len, |i: int| 0u8)
}

/// Makes every pixel of a canvas fully transparent.
pub fn clear(canvas: &mut [u8])
    ensures
        final(canvas)@ == transparent(old(canvas)@.len()),
{
    let n: usize = canvas.len();
    let mut i: usize = 0;
    while i < n
        invariant
            i <= n,
            canvas@.len() == n,
            forall|j: int| 0 <= j < i ==> #[trigger] canvas@[j] == 0,
        decreases n - i,
    {
        canvas[i] = 0;
        i = i + 1;
    }
    proof {
        assert(canvas@ =~= transparent(n as nat));
    }
}

/// The pixels of an image lie row by row from the top, four bytes each, with nothing in
/// between.
pub proof fn pixels_lie_row_by_row(image: SourceImage, x: nat, y: nat, channel: nat)
    requires
        image.well_formed(),
        x < image.width,
        y < image.height,
        channel < 4,
    ensures
        ({
            let i = 4 * image.width * y + 4 * x + channel;
            &&& 0 <= i < image.data@.len()
            &&& image.channel(x, y, channel) == image.data@[i]
        }),
{
    let (w, h) = (image.width as int, image.height as int);
    assert((y * w + x) * 4 + channel == 4 * w * y + 4 * x + channel) by (nonlinear_arith);
    assert(0 <= 4 * w * y && 4 * w * y + 4 * w <= w * h * 4) by (nonlinear_arith)
        requires
            0 <= y < h,
            w >= 0,
    ;
}

/// Making opaque pixels opaque changes nothing.
pub proof fn opaque_is_idempotent(data: Seq<u8>)
    ensures
        opaque(opaque(data)) == opaque(data),
{
}

/// Making pixels opaque keeps their number and their three colours, and sets the fourth
/// byte of every pixel to the full.
pub proof fn opaque_keeps_the_colours(data: Seq<u8>, pixel: int)
    requires
        0 <= pixel,
        pixel * 4 + 3 < data.len(),
    ensures
        opaque(data).len() == data.len(),
        opaque(data)[pixel * 4 + 0] == data[pixel * 4 + 0],
        opaque(data)[pixel * 4 + 1] == data[pixel * 4 + 1],
        opaque(data)[pixel * 4 + 2] == data[pixel * 4 + 2],
        opaque(data)[pixel * 4 + 3] == 255,
{
}

/// Every byte of a fully transparent canvas is zero.
pub proof fn transparent_is_all_zero(len: nat, i: int)
    requires
        0 <= i < len,
    ensures
        transparent(len).len() == len,
        transparent(len)[i] == 0,
{
}

} // verus!
