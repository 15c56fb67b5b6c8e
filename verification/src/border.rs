//! The reminder border around the magnified view.
use crate::image::{clear, transparent};
use vstd::prelude::*;

verus! {

/// The width of the border in pixels.
pub const BORDER_PX: u32 = 3;

/// The colour of the border, as alpha, red, green and blue from the top byte down.
pub const BORDER_COLOR: u32 = 0xFF_FF3B30;

/// The width of a border that leaves room for both sides.
pub open spec fn ring_width(w: nat, h: nat, border_px: nat) -> nat {
    if border_px <= w / 2 && border_px <= h / 2 {
        border_px
    } else if w / 2 <= h / 2 {
        w / 2
    } else {
        h / 2
    }
}

/// Whether the pixel in column `x` and row `y` belongs to the outer ring of width `b`.
pub open spec fn on_ring(x: nat, y: nat, w: nat, h: nat, b: nat) -> bool {
    b > 0 && (x < b || x + b >= w || y < b || y + b >= h)
}

/// One byte of a colour, the lowest first.
pub open spec fn colour_byte(color: u32, channel: nat) -> u8 {
    if channel == 0 {
        (color as int % 256) as u8
    } else if channel == 1 {
        (color as int / 256 % 256) as u8
    } else if channel == 2 {
        (color as int / 65_536 % 256) as u8
    } else {
        (color as int / 16_777_216) as u8
    }
}

/// Whether byte `i` of an image lies on the ring.
pub open spec fn byte_on_ring(i: nat, w: nat, h: nat, b: nat) -> bool {
    i < w * h * 4 && on_ring((i / 4) % w, (i / 4) / w, w, h, b)
}

/// What byte `i` becomes when the border is drawn.
pub open spec fn bordered_byte(
    pixels: Seq<u8>,
    w: nat,
    h: nat,
    border_px: nat,
    color: u32,
    i: int,
) -> u8 {
    if byte_on_ring(i as nat, w, h, ring_width(w, h, border_px)) {
        colour_byte(color, (i % 4) as nat)
    } else {
        pixels[i]
    }
}

/// An image with the outer ring of its pixels overwritten.
pub open spec fn bordered(
    pixels: Seq<u8>,
    w: nat,
    h: nat,
    border_px: nat,
    color: u32,
) -> Seq<u8> {
    Seq::new(pixels.len(), |i: int| bordered_byte(pixels, w, h, border_px, color, i))
}

/// The bytes of a colour, the lowest first.
fn colour_bytes(color: u32) -> (r: (u8, u8, u8, u8))
    ensures
        r.0 == colour_byte(color, 0),
        r.1 == colour_byte(color, 1),
        r.2 == colour_byte(color, 2),
        r.3 == colour_byte(color, 3),
{
    (
        (color % 256) as u8,
        (color / 256 % 256) as u8,
        (color / 65_536 % 256) as u8,
        (color / 16_777_216) as u8,
    )
}

/// The column and the row of a byte, from the number of its pixel.
pub proof fn lemma_pixel_of_byte(w: nat, x: nat, y: nat, c: nat)
    requires
        x < w,
        c < 4,
    ensures
        ((y * w + x) * 4 + c) / 4 == y * w + x,
        (y * w + x) % w == x,
        (y * w + x) / w == y,
{
    vstd::arithmetic::div_mod::lemma_fundamental_div_mod_converse(
        (y * w + x) as int,
        w as int,
        y as int,
        x as int,
    );
}

/// The column and the row of a byte of an image.
pub proof fn lemma_pixel_of(w: nat, h: nat, i: nat) -> (r: (nat, nat))
    requires
        i < w * h * 4,
    ensures
        r == ((i / 4) % w, (i / 4) / w),
        r.0 < w,
        r.1 < h,
{
    let p = i / 4;
    if w == 0 {
        assert(w * h == 0) by (nonlinear_arith)
            requires
                w == 0,
        ;
    }
    vstd::arithmetic::div_mod::lemma_fundamental_div_mod(p as int, w as int);
    let (x, y) = (p % w, p / w);
    assert(y < h) by (nonlinear_arith)
        requires
            p == w * y + x,
            p < w * h,
    ;
    (x, y)
}

/// A pixel inside the image comes before its end.
pub proof fn lemma_pixel_inside(w: nat, h: nat, x: nat, y: nat)
    requires
        x < w,
        y < h,
    ensures
        y * w + x < w * h,
        0 <= y * w,
{
    assert(y * w + x < w * h) by (nonlinear_arith)
        requires
            x < w,
            y < h,
    ;
    assert(0 <= y * w) by (nonlinear_arith);
}

/// The pixels before number `done` carry the border, the others are as they were.
spec fn drawn_up_to(
    now: Seq<u8>,
    before: Seq<u8>,
    w: nat,
    h: nat,
    border_px: nat,
    color: u32,
    done: nat,
) -> bool {
    &&& now.len() == before.len()
    &&& forall|i: int|
        0 <= i < now.len() ==> #[trigger] now[i] == if i / 4 < done {
            bordered_byte(before, w, h, border_px, color, i)
        } else {
            before[i]
        }
}

/// Overwrites the outer `border_px` ring of an image with `color`.
pub fn draw_border_ring(canvas: &mut [u8], w: u32, h: u32, border_px: u32, color: u32)
    requires
        ring_width(w as nat, h as nat, border_px as nat) > 0 ==> w * h * 4 <= old(canvas)@.len(),
    ensures
        final(canvas)@ == bordered(old(canvas)@, w as nat, h as nat, border_px as nat, color),
{
    let ghost before = canvas@;
    let mut b: u32 = border_px;
    if w / 2 < b {
        b = w / 2;
    }
    if h / 2 < b {
        b = h / 2;
    }
    if b == 0 {
        proof {
            assert(canvas@ =~= bordered(before, w as nat, h as nat, border_px as nat, color));
        }
        return;
    }
    let n: usize = canvas.len();
    let (b0, b1, b2, b3) = colour_bytes(color);
    let mut y: u32 = 0;
    while y < h
        invariant
            y <= h,
            0 < b <= w / 2,
            b <= h / 2,
            b == ring_width(w as nat, h as nat, border_px as nat),
            w * h * 4 <= before.len() == n,
            b0 == colour_byte(color, 0),
            b1 == colour_byte(color, 1),
            b2 == colour_byte(color, 2),
            b3 == colour_byte(color, 3),
            drawn_up_to(
                canvas@,
                before,
                w as nat,
                h as nat,
                border_px as nat,
                color,
                y as nat * w as nat,
            ),
        decreases h - y,
    {
        let edge_row: bool = y < b || y >= h - b;
        let mut x: u32 = 0;
        while x < w
            invariant
                y < h,
                x <= w,
                0 < b <= w / 2,
                b <= h / 2,
                b == ring_width(w as nat, h as nat, border_px as nat),
                edge_row == (y < b || y >= h - b),
                w * h * 4 <= before.len() == n,
                b0 == colour_byte(color, 0),
                b1 == colour_byte(color, 1),
                b2 == colour_byte(color, 2),
                b3 == colour_byte(color, 3),
                drawn_up_to(
                    canvas@,
                    before,
                    w as nat,
                    h as nat,
                    border_px as nat,
                    color,
                    (y * w + x) as nat,
                ),
            decreases w - x,
        {
            proof {
                lemma_pixel_inside(w as nat, h as nat, x as nat, y as nat);
            }
            let ghost done = (y * w + x) as nat;
            let ghost earlier = canvas@;
            if edge_row || x < b || x >= w - b {
                let i: usize = (y as usize * w as usize + x as usize) * 4;
                canvas[i] = b0;
                canvas[i + 1] = b1;
                canvas[i + 2] = b2;
                canvas[i + 3] = b3;
            }
            proof {
                assert forall|i: int| 0 <= i < canvas@.len() implies #[trigger] canvas@[i] == if i
                    / 4 < done + 1 {
                    bordered_byte(before, w as nat, h as nat, border_px as nat, color, i)
                } else {
                    before[i]
                } by {
                    assert(earlier[i] == if i / 4 < done {
                        bordered_byte(before, w as nat, h as nat, border_px as nat, color, i)
                    } else {
                        before[i]
                    });
                    if i / 4 == done as int {
                        let c = (i % 4) as nat;
                        lemma_pixel_of_byte(w as nat, x as nat, y as nat, c);
                        assert(i == done * 4 + c);
                        assert(c == 0 || c == 1 || c == 2 || c == 3);
                    }
                }
            }
            x = x + 1;
        }
        proof {
            assert(y * w + w == (y + 1) * w) by (nonlinear_arith);
        }
        y = y + 1;
    }
    proof {
        assert(h * w == w * h) by (nonlinear_arith);
        assert forall|i: int| 0 <= i < canvas@.len() implies #[trigger] canvas@[i]
            == bordered_byte(before, w as nat, h as nat, border_px as nat, color, i) by {
            if i / 4 >= h as nat * w as nat {
                assert(i >= w * h * 4);
            }
        }
        assert(canvas@ =~= bordered(before, w as nat, h as nat, border_px as nat, color));
    }
}

/// Paints the border that lies on top of the magnified view: a ring around a fully
/// transparent centre.
pub fn setup_border(canvas: &mut [u8], w: u32, h: u32)
    requires
        w * h * 4 == old(canvas)@.len(),
    ensures
        final(canvas)@ == bordered(
            transparent(old(canvas)@.len()),
            w as nat,
            h as nat,
            BORDER_PX as nat,
            BORDER_COLOR,
        ),
{
    clear(canvas);
    draw_border_ring(canvas, w, h, BORDER_PX, BORDER_COLOR);
}

/// Drawing the same border again changes nothing.
pub proof fn border_is_idempotent(pixels: Seq<u8>, w: nat, h: nat, border_px: nat, color: u32)
    ensures
        bordered(bordered(pixels, w, h, border_px, color), w, h, border_px, color) == bordered(
            pixels,
            w,
            h,
            border_px,
            color,
        ),
{
}

/// Off the ring every pixel keeps its bytes, on the ring it takes the colour.
pub proof fn border_touches_only_the_ring(
    pixels: Seq<u8>,
    w: nat,
    h: nat,
    border_px: nat,
    color: u32,
    x: nat,
    y: nat,
    channel: nat,
)
    requires
        pixels.len() == w * h * 4,
        x < w,
        y < h,
        channel < 4,
    ensures
        ({
            let i = (y * w + x) * 4 + channel;
            bordered(pixels, w, h, border_px, color)[i as int] == if on_ring(
                x,
                y,
                w,
                h,
                ring_width(w, h, border_px),
            ) {
                colour_byte(color, channel)
            } else {
                pixels[i as int]
            }
        }),
{
    lemma_pixel_inside(w, h, x, y);
    lemma_pixel_of_byte(w, x, y, channel);
}

/// The border covers the outermost pixels on all four sides, as many as asked for but not
/// more than half the width or height, each with the four bytes of the colour, lowest
/// first. Every other pixel, and what comes after the last one, is left alone.
pub proof fn border_covers_the_outermost_pixels(
    pixels: Seq<u8>,
    w: nat,
    h: nat,
    border_px: nat,
    color: u32,
    x: nat,
    y: nat,
)
    requires
        x < w,
        y < h,
        w * h * 4 <= pixels.len(),
    ensures
        ({
            let b = if w <= h && border_px > w / 2 {
                w / 2
            } else if h < w && border_px > h / 2 {
                h / 2
            } else {
                border_px
            };
            let outermost = x < b || y < b || w - x <= b || h - y <= b;
            let i = ((y * w + x) * 4) as int;
            let now = bordered(pixels, w, h, border_px, color);
            &&& now.len() == pixels.len()
            &&& outermost ==> now[i] + 256 * now[i + 1] + 65_536 * now[i + 2] + 16_777_216
                * now[i + 3] == color
            &&& !outermost ==> now[i] == pixels[i] && now[i + 1] == pixels[i + 1]
                && now[i + 2] == pixels[i + 2] && now[i + 3] == pixels[i + 3]
            &&& forall|j: int|
                w * h * 4 <= j < pixels.len() ==> #[trigger] now[j] == pixels[j]
        }),
{
    lemma_pixel_inside(w, h, x, y);
    let p = y * w + x;
    let i = (p * 4) as int;
    lemma_pixel_of_byte(w, x, y, 0);
    lemma_pixel_of_byte(w, x, y, 1);
    lemma_pixel_of_byte(w, x, y, 2);
    lemma_pixel_of_byte(w, x, y, 3);
    let now = bordered(pixels, w, h, border_px, color);
    assert(now[i] == bordered_byte(pixels, w, h, border_px, color, i));
    assert(now[i + 1] == bordered_byte(pixels, w, h, border_px, color, i + 1));
    assert(now[i + 2] == bordered_byte(pixels, w, h, border_px, color, i + 2));
    assert(now[i + 3] == bordered_byte(pixels, w, h, border_px, color, i + 3));
}

/// The reminder border is three pixels of red, fully opaque, around nothing.
pub proof fn reminder_is_a_thin_red_ring(len: nat, w: nat, h: nat, x: nat, y: nat)
    requires
        x < w,
        y < h,
        w >= 6,
        h >= 6,
        w * h * 4 == len,
    ensures
        ({
            let ring = x < 3 || y < 3 || w - x <= 3 || h - y <= 3;
            let i = ((y * w + x) * 4) as int;
            let now = bordered(transparent(len), w, h, BORDER_PX as nat, BORDER_COLOR);
            &&& ring ==> now[i] == 0x30 && now[i + 1] == 0x3b && now[i + 2] == 0xff
                && now[i + 3] == 0xff
            &&& !ring ==> now[i] == 0 && now[i + 1] == 0 && now[i + 2] == 0 && now[i + 3]
                == 0
        }),
{
    lemma_pixel_inside(w, h, x, y);
    border_covers_the_outermost_pixels(
        transparent(len),
        w,
        h,
        BORDER_PX as nat,
        BORDER_COLOR,
        x,
        y,
    );
}

} // verus!
