//! Pure CPU magnify blit.
//!
//! Given a frozen captured frame, crop a region around a focus point, scale it with
//! bilinear interpolation to fill the destination buffer, then draw a coloured border
//! ring.
pub use crate::image::SourceImage;

use crate::border::{
    bordered, draw_border_ring, lemma_pixel_inside, lemma_pixel_of_byte, ring_width,
};
use crate::fidelity::{lemma_integer_parts, lemma_single};
use crate::number::binary::{single, Binary32};
use vstd::prelude::*;

verus! {

/// How many source pixels of an axis are shown.
pub open spec fn view_length(extent: nat, zoom: Binary32) -> Binary32 {
    Binary32::shown_length(extent, zoom)
}

/// Where the view of an axis starts.
pub open spec fn view_start(extent: nat, zoom: Binary32, center: Binary32) -> Binary32 {
    Binary32::shown_start(extent, zoom, center)
}

/// How far apart, in source pixels, two neighbouring destination pixels sample.
pub open spec fn view_step(extent: nat, zoom: Binary32, across: nat) -> Binary32 {
    view_length(extent, zoom).quotient(single(across))
}

/// Where destination pixel `d` of an axis samples the source.
pub open spec fn sample_position(
    extent: nat,
    zoom: Binary32,
    center: Binary32,
    across: nat,
    d: nat,
) -> Binary32 {
    view_start(extent, zoom, center).sum(single(d).product(view_step(extent, zoom, across)))
}

/// A sample position moved onto the source.
pub open spec fn held(extent: nat, position: Binary32) -> Binary32 {
    position.clamped(single(0), single((extent - 1) as nat))
}

/// The pixel at or before a sample position.
pub open spec fn tap(extent: nat, position: Binary32) -> nat {
    held(extent, position).floor() as nat
}

/// The pixel after that one, or the last pixel.
pub open spec fn next_tap(extent: nat, position: Binary32) -> nat {
    if tap(extent, position) + 1 <= extent - 1 {
        tap(extent, position) + 1
    } else {
        (extent - 1) as nat
    }
}

/// How far a sample position lies past the pixel at or before it.
pub open spec fn fraction(extent: nat, position: Binary32) -> Binary32 {
    held(extent, position).difference(single(tap(extent, position)))
}

/// The mixture of two values, `f` being the share of the second.
pub open spec fn mixture(a: Binary32, b: Binary32, f: Binary32) -> Binary32 {
    a.product(single(1).difference(f)).sum(b.product(f))
}

/// One colour of the source, interpolated between the four pixels around a point.
pub open spec fn blended(src: SourceImage, x: Binary32, y: Binary32, channel: nat) -> u8 {
    let (w, h) = (src.width as nat, src.height as nat);
    let (x0, x1) = (tap(w, x), next_tap(w, x));
    let (y0, y1) = (tap(h, y), next_tap(h, y));
    let (fx, fy) = (fraction(w, x), fraction(h, y));
    let top = mixture(
        single(src.channel(x0, y0, channel) as nat),
        single(src.channel(x1, y0, channel) as nat),
        fx,
    );
    let bottom = mixture(
        single(src.channel(x0, y1, channel) as nat),
        single(src.channel(x1, y1, channel) as nat),
        fx,
    );
    mixture(top, bottom, fy).byte()
}

/// One byte of a sample: an interpolated colour, or full opacity.
pub open spec fn sampled(src: SourceImage, x: Binary32, y: Binary32, channel: nat) -> u8 {
    if channel < 3 {
        blended(src, x, y, channel)
    } else {
        0xff
    }
}

/// One byte of the magnified view.
pub open spec fn magnified_byte(
    src: SourceImage,
    dst_w: nat,
    dst_h: nat,
    zoom: Binary32,
    center: (Binary32, Binary32),
    i: nat,
) -> u8 {
    sampled(
        src,
        sample_position(src.width as nat, zoom, center.0, dst_w, (i / 4) % dst_w),
        sample_position(src.height as nat, zoom, center.1, dst_h, (i / 4) / dst_w),
        i % 4,
    )
}

/// The magnified view in place of the pixels of a destination.
pub open spec fn magnified(
    before: Seq<u8>,
    src: SourceImage,
    dst_w: nat,
    dst_h: nat,
    zoom: Binary32,
    center: (Binary32, Binary32),
) -> Seq<u8> {
    Seq::new(
        before.len(),
        |i: int|
            if i < dst_w * dst_h * 4 {
                magnified_byte(src, dst_w, dst_h, zoom, center, i as nat)
            } else {
                before[i]
            },
    )
}

/// A position that lies on the source once it is moved there. The coordinate of the last
/// pixel could only round up past the source on an axis of more than two to the 24
/// pixels.
pub open spec fn on_source(extent: nat, position: Binary32) -> bool {
    extent >= 1 && (extent <= 0x100_0000 || tap(extent, position) < extent)
}

/// An axis all of whose sample positions lie on the source.
pub open spec fn axis_samplable(
    extent: nat,
    zoom: Binary32,
    center: Binary32,
    across: nat,
) -> bool {
    &&& extent >= 1
    &&& extent <= 0x100_0000 || forall|d: nat|
        d < across ==> #[trigger] on_source(
            extent,
            sample_position(extent, zoom, center, across, d),
        )
}

/// An image that holds every pixel that a view of it samples.
pub open spec fn samplable(
    src: SourceImage,
    dst_w: nat,
    dst_h: nat,
    zoom: Binary32,
    center: (Binary32, Binary32),
) -> bool {
    &&& src.width * src.height * 4 <= src.data@.len()
    &&& axis_samplable(src.width as nat, zoom, center.0, dst_w)
    &&& axis_samplable(src.height as nat, zoom, center.1, dst_h)
}

/// The bounds that a position is moved between are numbers in order.
proof fn lemma_bounds(extent: u32)
    requires
        extent >= 1,
    ensures
        !single(0).is_nan(),
        !single((extent - 1) as nat).is_nan(),
        single(0).value() <= single((extent - 1) as nat).value(),
{
    Binary32::lemma_limits();
    Binary32::lemma_integer(0);
    let high = single((extent - 1) as nat);
    Binary32::lemma_value_order(high, high);
}

/// A position that lies on the source has its taps there.
pub proof fn lemma_tap_inside(extent: nat, position: Binary32)
    requires
        on_source(extent, position),
    ensures
        tap(extent, position) < extent,
        next_tap(extent, position) < extent,
{
    if extent <= 0x100_0000 {
        lemma_ordinary_tap(extent, position);
    }
}

/// Moving a position onto an axis of up to two to the 24 pixels leaves its tap inside.
proof fn lemma_ordinary_tap(extent: nat, position: Binary32)
    requires
        1 <= extent <= 0x100_0000,
    ensures
        tap(extent, position) < extent,
{
    let last = (extent - 1) as nat;
    lemma_single(0);
    lemma_single(last);
    lemma_integer_parts(single(last), last);
    let high = single(last);
    let x = held(extent, position);
    Binary32::lemma_value_order(high, high);
    Binary32::lemma_value_order(high, x);
    Binary32::lemma_value_order(x, x);
    if !x.is_nan() && !x.negative {
        Binary32::lemma_floor_order(x, high);
    }
}

/// Moving a position onto the source twice is moving it there once.
pub proof fn lemma_held_twice(extent: u32, position: Binary32)
    requires
        extent >= 1,
    ensures
        held(extent as nat, held(extent as nat, position)) == held(extent as nat, position),
{
    lemma_bounds(extent);
}

/// Beyond an edge the edge pixels repeat: a sample anywhere is the sample at the place
/// on the source that is nearest.
pub proof fn sampling_repeats_the_edges(src: SourceImage, x: Binary32, y: Binary32, channel: nat)
    requires
        src.width >= 1,
        src.height >= 1,
    ensures
        sampled(src, x, y, channel) == sampled(
            src,
            held(src.width as nat, x),
            held(src.height as nat, y),
            channel,
        ),
        on_source(src.width as nat, x) ==> on_source(src.width as nat, held(src.width as nat, x)),
        on_source(src.height as nat, y) ==> on_source(
            src.height as nat,
            held(src.height as nat, y),
        ),
{
    lemma_held_twice(src.width, x);
    lemma_held_twice(src.height, y);
}

/// The two taps and the fraction of a sample position.
fn taps(extent: u32, position: Binary32) -> (r: (u32, u32, Binary32))
    requires
        on_source(extent as nat, position),
    ensures
        r.0 == tap(extent as nat, position),
        r.1 == next_tap(extent as nat, position),
        r.2 == fraction(extent as nat, position),
        r.0 < extent,
        r.1 < extent,
{
    proof {
        lemma_bounds(extent);
        lemma_tap_inside(extent as nat, position);
    }
    let zero: Binary32 = Binary32::from_integer(false, 0);
    let last: Binary32 = Binary32::from_integer(false, (extent - 1) as u64);
    let x: Binary32 = position.clamp_to(zero, last);
    let first: u32 = x.to_floor();
    let second: u32 = if first + 1 <= extent - 1 {
        first + 1
    } else {
        extent - 1
    };
    (first, second, x.minus(Binary32::from_integer(false, first as u64)))
}

/// The mixture of two values, `f` being the share of the second.
fn mix(a: Binary32, b: Binary32, f: Binary32) -> (r: Binary32)
    ensures
        r == mixture(a, b, f),
{
    let one: Binary32 = Binary32::from_integer(false, 1);
    a.times(one.minus(f)).plus(b.times(f))
}

/// Reads one byte of one pixel.
fn read_channel(src: &SourceImage, x: u32, y: u32, channel: usize) -> (r: u8)
    requires
        src.width * src.height * 4 <= src.data@.len(),
        x < src.width,
        y < src.height,
        channel < 4,
    ensures
        r == src.channel(x as nat, y as nat, channel as nat),
{
    let n: usize = src.data.len();
    proof {
        lemma_pixel_inside(src.width as nat, src.height as nat, x as nat, y as nat);
        lemma_row_inside(src.width as nat, src.height as nat, y as nat);
    }
    let stride: usize = src.stride();
    proof {
        let (w, a, b) = (src.width as int, x as int, y as int);
        assert((b * w + a) * 4 == b * (w * 4) + a * 4) by (nonlinear_arith);
    }
    src.data[y as usize * stride + x as usize * 4 + channel]
}

proof fn lemma_row_inside(w: nat, h: nat, y: nat)
    requires
        y < h,
    ensures
        w * 4 <= w * h * 4,
        y * (w * 4) <= w * h * 4,
        0 <= y * (w * 4),
{
    assert(w * 4 <= w * h * 4 && y * (w * 4) <= w * h * 4) by (nonlinear_arith)
        requires
            y < h,
    ;
    assert(0 <= y * (w * 4)) by (nonlinear_arith);
}

/// Samples the source bilinearly at a point in source-pixel coordinates: blue, green
/// and red interpolated, alpha fully opaque. Beyond an edge the edge pixels repeat.
pub fn sample_bilinear(src: &SourceImage, x: Binary32, y: Binary32) -> (r: (u8, u8, u8, u8))
    requires
        src.width * src.height * 4 <= src.data@.len(),
        on_source(src.width as nat, x),
        on_source(src.height as nat, y),
    ensures
        r.0 == sampled(*src, x, y, 0),
        r.1 == sampled(*src, x, y, 1),
        r.2 == sampled(*src, x, y, 2),
        r.3 == sampled(*src, x, y, 3),
{
    let (x0, x1, fx) = taps(src.width, x);
    let (y0, y1, fy) = taps(src.height, y);
    (
        blend(src, x0, x1, y0, y1, fx, fy, 0),
        blend(src, x0, x1, y0, y1, fx, fy, 1),
        blend(src, x0, x1, y0, y1, fx, fy, 2),
        0xff,
    )
}

/// One colour, interpolated between four pixels.
fn blend(
    src: &SourceImage,
    x0: u32,
    x1: u32,
    y0: u32,
    y1: u32,
    fx: Binary32,
    fy: Binary32,
    channel: usize,
) -> (r: u8)
    requires
        src.width * src.height * 4 <= src.data@.len(),
        x0 < src.width,
        x1 < src.width,
        y0 < src.height,
        y1 < src.height,
        channel < 4,
    ensures
        r == mixture(
            mixture(
                single(src.channel(x0 as nat, y0 as nat, channel as nat) as nat),
                single(src.channel(x1 as nat, y0 as nat, channel as nat) as nat),
                fx,
            ),
            mixture(
                single(src.channel(x0 as nat, y1 as nat, channel as nat) as nat),
                single(src.channel(x1 as nat, y1 as nat, channel as nat) as nat),
                fx,
            ),
            fy,
        ).byte(),
{
    let a: Binary32 = Binary32::from_integer(false, read_channel(src, x0, y0, channel) as u64);
    let b: Binary32 = Binary32::from_integer(false, read_channel(src, x1, y0, channel) as u64);
    let c: Binary32 = Binary32::from_integer(false, read_channel(src, x0, y1, channel) as u64);
    let d: Binary32 = Binary32::from_integer(false, read_channel(src, x1, y1, channel) as u64);
    mix(mix(a, b, fx), mix(c, d, fx), fy).to_byte()
}

/// The start and the step of the view along one axis.
fn view_axis(extent: u32, zoom: Binary32, center: Binary32, across: u32) -> (r: (
    Binary32,
    Binary32,
))
    ensures
        r.0 == view_start(extent as nat, zoom, center),
        r.1 == view_step(extent as nat, zoom, across as nat),
{
    let (start, length) = Binary32::shown(extent, zoom, center);
    (start, length.over(Binary32::from_integer(false, across as u64)))
}

/// The pixels before number `done` show the view, the others are as they were.
spec fn shown_up_to(
    now: Seq<u8>,
    before: Seq<u8>,
    src: SourceImage,
    dst_w: nat,
    dst_h: nat,
    zoom: Binary32,
    center: (Binary32, Binary32),
    done: nat,
) -> bool {
    &&& now.len() == before.len()
    &&& forall|i: int|
        0 <= i < now.len() ==> #[trigger] now[i] == if i / 4 < done {
            magnified_byte(src, dst_w, dst_h, zoom, center, i as nat)
        } else {
            before[i]
        }
}

/// Renders the magnified view into `dst` (`dst_w * dst_h * 4` bytes).
///
/// Source pixels are bilinearly interpolated, so magnified content (especially
/// text) looks smooth rather than blocky.
///
/// * `zoom` is clamped to at least one; at one the whole source maps to the whole
///   destination (no panning).
/// * `center` is the focus point in *source pixel* coordinates; the crop is
///   centred there and clamped to stay inside the source.
pub fn render(
    src: &SourceImage,
    dst: &mut [u8],
    dst_w: u32,
    dst_h: u32,
    zoom: Binary32,
    center: (Binary32, Binary32),
    border_px: u32,
    border_color: u32,
)
    requires
        dst_w * dst_h * 4 <= old(dst)@.len(),
        dst_w > 0 && dst_h > 0 ==> samplable(*src, dst_w as nat, dst_h as nat, zoom, center),
    ensures
        final(dst)@ == bordered(
            magnified(old(dst)@, *src, dst_w as nat, dst_h as nat, zoom, center),
            dst_w as nat,
            dst_h as nat,
            border_px as nat,
            border_color,
        ),
{
    let ghost before = dst@;
    let n: usize = dst.len();
    let (x_start, x_step) = view_axis(src.width, zoom, center.0, dst_w);
    let (y_start, y_step) = view_axis(src.height, zoom, center.1, dst_h);
    let ghost (w, h) = (dst_w as nat, dst_h as nat);
    let mut dy: u32 = 0;
    while dy < dst_h
        invariant
            dy <= dst_h,
            w == dst_w,
            h == dst_h,
            dst_w * dst_h * 4 <= before.len() == n,
            dst_w > 0 && dst_h > 0 ==> samplable(*src, w, h, zoom, center),
            x_start == view_start(src.width as nat, zoom, center.0),
            x_step == view_step(src.width as nat, zoom, w),
            y_start == view_start(src.height as nat, zoom, center.1),
            y_step == view_step(src.height as nat, zoom, h),
            shown_up_to(dst@, before, *src, w, h, zoom, center, dy as nat * w),
        decreases dst_h - dy,
    {
        let y: Binary32 = y_start.plus(Binary32::from_integer(false, dy as u64).times(y_step));
        let mut dx: u32 = 0;
        while dx < dst_w
            invariant
                dy < dst_h,
                dx <= dst_w,
                w == dst_w,
                h == dst_h,
                dst_w * dst_h * 4 <= before.len() == n,
                dst_w > 0 && dst_h > 0 ==> samplable(*src, w, h, zoom, center),
                x_start == view_start(src.width as nat, zoom, center.0),
                x_step == view_step(src.width as nat, zoom, w),
                y == sample_position(src.height as nat, zoom, center.1, h, dy as nat),
                shown_up_to(dst@, before, *src, w, h, zoom, center, (dy * dst_w + dx) as nat),
            decreases dst_w - dx,
        {
            proof {
                lemma_pixel_inside(w, h, dx as nat, dy as nat);
                let px = sample_position(src.width as nat, zoom, center.0, w, dx as nat);
                assert(on_source(src.width as nat, px));
                assert(on_source(src.height as nat, y));
            }
            let ghost done = (dy * dst_w + dx) as nat;
            let ghost earlier = dst@;
            let x: Binary32 = x_start.plus(Binary32::from_integer(false, dx as u64).times(x_step));
            let i: usize = (dy as usize * dst_w as usize + dx as usize) * 4;
            let (b, g, r, a) = sample_bilinear(src, x, y);
            dst[i] = b;
            dst[i + 1] = g;
            dst[i + 2] = r;
            dst[i + 3] = a;
            proof {
                assert forall|j: int| 0 <= j < dst@.len() implies #[trigger] dst@[j] == if j / 4
                    < done + 1 {
                    magnified_byte(*src, w, h, zoom, center, j as nat)
                } else {
                    before[j]
                } by {
                    assert(earlier[j] == if j / 4 < done {
                        magnified_byte(*src, w, h, zoom, center, j as nat)
                    } else {
                        before[j]
                    });
                    if j / 4 == done as int {
                        let c = (j % 4) as nat;
                        lemma_pixel_of_byte(w, dx as nat, dy as nat, c);
                        assert(j == done * 4 + c);
                        assert(c == 0 || c == 1 || c == 2 || c == 3);
                    }
                }
            }
            dx = dx + 1;
        }
        proof {
            assert(dy * dst_w + dst_w == (dy + 1) * dst_w) by (nonlinear_arith);
        }
        dy = dy + 1;
    }
    proof {
        assert(h * w == w * h) by (nonlinear_arith);
        assert forall|i: int| 0 <= i < dst@.len() implies #[trigger] dst@[i] == magnified(
            before,
            *src,
            w,
            h,
            zoom,
            center,
        )[i] by {
            if i / 4 >= h * w {
                assert(i >= w * h * 4);
            }
        }
        assert(dst@ =~= magnified(before, *src, w, h, zoom, center));
    }
    draw_border(dst, dst_w, dst_h, border_px, border_color);
}

/// Overwrites the outer `border_px` ring of `dst` with `color`.
pub fn draw_border(dst: &mut [u8], w: u32, h: u32, border_px: u32, color: u32)
    requires
        ring_width(w as nat, h as nat, border_px as nat) > 0 ==> w * h * 4 <= old(dst)@.len(),
    ensures
        final(dst)@ == bordered(old(dst)@, w as nat, h as nat, border_px as nat, color),
{
    draw_border_ring(dst, w, h, border_px, color);
}

} // verus!
