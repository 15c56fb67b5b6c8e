//! What holds of every rendered view: it stays inside its source, takes its colours
//! from it, and is opaque.
use crate::border::{
    bordered, byte_on_ring, colour_byte, lemma_pixel_inside, lemma_pixel_of, lemma_pixel_of_byte,
    ring_width,
};
use crate::interpolation::interpolation_stays_between_its_pixels;
use crate::number::binary::{absolute, single, Binary32};
use crate::number::rounding::lemma_pow2_increases;
use crate::number::scale::power;
use crate::render::{
    axis_samplable, lemma_tap_inside, magnified, magnified_byte, next_tap, on_source,
    sample_position, sampled, tap, view_length, view_start, view_step, SourceImage,
};
use vstd::arithmetic::power2::{lemma2_to64, pow2};
use vstd::prelude::*;

verus! {

/// The view of an axis starts at or after the first source pixel, and, adding its
/// length to its start, ends at or before the last.
pub proof fn view_stays_inside_source(extent: nat, zoom: Binary32, center: Binary32)
    requires
        extent < 0x80_0000,
        !center.is_nan(),
    ensures
        ({
            let start = view_start(extent, zoom, center);
            let length = view_length(extent, zoom);
            &&& start.is_finite()
            &&& length.is_finite()
            &&& 0real <= start.value()
            &&& 0real <= length.value()
            &&& extent >= 1 ==> 1real <= length.value()
            &&& start.sum(length).is_finite()
            &&& start.sum(length).value() <= extent as real
        }),
{
    Binary32::lemma_limits();
    Binary32::lemma_extent(extent);
    Binary32::shown_length_is_within_extent(extent, zoom);
    Binary32::shown_part_starts_inside(extent, zoom, center);
    Binary32::shown_part_stays_inside(extent, zoom, center);
}

/// Every destination pixel samples the source at a number.
pub proof fn sample_positions_are_numbers(
    extent: nat,
    zoom: Binary32,
    center: Binary32,
    across: nat,
    d: nat,
)
    requires
        1 <= extent <= u32::MAX,
        d < across <= u32::MAX,
        !center.is_nan(),
    ensures
        !sample_position(extent, zoom, center, across, d).is_nan(),
{
    Binary32::lemma_limits();
    Binary32::shown_length_is_within_extent(extent, zoom);
    Binary32::shown_part_starts_inside(extent, zoom, center);
    Binary32::lemma_extent(across);
    let length = view_length(extent, zoom);
    let whole = single(across);
    Binary32::lemma_value_order(length, length);
    Binary32::lemma_value_order(whole, whole);
    length.lemma_quotient_within(whole);
    Binary32::lemma_integer(0);
    if d > 0 {
        Binary32::lemma_extent(d);
    }
    let step = view_step(extent, zoom, across);
    Binary32::lemma_times(single(d), step);
}

/// Every colour of one channel of an image lies between `low` and `high`.
pub open spec fn colours_within(src: SourceImage, channel: nat, low: u8, high: u8) -> bool {
    forall|x: nat, y: nat|
        x < src.width && y < src.height ==> low <= #[trigger] src.channel(x, y, channel) <= high
}

/// A view has no brighter and no darker colours than its source.
pub proof fn view_keeps_colour_range(
    src: SourceImage,
    dst_w: nat,
    dst_h: nat,
    zoom: Binary32,
    center: (Binary32, Binary32),
    low: u8,
    high: u8,
    i: nat,
)
    requires
        axis_samplable(src.width as nat, zoom, center.0, dst_w),
        axis_samplable(src.height as nat, zoom, center.1, dst_h),
        dst_w <= u32::MAX,
        dst_h <= u32::MAX,
        !center.0.is_nan(),
        !center.1.is_nan(),
        colours_within(src, i % 4, low, high),
        i < dst_w * dst_h * 4,
        i % 4 != 3,
    ensures
        low <= magnified_byte(src, dst_w, dst_h, zoom, center, i) <= high,
{
    let (w, h) = (src.width as nat, src.height as nat);
    let (x, y) = lemma_pixel_of(dst_w, dst_h, i);
    sample_positions_are_numbers(w, zoom, center.0, dst_w, x);
    sample_positions_are_numbers(h, zoom, center.1, dst_h, y);
    let px = sample_position(w, zoom, center.0, dst_w, x);
    let py = sample_position(h, zoom, center.1, dst_h, y);
    assert(on_source(w, px));
    assert(on_source(h, py));
    lemma_tap_inside(w, px);
    lemma_tap_inside(h, py);
    let (x0, x1) = (tap(w, px), next_tap(w, px));
    let (y0, y1) = (tap(h, py), next_tap(h, py));
    assert(low <= src.channel(x0, y0, i % 4) <= high);
    assert(low <= src.channel(x1, y0, i % 4) <= high);
    assert(low <= src.channel(x0, y1, i % 4) <= high);
    assert(low <= src.channel(x1, y1, i % 4) <= high);
    interpolation_stays_between_its_pixels(src, px, py, i % 4, low, high);
}

/// A rendered view is opaque: whatever its source has in place of alpha, every pixel
/// off the border is fully opaque, and the border has the alpha of its colour.
pub proof fn view_is_opaque(
    before: Seq<u8>,
    src: SourceImage,
    dst_w: nat,
    dst_h: nat,
    zoom: Binary32,
    center: (Binary32, Binary32),
    border_px: nat,
    border_color: u32,
    i: nat,
)
    requires
        i < dst_w * dst_h * 4 <= before.len(),
        i % 4 == 3,
    ensures
        ({
            let view = magnified(before, src, dst_w, dst_h, zoom, center);
            bordered(view, dst_w, dst_h, border_px, border_color)[i as int] == if byte_on_ring(
                i,
                dst_w,
                dst_h,
                ring_width(dst_w, dst_h, border_px),
            ) {
                colour_byte(border_color, 3)
            } else {
                0xff
            }
        }),
{
}

/// The view of an axis is as long as the axis divided by the zoom and surrounds its
/// center, up to rounding, as far as the ends of the axis allow; and its pixels sample it
/// evenly, from its start on.
///
/// The extents are below two to the 24, so that they are exact in single precision.
pub proof fn view_samples_the_magnified_part_evenly(
    extent: nat,
    zoom: Binary32,
    center: Binary32,
    across: nat,
    d: nat,
)
    requires
        1 <= extent < 0x100_0000,
        !center.is_nan(),
        d < across < 0x100_0000,
    ensures
        ({
            let s = extent as real;
            let m = if zoom.is_nan() || zoom.value() < 1real {
                1real
            } else {
                zoom.value()
            };
            let l = view_length(extent, zoom).value();
            let want = center.value() - l / 2real;
            let place = if want < 0real {
                0real
            } else if want > s - l {
                s - l
            } else {
                want
            };
            let spot = place + (d as real) * (l / (across as real));
            let e = s / 500000real;
            &&& s <= m ==> l == 1real
            &&& s >= m ==> s / m - e <= l <= s / m + e
            &&& spot - e <= sample_position(extent, zoom, center, across, d).value() <= spot + e
        }),
{
    Binary32::lemma_limits();
    Binary32::lemma_grain();
    Binary32::lemma_integer(extent);
    Binary32::lemma_integer(across);
    Binary32::lemma_integer(d);
    Binary32::lemma_extent(extent);
    Binary32::lemma_extent(across);
    Binary32::shown_length_is_within_extent(extent, zoom);
    Binary32::shown_length_is_the_extent_over_the_zoom(extent, zoom);
    Binary32::shown_part_surrounds_its_center(extent, zoom, center);
    Binary32::shown_part_starts_inside(extent, zoom, center);
    let (s, g) = (extent as real, Binary32::grain());
    let length = view_length(extent, zoom);
    let start = view_start(extent, zoom, center);
    let last = Binary32::last_start(extent, length);
    let l = length.value();
    let (n, k) = (across as real, d as real);
    let t = s * g;
    assert(30real * t <= s / 500000real) by (nonlinear_arith)
        requires
            t == s * g,
            g == 1real / 0x100_0000 as real,
            s >= 0real,
    ;
    Binary32::lemma_value_order(length, length);
    length.lemma_quotient_rounded(single(across));
    let x = l / n;
    let step = view_step(extent, zoom, across);
    // What each step is off, all steps together are off by no more than the length is.
    Binary32::lemma_close(x);
    lemma_even_steps(l, n, k, s);
    let v = step.value();
    let u = power(-149);
    lemma_tiny_unit();
    lemma_steps_off(x, v, k, l, s, g, u);
    Binary32::lemma_times(single(d), step);
    let y = k * v;
    assert(absolute(y) <= 2real * s);
    Binary32::lemma_near(y, 2real * s);
    assert(2real * s * g == 2real * t) by (nonlinear_arith)
        requires
            t == s * g,
    ;
    let offset = single(d).product(step);
    Binary32::lemma_sum(start, offset);
    let z = start.value() + offset.value();
    Binary32::lemma_last_start_below(extent, length);
    Binary32::lemma_near(z, 4real * s);
    assert(4real * s * g == 4real * t) by (nonlinear_arith)
        requires
            t == s * g,
    ;
}

/// A part of a length, in steps.
proof fn lemma_even_steps(l: real, n: real, k: real, s: real)
    requires
        1real <= l <= s,
        0real <= k < n,
        n >= 1real,
    ensures
        0real <= l / n <= l,
        0real <= k * (l / n) <= l,
{
    let x = l / n;
    assert(x * n == l) by (nonlinear_arith)
        requires
            x == l / n,
            n >= 1real,
    ;
    assert(x >= 0real) by (nonlinear_arith)
        requires
            x * n == l,
            l >= 1real,
            n >= 1real,
    ;
    assert(k * x <= n * x) by (nonlinear_arith)
        requires
            k < n,
            x >= 0real,
    ;
    assert(k * x >= 0real) by (nonlinear_arith)
        requires
            k >= 0real,
            x >= 0real,
    ;
    assert(n * x == x * n) by (nonlinear_arith);
    assert(x <= x * n) by (nonlinear_arith)
        requires
            x >= 0real,
            n >= 1real,
    ;
}

/// How far a number of rounded steps is off.
proof fn lemma_steps_off(
    x: real,
    v: real,
    k: real,
    l: real,
    s: real,
    g: real,
    u: real,
)
    requires
        x >= 0real,
        k * x <= l <= s,
        0real <= k < 0x100_0000 as real,
        absolute(v - x) <= x * g + u,
        0real < g <= 1real / 1000000real,
        0real < u <= 1real / 1000000000000000000real,
        s >= 1real,
        g >= 1real / 0x100_0000 as real,
    ensures
        k * x - 2real * (s * g) <= k * v <= k * x + 2real * (s * g),
        -(2real * s) <= k * v <= 2real * s,
{
    let d = v - x;
    assert(k * v == k * x + k * d) by (nonlinear_arith)
        requires
            d == v - x,
    ;
    let b = x * g + u;
    assert(-(k * b) <= k * d <= k * b) by (nonlinear_arith)
        requires
            -b <= d <= b,
            k >= 0real,
    ;
    assert(k * b == (k * x) * g + k * u) by (nonlinear_arith)
        requires
            b == x * g + u,
    ;
    let y = k * x;
    assert(y * g <= s * g) by (nonlinear_arith)
        requires
            y <= s,
            g > 0real,
    ;
    assert(k * u <= 0x100_0000 as real * u) by (nonlinear_arith)
        requires
            k <= 0x100_0000 as real,
            u > 0real,
    ;
    assert(g <= s * g) by (nonlinear_arith)
        requires
            s >= 1real,
            g > 0real,
    ;
    assert(s * g <= s / 1000000real) by (nonlinear_arith)
        requires
            g <= 1real / 1000000real,
            s >= 0real,
    ;
    assert(y >= 0real) by (nonlinear_arith)
        requires
            y == k * x,
            k >= 0real,
            x >= 0real,
    ;
}

/// The smallest number is very small.
proof fn lemma_tiny_unit()
    ensures
        0real < power(-149) <= 1real / 1000000000000000000real,
{
    lemma2_to64();
    lemma_pow2_increases(64, 149);
    let (a, c) = (pow2(149) as real, 1000000000000000000real);
    assert(1real / a <= 1real / c && 0real < 1real / a) by (nonlinear_arith)
        requires
            0real < c <= a,
    ;
}

/// Byte by byte, the magnified view holds the samples at the positions of its columns and
/// rows, and leaves alone what comes after it.
pub proof fn view_holds_a_sample_per_pixel(
    before: Seq<u8>,
    src: SourceImage,
    dst_w: nat,
    dst_h: nat,
    zoom: Binary32,
    center: (Binary32, Binary32),
    dx: nat,
    dy: nat,
    channel: nat,
)
    requires
        dx < dst_w,
        dy < dst_h,
        channel < 4,
        dst_w * dst_h * 4 <= before.len(),
    ensures
        ({
            let view = magnified(before, src, dst_w, dst_h, zoom, center);
            let x = sample_position(src.width as nat, zoom, center.0, dst_w, dx);
            let y = sample_position(src.height as nat, zoom, center.1, dst_h, dy);
            let i = ((dy * dst_w + dx) * 4 + channel) as int;
            &&& view.len() == before.len()
            &&& 0 <= i < view.len()
            &&& view[i] == sampled(src, x, y, channel)
            &&& channel == 3 ==> view[i] == 255
            &&& forall|j: int|
                dst_w * dst_h * 4 <= j < before.len() ==> #[trigger] view[j] == before[j]
        }),
{
    lemma_pixel_inside(dst_w, dst_h, dx, dy);
    lemma_pixel_of_byte(dst_w, dx, dy, channel);
    let p = dy * dst_w + dx;
    assert((p * 4 + channel) % 4 == channel);
}

} // verus!
