//! What a rendered view owes to its source: at a zoom of one it shows everything, and
//! at the same size it is the source itself.
use crate::border::lemma_pixel_of;
use crate::image::{byte_at, opaque};
use crate::number::binary::{single, Binary32};
use crate::render::{
    blended, fraction, held, magnified, mixture, next_tap, sample_position, tap, view_length,
    view_start, view_step, SourceImage,
};
use vstd::arithmetic::power2::{lemma_pow2_pos, pow2};
use vstd::prelude::*;

verus! {

/// A finite number whose value is a whole number that single precision holds.
pub open spec fn stands_for(x: Binary32, n: nat) -> bool {
    x.is_finite() && x.value() == n as real
}

/// Integers below two to the 24 are held exactly.
pub proof fn lemma_single(n: nat)
    requires
        n < 0x100_0000,
    ensures
        stands_for(single(n), n),
        !single(n).negative,
        !single(n).is_nan(),
        n > 0 ==> !single(n).is_zero(),
{
    Binary32::lemma_limits();
    Binary32::lemma_integer(n);
}

/// The integer parts of a number that stands for an integer are that integer.
pub proof fn lemma_integer_parts(x: Binary32, n: nat)
    requires
        n < 0x100_0000,
        stands_for(x, n),
    ensures
        x.floor() == n,
        n <= 255 ==> x.byte() == n,
{
    Binary32::lemma_limits();
    Binary32::lemma_integer(n);
    single(n).lemma_same_value(x);
    Binary32::lemma_value_order(x, x);
    let w = pow2(149);
    lemma_pow2_pos(149);
    assert(x.units() == n * w);
    vstd::arithmetic::div_mod::lemma_fundamental_div_mod_converse(
        (n * w) as int,
        w as int,
        n as int,
        0,
    );
    assert(2 * (n * w) + w == n * (2 * w) + w) by (nonlinear_arith);
    vstd::arithmetic::div_mod::lemma_fundamental_div_mod_converse(
        (2 * (n * w) + w) as int,
        2 * w as int,
        n as int,
        w as int,
    );
}

/// The sum of numbers that stand for integers stands for their sum.
proof fn lemma_integer_sum(a: Binary32, m: nat, b: Binary32, n: nat)
    requires
        stands_for(a, m),
        stands_for(b, n),
        m + n < 0x100_0000,
    ensures
        stands_for(a.sum(b), m + n),
{
    Binary32::lemma_sum(a, b);
    lemma_single(m + n);
    single(m + n).lemma_exact();
}

/// The difference of two numbers that stand for one integer stands for zero.
proof fn lemma_integer_cancels(a: Binary32, b: Binary32, n: nat)
    requires
        stands_for(a, n),
        stands_for(b, n),
    ensures
        stands_for(a.difference(b), 0),
{
    Binary32::lemma_difference(a, b);
    lemma_single(0);
    single(0).lemma_exact();
}

/// Multiplying by one, or by zero.
proof fn lemma_integer_product(a: Binary32, m: nat, b: Binary32, n: nat)
    requires
        stands_for(a, m),
        stands_for(b, n),
        m < 0x100_0000,
        n == 0 || n == 1,
    ensures
        stands_for(a.product(b), m * n),
{
    Binary32::lemma_times(a, b);
    let (x, y) = (a.value(), b.value());
    assert(x * 0real == 0real) by (nonlinear_arith);
    assert(x * 1real == x) by (nonlinear_arith);
    assert(m * n == if n == 0 {
        0
    } else {
        m
    }) by (nonlinear_arith)
        requires
            n == 0 || n == 1,
    ;
    lemma_single(m * n);
    single(m * n).lemma_exact();
}

/// One minus zero is one.
proof fn lemma_whole_share(f: Binary32)
    requires
        stands_for(f, 0),
    ensures
        stands_for(single(1).difference(f), 1),
{
    lemma_single(1);
    Binary32::lemma_difference(single(1), f);
    single(1).lemma_exact();
}

/// A mixture of which the second value has no share is the first value.
proof fn lemma_mixture_of_one(a: Binary32, m: nat, b: Binary32, n: nat, f: Binary32)
    requires
        stands_for(a, m),
        stands_for(b, n),
        stands_for(f, 0),
        m <= 255,
        n <= 255,
    ensures
        stands_for(mixture(a, b, f), m),
{
    lemma_whole_share(f);
    lemma_integer_product(a, m, single(1).difference(f), 1);
    lemma_integer_product(b, n, f, 0);
    assert(m * 1 == m && n * 0 == 0);
    lemma_integer_sum(a.product(single(1).difference(f)), m, b.product(f), 0);
}

/// At a zoom of one, or less, the view of an axis is the whole axis, wherever the
/// focus is.
pub proof fn zoom_one_views_everything(extent: nat, zoom: Binary32, center: Binary32)
    requires
        extent <= u32::MAX,
        zoom.is_nan() || zoom.value() <= 1real,
        !center.is_nan(),
    ensures
        view_length(extent, zoom) == single(extent),
        stands_for(view_start(extent, zoom, center), 0),
{
    Binary32::zoom_one_shows_whole_axis(extent, zoom, center);
}

/// Where a destination pixel samples an axis that is shown whole at its own size.
proof fn lemma_identity_axis(extent: nat, zoom: Binary32, center: Binary32, d: nat)
    requires
        d < extent <= 0x100_0000,
        zoom.is_nan() || zoom.value() <= 1real,
        !center.is_nan(),
    ensures
        ({
            let position = sample_position(extent, zoom, center, extent, d);
            &&& tap(extent, position) == d
            &&& next_tap(extent, position) < extent
            &&& stands_for(fraction(extent, position), 0)
        }),
{
    zoom_one_views_everything(extent, zoom, center);
    Binary32::lemma_limits();
    lemma_single(0);
    lemma_single(1);
    lemma_single(d);
    lemma_single((extent - 1) as nat);
    Binary32::lemma_extent(extent);
    let whole = single(extent);
    Binary32::lemma_value_order(whole, whole);
    let e = whole.value();
    assert(e / e == 1real) by (nonlinear_arith)
        requires
            e > 0real,
    ;
    let step = view_step(extent, zoom, extent);
    assert(step == single(1));
    lemma_integer_product(single(d), d, step, 1);
    assert(d * 1 == d);
    let start = view_start(extent, zoom, center);
    let offset = single(d).product(step);
    lemma_integer_sum(start, 0, offset, d);
    let position = sample_position(extent, zoom, center, extent, d);
    assert(stands_for(position, d));
    assert(held(extent, position) == position);
    lemma_integer_parts(position, d);
    lemma_integer_cancels(position, single(d), d);
}

/// One sampled byte of a source that is shown whole at its own size.
proof fn lemma_identity_byte(
    src: SourceImage,
    zoom: Binary32,
    center: (Binary32, Binary32),
    x: nat,
    y: nat,
    channel: nat,
)
    requires
        src.well_formed(),
        x < src.width <= 0x100_0000,
        y < src.height <= 0x100_0000,
        channel < 3,
        zoom.is_nan() || zoom.value() <= 1real,
        !center.0.is_nan(),
        !center.1.is_nan(),
    ensures
        blended(
            src,
            sample_position(src.width as nat, zoom, center.0, src.width as nat, x),
            sample_position(src.height as nat, zoom, center.1, src.height as nat, y),
            channel,
        ) == src.channel(x, y, channel),
{
    let (w, h) = (src.width as nat, src.height as nat);
    let px = sample_position(w, zoom, center.0, w, x);
    let py = sample_position(h, zoom, center.1, h, y);
    lemma_identity_axis(w, zoom, center.0, x);
    lemma_identity_axis(h, zoom, center.1, y);
    let (x1, y1) = (next_tap(w, px), next_tap(h, py));
    let (fx, fy) = (fraction(w, px), fraction(h, py));
    let a = src.channel(x, y, channel) as nat;
    let b = src.channel(x1, y, channel) as nat;
    let c = src.channel(x, y1, channel) as nat;
    let d = src.channel(x1, y1, channel) as nat;
    lemma_single(a);
    lemma_single(b);
    lemma_single(c);
    lemma_single(d);
    lemma_mixture_of_one(single(a), a, single(b), b, fx);
    lemma_mixture_of_one(single(c), c, single(d), d, fx);
    let top = mixture(single(a), single(b), fx);
    let bottom = mixture(single(c), single(d), fx);
    lemma_mixture_of_one(top, a, bottom, c, fy);
    lemma_integer_parts(mixture(top, bottom, fy), a);
}

/// At a zoom of one, or less, a view of the size of its source is the source, every
/// pixel fully opaque.
pub proof fn zoom_one_at_own_size_is_identity(
    src: SourceImage,
    before: Seq<u8>,
    zoom: Binary32,
    center: (Binary32, Binary32),
)
    requires
        src.well_formed(),
        src.width <= 0x100_0000,
        src.height <= 0x100_0000,
        before.len() == src.data@.len(),
        zoom.is_nan() || zoom.value() <= 1real,
        !center.0.is_nan(),
        !center.1.is_nan(),
    ensures
        magnified(before, src, src.width as nat, src.height as nat, zoom, center) == opaque(
            src.data@,
        ),
{
    let (w, h) = (src.width as nat, src.height as nat);
    let view = magnified(before, src, w, h, zoom, center);
    let goal = opaque(src.data@);
    assert forall|i: int| 0 <= i < view.len() implies #[trigger] view[i] == goal[i] by {
        let c = (i % 4) as nat;
        if c < 3 {
            let (x, y) = lemma_pixel_of(w, h, i as nat);
            lemma_identity_byte(src, zoom, center, x, y, c);
            vstd::arithmetic::div_mod::lemma_fundamental_div_mod(i / 4, w as int);
            assert(y * w == w * y) by (nonlinear_arith);
            assert(byte_at(w, x, y, c) == i);
        }
    }
    assert(view =~= opaque(src.data@));
}

} // verus!
