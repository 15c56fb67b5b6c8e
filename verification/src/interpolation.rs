//! Interpolation does not overshoot: however the intermediate results are rounded, an
//! interpolated colour lies between the colours that it is interpolated from.
use crate::fidelity::lemma_single;
use crate::number::binary::{absolute, single, Binary32};
use crate::number::error::lemma_error;
use crate::number::rounding::lemma_pow2_increases;
use crate::number::scale::{exponent, lemma_parts, power, significand};
use crate::render::{
    blended, fraction, held, lemma_tap_inside, mixture, next_tap, on_source, sampled, tap,
    SourceImage,
};
use vstd::arithmetic::power2::{lemma2_to64, lemma_pow2_adds, lemma_pow2_pos, pow2};
use vstd::prelude::*;

verus! {

/// A bound on the rounding error of numbers up to 512: two to the minus 15.
pub open spec fn slack() -> real {
    1real / 32768real
}

/// The rounding error of a number between 0 and 512.
proof fn lemma_slack(x: real)
    requires
        0real <= x <= 512real,
    ensures
        Binary32::rounded(x).is_finite(),
        Binary32::rounded(x).value() >= 0real,
        x - slack() <= Binary32::rounded(x).value() <= x + slack(),
{
    lemma2_to64();
    lemma_error(x, 9);
}

/// A mixture, but for rounding, is the weighted mean of its parts.
proof fn lemma_mixture_error(a: Binary32, b: Binary32, f: Binary32)
    requires
        a.is_finite(),
        b.is_finite(),
        f.is_finite(),
        0real <= a.value() <= 256real,
        0real <= b.value() <= 256real,
        0real <= f.value() <= 1real,
    ensures
        ({
            let mean = a.value() * (1real - f.value()) + b.value() * f.value();
            let m = mixture(a, b, f);
            &&& m.is_finite()
            &&& m.value() >= 0real
            &&& mean - 259real * slack() <= m.value() <= mean + 259real * slack()
        }),
{
    Binary32::lemma_limits();
    lemma_single(1);
    let one = single(1);
    let (x, y, t, e) = (a.value(), b.value(), f.value(), slack());
    let g = one.difference(f);
    Binary32::lemma_difference(one, f);
    one.lemma_within(1real - t);
    lemma_slack(1real - t);
    let s = g.value();
    assert(0real <= s <= 1real);
    assert(0real <= x * s <= 256real) by (nonlinear_arith)
        requires
            0real <= x <= 256real,
            0real <= s <= 1real,
    ;
    assert(0real <= y * t <= 256real) by (nonlinear_arith)
        requires
            0real <= y <= 256real,
            0real <= t <= 1real,
    ;
    let p = a.product(g);
    let q = b.product(f);
    Binary32::lemma_times(a, g);
    Binary32::lemma_times(b, f);
    lemma_slack(x * s);
    lemma_slack(y * t);
    assert(x * s <= x * (1real - t) + 256real * e && x * s >= x * (1real - t) - 256real * e)
        by (nonlinear_arith)
        requires
            0real <= x <= 256real,
            1real - t - e <= s <= 1real - t + e,
            e >= 0real,
    ;
    assert(x * (1real - t) + y * t <= 256real) by (nonlinear_arith)
        requires
            0real <= x <= 256real,
            0real <= y <= 256real,
            0real <= t <= 1real,
    ;
    Binary32::lemma_sum(p, q);
    lemma_slack(p.value() + q.value());
}

/// The whole part of a number brackets it.
proof fn lemma_floor_brackets(x: Binary32)
    requires
        x.is_finite(),
        !x.negative,
        x.value() < 0x100_0000 as real,
    ensures
        x.floor() as real <= x.value() < x.floor() as real + 1real,
        x.floor() < 0x100_0000,
{
    Binary32::lemma_limits();
    Binary32::lemma_unit();
    let (w, n, k) = (pow2(149), x.units(), x.whole());
    lemma_pow2_pos(149);
    vstd::arithmetic::div_mod::lemma_fundamental_div_mod(n as int, w as int);
    let r = n % w;
    let (u, g) = (power(-149), power(149));
    let (nr, kr, rr) = (n as real, k as real, r as real);
    assert((w * k) as real == g * kr) by (nonlinear_arith)
        requires
            g == w as real,
            kr == k as real,
    ;
    assert(nr == g * kr + rr);
    let v = x.value();
    assert(v == kr + rr * u) by (nonlinear_arith)
        requires
            v == nr * u,
            nr == g * kr + rr,
            u * g == 1real,
    ;
    assert(0real <= rr * u < 1real) by (nonlinear_arith)
        requires
            0real <= rr < g,
            u > 0real,
            u * g == 1real,
    ;
    assert(kr < 0x100_0000 as real);
}

/// A number near an integer becomes that integer, or a neighbour on the right side.
proof fn lemma_byte_bounds(x: Binary32, n: nat)
    requires
        x.is_finite(),
        x.value() >= 0real,
        n <= 255,
    ensures
        2real * x.value() >= 2real * (n as real) - 1real ==> x.byte() >= n,
        2real * x.value() < 2real * (n as real) + 1real ==> x.byte() <= n,
{
    Binary32::lemma_limits();
    Binary32::lemma_unit();
    Binary32::lemma_value_order(x, x);
    let (w, m) = (pow2(149), x.units());
    lemma_pow2_pos(149);
    let (u, g) = (power(-149), power(149));
    let (mr, nr) = (m as real, n as real);
    let size = mr * u;
    assert(absolute(x.value()) == size);
    assert(mr == size * g) by (nonlinear_arith)
        requires
            size == mr * u,
            u * g == 1real,
    ;
    let t = (2 * m + w) as int;
    let d = 2 * w as int;
    if 2real * x.value() >= 2real * nr - 1real {
        assert(2real * mr >= (2real * nr - 1real) * g) by (nonlinear_arith)
            requires
                mr == size * g,
                2real * size >= 2real * nr - 1real,
                g > 0real,
        ;
        assert((2real * nr - 1real) * g == ((2 * n - 1) * w) as real) by (nonlinear_arith)
            requires
                nr == n as real,
                g == w as real,
        ;
        assert(2 * m >= (2 * n - 1) * w);
        assert(t >= n * d) by (nonlinear_arith)
            requires
                t == 2 * m + w,
                d == 2 * w,
                2 * m >= (2 * n - 1) * w,
        ;
        vstd::arithmetic::div_mod::lemma_div_is_ordered(n * d, t, d);
        vstd::arithmetic::div_mod::lemma_div_by_multiple(n as int, d);
        assert(x.is_zero() && x.negative ==> n == 0) by {
            if x.is_zero() && n > 0 {
                assert(x.value() == 0real);
            }
        }
    }
    if 2real * x.value() < 2real * nr + 1real {
        assert(2real * mr < (2real * nr + 1real) * g) by (nonlinear_arith)
            requires
                mr == size * g,
                2real * size < 2real * nr + 1real,
                g > 0real,
        ;
        assert((2real * nr + 1real) * g == ((2 * n + 1) * w) as real) by (nonlinear_arith)
            requires
                nr == n as real,
                g == w as real,
        ;
        assert(2 * m < (2 * n + 1) * w);
        assert(t < (n + 1) * d) by (nonlinear_arith)
            requires
                t == 2 * m + w,
                d == 2 * w,
                2 * m < (2 * n + 1) * w,
        ;
        vstd::arithmetic::div_mod::lemma_fundamental_div_mod(t, d);
        let q = t / d;
        let r = t % d;
        assert(q <= n) by (nonlinear_arith)
            requires
                t == d * q + r,
                0 <= r,
                t < (n + 1) * d,
                d > 0,
        ;
    }
}

/// From two to the 24 on, every number is whole.
proof fn lemma_whole(x: Binary32)
    requires
        x.is_finite(),
        !x.negative,
        x.value() >= 0x100_0000 as real,
    ensures
        x.value() == x.whole() as real,
{
    Binary32::lemma_limits();
    Binary32::lemma_unit();
    let (b, w) = (x.magnitude as nat, pow2(149));
    lemma_parts(23, b);
    let (s, k) = (exponent(23, b), significand(23, b));
    lemma_pow2_pos(149);
    let (u, g, n) = (power(-149), power(149), x.units());
    let (nr, v) = (n as real, x.value());
    assert(nr == v * g) by (nonlinear_arith)
        requires
            v == nr * u,
            u * g == 1real,
    ;
    assert(nr >= 0x100_0000 as real * g) by (nonlinear_arith)
        requires
            nr == v * g,
            v >= 0x100_0000 as real,
            g > 0real,
    ;
    assert((0x100_0000 * w) as real == 0x100_0000 as real * g);
    assert(n >= 0x100_0000 * w);
    if s < 149 {
        lemma_pow2_increases(s, 149);
        let q = pow2(s);
        assert(k * q < 0x100_0000 * w) by (nonlinear_arith)
            requires
                k < 0x100_0000,
                0 <= q <= w,
                w > 0,
        ;
        assert(false);
    }
    let t = (s - 149) as nat;
    lemma_pow2_adds(t, 149);
    let m = k * pow2(t);
    let p = pow2(t);
    assert(k * (p * w) == (k * p) * w) by (nonlinear_arith);
    vstd::arithmetic::div_mod::lemma_fundamental_div_mod_converse(
        n as int,
        w as int,
        m as int,
        0,
    );
    assert(x.whole() == m);
    let mr = m as real;
    assert((m * w) as real == mr * g) by (nonlinear_arith)
        requires
            mr == m as real,
            g == w as real,
    ;
    assert(v == mr) by (nonlinear_arith)
        requires
            v == nr * u,
            nr == mr * g,
            u * g == 1real,
    ;
}

/// The share of the second pixel is between nothing and all.
proof fn lemma_fraction_is_a_share(extent: nat, position: Binary32)
    requires
        on_source(extent, position),
        extent <= u32::MAX,
        !position.is_nan(),
    ensures
        ({
            let f = fraction(extent, position);
            &&& f.is_finite()
            &&& 0real <= f.value() <= 1real
        }),
{
    Binary32::lemma_limits();
    lemma_single(0);
    lemma_single(1);
    lemma_tap_inside(extent, position);
    let x = held(extent, position);
    let last = single((extent - 1) as nat);
    Binary32::lemma_extent((extent - 1) as nat);
    Binary32::lemma_value_order(last, last);
    Binary32::lemma_value_order(x, x);
    Binary32::lemma_value_order(last, x);
    assert(x.is_finite());
    let n = tap(extent, position);
    if x.negative {
        assert(x.value() == 0real);
        assert(n == 0);
    } else if x.value() >= 0x100_0000 as real {
        lemma_whole(x);
        assert(x.value() == n as real);
        x.lemma_exact();
    } else {
        lemma_floor_brackets(x);
        lemma_single(n);
    }
    Binary32::lemma_difference(x, single(n));
    let d = x.value() - (n as real);
    single(1).lemma_within(d);
    lemma_slack(d);
}

/// A weighted mean lies between its parts.
proof fn lemma_mean(a: real, b: real, t: real, low: real, high: real)
    requires
        low <= a <= high,
        low <= b <= high,
        0real <= t <= 1real,
    ensures
        low <= a * (1real - t) + b * t <= high,
{
    let s = 1real - t;
    assert(low * s <= a * s <= high * s) by (nonlinear_arith)
        requires
            low <= a <= high,
            s >= 0real,
    ;
    assert(low * t <= b * t <= high * t) by (nonlinear_arith)
        requires
            low <= b <= high,
            t >= 0real,
    ;
    assert(low * s + low * t == low) by (nonlinear_arith)
        requires
            s == 1real - t,
    ;
    assert(high * s + high * t == high) by (nonlinear_arith)
        requires
            s == 1real - t,
    ;
}

/// The four colours around a sample position lie between `low` and `high`.
pub open spec fn around(
    src: SourceImage,
    x: Binary32,
    y: Binary32,
    channel: nat,
    low: u8,
    high: u8,
) -> bool {
    let (w, h) = (src.width as nat, src.height as nat);
    let (x0, x1) = (tap(w, x), next_tap(w, x));
    let (y0, y1) = (tap(h, y), next_tap(h, y));
    &&& low <= src.channel(x0, y0, channel) <= high
    &&& low <= src.channel(x1, y0, channel) <= high
    &&& low <= src.channel(x0, y1, channel) <= high
    &&& low <= src.channel(x1, y1, channel) <= high
}

/// An interpolated colour lies between the four colours around the sample position.
pub proof fn interpolation_stays_between_its_pixels(
    src: SourceImage,
    x: Binary32,
    y: Binary32,
    channel: nat,
    low: u8,
    high: u8,
)
    requires
        on_source(src.width as nat, x),
        on_source(src.height as nat, y),
        !x.is_nan(),
        !y.is_nan(),
        around(src, x, y, channel, low, high),
    ensures
        low <= blended(src, x, y, channel) <= high,
{
    let (w, h) = (src.width as nat, src.height as nat);
    let (x0, x1) = (tap(w, x), next_tap(w, x));
    let (y0, y1) = (tap(h, y), next_tap(h, y));
    let (fx, fy) = (fraction(w, x), fraction(h, y));
    lemma_fraction_is_a_share(w, x);
    lemma_fraction_is_a_share(h, y);
    let a = src.channel(x0, y0, channel) as nat;
    let b = src.channel(x1, y0, channel) as nat;
    let c = src.channel(x0, y1, channel) as nat;
    let d = src.channel(x1, y1, channel) as nat;
    lemma_single(a);
    lemma_single(b);
    lemma_single(c);
    lemma_single(d);
    let (l, u) = (low as real, high as real);
    let top = mixture(single(a), single(b), fx);
    let bottom = mixture(single(c), single(d), fx);
    lemma_mixture_error(single(a), single(b), fx);
    lemma_mixture_error(single(c), single(d), fx);
    lemma_mean(a as real, b as real, fx.value(), l, u);
    lemma_mean(c as real, d as real, fx.value(), l, u);
    let e = 259real * slack();
    lemma_mixture_error(top, bottom, fy);
    lemma_mean(top.value(), bottom.value(), fy.value(), l - e, u + e);
    let m = mixture(top, bottom, fy);
    lemma_byte_bounds(m, low as nat);
    lemma_byte_bounds(m, high as nat);
}

/// The byte that a number becomes is at most one half away.
proof fn lemma_byte_near(x: Binary32)
    requires
        x.is_finite(),
        0real <= x.value() <= 255real + 1real / 2real,
    ensures
        x.value() - 1real / 2real <= x.byte() as real <= x.value() + 1real / 2real,
{
    let k = x.byte() as nat;
    lemma_byte_bounds(x, k);
    if k < 255 {
        lemma_byte_bounds(x, k + 1);
    }
    if k > 0 {
        lemma_byte_bounds(x, (k - 1) as nat);
    }
}

/// The tap and the fraction of a position on an axis: the whole part and the rest of the
/// position that is nearest on the axis.
proof fn lemma_tap_is_whole_part(extent: nat, position: Binary32, n: nat)
    requires
        1 <= extent <= 0x100_0000,
        !position.is_nan(),
        ({
            let last = (extent - 1) as real;
            let v = position.value();
            let at = if v < 0real {
                0real
            } else if v > last {
                last
            } else {
                v
            };
            n as real <= at < n as real + 1real
        }),
    ensures
        ({
            let last = (extent - 1) as real;
            let v = position.value();
            let at = if v < 0real {
                0real
            } else if v > last {
                last
            } else {
                v
            };
            let f = fraction(extent, position).value();
            let rest = at - n as real;
            &&& tap(extent, position) == n
            &&& rest - 1real / 1000000real <= f <= rest + 1real / 1000000real
        }),
{
    Binary32::lemma_limits();
    lemma_single(0);
    lemma_single(1);
    lemma_single((extent - 1) as nat);
    let x = held(extent, position);
    let last = single((extent - 1) as nat);
    Binary32::lemma_value_order(x, x);
    Binary32::lemma_value_order(last, x);
    Binary32::lemma_value_order(last, last);
    assert(x.is_finite());
    if x.negative {
        assert(x.value() == 0real);
    } else {
        lemma_floor_brackets(x);
    }
    let k = tap(extent, position);
    assert(k as real <= x.value() < k as real + 1real);
    assert(k == n);
    lemma_single(n);
    Binary32::lemma_difference(x, single(n));
    lemma2_to64();
    lemma_error(x.value() - n as real, 0);
    assert(power(-24) == 1real / 0x100_0000 as real);
}

/// A sampled colour is the bilinear interpolation of the four pixels around the position
/// that is nearest on the source, up to the rounding to a whole number and another
/// fiftieth.
///
/// `x0` and `y0` are the whole parts of that position.
pub proof fn sampling_is_bilinear(
    src: SourceImage,
    x: Binary32,
    y: Binary32,
    channel: nat,
    x0: nat,
    y0: nat,
)
    requires
        1 <= src.width <= 0x100_0000,
        1 <= src.height <= 0x100_0000,
        !x.is_nan(),
        !y.is_nan(),
        channel < 3,
        x0 as real <= nearest_on(src.width, x.value()) < x0 as real + 1real,
        y0 as real <= nearest_on(src.height, y.value()) < y0 as real + 1real,
    ensures
        ({
            let u = nearest_on(src.width, x.value()) - x0 as real;
            let v = nearest_on(src.height, y.value()) - y0 as real;
            let x1 = if x0 + 1 < src.width {
                x0 + 1
            } else {
                x0
            };
            let y1 = if y0 + 1 < src.height {
                y0 + 1
            } else {
                y0
            };
            let top = src.channel(x0, y0, channel) as real * (1real - u) + src.channel(
                x1,
                y0,
                channel,
            ) as real * u;
            let bottom = src.channel(x0, y1, channel) as real * (1real - u) + src.channel(
                x1,
                y1,
                channel,
            ) as real * u;
            let mean = top * (1real - v) + bottom * v;
            let e = 1real / 2real + 1real / 50real;
            mean - e <= sampled(src, x, y, channel) as real <= mean + e
        }),
{
    let (w, h) = (src.width as nat, src.height as nat);
    lemma_tap_is_whole_part(w, x, x0);
    lemma_tap_is_whole_part(h, y, y0);
    lemma_fraction_is_a_share(w, x);
    lemma_fraction_is_a_share(h, y);
    let (x1, y1) = (next_tap(w, x), next_tap(h, y));
    let (fx, fy) = (fraction(w, x), fraction(h, y));
    let (u, v) = (
        nearest_on(src.width, x.value()) - x0 as real,
        nearest_on(src.height, y.value()) - y0 as real,
    );
    let a = src.channel(x0, y0, channel) as nat;
    let b = src.channel(x1, y0, channel) as nat;
    let c = src.channel(x0, y1, channel) as nat;
    let d = src.channel(x1, y1, channel) as nat;
    lemma_single(a);
    lemma_single(b);
    lemma_single(c);
    lemma_single(d);
    let (ar, br, cr, dr) = (a as real, b as real, c as real, d as real);
    let top = mixture(single(a), single(b), fx);
    let bottom = mixture(single(c), single(d), fx);
    lemma_mixture_error(single(a), single(b), fx);
    lemma_mixture_error(single(c), single(d), fx);
    lemma_mean(ar, br, fx.value(), 0real, 255real);
    lemma_mean(cr, dr, fx.value(), 0real, 255real);
    lemma_mean(ar, br, u, 0real, 255real);
    lemma_mean(cr, dr, u, 0real, 255real);
    lemma_mean_moves(ar, br, ar, br, fx.value(), u, 0real);
    lemma_mean_moves(cr, dr, cr, dr, fx.value(), u, 0real);
    lemma_mixture_error(top, bottom, fy);
    let (p, q) = (ar * (1real - u) + br * u, cr * (1real - u) + dr * u);
    let m = mixture(top, bottom, fy);
    lemma_mean_moves(top.value(), bottom.value(), p, q, fy.value(), v, 83real / 10000real);
    lemma_mean(p, q, v, 0real, 255real);
    lemma_byte_near(m);
    assert(sampled(src, x, y, channel) == m.byte());
}

/// The coordinate on an axis that is nearest to a number.
pub open spec fn nearest_on(extent: u32, v: real) -> real {
    if v < 0real {
        0real
    } else if v > (extent - 1) as real {
        (extent - 1) as real
    } else {
        v
    }
}

/// A weighted mean moves little if its parts and its weight do.
proof fn lemma_mean_moves(a: real, b: real, c: real, d: real, f: real, t: real, e: real)
    requires
        0real <= c <= 255real,
        0real <= d <= 255real,
        c - e <= a <= c + e,
        d - e <= b <= d + e,
        0real <= f <= 1real,
        t - 1real / 1000000real <= f <= t + 1real / 1000000real,
    ensures
        ({
            let (x, y) = (a * (1real - f) + b * f, c * (1real - t) + d * t);
            y - e - 255real / 1000000real <= x <= y + e + 255real / 1000000real
        }),
{
    let s = 1real - f;
    assert((c - e) * s <= a * s <= (c + e) * s) by (nonlinear_arith)
        requires
            c - e <= a <= c + e,
            s >= 0real,
    ;
    assert((d - e) * f <= b * f <= (d + e) * f) by (nonlinear_arith)
        requires
            d - e <= b <= d + e,
            f >= 0real,
    ;
    assert((c - e) * s + (d - e) * f == c * s + d * f - e) by (nonlinear_arith)
        requires
            s == 1real - f,
    ;
    assert((c + e) * s + (d + e) * f == c * s + d * f + e) by (nonlinear_arith)
        requires
            s == 1real - f,
    ;
    let (k, r) = (d - c, f - t);
    assert(c * s + d * f == c * (1real - t) + d * t + k * r) by (nonlinear_arith)
        requires
            s == 1real - f,
            k == d - c,
            r == f - t,
    ;
    let g = 1real / 1000000real;
    assert(-(255real * g) <= k * r <= 255real * g) by (nonlinear_arith)
        requires
            -255real <= k <= 255real,
            -g <= r <= g,
            g >= 0real,
    ;
}

} // verus!
