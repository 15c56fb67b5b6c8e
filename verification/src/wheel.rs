//! What the wheel does to the zoom, in numbers: it counts notches, every notch is a power
//! of the zoom step, and the target is scaled by it.
use crate::number::binary::{absolute, single, Binary32, Binary64};
use crate::number::rounding::lemma_pow2_increases;
use crate::number::scale::power;
use crate::zoom::{
    in_range, lemma_in_range, lemma_slack, notches, slack, wheel_keeps_target_in_range,
    wheel_target, zoom_step_spec, SCROLL_PER_NOTCH,
};
use vstd::arithmetic::power2::{lemma2_to64, pow2};
use vstd::prelude::*;

verus! {

/// The zoom step is 1.15, up to rounding.
pub proof fn the_zoom_step_is_fifteen_percent()
    ensures
        115real / 100real - slack() <= zoom_step_spec().value() <= 115real / 100real + slack(),
        zoom_step_spec().is_finite(),
{
    Binary32::lemma_limits();
    Binary32::lemma_integer(115);
    Binary32::lemma_integer(100);
    lemma_slack(115real / 100real);
    assert(zoom_step_spec() == Binary32::rounded(115real / 100real));
}

/// A turn of the wheel scales the target by its factor, up to rounding, from one to the
/// largest zoom: below one it is one, and above eight it is eight.
pub proof fn turning_scales_the_target(target: Binary32, factor: Binary32)
    requires
        in_range(target),
        !factor.is_nan(),
        factor.value() >= 0real,
    ensures
        ({
            let x = target.value() * factor.value();
            let v = wheel_target(target, factor).value();
            &&& x <= 1real ==> v == 1real
            &&& x >= 8real ==> v == 8real
            &&& 1real <= x <= 8real ==> x - slack() <= v <= x + slack()
        }),
{
    lemma_in_range(target);
    Binary32::lemma_limits();
    let (t, f) = (target.value(), factor.value());
    let (one, eight) = (single(1), single(8));
    let x = t * f;
    Binary32::lemma_value_order(factor, factor);
    if factor.is_finite() {
        Binary32::lemma_times(target, factor);
        Binary32::lemma_bounded_product(target, factor);
        one.lemma_exact();
        one.lemma_bounded(1real);
        eight.lemma_exact();
        eight.lemma_bounded(8real);
        if x <= 1real {
            Binary32::lemma_order(x, 1real);
        }
        if x >= 8real {
            Binary32::lemma_order(8real, x);
        }
        if 1real <= x <= 8real {
            Binary32::lemma_order(1real, x);
            Binary32::lemma_order(x, 8real);
            lemma_slack(x);
        }
    } else {
        factor.lemma_infinite();
        assert(x > 8real) by (nonlinear_arith)
            requires
                x == t * f,
                t >= 1real,
                f > 8real,
        ;
        let p = target.product(factor);
        assert(p.is_infinite() && !p.negative);
        p.lemma_infinite();
        Binary32::lemma_value_order(p, p);
    }
}

/// Turning the wheel one way and back again comes back to the start, up to rounding,
/// unless an end of the range was in the way.
pub proof fn turning_back_comes_back(target: Binary32, factor: Binary32, back: Binary32)
    requires
        in_range(target),
        !factor.is_nan(),
        factor.value() >= 0real,
        1real <= target.value() * factor.value() <= 8real,
        !back.is_nan(),
        0real <= back.value() <= 8real,
        1real - 1real / 1000000real <= factor.value() * back.value() <= 1real + 1real
            / 1000000real,
    ensures
        ({
            let there = wheel_target(target, factor);
            let here = wheel_target(there, back).value();
            target.value() - 1real / 50000real <= here <= target.value() + 1real / 50000real
        }),
{
    turning_scales_the_target(target, factor);
    let there = wheel_target(target, factor);
    wheel_keeps_target_in_range(target, factor);
    turning_scales_the_target(there, back);
    let (t, f, b, v, e) = (target.value(), factor.value(), back.value(), there.value(), slack());
    let (x, y, k) = (t * f, v * b, f * b);
    assert(x * b == t * k) by (nonlinear_arith)
        requires
            x == t * f,
            k == f * b,
    ;
    assert(t * k - t <= 8real / 1000000real && t - t * k <= 8real / 1000000real)
        by (nonlinear_arith)
        requires
            1real <= t <= 8real,
            1real - 1real / 1000000real <= k <= 1real + 1real / 1000000real,
    ;
    assert(y - x * b <= 8real * e && x * b - y <= 8real * e) by (nonlinear_arith)
        requires
            y == v * b,
            x - e <= v <= x + e,
            0real <= b <= 8real,
            e >= 0real,
    ;
}

/// The notches of a wheel event are its discrete steps, exactly as long as there are not
/// too many of them for single precision, or else its scroll distance over 15.
pub proof fn notches_count_the_turn(discrete: i32, absolute_distance: Binary64)
    ensures
        ({
            let n = notches(discrete, absolute_distance);
            let steps = discrete as real;
            let x = absolute_distance.value() / 15real;
            &&& discrete != 0 && -0x100_0000 < discrete < 0x100_0000 ==> n.value() == steps
            &&& discrete > 0 ==> steps - steps / 1000000real <= n.value() <= steps + steps
                / 1000000real
            &&& discrete < 0 ==> steps + steps / 1000000real <= n.value() <= steps - steps
                / 1000000real
            &&& discrete == 0 && absolute(absolute_distance.value()) <= 0x1_0000_0000 as real
                && absolute_distance.is_finite() ==> absolute(n.value() - x) <= absolute(x)
                / 1000000real + 1real / 1000000000000real
        }),
{
    Binary32::lemma_limits();
    Binary64::lemma_limits();
    if discrete != 0 {
        let size = (if discrete < 0 {
            -discrete
        } else {
            discrete as int
        }) as nat;
        let x = size as real;
        Binary32::lemma_opposite(x);
        if size < 0x100_0000 {
            Binary32::lemma_integer(size);
        }
        Binary32::lemma_extent(size);
        Binary32::lemma_bounded_integer(size);
        Binary32::lemma_close(x);
        Binary32::lemma_grain();
        let g = Binary32::grain();
        assert(x * g <= x / 10000000real) by (nonlinear_arith)
            requires
                g == 1real / 0x100_0000 as real,
                x >= 0real,
        ;
        lemma_speck();
        assert(discrete as real == if discrete < 0 {
            -x
        } else {
            x
        });
    } else {
        let a = absolute_distance;
        if a.is_finite() && absolute(a.value()) <= 0x1_0000_0000 as real {
            lemma_scroll(a);
        }
    }
}

/// The smallest number is far smaller than any notch.
proof fn lemma_speck()
    ensures
        0real < power(-149) <= 1real / 1000000000000000real,
        0real < power(-1074) <= 1real / 1000000000000000real,
{
    lemma2_to64();
    lemma_pow2_increases(64, 149);
    lemma_pow2_increases(64, 1074);
    let (a, b, c) = (pow2(149) as real, pow2(1074) as real, 1000000000000000real);
    assert(1real / a <= 1real / c && 0real < 1real / a) by (nonlinear_arith)
        requires
            0real < c <= a,
    ;
    assert(1real / b <= 1real / c && 0real < 1real / b) by (nonlinear_arith)
        requires
            0real < c <= b,
    ;
}

/// The notches of a scroll distance.
proof fn lemma_scroll(a: Binary64)
    requires
        a.is_finite(),
        absolute(a.value()) <= 0x1_0000_0000 as real,
    ensures
        ({
            let x = a.value() / 15real;
            absolute(notches(0, a).value() - x) <= absolute(x) / 1000000real + 1real
                / 1000000000000real
        }),
{
    Binary32::lemma_limits();
    Binary64::lemma_limits();
    Binary64::lemma_integer(15);
    Binary64::lemma_grain();
    Binary32::lemma_grain();
    lemma_speck();
    let fifteen = Binary64::rounded(SCROLL_PER_NOTCH as real);
    a.lemma_quotient_rounded(fifteen);
    let x = a.value() / 15real;
    let q = a.quotient(fifteen);
    Binary64::lemma_value_order(q, q);
    Binary64::lemma_close(x);
    let (g, k) = (Binary64::grain(), Binary32::grain());
    let (s, y) = (absolute(x), q.value());
    assert(s * g <= s / 1000000000real) by (nonlinear_arith)
        requires
            g == 1real / 0x20_0000_0000_0000 as real,
            s >= 0real,
    ;
    Binary32::lemma_near(y, 0x1_0000_0000 as real);
    Binary32::lemma_close(y);
    let r = absolute(y);
    assert(r * k <= r / 10000000real) by (nonlinear_arith)
        requires
            k == 1real / 0x100_0000 as real,
            r >= 0real,
    ;
    let n = notches(0, a);
    if q.is_zero() {
        Binary32::lemma_value_order(n, n);
    } else {
        assert(n == Binary32::rounded(y));
    }
}

} // verus!
