//! Zoom levels: how the wheel sets the target and how the display follows it.
use crate::number::binary::{absolute, single, Binary32, Binary64};
use crate::number::error::lemma_error;
use crate::number::rounding::lemma_pow2_increases;
use crate::number::scale::{exponent, lemma_parts, lemma_units_order, power, significand};
use crate::wheel::turning_scales_the_target;
use vstd::arithmetic::power2::{lemma2_to64, lemma_pow2_adds, lemma_pow2_pos, pow2};
use vstd::prelude::*;

verus! {

/// The largest zoom.
pub const ZOOM_MAX: u64 = 8;

/// The time constant of the exponential ease-out, in milliseconds.
pub const ZOOM_TAU_MS: u64 = 120;

/// The longest time step that an animation takes, in milliseconds. An idle gap cannot
/// make the first step jump to the target.
pub const LONGEST_STEP_MS: u64 = 64;

/// The time step of an animation that starts from idle, in milliseconds.
pub const FIRST_STEP_MS: u64 = 16;

/// How far the scroll distance of one wheel notch is.
pub const SCROLL_PER_NOTCH: u64 = 15;

/// The ratio `n / d` of two integers, in single precision.
pub open spec fn ratio(n: nat, d: nat) -> Binary32 {
    single(n).quotient(single(d))
}

/// The ratio `n / d` of two integers, in single precision.
fn make_ratio(n: u64, d: u64) -> (r: Binary32)
    ensures
        r == ratio(n as nat, d as nat),
{
    Binary32::from_integer(false, n).over(Binary32::from_integer(false, d))
}

/// The factor by which one notch of the wheel changes the zoom: 1.15.
pub open spec fn zoom_step_spec() -> Binary32 {
    ratio(115, 100)
}

/// The factor by which one notch of the wheel changes the zoom.
pub fn zoom_step() -> (r: Binary32)
    ensures
        r == zoom_step_spec(),
{
    make_ratio(115, 100)
}

/// The distance from the target at which the animation ends: 0.003.
pub open spec fn settled_distance() -> Binary32 {
    ratio(3, 1000)
}

/// The single-precision number nearest to a signed integer.
pub open spec fn signed_single(n: int) -> Binary32 {
    Binary32::rounded(n as real)
}

/// How many notches a wheel event reports: the discrete steps where there are any,
/// else the scroll distance in notches. Turning the wheel up is negative.
pub open spec fn notches(discrete: i32, absolute: Binary64) -> Binary32 {
    if discrete != 0 {
        signed_single(discrete as int)
    } else {
        absolute.quotient(Binary64::rounded(SCROLL_PER_NOTCH as real)).converted::<23, 255>()
    }
}

/// How many notches a wheel event reports.
pub fn wheel_notches(discrete: i32, absolute: Binary64) -> (r: Binary32)
    ensures
        r == notches(discrete, absolute),
{
    if discrete > 0 {
        Binary32::from_integer(false, discrete as u64)
    } else if discrete < 0 {
        let size: u64 = (-(discrete as i64)) as u64;
        proof {
            assert(-(size as real) == (discrete as int) as real);
        }
        Binary32::from_integer(true, size)
    } else {
        absolute.over(Binary64::from_integer(false, SCROLL_PER_NOTCH)).convert::<23, 255>()
    }
}

/// The exponent of the factor by which a wheel event changes the zoom: minus its
/// notches, since turning the wheel up zooms in.
pub fn wheel_exponent(discrete: i32, absolute: Binary64) -> (r: Binary32)
    ensures
        r == notches(discrete, absolute).negated(),
        discrete < 0 ==> r.value() >= 1real,
        discrete > 0 ==> r.value() <= -1real,
{
    proof {
        wheel_sets_the_exponent(discrete, absolute);
    }
    wheel_notches(discrete, absolute).negate()
}

/// Turning the wheel up raises the zoom step to a positive power, of one or more for
/// every discrete step, turning it down to a negative one. The exponent is a number
/// wherever the scroll distance is.
pub proof fn wheel_sets_the_exponent(discrete: i32, absolute: Binary64)
    ensures
        discrete < 0 ==> notches(discrete, absolute).negated().value() >= 1real,
        discrete > 0 ==> notches(discrete, absolute).negated().value() <= -1real,
        discrete == 0 && absolute.is_zero() ==> notches(discrete, absolute).is_zero(),
        discrete != 0 || !absolute.is_nan() ==> !notches(discrete, absolute).is_nan(),
{
    Binary32::lemma_limits();
    Binary64::lemma_limits();
    let n = notches(discrete, absolute);
    let size = (if discrete < 0 {
        -discrete
    } else {
        discrete as int
    }) as nat;
    if size > 0 {
        Binary32::lemma_extent(size);
        Binary32::lemma_opposite(size as real);
        assert(signed_single(discrete as int).magnitude == single(size).magnitude);
        assert(n.negated().value() == -n.value());
    } else {
        Binary64::lemma_integer(15);
        let fifteen = Binary64::rounded(SCROLL_PER_NOTCH as real);
        Binary64::lemma_value_order(fifteen, fifteen);
    }
}

/// What is known of a power of the zoom step, whatever computed it: to an exponent that
/// is a number it is a number, not negative, more than a tenth above one from the first
/// power on, and more than a tenth below one from the first negative power on.
pub open spec fn is_power(exponent: Binary32, factor: Binary32) -> bool {
    !exponent.is_nan() ==> {
        &&& !factor.is_nan()
        &&& factor.value() >= 0real
        &&& exponent.value() >= 1real ==> factor.value() >= 11real / 10real
        &&& exponent.value() <= -1real ==> factor.value() <= 9real / 10real
    }
}

/// The target after a turn of the wheel that multiplies it by `factor`.
pub open spec fn wheel_target(target: Binary32, factor: Binary32) -> Binary32 {
    target.product(factor).clamped(single(1), single(ZOOM_MAX as nat))
}

/// The target after a turn of the wheel that multiplies it by `factor`.
pub fn turned_target(target: Binary32, factor: Binary32) -> (r: Binary32)
    ensures
        r == wheel_target(target, factor),
        in_range(target) && !factor.is_nan() && factor.value() >= 0real ==> {
            let x = target.value() * factor.value();
            &&& x <= 1real ==> r.value() == 1real
            &&& x >= 8real ==> r.value() == 8real
            &&& 1real <= x <= 8real ==> x - slack() <= r.value() <= x + slack()
        },
{
    let low: Binary32 = Binary32::from_integer(false, 1);
    let high: Binary32 = Binary32::from_integer(false, ZOOM_MAX);
    proof {
        Binary32::lemma_limits();
        Binary32::lemma_integer(1);
        Binary32::lemma_integer(8);
        if in_range(target) && !factor.is_nan() && factor.value() >= 0real {
            turning_scales_the_target(target, factor);
        }
    }
    target.times(factor).clamp_to(low, high)
}

/// The milliseconds from one time to another, on a clock that wraps around.
pub open spec fn elapsed(before: u32, time: u32) -> nat {
    (if time >= before {
        time - before
    } else {
        time - before + 0x1_0000_0000
    }) as nat
}

/// The time step, in milliseconds, from the previous frame to this one.
pub open spec fn time_step(previous: Option<u32>, time: u32) -> Binary32 {
    match previous {
        Some(before) => single(elapsed(before, time)).minimum(single(LONGEST_STEP_MS as nat)),
        None => single(FIRST_STEP_MS as nat),
    }
}

/// The exponent of the decay over a time step: minus the step over the time constant.
pub open spec fn decay_exponent(previous: Option<u32>, time: u32) -> Binary32 {
    time_step(previous, time).negated().quotient(single(ZOOM_TAU_MS as nat))
}

/// The exponent of the decay from the previous frame to this one.
pub fn exponent_of_decay(previous: Option<u32>, time: u32) -> (r: Binary32)
    ensures
        r == decay_exponent(previous, time),
{
    let step: Binary32 = match previous {
        Some(before) => {
            let gone: u32 = time.wrapping_sub(before);
            Binary32::from_integer(false, gone as u64).smaller(
                Binary32::from_integer(false, LONGEST_STEP_MS),
            )
        },
        None => Binary32::from_integer(false, FIRST_STEP_MS),
    };
    step.negate().over(Binary32::from_integer(false, ZOOM_TAU_MS))
}

/// Whether a zoom has come so close to its target that it takes its value.
pub open spec fn settled(zoom: Binary32, target: Binary32) -> bool {
    target.difference(zoom).size().below(settled_distance())
}

/// The zoom one frame later: the target where it is close, else the part of the
/// distance that has not decayed nearer.
pub open spec fn eased(zoom: Binary32, target: Binary32, decay: Binary32) -> Binary32 {
    if settled(zoom, target) {
        target
    } else {
        zoom.sum(target.difference(zoom).product(single(1).difference(decay)))
    }
}

/// Moves a zoom towards its target. Returns it, and whether it is still moving.
pub fn ease(zoom: Binary32, target: Binary32, decay: Binary32) -> (r: (Binary32, bool))
    ensures
        r.0 == eased(zoom, target, decay),
        r.1 == !settled(zoom, target),
{
    let distance: Binary32 = target.minus(zoom);
    if distance.without_sign().less_than(make_ratio(3, 1000)) {
        (target, false)
    } else {
        let share: Binary32 = Binary32::from_integer(false, 1).minus(decay);
        (zoom.plus(distance.times(share)), true)
    }
}

/// A zoom that the wheel can set: from one to the largest.
pub open spec fn in_range(zoom: Binary32) -> bool {
    !zoom.is_nan() && 1real <= zoom.value() <= ZOOM_MAX as real
}

/// A zoom at a target that some zoom can reach is settled.
pub proof fn lemma_target_is_settled(zoom: Binary32, target: Binary32)
    requires
        settled(zoom, target),
    ensures
        settled(target, target),
{
    Binary32::lemma_limits();
    Binary32::lemma_integer(3);
    Binary32::lemma_integer(1000);
    let near = settled_distance();
    let distance = target.difference(zoom);
    Binary32::lemma_value_order(distance.size(), near);
    Binary32::lemma_value_order(distance.size(), distance.size());
    let none = target.difference(target);
    Binary32::lemma_value_order(none, none);
    Binary32::lemma_value_order(none.size(), near);
    assert(target.negated().value() == -target.value());
}

/// However the wheel is turned, the target stays in its range.
pub proof fn wheel_keeps_target_in_range(target: Binary32, factor: Binary32)
    requires
        in_range(target),
        !factor.is_nan(),
    ensures
        in_range(wheel_target(target, factor)),
{
    Binary32::lemma_limits();
    Binary32::lemma_integer(1);
    Binary32::lemma_integer(8);
    Binary32::lemma_value_order(target, target);
    Binary32::lemma_value_order(single(8), target);
}

/// A zoom in range is finite and positive.
pub proof fn lemma_in_range(zoom: Binary32)
    requires
        in_range(zoom),
    ensures
        zoom.is_finite(),
        !zoom.negative,
        !zoom.is_zero(),
        single(1).is_finite(),
        single(1).value() == 1real,
        single(8).is_finite(),
        !single(8).negative,
        single(8).value() == 8real,
        single(8).magnitude % 2 == 0,
{
    Binary32::lemma_limits();
    Binary32::lemma_integer(1);
    Binary32::lemma_integer(8);
    Binary32::lemma_value_order(single(8), zoom);
    Binary32::lemma_value_order(zoom, zoom);
}

/// Turning the wheel by a factor of at least one does not zoom out, and by a factor
/// of at most one does not zoom in.
pub proof fn wheel_turns_the_right_way(target: Binary32, factor: Binary32)
    requires
        in_range(target),
        factor.is_finite(),
        factor.value() >= 0real,
    ensures
        factor.value() >= 1real ==> wheel_target(target, factor).value() >= target.value(),
        factor.value() <= 1real ==> wheel_target(target, factor).value() <= target.value(),
{
    lemma_in_range(target);
    Binary32::lemma_limits();
    let (t, f) = (target.value(), factor.value());
    let x = t * f;
    Binary32::lemma_times(target, factor);
    target.lemma_exact();
    target.lemma_bounded(t);
    Binary32::lemma_bounded_product(target, factor);
    if f >= 1real {
        assert(t <= t * f) by (nonlinear_arith)
            requires
                t >= 0real,
                f >= 1real,
        ;
        Binary32::lemma_order(t, x);
    }
    if f <= 1real {
        assert(t * f <= t) by (nonlinear_arith)
            requires
                t >= 0real,
                f <= 1real,
        ;
        Binary32::lemma_order(x, t);
    }
}

/// Turning the wheel zooms: a notch up brings the target nearer to the largest zoom and
/// a notch down nearer to one, until it is there. A notch multiplies the target by the
/// zoom step or divides it, which is more than a tenth either way.
pub proof fn wheel_turns_all_the_way(target: Binary32, factor: Binary32)
    requires
        in_range(target),
        !factor.is_nan(),
    ensures
        factor.value() >= 11real / 10real && target.value() < ZOOM_MAX as real ==> wheel_target(
            target,
            factor,
        ).value() > target.value(),
        0real <= factor.value() <= 9real / 10real && target.value() > 1real ==> wheel_target(
            target,
            factor,
        ).value() < target.value(),
{
    lemma_in_range(target);
    Binary32::lemma_limits();
    let (t, f) = (target.value(), factor.value());
    let (eight, one) = (single(8), single(1));
    Binary32::lemma_value_order(factor, factor);
    Binary32::lemma_value_order(one, factor);
    Binary32::lemma_value_order(eight, factor);
    if factor.is_finite() {
        let x = t * f;
        Binary32::lemma_times(target, factor);
        Binary32::lemma_bounded_product(target, factor);
        if f >= 11real / 10real {
            assert(x >= t + 1real / 10real) by (nonlinear_arith)
                requires
                    x == t * f,
                    t >= 1real,
                    f >= 11real / 10real,
            ;
            lemma_step_up(t, x);
        }
        if 0real <= f <= 9real / 10real {
            assert(0real <= x <= t - 1real / 10real) by (nonlinear_arith)
                requires
                    x == t * f,
                    t >= 1real,
                    0real <= f <= 9real / 10real,
            ;
            lemma_slack(x);
        }
    }
}

/// Turning the wheel up zooms in, until the zoom is the largest, and turning it down
/// zooms out, until the zoom is one.
pub proof fn wheel_up_zooms_in(
    target: Binary32,
    discrete: i32,
    absolute: Binary64,
    factor: Binary32,
)
    requires
        in_range(target),
        discrete != 0,
        is_power(notches(discrete, absolute).negated(), factor),
    ensures
        in_range(wheel_target(target, factor)),
        discrete < 0 && target.value() < ZOOM_MAX as real ==> wheel_target(target, factor).value()
            > target.value(),
        discrete > 0 && target.value() > 1real ==> wheel_target(target, factor).value()
            < target.value(),
{
    wheel_sets_the_exponent(discrete, absolute);
    wheel_keeps_target_in_range(target, factor);
    wheel_turns_all_the_way(target, factor);
}

/// A number that exceeds one in range by a tenth still exceeds it when rounded.
proof fn lemma_step_up(t: real, x: real)
    requires
        1real <= t <= 8real,
        x >= t + 1real / 10real,
        Binary32::bounded(x),
    ensures
        Binary32::rounded(x).value() > t,
{
    let y = if x <= 16real {
        x
    } else {
        16real
    };
    lemma2_to64();
    lemma_error(y, 4);
    assert(power(-20) == 1real / 1048576real);
    Binary32::lemma_limits();
    Binary32::lemma_integer(16);
    single(16).lemma_bounded(y);
    Binary32::lemma_order(y, x);
}

/// A bound on the rounding error of zooms: two to the minus 21.
pub open spec fn slack() -> real {
    1real / 2097152real
}

/// The rounding error of a number between -8 and 8.
pub proof fn lemma_slack(x: real)
    requires
        -8real <= x <= 8real,
    ensures
        Binary32::rounded(x).is_finite(),
        x - slack() <= Binary32::rounded(x).value() <= x + slack(),
        x >= 0real ==> Binary32::rounded(x).value() >= 0real,
        x <= 0real ==> Binary32::rounded(x).value() <= 0real,
{
    lemma2_to64();
    Binary32::lemma_opposite(absolute(x));
    lemma_error(absolute(x), 3);
    assert(power(-21) == slack());
    if x == 0real {
        let zero = single(0);
        Binary32::lemma_limits();
        Binary32::lemma_integer(0);
        zero.lemma_exact();
    }
}

/// The distance that is left and its share, in values.
proof fn lemma_shares(zoom: Binary32, target: Binary32, decay: Binary32)
    requires
        in_range(zoom),
        in_range(target),
        decay.is_finite(),
        0real <= decay.value() <= 1real,
    ensures
        ({
            let d = target.difference(zoom);
            let s = single(1).difference(decay);
            let p = d.product(s);
            &&& d.is_finite()
            &&& s.is_finite()
            &&& p.is_finite()
            &&& d.value() == Binary32::rounded(target.value() - zoom.value()).value()
            &&& p.value() == Binary32::rounded(d.value() * s.value()).value()
            &&& zoom.value() <= target.value() ==> 0real <= p.value() <= d.value()
            &&& zoom.value() >= target.value() ==> d.value() <= p.value() <= 0real
        }),
{
    lemma_in_range(zoom);
    lemma_in_range(target);
    Binary32::lemma_limits();
    Binary32::lemma_integer(0);
    let (one, eight, zero) = (single(1), single(8), single(0));
    let d = target.difference(zoom);
    let s = one.difference(decay);
    let p = d.product(s);
    Binary32::lemma_difference(target, zoom);
    Binary32::lemma_difference(one, decay);
    eight.lemma_within(target.value() - zoom.value());
    one.lemma_within(1real - decay.value());
    zero.lemma_exact();
    zero.lemma_bounded(0real);
    Binary32::lemma_order(0real, 1real - decay.value());
    if zoom.value() <= target.value() {
        Binary32::lemma_order(0real, target.value() - zoom.value());
    }
    if zoom.value() >= target.value() {
        Binary32::lemma_order(target.value() - zoom.value(), 0real);
    }
    Binary32::lemma_times(d, s);
    let (a, b) = (d.value(), s.value());
    let x = a * b;
    assert(0real <= b <= 1real);
    if a >= 0real {
        assert(0real <= a * b <= a) by (nonlinear_arith)
            requires
                a >= 0real,
                0real <= b <= 1real,
        ;
    }
    if a <= 0real {
        assert(a <= a * b <= 0real) by (nonlinear_arith)
            requires
                a <= 0real,
                0real <= b <= 1real,
        ;
    }
    d.lemma_within(x);
    d.lemma_exact();
    d.lemma_bounded(a);
    if a >= 0real {
        Binary32::lemma_order(0real, x);
        Binary32::lemma_order(x, a);
    }
    if a <= 0real {
        Binary32::lemma_order(x, 0real);
        Binary32::lemma_order(a, x);
    }
}

/// A step of the animation does not move the zoom away from its target.
pub proof fn easing_moves_towards_the_target(zoom: Binary32, target: Binary32, decay: Binary32)
    requires
        in_range(zoom),
        in_range(target),
        decay.is_finite(),
        0real <= decay.value() <= 1real,
    ensures
        zoom.value() <= target.value() ==> zoom.value() <= eased(zoom, target, decay).value(),
        zoom.value() >= target.value() ==> zoom.value() >= eased(zoom, target, decay).value(),
{
    if !settled(zoom, target) {
        lemma_in_range(zoom);
        lemma_shares(zoom, target, decay);
        let p = target.difference(zoom).product(single(1).difference(decay));
        Binary32::lemma_sum(zoom, p);
        zoom.lemma_exact();
        zoom.lemma_bounded(zoom.value());
        Binary32::lemma_bounded_sum(zoom, p);
        let x = zoom.value() + p.value();
        if p.value() >= 0real {
            Binary32::lemma_order(zoom.value(), x);
        }
        if p.value() <= 0real {
            Binary32::lemma_order(x, zoom.value());
        }
    }
}

/// One can be taken off a zoom in range without rounding.
proof fn lemma_less_one_is_exact(zoom: Binary32)
    requires
        in_range(zoom),
    ensures
        Binary32::rounded(zoom.value() - 1real).value() == zoom.value() - 1real,
        Binary32::rounded(zoom.value() - 1real).is_finite(),
{
    lemma_in_range(zoom);
    Binary32::lemma_limits();
    let f = 23nat;
    let (b, top) = (zoom.magnitude as nat, single(8).magnitude as nat);
    lemma_parts(f, b);
    let (s, k) = (exponent(f, b), significand(f, b));
    // The exponent does not reach that of whole numbers beyond the significand.
    Binary32::lemma_integer(1);
    Binary32::lemma_integer(8);
    Binary32::lemma_value_order(zoom, single(1));
    Binary32::lemma_value_order(single(8), zoom);
    lemma_units_order(f, b, top);
    lemma_units_order(f, single(1).magnitude as nat, b);
    if s > 149 {
        lemma_pow2_increases(150, s);
        lemma_pow2_adds(149, 1);
        lemma2_to64();
        let (p, q) = (pow2(s), pow2(149));
        assert(k * p >= 0x80_0000 * (2 * q)) by (nonlinear_arith)
            requires
                k >= 0x80_0000,
                p >= q * 2,
        ;
        lemma_pow2_pos(149);
        assert(false);
    }
    let n = (149 - s) as nat;
    lemma_pow2_adds(n, s);
    let (w, q) = (pow2(n), pow2(s));
    lemma_pow2_pos(s);
    lemma_pow2_pos(n);
    assert(pow2(149) == w * q);
    assert(1 * pow2(149) == pow2(149));
    assert(k >= w) by (nonlinear_arith)
        requires
            k * q >= w * q,
            q > 0,
    ;
    let m = (k - w) as nat;
    assert(m * q == k * q - w * q) by (nonlinear_arith)
        requires
            m == k - w,
    ;
    Binary32::lemma_multiple(m, s);
    let u = power(-149);
    let (x, y) = ((k * q) as real, pow2(149) as real);
    assert((m * q) as real == x - y);
    assert((x - y) * u == x * u - y * u) by (nonlinear_arith);
    Binary32::lemma_unit();
    assert(y * u == u * y) by (nonlinear_arith);
}

/// The zoom on display stays in the range of the target.
pub proof fn easing_stays_in_range(zoom: Binary32, target: Binary32, decay: Binary32)
    requires
        in_range(zoom),
        in_range(target),
        decay.is_finite(),
        0real <= decay.value() <= 1real,
    ensures
        in_range(eased(zoom, target, decay)),
{
    if !settled(zoom, target) {
        lemma_in_range(zoom);
        lemma_in_range(target);
        lemma_shares(zoom, target, decay);
        easing_moves_towards_the_target(zoom, target, decay);
        let eight = single(8);
        let d = target.difference(zoom);
        let p = d.product(single(1).difference(decay));
        let (z, t) = (zoom.value(), target.value());
        Binary32::lemma_sum(zoom, p);
        Binary32::lemma_bounded_sum(zoom, p);
        let x = z + p.value();
        if z <= t {
            let rest = Binary32::rounded(8real - z);
            Binary32::lemma_take_and_add_back(eight, zoom);
            eight.lemma_bounded(t - z);
            eight.lemma_bounded(8real - z);
            Binary32::lemma_order(t - z, 8real - z);
            Binary32::lemma_bounded_sum(zoom, rest);
            Binary32::lemma_order(x, z + rest.value());
            let y = Binary32::rounded(rest.value() + z);
            Binary32::lemma_value_order(eight, y);
            Binary32::lemma_value_order(y, y);
        } else {
            lemma_less_one_is_exact(zoom);
            eight.lemma_bounded(t - z);
            eight.lemma_bounded(1real - z);
            Binary32::lemma_opposite(z - 1real);
            assert(-(z - 1real) == 1real - z);
            Binary32::lemma_order(1real - z, t - z);
            let one = single(1);
            one.lemma_exact();
            one.lemma_bounded(1real);
            Binary32::lemma_order(1real, x);
        }
    }
}

} // verus!
