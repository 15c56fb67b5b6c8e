//! The zoom animation as a whole: it neither stalls nor jumps, and it ends.
use crate::number::binary::{absolute, single, Binary32};
use crate::number::error::lemma_error;
use crate::number::scale::power;
use crate::zoom::{
    decay_exponent, eased, easing_stays_in_range, elapsed, in_range, lemma_in_range, lemma_slack,
    settled, settled_distance, slack, time_step, FIRST_STEP_MS, LONGEST_STEP_MS,
};
use vstd::arithmetic::power2::lemma2_to64;
use vstd::prelude::*;

verus! {

/// The distance at which the animation ends, but for rounding.
pub proof fn lemma_settled_distance()
    ensures
        settled_distance().is_finite(),
        3real / 1000real - slack() <= settled_distance().value(),
{
    Binary32::lemma_limits();
    Binary32::lemma_integer(3);
    Binary32::lemma_integer(1000);
    lemma_slack(3real / 1000real);
    assert(settled_distance() == Binary32::rounded(3real / 1000real));
}

/// A distance at which the animation goes on is not small.
proof fn lemma_unsettled(zoom: Binary32, target: Binary32)
    requires
        in_range(zoom),
        in_range(target),
        !settled(zoom, target),
    ensures
        absolute(target.difference(zoom).value()) >= 29real / 10000real,
        target.difference(zoom).is_finite(),
        target.difference(zoom).value() == Binary32::rounded(
            target.value() - zoom.value(),
        ).value(),
{
    Binary32::lemma_limits();
    lemma_in_range(zoom);
    lemma_in_range(target);
    lemma_settled_distance();
    let d = target.difference(zoom);
    Binary32::lemma_difference(target, zoom);
    lemma_slack(target.value() - zoom.value());
    Binary32::lemma_value_order(d, d);
    assert(d.size().value() == absolute(d.value()));
    assert(!d.size().is_nan());
}

/// A zoom at its target is settled.
pub proof fn lemma_at_target(target: Binary32)
    requires
        in_range(target),
    ensures
        settled(target, target),
{
    lemma_in_range(target);
    Binary32::lemma_limits();
    lemma_settled_distance();
    let none = target.difference(target);
    assert(target.negated().value() == -target.value());
    Binary32::lemma_value_order(none.size(), none.size());
}

/// A step of the animation makes progress and leaves a part of the way: the zoom comes
/// nearer to its target by at least two to the minus 16, and at least a quarter of the
/// distance is left.
///
/// This takes a decay that one time step can have, from the shortest of one
/// millisecond to the longest.
pub proof fn easing_neither_stalls_nor_jumps(zoom: Binary32, target: Binary32, decay: Binary32)
    requires
        in_range(zoom),
        in_range(target),
        !settled(zoom, target),
        plausible(decay),
    ensures
        ({
            let (z, t, n) = (zoom.value(), target.value(), eased(zoom, target, decay).value());
            &&& z != t
            &&& z < t ==> z + 1real / 65536real <= n <= t - (t - z) / 4real
            &&& t < z ==> t + (z - t) / 4real <= n <= z - 1real / 65536real
        }),
{
    Binary32::lemma_limits();
    lemma_in_range(zoom);
    lemma_in_range(target);
    lemma_unsettled(zoom, target);
    let e = slack();
    let (z, t) = (zoom.value(), target.value());
    let d = target.difference(zoom);
    lemma_slack(t - z);
    let one = single(1);
    let s = one.difference(decay);
    Binary32::lemma_difference(one, decay);
    lemma_slack(1real - decay.value());
    Binary32::lemma_times(d, s);
    let p = d.product(s);
    let (a, b) = (d.value(), s.value());
    let x = a * b;
    assert(78real / 10000real <= b <= 1real / 2real + e);
    if a > 0real {
        lemma_share(a, b);
    } else {
        assert((-a) * b == -(a * b)) by (nonlinear_arith);
        lemma_share(-a, b);
    }
    lemma_slack(x);
    Binary32::lemma_sum(zoom, p);
    lemma_slack(z + p.value());
}

/// The share of a distance that a step covers.
proof fn lemma_share(a: real, b: real)
    requires
        29real / 10000real <= a <= 7real + slack(),
        78real / 10000real <= b <= 1real / 2real + slack(),
    ensures
        2262real / 100000000real <= a * b <= a / 2real + 8real * slack(),
{
    let e = slack();
    assert(a * b >= (29real / 10000real) * (78real / 10000real)) by (nonlinear_arith)
        requires
            a >= 29real / 10000real,
            b >= 78real / 10000real,
    ;
    assert(a * b <= a * (1real / 2real + e)) by (nonlinear_arith)
        requires
            a >= 0real,
            b <= 1real / 2real + e,
    ;
    assert(a * (1real / 2real + e) == a / 2real + a * e) by (nonlinear_arith);
    assert(a * e <= 8real * e) by (nonlinear_arith)
        requires
            a <= 8real,
            e >= 0real,
    ;
}

/// What rounding can add to the decay of a distance.
pub open spec fn blur() -> real {
    9real / 5000real
}

/// A step of the animation takes the distance from the target down by its decay, but for
/// rounding.
pub proof fn easing_shrinks_the_distance(zoom: Binary32, target: Binary32, decay: Binary32)
    requires
        in_range(zoom),
        in_range(target),
        !settled(zoom, target),
        plausible(decay),
    ensures
        absolute(target.value() - eased(zoom, target, decay).value()) <= (decay.value() + blur())
            * absolute(target.value() - zoom.value()),
{
    easing_neither_stalls_nor_jumps(zoom, target, decay);
    Binary32::lemma_limits();
    lemma_in_range(zoom);
    lemma_in_range(target);
    lemma_unsettled(zoom, target);
    let (z, t, q, e) = (zoom.value(), target.value(), decay.value(), slack());
    let d = target.difference(zoom);
    lemma_slack(t - z);
    let one = single(1);
    let s = one.difference(decay);
    Binary32::lemma_difference(one, decay);
    lemma_slack(1real - q);
    Binary32::lemma_times(d, s);
    let p = d.product(s);
    let (a, b) = (d.value(), s.value());
    if a > 0real {
        lemma_share(a, b);
        lemma_cover(t - z, q, a, b);
    } else {
        assert((-a) * b == -(a * b)) by (nonlinear_arith);
        lemma_share(-a, b);
        lemma_cover(z - t, q, -a, b);
    }
    lemma_slack(a * b);
    Binary32::lemma_sum(zoom, p);
    lemma_slack(z + p.value());
}

/// What a step covers of a distance, and what ten roundings can take of it.
proof fn lemma_cover(d: real, q: real, a: real, b: real)
    requires
        29real / 10000real <= a,
        d <= 7real,
        d - slack() <= a <= d + slack(),
        1real / 2real <= q <= 1real,
        1real - q - slack() <= b,
    ensures
        d - a * b + 2real * slack() <= (q + blur()) * d,
{
    let e = slack();
    let s = 1real - q - e;
    assert(a * b >= a * s) by (nonlinear_arith)
        requires
            a >= 0real,
            b >= s,
    ;
    assert(a * s >= a * (1real - q) - 8real * e) by (nonlinear_arith)
        requires
            s == 1real - q - e,
            0real <= a <= 8real,
            e >= 0real,
    ;
    assert(a * (1real - q) >= d * (1real - q) - e / 2real) by (nonlinear_arith)
        requires
            a >= d - e,
            1real / 2real <= q <= 1real,
            e >= 0real,
    ;
    assert(d * (1real - q) == d - q * d) by (nonlinear_arith);
    let c = blur();
    assert((q + c) * d == q * d + c * d) by (nonlinear_arith);
    assert(c * d >= c * (28990real / 10000000real)) by (nonlinear_arith)
        requires
            c >= 0real,
            d >= 28990real / 10000000real,
    ;
}

/// A decay that takes part of a distance away: not more than half, and as much as is
/// missing in `slowest` to one.
pub open spec fn at_pace(decay: Binary32, slowest: real) -> bool {
    decay.is_finite() && 1real / 2real <= decay.value() <= slowest
}

/// A decay that a time step can have: over one millisecond at least one in 128 parts
/// goes, over the longest step not more than half.
pub open spec fn plausible(decay: Binary32) -> bool {
    at_pace(decay, 127real / 128real)
}

/// The slowest decay over 16 milliseconds or more: the natural exponential of minus 16
/// over 120, to four digits.
pub open spec fn brisk() -> real {
    8752real / 10000real
}

/// The zoom after a sequence of frames.
pub open spec fn zoom_after(zoom: Binary32, target: Binary32, decays: Seq<Binary32>) -> Binary32
    decreases decays.len(),
{
    if decays.len() == 0 {
        zoom
    } else {
        eased(zoom_after(zoom, target, decays.drop_last()), target, decays.last())
    }
}

/// A number of frames after which every animation at some pace is over.
pub open spec fn frames_to_settle(slowest: real) -> nat {
    if slowest <= brisk() {
        69
    } else {
        2050
    }
}

/// What is left of one after it was multiplied by `r` a number of times.
spec fn fade(r: real, n: nat) -> real
    decreases n,
{
    if n == 0 {
        1real
    } else {
        r * fade(r, (n - 1) as nat)
    }
}

/// What fades does not grow.
proof fn lemma_fade(r: real, m: nat, n: nat)
    requires
        0real <= r <= 1real,
        m <= n,
    ensures
        0real <= fade(r, n) <= fade(r, m) <= 1real,
    decreases n,
{
    if n > 0 {
        let (l, k) = (
            if m == n {
                (m - 1) as nat
            } else {
                m
            },
            (n - 1) as nat,
        );
        lemma_fade(r, l, k);
        let f = fade(r, k);
        assert(0real <= r * f <= f) by (nonlinear_arith)
            requires
                0real <= r <= 1real,
                f >= 0real,
        ;
    }
}

/// Fading twice as often is fading by the square.
proof fn lemma_fade_adds(r: real, m: nat, n: nat)
    ensures
        fade(r, m + n) == fade(r, m) * fade(r, n),
    decreases n,
{
    if n > 0 {
        let k = (n - 1) as nat;
        lemma_fade_adds(r, m, k);
        let (a, b) = (fade(r, m), fade(r, k));
        assert(r * (a * b) == a * (r * b)) by (nonlinear_arith);
    } else {
        let a = fade(r, m);
        assert(a * 1real == a) by (nonlinear_arith);
    }
}

/// If so much is left after some time, its square is left after twice that time.
proof fn lemma_fade_twice(r: real, n: nat, bound: real, square: real)
    requires
        0real <= fade(r, n) <= bound,
        bound * bound <= square,
    ensures
        0real <= fade(r, 2 * n) <= square,
{
    lemma_fade_adds(r, n, n);
    let f = fade(r, n);
    assert(0real <= f * f <= bound * bound) by (nonlinear_arith)
        requires
            0real <= f <= bound,
    ;
}

/// At some pace, less than a settled distance is left of the whole range after one frame
/// fewer than it takes to settle.
proof fn lemma_faded(slowest: real, n: nat)
    requires
        1real / 2real <= slowest <= 127real / 128real,
        n + 1 >= frames_to_settle(slowest),
    ensures
        7real * fade(slowest + blur(), n) < 28real / 10000real,
{
    let r = slowest + blur();
    assert(fade(r, 1) == r) by {
        reveal_with_fuel(fade, 2);
    }
    if slowest <= brisk() {
        lemma_fade_twice(r, 1, 877real / 1000real, 77real / 100real);
        lemma_fade_twice(r, 2, 77real / 100real, 6real / 10real);
        lemma_fade_twice(r, 4, 6real / 10real, 36real / 100real);
        lemma_fade_twice(r, 8, 36real / 100real, 13real / 100real);
        lemma_fade_twice(r, 16, 13real / 100real, 17real / 1000real);
        lemma_fade_twice(r, 32, 17real / 1000real, 3real / 10000real);
        lemma_fade(r, 64, n);
    } else {
        lemma_fade_twice(r, 1, 9942real / 10000real, 9885real / 10000real);
        lemma_fade_twice(r, 2, 9885real / 10000real, 9772real / 10000real);
        lemma_fade_twice(r, 4, 9772real / 10000real, 955real / 1000real);
        lemma_fade_twice(r, 8, 955real / 1000real, 9121real / 10000real);
        lemma_fade_twice(r, 16, 9121real / 10000real, 832real / 1000real);
        lemma_fade_twice(r, 32, 832real / 1000real, 693real / 1000real);
        lemma_fade_twice(r, 64, 693real / 1000real, 481real / 1000real);
        lemma_fade_twice(r, 128, 481real / 1000real, 232real / 1000real);
        lemma_fade_twice(r, 256, 232real / 1000real, 54real / 1000real);
        lemma_fade_twice(r, 512, 54real / 1000real, 3real / 1000real);
        lemma_fade_twice(r, 1024, 3real / 1000real, 1real / 100000real);
        lemma_fade(r, 2048, n);
    }
}

/// Every decay of a sequence is at some pace.
pub open spec fn all_at_pace(decays: Seq<Binary32>, slowest: real) -> bool {
    forall|i: int| 0 <= i < decays.len() ==> at_pace(#[trigger] decays[i], slowest)
}

/// After some frames the zoom is at its target, or the distance has faded.
proof fn lemma_approach(zoom: Binary32, target: Binary32, decays: Seq<Binary32>, slowest: real)
    requires
        in_range(zoom),
        in_range(target),
        1real / 2real <= slowest <= 127real / 128real,
        all_at_pace(decays, slowest),
    ensures
        ({
            let now = zoom_after(zoom, target, decays);
            &&& in_range(now)
            &&& now == target || absolute(target.value() - now.value()) <= 7real * fade(
                slowest + blur(),
                decays.len(),
            )
        }),
    decreases decays.len(),
{
    let r = slowest + blur();
    if decays.len() > 0 {
        let earlier = decays.drop_last();
        assert(forall|i: int| 0 <= i < earlier.len() ==> earlier[i] == decays[i]);
        lemma_approach(zoom, target, earlier, slowest);
        let before = zoom_after(zoom, target, earlier);
        let decay = decays[decays.len() - 1];
        assert(at_pace(decay, slowest));
        easing_stays_in_range(before, target, decay);
        if !settled(before, target) {
            easing_neither_stalls_nor_jumps(before, target, decay);
            easing_shrinks_the_distance(before, target, decay);
            let f = fade(r, earlier.len());
            let (x, q) = (absolute(target.value() - before.value()), decay.value() + blur());
            assert(q * x <= 7real * (r * f)) by (nonlinear_arith)
                requires
                    0real <= q <= r,
                    0real <= x <= 7real * f,
            ;
        }
    }
}

/// The animation ends: once enough frames were shown, the zoom is its target. With 16
/// milliseconds or more from frame to frame, that takes no more than 69 frames.
pub proof fn zoom_settles(zoom: Binary32, target: Binary32, decays: Seq<Binary32>, slowest: real)
    requires
        in_range(zoom),
        in_range(target),
        slowest <= 127real / 128real,
        all_at_pace(decays, slowest),
        decays.len() >= frames_to_settle(slowest),
    ensures
        zoom_after(zoom, target, decays) == target,
{
    assert(at_pace(decays[0], slowest));
    let earlier = decays.drop_last();
    assert(forall|i: int| 0 <= i < earlier.len() ==> earlier[i] == decays[i]);
    lemma_approach(zoom, target, earlier, slowest);
    lemma_faded(slowest, earlier.len());
    let before = zoom_after(zoom, target, earlier);
    if !settled(before, target) {
        lemma_unsettled(before, target);
        lemma_slack(target.value() - before.value());
        lemma_in_range(before);
        lemma_in_range(target);
        lemma_at_target(target);
        assert(false);
    }
}

/// A frame that comes 16 milliseconds or more after the previous one, if there was one.
pub open spec fn unhurried(previous: Option<u32>, time: u32) -> bool {
    previous matches Some(before) ==> elapsed(before, time) >= FIRST_STEP_MS
}

/// No time step is longer than the longest, however long the display was idle, nor
/// shorter than the time between frames that come unhurried.
pub proof fn time_step_is_capped(previous: Option<u32>, time: u32)
    ensures
        time_step(previous, time).is_finite(),
        0real <= time_step(previous, time).value() <= LONGEST_STEP_MS as real,
        unhurried(previous, time) ==> time_step(previous, time).value() >= FIRST_STEP_MS as real,
{
    Binary32::lemma_limits();
    Binary32::lemma_integer(0);
    Binary32::lemma_integer(16);
    Binary32::lemma_integer(64);
    let step = time_step(previous, time);
    Binary32::lemma_value_order(step, step);
    if let Some(before) = previous {
        let gone = elapsed(before, time);
        Binary32::lemma_extent(gone);
        Binary32::lemma_value_order(single(gone), single(gone));
        if gone >= 16 {
            Binary32::lemma_bounded_integer(16);
            Binary32::lemma_bounded_integer(gone);
            Binary32::lemma_order(16real, gone as real);
        }
    }
}

/// The exponent of the decay over a number of milliseconds.
pub open spec fn exponent_over(ms: nat) -> real {
    Binary32::rounded(-((ms as real) / 120real)).value()
}

/// The exponent of the decay is not positive, and not below that of the longest step.
/// Between frames that come unhurried it is not above that of 16 milliseconds.
pub proof fn decay_exponent_is_capped(previous: Option<u32>, time: u32)
    ensures
        decay_exponent(previous, time).is_finite(),
        exponent_over(LONGEST_STEP_MS as nat) <= decay_exponent(previous, time).value() <= 0real,
        unhurried(previous, time) ==> decay_exponent(previous, time).value() <= exponent_over(
            FIRST_STEP_MS as nat,
        ),
{
    Binary32::lemma_limits();
    Binary32::lemma_integer(0);
    Binary32::lemma_integer(120);
    time_step_is_capped(previous, time);
    let step = time_step(previous, time);
    let back = step.negated();
    Binary32::lemma_value_order(step, step);
    Binary32::lemma_value_order(back, back);
    assert(back.value() == -step.value());
    let q = decay_exponent(previous, time);
    let (long, short) = (-(64real / 120real), -(16real / 120real));
    lemma_slack(long);
    if back.is_zero() {
        Binary32::lemma_value_order(q, q);
    } else {
        let x = back.value() / 120real;
        lemma_slack(x);
        single(120).lemma_bounded(x);
        single(120).lemma_bounded(long);
        single(120).lemma_bounded(short);
        Binary32::lemma_order(long, x);
        if step.value() >= 16real {
            Binary32::lemma_order(x, short);
        }
    }
}

/// The animation is over within 0.003 of the target, up to rounding, and then the zoom is
/// the target. Until then a step leaves of the distance what its decay says, up to
/// rounding.
pub proof fn easing_leaves_the_decayed_distance(zoom: Binary32, target: Binary32, decay: Binary32)
    requires
        in_range(zoom),
        in_range(target),
        decay.is_finite(),
        0real <= decay.value() <= 1real,
    ensures
        ({
            let (z, t, q) = (zoom.value(), target.value(), decay.value());
            let n = eased(zoom, target, decay).value();
            let left = t - n;
            let e = 1real / 100000real;
            &&& absolute(t - z) <= 299real / 100000real ==> settled(zoom, target)
            &&& absolute(t - z) >= 301real / 100000real ==> !settled(zoom, target)
            &&& settled(zoom, target) ==> n == t
            &&& !settled(zoom, target) ==> (t - z) * q - e <= left <= (t - z) * q + e
        }),
{
    Binary32::lemma_limits();
    lemma_in_range(zoom);
    lemma_in_range(target);
    Binary32::lemma_integer(3);
    Binary32::lemma_integer(1000);
    lemma_settled_distance();
    lemma_slack(3real / 1000real);
    let e = slack();
    let (z, t, q) = (zoom.value(), target.value(), decay.value());
    let d = target.difference(zoom);
    Binary32::lemma_difference(target, zoom);
    lemma_slack(t - z);
    Binary32::lemma_value_order(d, d);
    assert(d.size().value() == absolute(d.value()));
    let one = single(1);
    let s = one.difference(decay);
    Binary32::lemma_difference(one, decay);
    lemma_slack(1real - q);
    Binary32::lemma_times(d, s);
    let p = d.product(s);
    let (a, b, w) = (d.value(), s.value(), t - z);
    one.lemma_exact();
    one.lemma_bounded(1real);
    one.lemma_within(1real - q);
    let x = a * b;
    assert(x - w * (1real - q) <= 9real * e && w * (1real - q) - x <= 9real * e)
        by (nonlinear_arith)
        requires
            x == a * b,
            w - e <= a <= w + e,
            1real - q - e <= b <= 1real - q + e,
            0real <= b <= 1real,
            -7real <= w <= 7real,
            0real <= e <= 1real / 2real,
    ;
    assert(w * (1real - q) == w - w * q) by (nonlinear_arith);
    assert(-7real <= w * q <= 7real && (w >= 0real ==> 0real <= w * q <= w) && (w <= 0real ==> w
        <= w * q <= 0real)) by (nonlinear_arith)
        requires
            -7real <= w <= 7real,
            0real <= q <= 1real,
    ;
    lemma_slack(x);
    Binary32::lemma_sum(zoom, p);
    if !settled(zoom, target) {
        easing_stays_in_range(zoom, target, decay);
        lemma_rounded_sum(z + p.value());
    }
}

/// The rounding error of a number between zero and sixteen.
proof fn lemma_rounded_sum(x: real)
    requires
        0real <= x <= 16real,
    ensures
        x - 2real * slack() <= Binary32::rounded(x).value() <= x + 2real * slack(),
{
    lemma2_to64();
    lemma_error(x, 4);
    assert(power(-20) == 1real / 1048576real);
}

/// The exponent of the decay is minus the time since the previous frame over 120
/// milliseconds, up to rounding. The time counts up to 64 milliseconds, and as 16 where
/// there is no previous frame.
pub proof fn exponent_is_time_over_the_constant(previous: Option<u32>, time: u32, gone: nat)
    requires
        previous matches Some(before) ==> gone < 0x1_0000_0000 && (before + gone) % 0x1_0000_0000
            == time,
    ensures
        ({
            let ms = if previous is None {
                16real
            } else if gone > 64 {
                64real
            } else {
                gone as real
            };
            let x = decay_exponent(previous, time);
            &&& x.is_finite()
            &&& -(ms / 120real) - slack() <= x.value() <= -(ms / 120real) + slack()
        }),
{
    Binary32::lemma_limits();
    Binary32::lemma_integer(16);
    Binary32::lemma_integer(64);
    Binary32::lemma_integer(120);
    if let Some(before) = previous {
        assert(elapsed(before, time) == gone);
        Binary32::lemma_extent(gone);
        if gone < 0x100_0000 {
            Binary32::lemma_integer(gone);
        } else {
            Binary32::lemma_bounded_integer(64);
            Binary32::lemma_bounded_integer(gone);
            Binary32::lemma_order(64real, gone as real);
        }
    }
    let step = time_step(previous, time);
    let back = step.negated();
    time_step_is_capped(previous, time);
    Binary32::lemma_value_order(step, step);
    assert(back.value() == -step.value());
    back.lemma_quotient_rounded(single(120));
    lemma_slack(back.value() / 120real);
}

} // verus!
