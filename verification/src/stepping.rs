//! The animation by the clock: repeated steps of the zoom come to an end.
use crate::easing::{
    all_at_pace, at_pace, brisk, decay_exponent_is_capped, lemma_at_target, unhurried, zoom_after,
    zoom_settles,
};
use crate::number::binary::Binary32;
use crate::state::AppState;
use crate::zoom::{decay_exponent, lemma_slack, lemma_target_is_settled, settled};
use vstd::prelude::*;

verus! {

/// A term of the power series of the natural exponential of `-u`.
pub open spec fn term(u: real, n: nat) -> real
    decreases n,
{
    if n == 0 {
        1real
    } else {
        -(term(u, (n - 1) as nat) * u / (n as real))
    }
}

/// The sum of that power series up to a term. For `u` between zero and one the terms
/// alternate and shrink, so the sums that end on an even term are above the exponential,
/// and those that end on an odd one below it, however close.
pub open spec fn series(u: real, n: nat) -> real
    decreases n,
{
    if n == 0 {
        1real
    } else {
        series(u, (n - 1) as nat) + term(u, n)
    }
}

/// How far a computed exponential may be from the exact one. Four digits are right; a
/// mathematics library gets more than six.
pub open spec fn tolerance() -> real {
    1real / 50000real
}

/// A decay is the natural exponential of an exponent between minus one and zero, but for
/// the tolerance: no sum of the power series is further away on the wrong side.
pub open spec fn decays_by(exponent: Binary32, decay: Binary32) -> bool {
    &&& decay.is_finite()
    &&& forall|n: nat|
        if n % 2 == 0 {
            decay.value() <= #[trigger] series(-exponent.value(), n) + tolerance()
        } else {
            decay.value() >= series(-exponent.value(), n) - tolerance()
        }
}

/// The first sums of the power series, in powers of `u`.
proof fn lemma_series(u: real, a: real, b: real, c: real)
    requires
        a == u * u,
        b == a * u,
        c == b * u,
    ensures
        series(u, 2) == 1real - u + a / 2real,
        series(u, 3) == 1real - u + a / 2real - b / 6real,
        series(u, 4) == 1real - u + a / 2real - b / 6real + c / 24real,
{
    reveal_with_fuel(series, 5);
    let (t0, t1, t2, t3, t4) = (term(u, 0), term(u, 1), term(u, 2), term(u, 3), term(u, 4));
    assert(t1 == -(t0 * u / 1real));
    assert(t2 == -(t1 * u / 2real));
    assert(t3 == -(t2 * u / 3real));
    assert(t4 == -(t3 * u / 4real));
    assert(t0 * u == u) by (nonlinear_arith)
        requires
            t0 == 1real,
    ;
    assert(t1 * u == -a) by (nonlinear_arith)
        requires
            t1 == -u,
            a == u * u,
    ;
    assert(2real * (t2 * u) == b) by (nonlinear_arith)
        requires
            2real * t2 == a,
            b == a * u,
    ;
    assert(6real * (t3 * u) == -c) by (nonlinear_arith)
        requires
            6real * t3 == -b,
            c == b * u,
    ;
}

/// Over 16 milliseconds or more, a sum above the exponential has come down far enough.
proof fn lemma_series_falls(u: real)
    requires
        133332real / 1000000real <= u <= 54real / 100real,
    ensures
        series(u, 2) <= 87518real / 100000real || series(u, 4) <= 87518real / 100000real,
{
    let a = u * u;
    let b = a * u;
    let c = b * u;
    lemma_series(u, a, b, c);
    if u >= 14real / 100real {
        lemma_falls_from(u, a, 14real / 100real);
    } else {
        lemma_falls_from(u, a, 133332real / 1000000real);
        assert(a >= 17777real / 1000000real) by (nonlinear_arith)
            requires
                a == u * u,
                u >= 133332real / 1000000real,
        ;
        assert(b >= (17777real / 1000000real) * (133332real / 1000000real)) by (nonlinear_arith)
            requires
                b == a * u,
                a >= 17777real / 1000000real,
                u >= 133332real / 1000000real,
        ;
        assert(c <= b * (14real / 100real)) by (nonlinear_arith)
            requires
                c == b * u,
                b >= 0real,
                u <= 14real / 100real,
        ;
    }
}

/// The sum up to the second term falls.
proof fn lemma_falls_from(u: real, a: real, v: real)
    requires
        0real <= v <= u <= 1real,
        a == u * u,
    ensures
        1real - u + a / 2real <= 1real - v + v * v / 2real,
{
    let (h, p) = (u - v, u + v);
    assert(a - v * v == h * p) by (nonlinear_arith)
        requires
            a == u * u,
            h == u - v,
            p == u + v,
    ;
    assert(h * p <= h * 2real) by (nonlinear_arith)
        requires
            h >= 0real,
            p <= 2real,
    ;
}

/// Over the longest step, a sum below the exponential is still above one half.
proof fn lemma_series_stays(u: real)
    requires
        0real <= u <= 534real / 1000real,
    ensures
        series(u, 3) >= 51real / 100real,
{
    let a = u * u;
    let b = a * u;
    lemma_series(u, a, b, b * u);
    assert(a >= 0real) by (nonlinear_arith)
        requires
            a == u * u,
    ;
    assert(b <= a) by (nonlinear_arith)
        requires
            b == a * u,
            a >= 0real,
            u <= 1real,
    ;
    if u >= 4real / 10real {
        assert(a >= 16real / 100real) by (nonlinear_arith)
            requires
                a == u * u,
                u >= 4real / 10real,
        ;
    }
}

/// The decay over an unhurried step takes a good part of the distance, but not more than
/// half.
pub proof fn unhurried_decay_is_brisk(previous: Option<u32>, time: u32, decay: Binary32)
    requires
        unhurried(previous, time),
        decays_by(decay_exponent(previous, time), decay),
    ensures
        at_pace(decay, brisk()),
{
    decay_exponent_is_capped(previous, time);
    lemma_slack(-(64real / 120real));
    lemma_slack(-(16real / 120real));
    let u = -decay_exponent(previous, time).value();
    lemma_series_falls(u);
    lemma_series_stays(u);
    assert(decay.value() <= series(u, 2) + tolerance());
    assert(decay.value() <= series(u, 4) + tolerance());
    assert(decay.value() >= series(u, 3) - tolerance());
}

impl AppState {
    /// The state after steps of the animation, each at some time and with some decay.
    pub open spec fn after_steps(self, steps: Seq<(u32, Binary32)>) -> Self
        decreases steps.len(),
    {
        if steps.len() == 0 {
            self
        } else {
            let (time, decay) = steps.last();
            self.after_steps(steps.drop_last()).stepped(time, decay)
        }
    }

    /// Every step comes 16 milliseconds or more after the one before, and has the decay
    /// that belongs to its time.
    pub open spec fn steady(self, steps: Seq<(u32, Binary32)>) -> bool
        decreases steps.len(),
    {
        if steps.len() == 0 {
            true
        } else {
            let (time, decay) = steps.last();
            let previous = self.after_steps(steps.drop_last()).render.last_frame_time;
            &&& self.steady(steps.drop_last())
            &&& unhurried(previous, time)
            &&& decays_by(decay_exponent(previous, time), decay)
        }
    }

    /// Whether step number `k` finds the zoom so close to its target that the animation
    /// is over.
    pub open spec fn over_at(self, steps: Seq<(u32, Binary32)>, k: int) -> bool {
        settled(self.after_steps(steps.take(k)).zoom, self.zoom_target)
    }

    /// From step number `k` on, every step finds the animation over and leaves the zoom
    /// at its target.
    pub open spec fn over_from(self, steps: Seq<(u32, Binary32)>, k: int) -> bool {
        forall|j: int|
            k <= j < steps.len() ==> #[trigger] self.over_at(steps, j) && self.after_steps(
                steps.take(j + 1),
            ).zoom == self.zoom_target
    }
}

/// Steps leave the target alone.
proof fn lemma_target_stays(state: AppState, steps: Seq<(u32, Binary32)>)
    ensures
        state.after_steps(steps).zoom_target == state.zoom_target,
    decreases steps.len(),
{
    if steps.len() > 0 {
        lemma_target_stays(state, steps.drop_last());
    }
}

/// Once a step finds the animation over, it is over for good.
pub proof fn animation_stays_over(state: AppState, steps: Seq<(u32, Binary32)>, k: int)
    requires
        0 <= k < steps.len(),
        state.over_at(steps, k),
    ensures
        state.over_from(steps, k),
{
    assert forall|j: int| k <= j < steps.len() implies #[trigger] state.over_at(steps, j)
        && state.after_steps(steps.take(j + 1)).zoom == state.zoom_target by {
        lemma_stays_over(state, steps, k, j);
    }
}

proof fn lemma_stays_over(state: AppState, steps: Seq<(u32, Binary32)>, k: int, j: int)
    requires
        0 <= k <= j < steps.len(),
        state.over_at(steps, k),
    ensures
        state.over_at(steps, j),
        state.after_steps(steps.take(j + 1)).zoom == state.zoom_target,
    decreases j,
{
    if k < j {
        lemma_stays_over(state, steps, k, j - 1);
        let before = state.after_steps(steps.take(j - 1));
        lemma_target_is_settled(before.zoom, state.zoom_target);
    }
    let next = steps.take(j + 1);
    assert(next.drop_last() =~= steps.take(j));
    lemma_target_stays(state, steps.take(j));
}

/// The decays of steps.
spec fn decays_of(steps: Seq<(u32, Binary32)>) -> Seq<Binary32> {
    Seq::new(steps.len(), |i: int| steps[i].1)
}

/// The zoom of steps is that of their decays, which are brisk if the steps are steady.
proof fn lemma_steps(state: AppState, steps: Seq<(u32, Binary32)>)
    ensures
        state.after_steps(steps).zoom == zoom_after(
            state.zoom,
            state.zoom_target,
            decays_of(steps),
        ),
        state.steady(steps) ==> all_at_pace(decays_of(steps), brisk()),
    decreases steps.len(),
{
    if steps.len() > 0 {
        let before = steps.drop_last();
        let (time, decay) = steps.last();
        lemma_steps(state, before);
        lemma_target_stays(state, before);
        let (earlier, now) = (decays_of(before), decays_of(steps));
        assert(now.drop_last() =~= earlier);
        if state.steady(steps) {
            let previous = state.after_steps(before).render.last_frame_time;
            unhurried_decay_is_brisk(previous, time, decay);
            assert forall|i: int| 0 <= i < now.len() implies at_pace(
                #[trigger] now[i],
                brisk(),
            ) by {
                if i < earlier.len() {
                    assert(now[i] == earlier[i]);
                }
            }
        }
    }
}

/// The beginning of steady steps is steady.
proof fn lemma_steady(state: AppState, steps: Seq<(u32, Binary32)>, n: int)
    requires
        state.steady(steps),
        0 <= n <= steps.len(),
    ensures
        state.steady(steps.take(n)),
    decreases steps.len(),
{
    if n == steps.len() {
        assert(steps.take(n) =~= steps);
    } else {
        lemma_steady(state, steps.drop_last(), n);
        assert(steps.drop_last().take(n) =~= steps.take(n));
    }
}

/// The animation ends: of 70 steps that come 16 milliseconds or more one after another,
/// one finds it over, and so does every later one.
pub proof fn animation_ends_within_seventy_steps(state: AppState, steps: Seq<(u32, Binary32)>)
    requires
        state.zoom_in_range(),
        state.steady(steps),
        steps.len() >= 70,
    ensures
        exists|k: int|
            0 <= k < 70 && #[trigger] state.over_at(steps, k) && state.over_from(steps, k),
{
    let first = steps.take(69);
    lemma_steady(state, steps, 69);
    lemma_steps(state, first);
    zoom_settles(state.zoom, state.zoom_target, decays_of(first), brisk());
    lemma_at_target(state.zoom_target);
    assert(state.over_at(steps, 69));
    animation_stays_over(state, steps, 69);
}

} // verus!
