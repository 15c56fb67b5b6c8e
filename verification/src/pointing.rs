//! What pointer events do: the cursor follows the pointer, the wheel turns the zoom, and
//! either is put on display.
use crate::input::{
    after_events, factors_are_numbers, pointer_keeps_target_in_range, PointerEffect, PointerEvent,
    PointerKind,
};
use crate::number::binary::{absolute, Binary32};
use crate::state::{AppState, Present};
use crate::wheel::{notches_count_the_turn, turning_scales_the_target};
use crate::zoom::{in_range, notches, slack, wheel_sets_the_exponent};
use vstd::prelude::*;

verus! {

/// An event that puts the pointer somewhere on the overlay.
pub open spec fn points(event: PointerEvent) -> bool {
    event.on_overlay && (event.kind is Enter || event.kind is Motion)
}

/// What has changed is on display, or will be: presented at once where a frame is on
/// display and none is pending, else noted for when the pending one was shown.
pub open spec fn put_on_display(
    before: AppState,
    after: AppState,
    view: Option<Present>,
) -> bool {
    if before.frame is Some && !before.render.frame_pending {
        &&& view is Some
        &&& after.render.frame_pending && !after.render.dirty
        &&& after.has_finite_cursor() ==> after.shows(view.unwrap())
    } else {
        &&& view is None
        &&& after.render.dirty
        &&& after.render.frame_pending == before.render.frame_pending
    }
}

/// The effect of a beginning of the events is not lost by those that follow.
proof fn lemma_follows(effect: PointerEffect, events: Seq<PointerEvent>, closing: bool, k: int)
    requires
        0 <= k < events.len(),
        points(events[k]),
        forall|i: int| k < i < events.len() ==> !points(#[trigger] events[i]),
    ensures
        after_events(effect, events, closing).cursor == Some(events[k].position),
        after_events(effect, events, closing).changed,
    decreases events.len(),
{
    let before = events.drop_last();
    if k < before.len() {
        assert forall|i: int| k < i < before.len() implies !points(#[trigger] before[i]) by {
            assert(before[i] == events[i]);
        }
        lemma_follows(effect, before, closing, k);
        assert(!points(events[events.len() - 1]));
    }
}

/// Without an event that points somewhere the cursor stays; without such an event and
/// without the wheel nothing changes.
proof fn lemma_stays(effect: PointerEffect, events: Seq<PointerEvent>, closing: bool)
    ensures
        ({
            let now = after_events(effect, events, closing);
            &&& effect.cursor is Some ==> now.cursor is Some
            &&& effect.changed ==> now.changed
            &&& !now.changed ==> now == effect
            &&& (forall|i: int| 0 <= i < events.len() ==> !points(#[trigger] events[i]))
                ==> now.cursor == effect.cursor
            &&& (forall|i: int|
                0 <= i < events.len() ==> !(#[trigger] events[i]).on_overlay
                    || events[i].kind is Other) ==> now == effect
        }),
    decreases events.len(),
{
    if events.len() > 0 {
        let before = events.drop_last();
        assert(forall|i: int| 0 <= i < before.len() ==> before[i] == events[i]);
        lemma_stays(effect, before, closing);
        let last = events[events.len() - 1];
        if forall|i: int| 0 <= i < events.len() ==> !points(#[trigger] events[i]) {
            assert forall|i: int| 0 <= i < before.len() implies !points(#[trigger] before[i]) by {
                assert(!points(events[i]));
            }
            assert(!points(last));
        }
        if forall|i: int|
            0 <= i < events.len() ==> !(#[trigger] events[i]).on_overlay
                || events[i].kind is Other {
            assert(!last.on_overlay || last.kind is Other);
        }
    }
}

/// What has changed is put on display.
proof fn lemma_shown(state: AppState)
    requires
        state.consistent(),
    ensures
        put_on_display(state, state.redraw_requested(), state.redraw_view()),
{
    if state.view_now() is Some && state.has_finite_cursor() {
        state.view_is_true();
    }
}

/// The cursor is where the pointer was last seen on the overlay, entering or moving, and
/// that is put on display.
pub proof fn cursor_follows_the_pointer(state: AppState, events: Seq<PointerEvent>, k: int)
    requires
        state.consistent(),
        0 <= k < events.len(),
        events[k].on_overlay,
        events[k].kind is Enter || events[k].kind is Motion,
        forall|i: int|
            k < i < events.len() ==> !(#[trigger] events[i]).on_overlay || !(events[i].kind is Enter
                || events[i].kind is Motion),
    ensures
        state.after_pointer(events).wayland.cursor == Some(events[k].position),
        put_on_display(state, state.after_pointer(events), state.pointer_view(events)),
{
    let effect = PointerEffect {
        cursor: state.wayland.cursor,
        target: state.zoom_target,
        changed: false,
    };
    assert forall|i: int| k < i < events.len() implies !points(#[trigger] events[i]) by {
        assert(!events[i].on_overlay || !(events[i].kind is Enter || events[i].kind is Motion));
    }
    lemma_follows(effect, events, state.closing, k);
    lemma_shown(state.pointed(state.pointer_effect(events)));
}

/// As long as no event puts the pointer somewhere on the overlay, the cursor stays where
/// it is.
pub proof fn cursor_follows_nothing_else(state: AppState, events: Seq<PointerEvent>)
    requires
        forall|i: int|
            0 <= i < events.len() ==> !(#[trigger] events[i]).on_overlay || !(events[i].kind
                is Enter || events[i].kind is Motion),
    ensures
        state.after_pointer(events).wayland.cursor == state.wayland.cursor,
{
    let effect = PointerEffect {
        cursor: state.wayland.cursor,
        target: state.zoom_target,
        changed: false,
    };
    assert forall|i: int| 0 <= i < events.len() implies !points(#[trigger] events[i]) by {
        assert(!events[i].on_overlay || !(events[i].kind is Enter || events[i].kind is Motion));
    }
    lemma_stays(effect, events, state.closing);
}

/// Pointer events change nothing but the cursor, the target and, for these, the pacing
/// of frames. Those that happen elsewhere, and those of other kinds, change nothing.
pub proof fn pointer_leaves_the_rest_alone(state: AppState, events: Seq<PointerEvent>)
    ensures
        ({
            let now = state.after_pointer(events);
            &&& now.wayland.size == state.wayland.size
            &&& now.wayland.keyboard == state.wayland.keyboard
            &&& now.wayland.pointer == state.wayland.pointer
            &&& now.capture == state.capture
            &&& now.border == state.border && now.exit == state.exit
            &&& now.closing == state.closing && now.zoom == state.zoom
            &&& now.frame == state.frame
            &&& (forall|i: int|
                0 <= i < events.len() ==> !(#[trigger] events[i]).on_overlay
                    || events[i].kind is Other) ==> now == state && state.pointer_view(events)
                is None
        }),
{
    let effect = PointerEffect {
        cursor: state.wayland.cursor,
        target: state.zoom_target,
        changed: false,
    };
    lemma_stays(effect, events, state.closing);
}

/// The last event is a turn of the wheel on the overlay: it scales the target that the
/// events before it have set by its factor, between one and eight, and that is put on
/// display.
pub proof fn wheel_turns_the_target(state: AppState, events: Seq<PointerEvent>)
    requires
        state.consistent(),
        in_range(state.zoom_target),
        !state.closing,
        factors_are_numbers(events),
        events.len() > 0,
        events.last().on_overlay,
        events.last().kind matches PointerKind::Axis { discrete, absolute: distance, factor }
            && factor.value() >= 0real && (discrete != 0 || (distance.is_finite() && 1real
            / 1000real <= absolute(distance.value()) <= 0x1_0000_0000 as real)),
    ensures
        ({
            let factor = events.last().kind->factor;
            let x = state.after_pointer(events.drop_last()).zoom_target.value() * factor.value();
            let v = state.after_pointer(events).zoom_target.value();
            &&& x <= 1real ==> v == 1real
            &&& x >= 8real ==> v == 8real
            &&& 1real <= x <= 8real ==> x - slack() <= v <= x + slack()
        }),
        put_on_display(state, state.after_pointer(events), state.pointer_view(events)),
{
    let effect = PointerEffect {
        cursor: state.wayland.cursor,
        target: state.zoom_target,
        changed: false,
    };
    let before = events.drop_last();
    assert(forall|i: int| 0 <= i < before.len() ==> before[i] == events[i]);
    pointer_keeps_target_in_range(effect, before, state.closing);
    let last = events[events.len() - 1];
    if let PointerKind::Axis { discrete, absolute: distance, factor } = last.kind {
        notches_count_the_turn(discrete, distance);
        let n = notches(discrete, distance);
        Binary32::lemma_limits();
        Binary32::lemma_value_order(n, n);
        turning_scales_the_target(after_events(effect, before, state.closing).target, factor);
    }
    lemma_stays(effect, events, state.closing);
    lemma_shown(state.pointed(state.pointer_effect(events)));
}

/// The last event is no turn of the wheel, or one that happens elsewhere, goes nowhere or
/// comes while the overlay zooms out to close: it leaves the target alone.
pub proof fn nothing_else_turns_the_target(state: AppState, events: Seq<PointerEvent>)
    requires
        events.len() > 0,
        !events.last().on_overlay || state.closing || (events.last().kind
            matches PointerKind::Axis { discrete, absolute: distance, .. } ==> discrete == 0
            && distance.is_zero()),
    ensures
        state.after_pointer(events).zoom_target == state.after_pointer(
            events.drop_last(),
        ).zoom_target,
{
    if let PointerKind::Axis { discrete, absolute: distance, .. } = events.last().kind {
        wheel_sets_the_exponent(discrete, distance);
    }
}

} // verus!
