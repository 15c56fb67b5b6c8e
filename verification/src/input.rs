//! Input: devices, keys and the pointer.
use crate::number::binary::{Binary32, Binary64};
use crate::state::{AppState, Present, WaylandState};
use crate::zoom::{
    in_range, is_power, notches, turned_target, wheel_keeps_target_in_range, wheel_notches,
    wheel_sets_the_exponent, wheel_target,
};
use vstd::prelude::*;

verus! {

/// An input device.
#[derive(Clone, Copy, Debug, PartialEq, Eq, Structural)]
pub enum Capability {
    Keyboard,
    Pointer,
    Touch,
}

/// What a pointer did.
#[derive(Clone, Copy, Debug)]
pub enum PointerKind {
    Enter,
    Motion,
    /// The wheel turned, changing the zoom by `factor`: the zoom step to the power of
    /// minus the notches.
    Axis { discrete: i32, absolute: Binary64, factor: Binary32 },
    Other,
}

/// An event of a pointer.
#[derive(Clone, Copy, Debug)]
pub struct PointerEvent {
    /// The event happened on the overlay.
    pub on_overlay: bool,
    /// Where the pointer is, in logical coordinates.
    pub position: (Binary64, Binary64),
    pub kind: PointerKind,
}

/// The key symbol of Escape.
pub const ESCAPE: u32 = 0xff1b;

/// What pointer events change: the cursor, the zoom target, and whether there was any
/// change.
pub struct PointerEffect {
    pub cursor: Option<(Binary64, Binary64)>,
    pub target: Binary32,
    pub changed: bool,
}

/// The effect of one more event. Events elsewhere than on the overlay have none; the
/// wheel has none while the overlay zooms out to close.
pub open spec fn after_event(
    effect: PointerEffect,
    event: PointerEvent,
    closing: bool,
) -> PointerEffect {
    if !event.on_overlay {
        effect
    } else {
        match event.kind {
            PointerKind::Enter => PointerEffect {
                cursor: Some(event.position),
                changed: true,
                ..effect
            },
            PointerKind::Motion => PointerEffect {
                cursor: Some(event.position),
                changed: true,
                ..effect
            },
            PointerKind::Axis { discrete, absolute, factor } => if closing || notches(
                discrete,
                absolute,
            ).is_zero() {
                effect
            } else {
                PointerEffect {
                    target: wheel_target(effect.target, factor),
                    changed: true,
                    ..effect
                }
            },
            PointerKind::Other => effect,
        }
    }
}

/// The effect of a sequence of events, in their order.
pub open spec fn after_events(
    effect: PointerEffect,
    events: Seq<PointerEvent>,
    closing: bool,
) -> PointerEffect
    decreases events.len(),
{
    if events.len() == 0 {
        effect
    } else {
        after_event(after_events(effect, events.drop_last(), closing), events.last(), closing)
    }
}

impl AppState {
    /// A key was pressed: Escape asks the overlay to go away.
    pub fn press_key(&mut self, keysym: u32) -> (r: Option<Present>)
        ensures
            keysym == ESCAPE ==> r == old(self).redraw_view(),
            keysym == ESCAPE ==> *final(self) == old(self).exit_requested(),
            keysym != ESCAPE ==> r is None && *final(self) == *old(self),
            old(self).well_formed() ==> final(self).well_formed(),
    {
        if keysym == ESCAPE {
            self.request_exit()
        } else {
            None
        }
    }

    /// Whether a device of some kind is bound.
    pub open spec fn is_bound(self, capability: Capability) -> bool {
        match capability {
            Capability::Keyboard => self.wayland.keyboard,
            Capability::Pointer => self.wayland.pointer,
            Capability::Touch => false,
        }
    }

    /// The state with a device of some kind bound, or not.
    pub open spec fn with_device(self, capability: Capability, bound: bool) -> Self {
        match capability {
            Capability::Keyboard => AppState {
                wayland: WaylandState { keyboard: bound, ..self.wayland },
                ..self
            },
            Capability::Pointer => AppState {
                wayland: WaylandState { pointer: bound, ..self.wayland },
                ..self
            },
            Capability::Touch => self,
        }
    }

    /// A device appeared. Returns whether to bind it: the first keyboard and the first
    /// pointer only.
    pub fn new_capability(&self, capability: Capability) -> (r: bool)
        ensures
            r == (!(capability is Touch) && !self.is_bound(capability)),
    {
        match capability {
            Capability::Keyboard => !self.wayland.keyboard,
            Capability::Pointer => !self.wayland.pointer,
            Capability::Touch => false,
        }
    }

    /// Binding a device succeeded, or failed.
    pub fn capability_bound(&mut self, capability: Capability, bound: bool)
        ensures
            *final(self) == old(self).with_device(capability, bound),
            old(self).well_formed() ==> final(self).well_formed(),
    {
        match capability {
            Capability::Keyboard => {
                self.wayland.keyboard = bound;
            },
            Capability::Pointer => {
                self.wayland.pointer = bound;
            },
            Capability::Touch => {},
        }
    }

    /// A device disappeared. Returns whether one was bound and is to be released.
    pub fn remove_capability(&mut self, capability: Capability) -> (r: bool)
        ensures
            r == old(self).is_bound(capability),
            *final(self) == old(self).with_device(capability, false),
            old(self).well_formed() ==> final(self).well_formed(),
    {
        match capability {
            Capability::Keyboard => {
                let bound: bool = self.wayland.keyboard;
                self.wayland.keyboard = false;
                bound
            },
            Capability::Pointer => {
                let bound: bool = self.wayland.pointer;
                self.wayland.pointer = false;
                bound
            },
            Capability::Touch => false,
        }
    }

    /// What a sequence of pointer events changes.
    pub open spec fn pointer_effect(self, events: Seq<PointerEvent>) -> PointerEffect {
        after_events(
            PointerEffect {
                cursor: self.wayland.cursor,
                target: self.zoom_target,
                changed: false,
            },
            events,
            self.closing,
        )
    }

    /// The state with a cursor and a zoom target.
    pub open spec fn pointed(self, effect: PointerEffect) -> Self {
        AppState {
            wayland: WaylandState { cursor: effect.cursor, ..self.wayland },
            zoom_target: effect.target,
            ..self
        }
    }

    /// The state after the events of one pointer frame.
    pub open spec fn after_pointer(self, events: Seq<PointerEvent>) -> Self {
        let effect = self.pointer_effect(events);
        if effect.changed {
            self.pointed(effect).redraw_requested()
        } else {
            self.pointed(effect)
        }
    }

    /// What to present after the events of one pointer frame.
    pub open spec fn pointer_view(self, events: Seq<PointerEvent>) -> Option<Present> {
        let effect = self.pointer_effect(events);
        if effect.changed {
            self.pointed(effect).redraw_view()
        } else {
            None
        }
    }

    /// Handles the events of one pointer frame: the pointer pans, the wheel zooms.
    /// Returns the frame to present, where one is due at once.
    pub fn pointer_frame(&mut self, events: &Vec<PointerEvent>) -> (r: Option<Present>)
        ensures
            r == old(self).pointer_view(events@),
            *final(self) == old(self).after_pointer(events@),
            final(self).has_finite_cursor() ==> (r matches Some(present) ==> final(self).shows(
                present,
            )),
            old(self).well_formed() ==> final(self).well_formed(),
    {
        let mut changed: bool = false;
        let n: usize = events.len();
        let mut i: usize = 0;
        proof {
            assert(events@.take(0) =~= Seq::<PointerEvent>::empty());
        }
        while i < n
            invariant
                i <= n,
                n == events@.len(),
                *self == old(self).pointed(old(self).pointer_effect(events@.take(i as int))),
                changed == old(self).pointer_effect(events@.take(i as int)).changed,
                old(self).consistent() ==> self.consistent(),
                !changed ==> *self == *old(self),
            decreases n - i,
        {
            let event: PointerEvent = events[i];
            proof {
                let next = events@.take(i as int + 1);
                assert(next.drop_last() =~= events@.take(i as int));
                assert(next.last() == event);
            }
            if event.on_overlay {
                match event.kind {
                    PointerKind::Enter | PointerKind::Motion => {
                        self.wayland.cursor = Some(event.position);
                        changed = true;
                    },
                    PointerKind::Axis { discrete, absolute, factor } => {
                        // Wheel up is negative; up zooms in.
                        let turned: Binary32 = wheel_notches(discrete, absolute);
                        if !self.closing && turned.magnitude != 0 {
                            self.zoom_target = turned_target(self.zoom_target, factor);
                            changed = true;
                        }
                    },
                    PointerKind::Other => {},
                }
            }
            i = i + 1;
        }
        proof {
            assert(events@.take(n as int) =~= events@);
        }
        if changed {
            self.request_redraw()
        } else {
            None
        }
    }
}

/// Every wheel factor among the events is a number.
pub open spec fn factors_are_numbers(events: Seq<PointerEvent>) -> bool {
    forall|i: int|
        0 <= i < events.len() ==> (#[trigger] events[i].kind matches PointerKind::Axis {
            factor,
            ..
        } ==> !factor.is_nan())
}

/// Every wheel event has a scroll distance that is a number, and the power of the zoom
/// step that belongs to it.
pub open spec fn genuine(events: Seq<PointerEvent>) -> bool {
    forall|i: int|
        0 <= i < events.len() ==> (#[trigger] events[i].kind matches PointerKind::Axis {
            discrete,
            absolute,
            factor,
        } ==> !absolute.is_nan() && is_power(notches(discrete, absolute).negated(), factor))
}

/// The factors of genuine events are numbers.
pub proof fn genuine_factors_are_numbers(events: Seq<PointerEvent>)
    requires
        genuine(events),
    ensures
        factors_are_numbers(events),
{
    assert forall|i: int| 0 <= i < events.len() implies (
    #[trigger] events[i].kind matches PointerKind::Axis { factor, .. } ==> !factor.is_nan()) by {
        if let PointerKind::Axis { discrete, absolute, factor } = events[i].kind {
            wheel_sets_the_exponent(discrete, absolute);
        }
    }
}

/// The wheel moves only the target, and keeps it in its range; the zoom on display is
/// left to the animation.
pub proof fn wheel_moves_only_the_target(state: AppState, events: Seq<PointerEvent>)
    requires
        state.zoom_in_range(),
        genuine(events),
    ensures
        state.after_pointer(events).zoom == state.zoom,
        state.after_pointer(events).zoom_in_range(),
{
    genuine_factors_are_numbers(events);
    let effect = PointerEffect {
        cursor: state.wayland.cursor,
        target: state.zoom_target,
        changed: false,
    };
    pointer_keeps_target_in_range(effect, events, state.closing);
}

/// No sequence of pointer events takes the zoom target out of its range.
pub proof fn pointer_keeps_target_in_range(
    effect: PointerEffect,
    events: Seq<PointerEvent>,
    closing: bool,
)
    requires
        in_range(effect.target),
        factors_are_numbers(events),
    ensures
        in_range(after_events(effect, events, closing).target),
    decreases events.len(),
{
    if events.len() > 0 {
        let before = events.drop_last();
        assert(factors_are_numbers(before)) by {
            assert(forall|i: int| 0 <= i < before.len() ==> before[i] == events[i]);
        }
        pointer_keeps_target_in_range(effect, before, closing);
        let so_far = after_events(effect, before, closing);
        let last = events[events.len() - 1];
        if let PointerKind::Axis { discrete, absolute, factor } = last.kind {
            wheel_keeps_target_in_range(so_far.target, factor);
        }
    }
}

/// While the overlay zooms out to close, the wheel does not change the target.
pub proof fn pointer_keeps_target_while_closing(effect: PointerEffect, events: Seq<PointerEvent>)
    ensures
        after_events(effect, events, true).target == effect.target,
    decreases events.len(),
{
    if events.len() > 0 {
        pointer_keeps_target_while_closing(effect, events.drop_last());
    }
}

/// Moving the pointer pans: it leaves the zoom target alone.
pub proof fn moving_only_pans(effect: PointerEffect, events: Seq<PointerEvent>, closing: bool)
    requires
        forall|i: int| 0 <= i < events.len() ==> !((#[trigger] events[i]).kind is Axis),
    ensures
        after_events(effect, events, closing).target == effect.target,
    decreases events.len(),
{
    if events.len() > 0 {
        let before = events.drop_last();
        assert(forall|i: int| 0 <= i < before.len() ==> before[i] == events[i]);
        moving_only_pans(effect, before, closing);
        assert(!(events[events.len() - 1].kind is Axis));
    }
}

/// Turning the wheel zooms: it leaves the cursor alone.
pub proof fn turning_only_zooms(effect: PointerEffect, events: Seq<PointerEvent>, closing: bool)
    requires
        forall|i: int| 0 <= i < events.len() ==> (#[trigger] events[i]).kind is Axis,
    ensures
        after_events(effect, events, closing).cursor == effect.cursor,
    decreases events.len(),
{
    if events.len() > 0 {
        let before = events.drop_last();
        assert(forall|i: int| 0 <= i < before.len() ==> before[i] == events[i]);
        turning_only_zooms(effect, before, closing);
        assert(events[events.len() - 1].kind is Axis);
    }
}

/// Events that do not happen on the overlay change nothing.
pub proof fn events_elsewhere_are_ignored(
    effect: PointerEffect,
    events: Seq<PointerEvent>,
    closing: bool,
)
    requires
        forall|i: int| 0 <= i < events.len() ==> !(#[trigger] events[i]).on_overlay,
    ensures
        after_events(effect, events, closing) == effect,
    decreases events.len(),
{
    if events.len() > 0 {
        let before = events.drop_last();
        assert(forall|i: int| 0 <= i < before.len() ==> before[i] == events[i]);
        events_elsewhere_are_ignored(effect, before, closing);
        assert(!events[events.len() - 1].on_overlay);
    }
}

} // verus!
