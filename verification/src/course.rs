//! What holds along every course of events, from the start of the overlay to its end.
use crate::crop::{crop_length_is_within_source, crop_stays_inside_source, placed};
use crate::easing::{
    all_at_pace, at_pace, frames_to_settle, lemma_at_target, zoom_after, zoom_settles,
};
use crate::image::SourceImage;
use crate::input::{
    after_events, factors_are_numbers, pointer_keeps_target_in_range,
    pointer_keeps_target_while_closing, Capability, ESCAPE, PointerEffect, PointerEvent,
};
use crate::number::binary::{single, Binary32};
use crate::screencopy::FrameEvent;
use crate::state::{AppState, Arrival};
use crate::zoom::{easing_stays_in_range, in_range, lemma_target_is_settled, settled};
use vstd::prelude::*;

verus! {

/// Something that happens to the overlay.
pub enum Happening {
    /// The compositor gives the overlay a size.
    Configure(u32, u32),
    /// The overlay lands on an output, which another instance may already show.
    Enter(bool),
    /// The capture goes on.
    Capture(FrameEvent),
    /// A buffer for the capture was allocated.
    Allocated,
    /// Something that the capture needs could not be had.
    CaptureFailed,
    /// The captured pixels were read.
    Captured(SourceImage),
    /// A device was bound, or released.
    Device(Capability, bool),
    /// A key was pressed.
    Key(u32),
    /// The pointer moved or its wheel turned.
    Pointer(Vec<PointerEvent>),
    /// A frame was shown at some time, after some decay.
    Frame(u32, Binary32),
    /// Another instance asks this one to go away.
    ExitRequest,
    /// The compositor took the overlay away.
    Closed,
}

/// A happening with valid values: pixels for all of an image, a decay between zero and
/// one, wheel factors that are numbers.
pub open spec fn valid(happening: Happening) -> bool {
    match happening {
        Happening::Captured(image) => image.well_formed(),
        Happening::Pointer(events) => factors_are_numbers(events@),
        Happening::Frame(_, decay) => decay.is_finite() && 0real <= decay.value() <= 1real,
        _ => true,
    }
}

impl AppState {
    /// The state after one happening.
    pub open spec fn next(self, happening: Happening) -> Self {
        match happening {
            Happening::Configure(w, h) => self.configured(w, h),
            Happening::Enter(occupied) => self.entered(occupied),
            Happening::Capture(event) => self.after_capture_event(event),
            Happening::Allocated => self.with_buffer(),
            Happening::CaptureFailed => self.leaving(),
            Happening::Captured(image) => self.holding(image).magnifying(),
            Happening::Device(capability, bound) => self.with_device(capability, bound),
            Happening::Key(keysym) => if keysym == ESCAPE {
                self.exit_requested()
            } else {
                self
            },
            Happening::Pointer(events) => self.after_pointer(events@),
            Happening::Frame(time, decay) => self.after_frame(time, decay),
            Happening::ExitRequest => self.exit_requested(),
            Happening::Closed => self.leaving(),
        }
    }

    /// The state after a course of happenings.
    pub open spec fn after(self, course: Seq<Happening>) -> Self
        decreases course.len(),
    {
        if course.len() == 0 {
            self
        } else {
            self.after(course.drop_last()).next(course.last())
        }
    }

    /// How often a course of happenings has the output captured.
    pub open spec fn captures(self, course: Seq<Happening>) -> nat
        decreases course.len(),
    {
        if course.len() == 0 {
            0
        } else {
            let before = course.drop_last();
            self.captures(before) + match course.last() {
                Happening::Enter(occupied) if self.after(before).arrival(occupied) is Capture => 1,
                _ => 0nat,
            }
        }
    }
}

/// All happenings of a course are valid.
pub open spec fn all_valid(course: Seq<Happening>) -> bool {
    forall|i: int| 0 <= i < course.len() ==> valid(#[trigger] course[i])
}

proof fn lemma_shorter(course: Seq<Happening>)
    requires
        course.len() > 0,
        all_valid(course),
    ensures
        all_valid(course.drop_last()),
        valid(course.last()),
{
    let before = course.drop_last();
    assert forall|i: int| 0 <= i < before.len() implies valid(#[trigger] before[i]) by {
        assert(before[i] == course[i]);
    }
    assert(valid(course[course.len() - 1]));
}

/// A redraw leaves nothing waiting.
proof fn lemma_redraw(state: AppState)
    requires
        state.consistent(),
    ensures
        state.redraw_requested().well_formed(),
        state.redraw_requested().zoom == state.zoom,
        state.redraw_requested().zoom_target == state.zoom_target,
{
}

/// Pointer events keep the state well-formed and its zoom in range.
proof fn lemma_after_pointer(state: AppState, events: Seq<PointerEvent>)
    requires
        state.well_formed(),
        state.zoom_in_range(),
        factors_are_numbers(events),
    ensures
        state.after_pointer(events).well_formed(),
        state.after_pointer(events).zoom_in_range(),
{
    let effect = PointerEffect {
        cursor: state.wayland.cursor,
        target: state.zoom_target,
        changed: false,
    };
    pointer_keeps_target_in_range(effect, events, state.closing);
    lemma_pointer(effect, events, state.closing);
    let now = state.pointer_effect(events);
    if now.changed {
        lemma_redraw(state.pointed(now));
    }
}

/// A frame keeps the state well-formed and its zoom in range.
proof fn lemma_after_frame(state: AppState, time: u32, decay: Binary32)
    requires
        state.well_formed(),
        state.zoom_in_range(),
        decay.is_finite(),
        0real <= decay.value() <= 1real,
    ensures
        state.after_frame(time, decay).well_formed(),
        state.after_frame(time, decay).zoom_in_range(),
{
    easing_stays_in_range(state.zoom, state.zoom_target, decay);
    if settled(state.zoom, state.zoom_target) {
        lemma_target_is_settled(state.zoom, state.zoom_target);
    }
}

/// The way out keeps the state well-formed and its zoom in range.
proof fn lemma_exit_requested(state: AppState)
    requires
        state.well_formed(),
        state.zoom_in_range(),
    ensures
        state.exit_requested().well_formed(),
        state.exit_requested().zoom_in_range(),
{
    Binary32::lemma_limits();
    Binary32::lemma_integer(1);
    if state.frame is Some {
        lemma_redraw(AppState { closing: true, zoom_target: single(1), ..state });
    }
}

/// One happening keeps the state well-formed and its zoom in range.
proof fn lemma_next(state: AppState, happening: Happening)
    requires
        state.well_formed(),
        state.zoom_in_range(),
        valid(happening),
    ensures
        state.next(happening).well_formed(),
        state.next(happening).zoom_in_range(),
{
    match happening {
        Happening::Pointer(events) => {
            lemma_after_pointer(state, events@);
        },
        Happening::Frame(time, decay) => {
            lemma_after_frame(state, time, decay);
        },
        Happening::Key(_) | Happening::ExitRequest => {
            lemma_exit_requested(state);
        },
        _ => {},
    }
}

/// Pointer events take no cursor away, and without a change they change nothing.
proof fn lemma_pointer(effect: PointerEffect, events: Seq<PointerEvent>, closing: bool)
    ensures
        ({
            let now = after_events(effect, events, closing);
            &&& effect.cursor is Some ==> now.cursor is Some
            &&& effect.changed ==> now.changed
            &&& !now.changed ==> now == effect
        }),
    decreases events.len(),
{
    if events.len() > 0 {
        lemma_pointer(effect, events.drop_last(), closing);
    }
}

/// Whatever happens, the state stays well-formed: among other things, a change, an
/// animation or a way out never waits for anything but a frame that is pending.
/// And the zoom, like its target, never leaves its range.
pub proof fn overlay_stays_well_formed(border: bool, course: Seq<Happening>)
    requires
        all_valid(course),
    ensures
        AppState::initial(border).after(course).well_formed(),
        AppState::initial(border).after(course).zoom_in_range(),
    decreases course.len(),
{
    if course.len() == 0 {
        Binary32::lemma_limits();
        Binary32::lemma_integer(1);
    } else {
        lemma_shorter(course);
        overlay_stays_well_formed(border, course.drop_last());
        lemma_next(AppState::initial(border).after(course.drop_last()), course.last());
    }
}

/// One happening takes no decision back.
proof fn lemma_decisions(state: AppState, happening: Happening)
    ensures
        state.exit ==> state.next(happening).exit,
        state.closing ==> state.next(happening).closing,
        state.frame is Some ==> state.next(happening).frame is Some,
        state.capture.started ==> state.next(happening).capture.started,
        state.next(happening).border == state.border,
{
}

/// The decision to go away is final, and what is on display stays there until then.
pub proof fn decisions_are_final(state: AppState, course: Seq<Happening>)
    ensures
        state.exit ==> state.after(course).exit,
        state.closing ==> state.after(course).closing,
        state.frame is Some ==> state.after(course).frame is Some,
        state.capture.started ==> state.after(course).capture.started,
        state.after(course).border == state.border,
    decreases course.len(),
{
    if course.len() > 0 {
        decisions_are_final(state, course.drop_last());
        lemma_decisions(state.after(course.drop_last()), course.last());
    }
}

/// Once it zooms out to close, the overlay keeps zooming out, whatever the wheel does.
pub proof fn closing_keeps_zooming_out(state: AppState, course: Seq<Happening>)
    requires
        state.closing,
        state.zoom_target == single(1),
    ensures
        state.after(course).closing,
        state.after(course).zoom_target == single(1),
    decreases course.len(),
{
    if course.len() > 0 {
        let before = state.after(course.drop_last());
        closing_keeps_zooming_out(state, course.drop_last());
        if let Happening::Pointer(events) = course.last() {
            let effect = PointerEffect {
                cursor: before.wayland.cursor,
                target: before.zoom_target,
                changed: false,
            };
            pointer_keeps_target_while_closing(effect, events@);
        }
    }
}

/// The output is captured at most once: the frame stays frozen.
pub proof fn output_is_captured_at_most_once(state: AppState, course: Seq<Happening>)
    ensures
        state.captures(course) <= 1,
        state.capture.started ==> state.captures(course) == 0,
        state.captures(course) == 1 ==> state.after(course).capture.started,
    decreases course.len(),
{
    if course.len() > 0 {
        output_is_captured_at_most_once(state, course.drop_last());
        decisions_are_final(state, course.drop_last());
        lemma_decisions(state.after(course.drop_last()), course.last());
    }
}

/// Every frame that is presented shows a part of the frozen frame that lies inside it
/// and, where the frame is not empty, is at least one pixel wide and high, wherever the
/// cursor is.
pub proof fn presented_part_lies_inside_the_frame(state: AppState)
    requires
        state.view_now() is Some,
        placed(state.frame.unwrap().w, state.wayland.cursor.unwrap().0),
        placed(state.frame.unwrap().h, state.wayland.cursor.unwrap().1),
    ensures
        ({
            let present = state.view_now().unwrap();
            let rect = present.rect;
            &&& present.width == state.frame.unwrap().w
            &&& present.height == state.frame.unwrap().h
            &&& rect.x.value() >= 0real
            &&& rect.y.value() >= 0real
            &&& rect.w.value() >= 0real
            &&& rect.h.value() >= 0real
            &&& present.width >= 1 ==> rect.w.value() >= 1real
            &&& present.height >= 1 ==> rect.h.value() >= 1real
            &&& rect.x.sum(rect.w).value() <= present.width as real
            &&& rect.y.sum(rect.h).value() <= present.height as real
        }),
{
    let (size, cursor) = (state.wayland.size.unwrap(), state.wayland.cursor.unwrap());
    let frame = state.frame.unwrap();
    crop_length_is_within_source(frame.w, state.zoom);
    crop_length_is_within_source(frame.h, state.zoom);
    crop_stays_inside_source(frame.w, size.0, cursor.0, state.zoom);
    crop_stays_inside_source(frame.h, size.1, cursor.1, state.zoom);
}

/// The decays of the frames that were shown in a course.
pub open spec fn decays(course: Seq<Happening>) -> Seq<Binary32>
    decreases course.len(),
{
    if course.len() == 0 {
        Seq::empty()
    } else {
        match course.last() {
            Happening::Frame(_, decay) => decays(course.drop_last()).push(decay),
            _ => decays(course.drop_last()),
        }
    }
}

/// Every frame of a course has a decay at some pace.
pub open spec fn paced(course: Seq<Happening>, slowest: real) -> bool {
    forall|i: int|
        0 <= i < course.len() ==> (#[trigger] course[i] matches Happening::Frame(_, decay)
            ==> at_pace(decay, slowest))
}

/// The decays of a paced course are at its pace, and so are those of its beginning.
proof fn lemma_paced(course: Seq<Happening>, slowest: real)
    requires
        paced(course, slowest),
    ensures
        all_at_pace(decays(course), slowest),
        course.len() > 0 ==> paced(course.drop_last(), slowest),
    decreases course.len(),
{
    if course.len() > 0 {
        let before = course.drop_last();
        assert(forall|i: int| 0 <= i < before.len() ==> before[i] == course[i]);
        assert(paced(before, slowest));
        lemma_paced(before, slowest);
        let last = course[course.len() - 1];
        if let Happening::Frame(_, decay) = last {
            assert(at_pace(decay, slowest));
            let (earlier, now) = (decays(before), decays(course));
            assert forall|i: int| 0 <= i < now.len() implies at_pace(
                #[trigger] now[i],
                slowest,
            ) by {
                if i < earlier.len() {
                    assert(now[i] == earlier[i]);
                }
            }
        }
    }
}

/// While it zooms out to close, the zoom changes with the frames that are shown, and
/// with nothing else.
proof fn lemma_zooming_out(state: AppState, course: Seq<Happening>)
    requires
        state.closing,
        state.zoom_target == single(1),
    ensures
        state.after(course).zoom == zoom_after(state.zoom, single(1), decays(course)),
    decreases course.len(),
{
    if course.len() > 0 {
        let before = course.drop_last();
        lemma_zooming_out(state, before);
        closing_keeps_zooming_out(state, before);
        if let Happening::Frame(_, decay) = course.last() {
            let (earlier, now) = (decays(before), decays(course));
            assert(now.drop_last() =~= earlier);
        }
    }
}

/// Once it has zoomed out, the overlay goes away.
proof fn lemma_zoomed_out(state: AppState, course: Seq<Happening>, slowest: real)
    requires
        state.closing,
        state.zoom_target == single(1),
        in_range(state.zoom),
        slowest <= 127real / 128real,
        paced(course, slowest),
        decays(course).len() > frames_to_settle(slowest),
    ensures
        state.after(course).exit,
    decreases course.len(),
{
    let before = course.drop_last();
    lemma_paced(course, slowest);
    if decays(before).len() > frames_to_settle(slowest) {
        lemma_zoomed_out(state, before, slowest);
        lemma_decisions(state.after(before), course.last());
    } else {
        Binary32::lemma_limits();
        Binary32::lemma_integer(1);
        lemma_paced(before, slowest);
        lemma_zooming_out(state, before);
        closing_keeps_zooming_out(state, before);
        zoom_settles(state.zoom, single(1), decays(before), slowest);
        lemma_at_target(single(1));
        assert(state.after(before).zoomed_out());
    }
}

/// Asked to go away, the overlay does: at once if nothing is on display, else when
/// enough frames were shown for it to zoom out, whatever else happens meanwhile. With 16
/// milliseconds or more from frame to frame, 70 frames are enough.
pub proof fn exit_request_ends_the_overlay(
    state: AppState,
    course: Seq<Happening>,
    slowest: real,
)
    requires
        state.zoom_in_range(),
        slowest <= 127real / 128real,
        paced(course, slowest),
        decays(course).len() > frames_to_settle(slowest),
    ensures
        state.frame is None ==> state.exit_requested().exit,
        state.exit_requested().after(course).exit,
{
    let asked = state.exit_requested();
    if state.frame is None {
        decisions_are_final(asked, course);
    } else {
        lemma_zoomed_out(asked, course, slowest);
    }
}

/// Launching a second instance for an output closes both: the second goes away at
/// once, without capturing anything, and the one that it asks to go away does so once
/// it has zoomed out.
pub proof fn second_launch_closes_both(
    first: AppState,
    second: AppState,
    course: Seq<Happening>,
    slowest: real,
)
    requires
        first.zoom_in_range(),
        !second.capture.started,
        slowest <= 127real / 128real,
        paced(course, slowest),
        decays(course).len() > frames_to_settle(slowest),
    ensures
        second.arrival(true) == Arrival::MakeWay,
        second.next(Happening::Enter(true)).exit,
        first.next(Happening::ExitRequest).after(course).exit,
{
    exit_request_ends_the_overlay(first, course, slowest);
}

} // verus!
