//! What each happening does to the overlay, told by what can be seen of it before and
//! after, and what it leaves alone.
use crate::capture::{CaptureFormat, ShmFormat};
use crate::course::Happening;
use crate::crop::belongs;
use crate::easing::easing_leaves_the_decayed_distance;
use crate::image::SourceImage;
use crate::input::{Capability, PointerEvent, ESCAPE};
use crate::number::binary::{absolute, double, Binary32, Binary64};
use crate::screencopy::{CaptureAction, CaptureFailure, FrameEvent};
use crate::state::{AppState, Arrival, Present};
use crate::zoom::{in_range, settled};
use vstd::prelude::*;

verus! {

impl AppState {
    /// What a happening has presented.
    pub open spec fn view_of(self, happening: Happening) -> Option<Present> {
        match happening {
            Happening::Captured(image) => match self.holding(image).magnify_now() {
                Some(magnify) => Some(magnify.present),
                None => None,
            },
            Happening::Key(keysym) => if keysym == ESCAPE {
                self.redraw_view()
            } else {
                None
            },
            Happening::Pointer(events) => self.pointer_view(events@),
            Happening::Frame(time, decay) => self.frame_view(time, decay),
            Happening::ExitRequest => self.redraw_view(),
            _ => None,
        }
    }
}

/// An overlay starts with nothing known, nothing captured and nothing to show, at a zoom
/// of one.
pub proof fn overlay_starts_with_nothing(border: bool)
    ensures
        ({
            let s = AppState::initial(border);
            &&& s.border == border
            &&& !s.exit && !s.closing
            &&& s.zoom.value() == 1real && s.zoom_target.value() == 1real
            &&& !s.zoom.is_nan() && !s.zoom_target.is_nan()
            &&& s.frame is None
            &&& s.wayland.size is None && s.wayland.cursor is None
            &&& !s.wayland.keyboard && !s.wayland.pointer
            &&& !s.render.dirty && !s.render.frame_pending && s.render.last_frame_time is None
            &&& !s.capture.started && !s.capture.buffer && !s.capture.y_invert
            &&& s.capture.format is None && s.capture.source is None
        }),
{
    Binary32::lemma_limits();
    Binary32::lemma_integer(1);
}

/// A view is presented exactly where there is a size, a cursor and a frame, and it is
/// true to them and to the zoom. It answers what was to be presented, and is pending.
pub proof fn drawing_shows_the_magnified_part(state: AppState)
    ensures
        ({
            let ready = state.wayland.size is Some && state.wayland.cursor is Some && state.frame
                is Some;
            let now = state.presented();
            &&& ready <==> state.view_now() is Some
            &&& ready && state.has_finite_cursor() ==> state.shows(state.view_now().unwrap())
            &&& ready ==> !now.render.dirty && now.render.frame_pending
            &&& !ready ==> now == state
            &&& now.render.last_frame_time == state.render.last_frame_time
            &&& same_but_render(now, state)
        }),
{
    if state.view_now() is Some && state.has_finite_cursor() {
        state.view_is_true();
    }
}

/// The part that is presented shrinks with the zoom and surrounds the cursor. It is the
/// width of the frame over the zoom wide and the height over the zoom high, but at least
/// one pixel; and wherever no edge is in the way its middle is the cursor, scaled from the
/// overlay to the frame. All of it holds up to a rounding error.
pub proof fn presented_part_shrinks_and_surrounds_the_cursor(state: AppState)
    requires
        state.view_now() is Some,
        state.has_finite_cursor(),
        in_range(state.zoom),
    ensures
        ({
            let rect = state.view_now().unwrap().rect;
            let (frame, size) = (state.frame.unwrap(), state.wayland.size.unwrap());
            let cursor = state.wayland.cursor.unwrap();
            let z = state.zoom.value();
            let (w, h) = (frame.w as real, frame.h as real);
            let (rw, rh) = (rect.w.value(), rect.h.value());
            let (dx, dy) = (w / 1000000000000real, h / 1000000000000real);
            let x = cursor.0.value() / (size.0 as real) * w;
            let y = cursor.1.value() / (size.1 as real) * h;
            &&& w >= z ==> w / z - dx <= rw <= w / z + dx
            &&& h >= z ==> h / z - dy <= rh <= h / z + dy
            &&& 1real <= w <= z ==> rw == 1real
            &&& 1real <= h <= z ==> rh == 1real
            &&& size.0 > 0 && rw / 2real <= x <= w - rw / 2real ==> x - dx <= rect.x.value() + rw
                / 2real <= x + dx
            &&& size.1 > 0 && rh / 2real <= y <= h - rh / 2real ==> y - dy <= rect.y.value() + rh
                / 2real <= y + dy
        }),
{
    state.view_is_true();
    reveal(belongs);
}

/// Two states are the same but for the pacing of frames.
pub open spec fn same_but_render(a: AppState, b: AppState) -> bool {
    &&& a.wayland == b.wayland
    &&& a.capture == b.capture
    &&& a.border == b.border
    &&& a.exit == b.exit
    &&& a.closing == b.closing
    &&& a.zoom == b.zoom
    &&& a.zoom_target == b.zoom_target
    &&& a.frame == b.frame
}

/// A change is presented at once, with the animation clock started anew, unless a frame is
/// pending; then it is kept for when that was shown. Nothing else changes.
pub proof fn redraws_happen_at_once_or_are_kept(state: AppState)
    requires
        state.consistent(),
    ensures
        ({
            let (view, now) = (state.redraw_view(), state.redraw_requested());
            &&& same_but_render(now, state)
            &&& state.frame is Some && !state.render.frame_pending ==> {
                &&& view is Some
                &&& state.has_finite_cursor() ==> now.shows(view.unwrap())
                &&& !now.render.dirty && now.render.frame_pending
                &&& now.render.last_frame_time is None
            }
            &&& state.frame is None || state.render.frame_pending ==> {
                &&& view is None
                &&& now.render.dirty
                &&& now.render.frame_pending == state.render.frame_pending
                &&& now.render.last_frame_time == state.render.last_frame_time
            }
        }),
{
    if state.view_now() is Some && state.has_finite_cursor() {
        state.view_is_true();
    }
}

/// When a frame was shown, its time is kept and the zoom has moved on. There is another
/// one to present exactly if the animation goes on or something had changed meanwhile. The
/// overlay goes away exactly if it was closing and had come to its target.
pub proof fn frames_carry_the_animation_on(state: AppState, time: u32, decay: Binary32)
    requires
        state.consistent(),
        state.frame is Some,
        state.zoom_in_range(),
        decay.is_finite(),
        0real <= decay.value() <= 1real,
    ensures
        ({
            let (view, now) = (state.frame_view(time, decay), state.after_frame(time, decay));
            let (z, t, n) = (state.zoom.value(), state.zoom_target.value(), now.zoom.value());
            let near = absolute(t - z) <= 299real / 100000real;
            let far = absolute(t - z) >= 301real / 100000real;
            let left = (t - z) * decay.value();
            let e = 1real / 100000real;
            &&& now.render.last_frame_time == Some(time)
            &&& now.zoom_target == state.zoom_target
            &&& near ==> n == t
            &&& far ==> left - e <= t - n <= left + e
            &&& far || (state.render.dirty && !state.closing) ==> view is Some
            &&& near && (!state.render.dirty || state.closing) ==> view is None
            &&& view is Some <==> now.render.frame_pending
            &&& view is Some ==> !now.render.dirty && now.exit == state.exit
            &&& view is Some && state.has_finite_cursor() ==> now.shows(view.unwrap())
            &&& state.closing && near ==> now.exit
            &&& !state.closing || far ==> now.exit == state.exit
            &&& now.wayland == state.wayland && now.capture == state.capture
            &&& now.border == state.border && now.closing == state.closing
            &&& now.frame == state.frame
        }),
{
    easing_leaves_the_decayed_distance(state.zoom, state.zoom_target, decay);
    let next = state.acknowledged().stepped(time, decay);
    if next.view_now() is Some && next.has_finite_cursor() {
        next.view_is_true();
    }
}

/// A step of the animation keeps the time, moves the zoom, and leaves everything else
/// alone.
pub proof fn steps_move_only_the_zoom(state: AppState, time: u32, decay: Binary32)
    requires
        state.zoom_in_range(),
        decay.is_finite(),
        0real <= decay.value() <= 1real,
    ensures
        ({
            let now = state.stepped(time, decay);
            let (z, t, n) = (state.zoom.value(), state.zoom_target.value(), now.zoom.value());
            let left = (t - z) * decay.value();
            let e = 1real / 100000real;
            &&& absolute(t - z) <= 299real / 100000real ==> n == t && settled(
                state.zoom,
                state.zoom_target,
            )
            &&& absolute(t - z) >= 301real / 100000real ==> left - e <= t - n <= left + e
                && !settled(state.zoom, state.zoom_target)
            &&& now.render.last_frame_time == Some(time)
            &&& now.render.dirty == state.render.dirty
            &&& now.render.frame_pending == state.render.frame_pending
            &&& now.zoom_target == state.zoom_target
            &&& now.wayland == state.wayland && now.capture == state.capture
            &&& now.border == state.border && now.closing == state.closing
            &&& now.exit == state.exit && now.frame == state.frame
        }),
{
    easing_leaves_the_decayed_distance(state.zoom, state.zoom_target, decay);
}

/// Asked to go away with a frame on display, the overlay sets out for a zoom of one and
/// has that presented; with none on display it goes away at once. Nothing else changes.
pub proof fn leaving_zooms_out_first(state: AppState)
    requires
        state.consistent(),
    ensures
        ({
            let now = state.exit_requested();
            &&& state.frame is Some ==> {
                &&& now.closing
                &&& now.exit == state.exit
                &&& now.zoom_target.value() == 1real && !now.zoom_target.is_nan()
                &&& now.render.frame_pending
                &&& now.render.dirty == state.render.frame_pending
                &&& state.redraw_view() is Some <==> !state.render.frame_pending
            }
            &&& state.frame is None ==> {
                &&& now.exit
                &&& now.closing == state.closing && now.zoom_target == state.zoom_target
                &&& now.render == state.render
                &&& state.redraw_view() is None
            }
            &&& now.zoom == state.zoom
            &&& now.wayland == state.wayland && now.capture == state.capture
            &&& now.border == state.border && now.frame == state.frame
        }),
{
    Binary32::lemma_limits();
    Binary32::lemma_integer(1);
}

/// Only Escape does anything: it asks the overlay to go away.
pub proof fn only_escape_counts(state: AppState, keysym: u32)
    ensures
        keysym == 0xff1b ==> state.next(Happening::Key(keysym)) == state.next(
            Happening::ExitRequest,
        ),
        keysym != 0xff1b ==> state.next(Happening::Key(keysym)) == state,
        keysym != 0xff1b ==> state.view_of(Happening::Key(keysym)) is None,
{
}

/// The overlay takes every size that is not empty, and changes nothing else for it.
pub proof fn sizes_are_taken_over(state: AppState, w: u32, h: u32)
    ensures
        ({
            let now = state.configured(w, h);
            &&& w > 0 && h > 0 ==> now.wayland.size == Some((w, h))
            &&& w == 0 || h == 0 ==> now.wayland.size == state.wayland.size
            &&& now.wayland.cursor == state.wayland.cursor
            &&& now.wayland.keyboard == state.wayland.keyboard
            &&& now.wayland.pointer == state.wayland.pointer
            &&& now.render == state.render && now.capture == state.capture
            &&& same_but_wayland(now, state)
        }),
{
}

/// Two states are the same but for what is known about the surface and the devices.
pub open spec fn same_but_wayland(a: AppState, b: AppState) -> bool {
    &&& a.render == b.render
    &&& a.capture == b.capture
    &&& a.border == b.border
    &&& a.exit == b.exit
    &&& a.closing == b.closing
    &&& a.zoom == b.zoom
    &&& a.zoom_target == b.zoom_target
    &&& a.frame == b.frame
}

/// Two states are the same but for the capture.
pub open spec fn same_but_capture(a: AppState, b: AppState) -> bool {
    &&& a.wayland == b.wayland
    &&& a.render == b.render
    &&& a.border == b.border
    &&& a.closing == b.closing
    &&& a.zoom == b.zoom
    &&& a.zoom_target == b.zoom_target
    &&& a.frame == b.frame
}

/// The first output is captured, unless another instance shows it: then the overlay goes
/// away. Any later output is ignored.
pub proof fn first_output_is_captured(state: AppState, occupied: bool)
    ensures
        ({
            let now = state.entered(occupied);
            &&& state.arrival(occupied) == if state.capture.started {
                Arrival::Nothing
            } else if occupied {
                Arrival::MakeWay
            } else {
                Arrival::Capture
            }
            &&& now.capture.started
            &&& now.exit == (state.exit || (!state.capture.started && occupied))
            &&& now.capture.format == state.capture.format
            &&& now.capture.buffer == state.capture.buffer
            &&& now.capture.y_invert == state.capture.y_invert
            &&& now.capture.source == state.capture.source
            &&& same_but_capture(now, state)
        }),
{
}

/// Binding and releasing a device concerns that device alone. Touch devices are never
/// bound.
pub proof fn devices_are_kept_apart(state: AppState, capability: Capability, bound: bool)
    ensures
        ({
            let now = state.with_device(capability, bound);
            &&& !(capability is Touch) ==> now.is_bound(capability) == bound
            &&& now.wayland.keyboard == if capability is Keyboard {
                bound
            } else {
                state.wayland.keyboard
            }
            &&& now.wayland.pointer == if capability is Pointer {
                bound
            } else {
                state.wayland.pointer
            }
            &&& now.is_bound(Capability::Keyboard) == now.wayland.keyboard
            &&& now.is_bound(Capability::Pointer) == now.wayland.pointer
            &&& !now.is_bound(Capability::Touch)
            &&& now.wayland.size == state.wayland.size
            &&& now.wayland.cursor == state.wayland.cursor
            &&& same_but_wayland(now, state)
        }),
{
}

/// What a capture event asks for.
pub proof fn capture_events_ask_for_the_next_step(state: AppState, event: FrameEvent)
    requires
        state.capture.format matches Some(f) ==> f.stride * f.height <= u32::MAX,
    ensures
        ({
            let action = state.capture_action(event);
            &&& event is BufferDone ==> match state.capture.format {
                Some(f) => action matches CaptureAction::Allocate { size, format } && format == f
                    && size >= 1 && (size == f.stride * f.height || f.stride * f.height == 0
                    && size == 1),
                None => action == CaptureAction::Report(CaptureFailure::NoFormat),
            }
            &&& event is Ready ==> match state.capture.format {
                Some(f) => if state.capture.buffer {
                    action == (CaptureAction::Read { format: f })
                } else {
                    action == CaptureAction::Report(CaptureFailure::Canvas)
                },
                None => action == CaptureAction::Nothing,
            }
            &&& event is Failed ==> action == CaptureAction::Report(CaptureFailure::Copy)
            &&& !(event is BufferDone || event is Ready || event is Failed) ==> action
                == CaptureAction::Nothing
        }),
{
}

/// What a capture event changes: the format with every usable offer, which way up the
/// frame is with every defined flag, and the buffer, which is given up when it is ready.
/// The overlay goes away where the capture cannot come to an end.
pub proof fn capture_events_are_remembered(state: AppState, event: FrameEvent)
    ensures
        ({
            let now = state.after_capture_event(event);
            let stuck = match event {
                FrameEvent::BufferDone => state.capture.format is None,
                FrameEvent::Ready => state.capture.format is Some && !state.capture.buffer,
                FrameEvent::Failed => true,
                _ => false,
            };
            &&& now.exit == (state.exit || stuck)
            &&& now.capture.format == match event {
                FrameEvent::Buffer { format: ShmFormat::Argb8888, width, height, stride } => Some(
                    CaptureFormat { format: ShmFormat::Argb8888, width, height, stride },
                ),
                FrameEvent::Buffer { format: ShmFormat::Xrgb8888, width, height, stride } => Some(
                    CaptureFormat { format: ShmFormat::Xrgb8888, width, height, stride },
                ),
                _ => state.capture.format,
            }
            &&& now.capture.y_invert == match event {
                FrameEvent::Flags(bits) => if bits == 0 {
                    false
                } else if bits == 1 {
                    true
                } else {
                    state.capture.y_invert
                },
                _ => state.capture.y_invert,
            }
            &&& now.capture.buffer == (state.capture.buffer && !(event is Ready
                && state.capture.format is Some))
            &&& now.capture.started == state.capture.started
            &&& now.capture.source == state.capture.source
            &&& same_but_capture(now, state)
        }),
{
}

/// A buffer that was allocated is held, and a captured image is kept, until it is shown.
pub proof fn buffers_and_images_are_held(state: AppState, image: SourceImage)
    ensures
        ({
            let (held, kept) = (state.with_buffer(), state.holding(image));
            &&& held.capture.buffer
            &&& held.capture.source == state.capture.source
            &&& kept.capture.source == Some(image)
            &&& kept.capture.buffer == state.capture.buffer
            &&& held.capture.format == state.capture.format
            &&& kept.capture.format == state.capture.format
            &&& held.capture.started == state.capture.started
            &&& kept.capture.started == state.capture.started
            &&& held.capture.y_invert == state.capture.y_invert
            &&& kept.capture.y_invert == state.capture.y_invert
            &&& same_but_capture(held, state) && held.exit == state.exit
            &&& same_but_capture(kept, state) && kept.exit == state.exit
        }),
{
}

/// Leaving is setting the mark for it, and nothing else.
pub proof fn leaving_sets_the_mark(state: AppState)
    ensures
        ({
            let now = state.leaving();
            &&& now.exit
            &&& now.closing == state.closing
            &&& now.capture == state.capture
            &&& same_but_capture(now, state)
        }),
{
}

/// The middle of an output is half its width.
proof fn lemma_middle(n: u32)
    ensures
        ({
            let x = double(n as nat).quotient(double(2));
            &&& x.is_finite()
            &&& (n as real) / 2real - 1real / 1000real <= x.value() <= (n as real) / 2real + 1real
                / 1000real
        }),
{
    Binary64::lemma_limits();
    Binary64::lemma_grain();
    Binary64::lemma_integer(n as nat);
    Binary64::lemma_integer(2);
    let x = double(n as nat);
    Binary64::lemma_value_order(x, x);
    x.lemma_quotient_rounded(double(2));
    Binary64::lemma_near((n as real) / 2real, 0x1_0000_0000 as real);
}

/// Once an image is captured and there is an output, exactly that image is put on display,
/// scaled to the output, with the border that was asked for, around the cursor or else
/// around the middle. The image is handed out once; what stays is its size.
pub proof fn captured_image_goes_on_display(state: AppState)
    ensures
        ({
            let (display, now) = (state.magnify_now(), state.magnifying());
            let due = state.wayland.size is Some && state.capture.source is Some;
            &&& !due ==> display is None && now == state
            &&& due ==> {
                let (size, image) = (state.wayland.size.unwrap(), state.capture.source.unwrap());
                &&& display matches Some(magnify)
                &&& magnify.source == image
                &&& magnify.destination == size
                &&& magnify.border == state.border
                &&& now.has_finite_cursor() ==> now.shows(magnify.present)
                &&& now.frame matches Some(frame)
                &&& frame.w == image.width && frame.h == image.height
                &&& now.capture.source is None
                &&& now.render.frame_pending && !now.render.dirty
                &&& now.render.last_frame_time == state.render.last_frame_time
                &&& state.wayland.cursor is Some ==> now.wayland.cursor == state.wayland.cursor
                &&& state.wayland.cursor is None ==> in_the_middle(now, size)
                &&& now.wayland.size == state.wayland.size
                &&& now.wayland.keyboard == state.wayland.keyboard
                &&& now.wayland.pointer == state.wayland.pointer
                &&& now.capture.started == state.capture.started
                &&& now.capture.format == state.capture.format
                &&& now.capture.buffer == state.capture.buffer
                &&& now.capture.y_invert == state.capture.y_invert
                &&& now.border == state.border && now.exit == state.exit
                &&& now.closing == state.closing && now.zoom == state.zoom
                &&& now.zoom_target == state.zoom_target
            }
        }),
{
    if state.wayland.size is Some && state.capture.source is Some {
        let (size, image) = (state.wayland.size.unwrap(), state.capture.source.unwrap());
        lemma_middle(size.0);
        lemma_middle(size.1);
        let shown = state.showing(image, size);
        if shown.has_finite_cursor() {
            shown.view_is_true();
        }
    }
}

/// The cursor is in the middle of an output, up to a thousandth of a pixel.
pub open spec fn in_the_middle(state: AppState, size: (u32, u32)) -> bool {
    &&& state.wayland.cursor matches Some(cursor)
    &&& cursor.0.is_finite() && cursor.1.is_finite()
    &&& (size.0 as real) / 2real - 1real / 1000real <= cursor.0.value() <= (size.0 as real) / 2real
        + 1real / 1000real
    &&& (size.1 as real) / 2real - 1real / 1000real <= cursor.1.value() <= (size.1 as real) / 2real
        + 1real / 1000real
}

/// Whatever presents a frame, what it presents is true to the state that it leaves behind:
/// to the frame, the size, the cursor and the zoom. The frame is then pending, and nothing
/// is left to present.
pub proof fn every_view_is_true(state: AppState, happening: Happening)
    requires
        state.consistent(),
        state.view_of(happening) is Some,
    ensures
        ({
            let now = state.next(happening);
            &&& now.render.frame_pending && !now.render.dirty
            &&& now.has_finite_cursor() ==> now.shows(state.view_of(happening).unwrap())
        }),
{
    match happening {
        Happening::Captured(image) => {
            captured_image_goes_on_display(state.holding(image));
        },
        Happening::Key(_) | Happening::ExitRequest => {
            lemma_asked(state);
        },
        Happening::Pointer(events) => {
            lemma_pointed(state, events@);
        },
        Happening::Frame(time, decay) => {
            drawing_shows_the_magnified_part(state.acknowledged().stepped(time, decay));
        },
        _ => {},
    }
}

/// What the way out presents is true to the state.
proof fn lemma_asked(state: AppState)
    requires
        state.redraw_view() is Some,
    ensures
        ({
            let now = state.exit_requested();
            &&& now.render.frame_pending && !now.render.dirty
            &&& now.has_finite_cursor() ==> now.shows(state.redraw_view().unwrap())
        }),
{
    drawing_shows_the_magnified_part(state);
}

/// What pointer events present is true to the state.
proof fn lemma_pointed(state: AppState, events: Seq<PointerEvent>)
    requires
        state.pointer_view(events) is Some,
    ensures
        ({
            let now = state.after_pointer(events);
            &&& now.render.frame_pending && !now.render.dirty
            &&& now.has_finite_cursor() ==> now.shows(state.pointer_view(events).unwrap())
        }),
{
    drawing_shows_the_magnified_part(state.pointed(state.pointer_effect(events)));
}

} // verus!
