//! The state of the overlay and the decisions it takes on every event.
//!
//! Each method takes one event, updates the state and returns what is to be done
//! about it: a frame to present, a buffer to allocate, a capture to start. Doing it,
//! and reporting back, is left to the caller.
use crate::capture::CaptureFormat;
use crate::crop::{crop, crop_belongs_to_cursor_and_zoom, crop_source_rect, Rect};
use crate::image::SourceImage;
use crate::number::binary::{double, single, Binary32, Binary64};
use crate::zoom::{
    decay_exponent, ease, eased, exponent_of_decay, in_range, lemma_target_is_settled, settled,
};
use vstd::prelude::*;

verus! {

/// What is known about the surface and the input devices.
pub struct WaylandState {
    /// Whether a keyboard is bound.
    pub keyboard: bool,
    /// Whether a pointer is bound.
    pub pointer: bool,
    /// The logical size of the overlay, once configured.
    pub size: Option<(u32, u32)>,
    /// The pointer, in logical coordinates.
    pub cursor: Option<(Binary64, Binary64)>,
}

/// The pacing of frames.
pub struct RenderState {
    /// When the previous frame of a running animation was shown.
    pub last_frame_time: Option<u32>,
    /// Something changed since the last presented frame.
    pub dirty: bool,
    /// A presented frame has not been acknowledged yet.
    pub frame_pending: bool,
}

/// The progress of the capture.
pub struct CaptureState {
    /// The capture was requested.
    pub started: bool,
    /// The last usable format that was advertised.
    pub format: Option<CaptureFormat>,
    /// A buffer for the copy is held.
    pub buffer: bool,
    /// The captured rows come bottom-up.
    pub y_invert: bool,
    /// The captured image, until it is shown.
    pub source: Option<SourceImage>,
}

/// The size of the frozen frame on display.
pub struct FrameState {
    pub w: u32,
    pub h: u32,
}

/// The whole state of the overlay.
pub struct AppState {
    pub wayland: WaylandState,
    pub render: RenderState,
    pub capture: CaptureState,
    /// Whether to draw the border.
    pub border: bool,
    /// The overlay is to go away now.
    pub exit: bool,
    /// The overlay goes away once it has zoomed out.
    pub closing: bool,
    /// The zoom on display.
    pub zoom: Binary32,
    /// The zoom that the display moves towards.
    pub zoom_target: Binary32,
    /// The frozen frame, once shown.
    pub frame: Option<FrameState>,
}

/// A frame to present: the part of the source to show, and the size of the source.
pub struct Present {
    pub rect: Rect,
    pub width: u32,
    pub height: u32,
}

/// The frozen frame to put on display for the first time.
pub struct Magnify {
    /// The pixels to upload.
    pub source: SourceImage,
    /// The logical size to scale to.
    pub destination: (u32, u32),
    /// Whether to put the border on top.
    pub border: bool,
    /// The first view.
    pub present: Present,
}

/// What to do about an output on which the overlay landed.
#[derive(Clone, Copy, Debug, PartialEq, Eq, Structural)]
pub enum Arrival {
    /// Nothing: the overlay has been on an output before.
    Nothing,
    /// Capture the output.
    Capture,
    /// Ask the instance that already shows the output to go away, and go away too.
    MakeWay,
}

/// A buffer of `w` by `h` pixels, four bytes each, can be described to the compositor,
/// which counts in `i32`, and addressed.
pub open spec fn drawable(w: nat, h: nat) -> bool {
    w * 4 <= i32::MAX && h <= i32::MAX && w * h * 4 <= usize::MAX
}

/// Whether a buffer of `w` by `h` pixels can be described and addressed.
pub fn is_drawable(w: u32, h: u32) -> (r: bool)
    ensures
        r == drawable(w as nat, h as nat),
{
    let (a, b) = (w as u128, h as u128);
    proof {
        let (x, y) = (a as int, b as int);
        assert(0 <= x * y <= 0xffff_ffff * 0xffff_ffff) by (nonlinear_arith)
            requires
                0 <= x <= 0xffff_ffff,
                0 <= y <= 0xffff_ffff,
        ;
    }
    a * 4 <= 0x7fff_ffff && b <= 0x7fff_ffff && a * b * 4 <= usize::MAX as u128
}

/// In a buffer that can be described and addressed, the length of a row and the number of
/// rows fit the compositor's count, and the last byte of every pixel has an address; and
/// every buffer of which that holds, and all of whose bytes can be counted, is one.
pub proof fn drawable_buffers_fit(w: u32, h: u32, x: nat, y: nat)
    requires
        x < w,
        y < h,
    ensures
        drawable(w as nat, h as nat) ==> {
            &&& 4 * w <= 0x7fff_ffff && h <= 0x7fff_ffff
            &&& 4 * w * y + 4 * x + 3 < usize::MAX
        },
        4 * w <= 0x7fff_ffff && h <= 0x7fff_ffff && 4 * w * h <= usize::MAX ==> drawable(
            w as nat,
            h as nat,
        ),
{
    let (a, b) = (w as int, h as int);
    assert(a * b * 4 == 4 * a * b) by (nonlinear_arith);
    assert(4 * a * y + 4 * a <= 4 * a * b) by (nonlinear_arith)
        requires
            0 <= y < b,
            a >= 0,
    ;
}

impl RenderState {
    /// Nothing is drawn and nothing is due.
    pub open spec fn idle() -> Self {
        RenderState { last_frame_time: None, dirty: false, frame_pending: false }
    }
}

impl AppState {
    /// The state before any event.
    pub open spec fn initial(border: bool) -> Self {
        AppState {
            wayland: WaylandState { keyboard: false, pointer: false, size: None, cursor: None },
            render: RenderState::idle(),
            capture: CaptureState {
                started: false,
                format: None,
                buffer: false,
                y_invert: false,
                source: None,
            },
            border,
            exit: false,
            closing: false,
            zoom: single(1),
            zoom_target: single(1),
            frame: None,
        }
    }

    /// There is something to do on the display: a change to present, a zoom that has not
    /// reached its target, or a way out to finish.
    pub open spec fn restless(self) -> bool {
        self.render.dirty || self.closing || !settled(self.zoom, self.zoom_target)
    }

    /// A captured image has all its pixels; a frame is on display only with a size and a
    /// cursor; frames are pending only of what is on display, and only what is on
    /// display zooms out to close.
    pub open spec fn consistent(self) -> bool {
        &&& self.capture.source matches Some(image) ==> image.well_formed()
        &&& self.frame is Some ==> self.wayland.size is Some && self.wayland.cursor is Some
        &&& self.render.frame_pending || self.closing ==> self.frame is Some
    }

    /// What every operation keeps: the state is consistent, and, until the overlay goes
    /// away, nothing that is left to do waits for anything but a pending frame.
    pub open spec fn well_formed(self) -> bool {
        &&& self.consistent()
        &&& self.frame is Some && self.restless() && !self.exit ==> self.render.frame_pending
    }

    /// The zoom and its target are in range.
    pub open spec fn zoom_in_range(self) -> bool {
        in_range(self.zoom) && in_range(self.zoom_target)
    }

    pub fn new(border: bool) -> (r: Self)
        ensures
            r == Self::initial(border),
            r.well_formed(),
            r.zoom_in_range(),
    {
        proof {
            Binary32::lemma_limits();
            Binary32::lemma_integer(1);
        }
        AppState {
            wayland: WaylandState { keyboard: false, pointer: false, size: None, cursor: None },
            render: RenderState { last_frame_time: None, dirty: false, frame_pending: false },
            capture: CaptureState {
                started: false,
                format: None,
                buffer: false,
                y_invert: false,
                source: None,
            },
            border,
            exit: false,
            closing: false,
            zoom: Binary32::from_integer(false, 1),
            zoom_target: Binary32::from_integer(false, 1),
            frame: None,
        }
    }

    /// The frame to present now, if there is anything to show.
    pub open spec fn view_now(self) -> Option<Present> {
        match (self.wayland.size, self.wayland.cursor, self.frame) {
            (Some(size), Some(cursor), Some(frame)) => Some(
                Present {
                    rect: crop(
                        frame.w as nat,
                        frame.h as nat,
                        size.0 as nat,
                        size.1 as nat,
                        cursor,
                        self.zoom,
                    ),
                    width: frame.w,
                    height: frame.h,
                },
            ),
            _ => None,
        }
    }

    /// The cursor has a place, in finite coordinates.
    pub open spec fn has_finite_cursor(self) -> bool {
        self.wayland.cursor matches Some(cursor) && cursor.0.is_finite() && cursor.1.is_finite()
    }

    /// A frame to present is true to the state: it is of the frame on display, and shows
    /// the part of it that belongs to the cursor and the zoom on an overlay of this size.
    pub open spec fn shows(self, present: Present) -> bool {
        match (self.wayland.size, self.wayland.cursor, self.frame) {
            (Some(size), Some(cursor), Some(frame)) => {
                &&& present.width == frame.w
                &&& present.height == frame.h
                &&& present.rect.belongs_to((frame.w, frame.h), size, cursor, self.zoom)
            },
            _ => false,
        }
    }

    /// What is presented is true to the state.
    pub proof fn view_is_true(self)
        requires
            self.has_finite_cursor(),
            self.view_now() is Some,
        ensures
            self.shows(self.view_now().unwrap()),
    {
        let frame = self.frame.unwrap();
        crop_belongs_to_cursor_and_zoom(
            (frame.w, frame.h),
            self.wayland.size.unwrap(),
            self.wayland.cursor.unwrap(),
            self.zoom,
        );
    }

    /// The state after a frame was presented.
    pub open spec fn presented(self) -> Self {
        if self.view_now() is Some {
            AppState {
                render: RenderState { dirty: false, frame_pending: true, ..self.render },
                ..self
            }
        } else {
            self
        }
    }

    /// Presents a frame: which part of the source to show now.
    pub fn draw(&mut self) -> (r: Option<Present>)
        ensures
            r == old(self).view_now(),
            *final(self) == old(self).presented(),
            final(self).has_finite_cursor() ==> (r matches Some(present) ==> final(self).shows(
                present,
            )),
            old(self).well_formed() ==> final(self).well_formed(),
    {
        let size: (u32, u32) = match self.wayland.size {
            Some(size) => size,
            None => {
                return None;
            },
        };
        let cursor: (Binary64, Binary64) = match self.wayland.cursor {
            Some(cursor) => cursor,
            None => {
                return None;
            },
        };
        let (width, height): (u32, u32) = match &self.frame {
            Some(frame) => (frame.w, frame.h),
            None => {
                return None;
            },
        };
        let rect: Rect = crop_source_rect(width, height, size.0, size.1, cursor, self.zoom);
        proof {
            if self.has_finite_cursor() {
                self.view_is_true();
            }
        }
        self.render.dirty = false;
        self.render.frame_pending = true;
        Some(Present { rect, width, height })
    }

    /// Whether a change can be presented at once.
    pub open spec fn free_to_draw(self) -> bool {
        self.frame is Some && !self.render.frame_pending
    }

    /// The state with a change to present.
    pub open spec fn changed(self) -> Self {
        AppState { render: RenderState { dirty: true, ..self.render }, ..self }
    }

    /// The state with the animation clock stopped.
    pub open spec fn clock_stopped(self) -> Self {
        AppState { render: RenderState { last_frame_time: None, ..self.render }, ..self }
    }

    /// The state after a redraw was requested.
    pub open spec fn redraw_requested(self) -> Self {
        if self.free_to_draw() {
            self.changed().clock_stopped().presented()
        } else {
            self.changed()
        }
    }

    /// The frame to present when a redraw is requested: one now, unless another is
    /// still pending.
    pub open spec fn redraw_view(self) -> Option<Present> {
        if self.free_to_draw() {
            self.view_now()
        } else {
            None
        }
    }

    /// Notes a change, and presents it at once unless a frame is pending.
    pub fn request_redraw(&mut self) -> (r: Option<Present>)
        ensures
            r == old(self).redraw_view(),
            *final(self) == old(self).redraw_requested(),
            final(self).has_finite_cursor() ==> (r matches Some(present) ==> final(self).shows(
                present,
            )),
            old(self).consistent() ==> final(self).well_formed(),
    {
        self.render.dirty = true;
        if self.frame.is_some() && !self.render.frame_pending {
            // Restart the animation clock from idle.
            self.render.last_frame_time = None;
            self.draw()
        } else {
            None
        }
    }

    /// The state after a step of the zoom animation.
    pub open spec fn stepped(self, time: u32, decay: Binary32) -> Self {
        AppState {
            render: RenderState { last_frame_time: Some(time), ..self.render },
            zoom: eased(self.zoom, self.zoom_target, decay),
            ..self
        }
    }

    /// The exponent of the decay up to a frame shown at `time`.
    pub fn frame_exponent(&self, time: u32) -> (r: Binary32)
        ensures
            r == decay_exponent(self.render.last_frame_time, time),
    {
        exponent_of_decay(self.render.last_frame_time, time)
    }

    /// Advances the displayed zoom towards the target with a time-based ease-out.
    /// Returns `true` while still animating, so that the frame loop keeps going.
    ///
    /// `decay` is the natural exponential of [`AppState::frame_exponent`].
    pub fn step_zoom(&mut self, time: u32, decay: Binary32) -> (r: bool)
        ensures
            r == !settled(old(self).zoom, old(self).zoom_target),
            *final(self) == old(self).stepped(time, decay),
    {
        self.render.last_frame_time = Some(time);
        let (zoom, animating): (Binary32, bool) = ease(self.zoom, self.zoom_target, decay);
        self.zoom = zoom;
        animating
    }

    /// The state once the pending frame was shown.
    pub open spec fn acknowledged(self) -> Self {
        AppState { render: RenderState { frame_pending: false, ..self.render }, ..self }
    }

    /// Whether zooming out to close has come to its end.
    pub open spec fn zoomed_out(self) -> bool {
        self.closing && settled(self.zoom, self.zoom_target)
    }

    /// Whether there is something new to present once a frame was shown.
    pub open spec fn more_to_draw(self) -> bool {
        !self.zoomed_out() && (!settled(self.zoom, self.zoom_target) || self.render.dirty)
    }

    /// The state after a frame was shown at `time`.
    pub open spec fn after_frame(self, time: u32, decay: Binary32) -> Self {
        let next = self.acknowledged().stepped(time, decay);
        if self.zoomed_out() {
            next.leaving()
        } else if self.more_to_draw() {
            next.presented()
        } else {
            next
        }
    }

    /// What to present once a frame was shown at `time`.
    pub open spec fn frame_view(self, time: u32, decay: Binary32) -> Option<Present> {
        if self.more_to_draw() {
            self.acknowledged().stepped(time, decay).view_now()
        } else {
            None
        }
    }

    /// A frame was shown at `time`: goes on with the animation, or presents what has
    /// changed meanwhile, or goes away if the overlay has zoomed out to close.
    pub fn frame(&mut self, time: u32, decay: Binary32) -> (r: Option<Present>)
        ensures
            r == old(self).frame_view(time, decay),
            *final(self) == old(self).after_frame(time, decay),
            final(self).has_finite_cursor() ==> (r matches Some(present) ==> final(self).shows(
                present,
            )),
            old(self).well_formed() ==> final(self).well_formed(),
    {
        self.render.frame_pending = false;
        let animating: bool = self.step_zoom(time, decay);
        if self.closing && !animating {
            self.exit = true;
            None
        } else if animating || self.render.dirty {
            self.draw()
        } else {
            proof {
                lemma_target_is_settled(old(self).zoom, old(self).zoom_target);
            }
            None
        }
    }

    /// The state after the overlay was asked to go away.
    pub open spec fn exit_requested(self) -> Self {
        if self.frame is Some {
            (AppState { closing: true, zoom_target: single(1), ..self }).redraw_requested()
        } else {
            self.leaving()
        }
    }

    /// Asks the overlay to go away: it zooms out first, if it shows anything.
    pub fn request_exit(&mut self) -> (r: Option<Present>)
        ensures
            r == old(self).redraw_view(),
            *final(self) == old(self).exit_requested(),
            final(self).has_finite_cursor() ==> (r matches Some(present) ==> final(self).shows(
                present,
            )),
            old(self).well_formed() ==> final(self).well_formed(),
    {
        if self.frame.is_some() {
            self.closing = true;
            self.zoom_target = Binary32::from_integer(false, 1);
            self.request_redraw()
        } else {
            self.exit = true;
            None
        }
    }

    /// The state that is about to go away.
    pub open spec fn leaving(self) -> Self {
        AppState { exit: true, ..self }
    }

    /// The compositor took the overlay away.
    pub fn closed(&mut self)
        ensures
            *final(self) == old(self).leaving(),
            old(self).well_formed() ==> final(self).well_formed(),
    {
        self.exit = true;
    }

    /// The state with a size of the overlay, unless it is empty.
    pub open spec fn configured(self, w: u32, h: u32) -> Self {
        if w != 0 && h != 0 {
            AppState { wayland: WaylandState { size: Some((w, h)), ..self.wayland }, ..self }
        } else {
            self
        }
    }

    /// The compositor gave the overlay a size. Returns whether to put up the first,
    /// fully transparent buffer, so that the capture shows the desktop beneath.
    pub fn configure(&mut self, w: u32, h: u32) -> (r: bool)
        ensures
            r == (w != 0 && h != 0 && old(self).wayland.size is None),
            *final(self) == old(self).configured(w, h),
            old(self).well_formed() ==> final(self).well_formed(),
    {
        if w != 0 && h != 0 {
            let first: bool = self.wayland.size.is_none();
            self.wayland.size = Some((w, h));
            first
        } else {
            false
        }
    }

    /// What to do about an output on which the overlay landed: the first time, capture
    /// it, or make way where another instance already shows it.
    pub open spec fn arrival(self, occupied: bool) -> Arrival {
        if self.capture.started {
            Arrival::Nothing
        } else if occupied {
            Arrival::MakeWay
        } else {
            Arrival::Capture
        }
    }

    /// The state once the overlay landed on an output.
    pub open spec fn entered(self, occupied: bool) -> Self {
        AppState {
            capture: CaptureState { started: true, ..self.capture },
            exit: self.exit || self.arrival(occupied) is MakeWay,
            ..self
        }
    }

    /// The overlay landed on an output, where another instance is already running if it
    /// is `occupied`. Returns what to do about it.
    pub fn surface_enter(&mut self, occupied: bool) -> (r: Arrival)
        ensures
            r == old(self).arrival(occupied),
            *final(self) == old(self).entered(occupied),
            old(self).well_formed() ==> final(self).well_formed(),
    {
        if self.capture.started {
            return Arrival::Nothing;
        }
        self.capture.started = true;
        if occupied {
            self.exit = true;
            Arrival::MakeWay
        } else {
            Arrival::Capture
        }
    }

    /// The cursor to start with: where it is, or else the middle of the output.
    pub open spec fn first_cursor(self, size: (u32, u32)) -> (Binary64, Binary64) {
        match self.wayland.cursor {
            Some(cursor) => cursor,
            None => (
                double(size.0 as nat).quotient(double(2)),
                double(size.1 as nat).quotient(double(2)),
            ),
        }
    }

    /// The state that shows a frozen frame on an output of a given size.
    pub open spec fn showing(self, image: SourceImage, size: (u32, u32)) -> Self {
        AppState {
            wayland: WaylandState { cursor: Some(self.first_cursor(size)), ..self.wayland },
            render: RenderState { dirty: true, frame_pending: false, ..self.render },
            capture: CaptureState { source: None, ..self.capture },
            frame: Some(FrameState { w: image.width, h: image.height }),
            ..self
        }
    }

    /// The frozen frame to put on display, if it is captured and there is an output.
    pub open spec fn magnify_now(self) -> Option<Magnify> {
        match (self.wayland.size, self.capture.source) {
            (Some(size), Some(image)) => Some(
                Magnify {
                    source: image,
                    destination: size,
                    border: self.border,
                    present: self.showing(image, size).view_now().unwrap(),
                },
            ),
            _ => None,
        }
    }

    /// The state once the frozen frame is on display.
    pub open spec fn magnifying(self) -> Self {
        match (self.wayland.size, self.capture.source) {
            (Some(size), Some(image)) => self.showing(image, size).presented(),
            _ => self,
        }
    }

    /// Called once the frozen frame is ready: hands it out for upload as a single
    /// buffer, with the size to scale it to, the border and the first view.
    pub fn begin_magnify(&mut self) -> (r: Option<Magnify>)
        ensures
            r == old(self).magnify_now(),
            *final(self) == old(self).magnifying(),
            r is Some <==> old(self).wayland.size is Some && old(self).capture.source is Some,
            r matches Some(magnify) ==> {
                &&& Some(magnify.source) == old(self).capture.source
                &&& Some(magnify.destination) == old(self).wayland.size
                &&& magnify.border == old(self).border
                &&& final(self).has_finite_cursor() ==> final(self).shows(magnify.present)
            },
            old(self).well_formed() ==> final(self).well_formed(),
    {
        let size: (u32, u32) = match self.wayland.size {
            Some(size) => size,
            None => {
                return None;
            },
        };
        let source: SourceImage = match self.capture.source.take() {
            Some(source) => source,
            None => {
                return None;
            },
        };
        self.frame = Some(FrameState { w: source.width, h: source.height });
        if self.wayland.cursor.is_none() {
            let two: Binary64 = Binary64::from_integer(false, 2);
            let x: Binary64 = Binary64::from_integer(false, size.0 as u64).over(two);
            let y: Binary64 = Binary64::from_integer(false, size.1 as u64).over(two);
            self.wayland.cursor = Some((x, y));
        }
        self.render.frame_pending = false;
        self.render.dirty = true;
        proof {
            assert(*self == old(self).showing(source, size));
        }
        match self.draw() {
            Some(present) => Some(
                Magnify { source, destination: size, border: self.border, present },
            ),
            None => None,
        }
    }
}

} // verus!
