//! The course of the one-shot capture: formats are offered, a buffer is allocated, the
//! copy completes, and the frozen frame goes on display.
use crate::capture::{
    holds_capture, is_supported, normalize, normalized, supported, CaptureFormat, ShmFormat,
    SourceImage,
};
use crate::state::{AppState, CaptureState, Magnify};
use vstd::prelude::*;
use vstd::string::*;

verus! {

/// What happened to the capture.
pub enum FrameEvent {
    /// A format for a copy into shared memory is offered.
    Buffer { format: ShmFormat, width: u32, height: u32, stride: u32 },
    /// A format for a copy into graphics memory is offered.
    LinuxDmabuf,
    /// A region changed.
    Damage,
    /// All formats have been offered.
    BufferDone,
    /// Properties of the copied frame, as protocol bits. Bits that the protocol does not
    /// define make the event void.
    Flags(u32),
    /// The copy is complete.
    Ready,
    /// The copy failed.
    Failed,
    /// Anything else.
    Other,
}

/// Why there will be no capture.
#[derive(Clone, Copy, Debug, PartialEq, Eq, Structural)]
pub enum CaptureFailure {
    /// No usable format was offered.
    NoFormat,
    /// The pool for the copy could not be created.
    Pool,
    /// The buffer for the copy could not be created.
    Buffer,
    /// The copy is complete but cannot be read.
    Canvas,
    /// The copy failed.
    Copy,
}

/// What to do about a capture event.
pub enum CaptureAction {
    Nothing,
    /// Allocate a pool of `size` bytes and a buffer in it, then request the copy.
    Allocate { size: usize, format: CaptureFormat },
    /// Read the copied pixels.
    Read { format: CaptureFormat },
    /// Report a failure.
    Report(CaptureFailure),
}

/// The protocol bit of frames whose rows come bottom-up.
pub const Y_INVERT: u32 = 1;

impl CaptureFailure {
    /// How the failure is reported, with its cause where something was refused.
    pub fn message(self, cause: &str) -> (r: String)
        ensures
            r@ == match self {
                CaptureFailure::NoFormat => "wayzoom: compositor offered no usable shm capture format"@,
                CaptureFailure::Pool => "wayzoom: failed to create capture pool: "@ + cause@,
                CaptureFailure::Buffer => "wayzoom: failed to create capture buffer: "@ + cause@,
                CaptureFailure::Canvas => "wayzoom: capture ready but buffer canvas was unavailable"@,
                CaptureFailure::Copy => "wayzoom: screencopy failed"@,
            },
    {
        match self {
            CaptureFailure::NoFormat => {
                "wayzoom: compositor offered no usable shm capture format".to_owned()
            },
            CaptureFailure::Pool => {
                "wayzoom: failed to create capture pool: ".to_owned().concat(cause)
            },
            CaptureFailure::Buffer => {
                "wayzoom: failed to create capture buffer: ".to_owned().concat(cause)
            },
            CaptureFailure::Canvas => {
                "wayzoom: capture ready but buffer canvas was unavailable".to_owned()
            },
            CaptureFailure::Copy => "wayzoom: screencopy failed".to_owned(),
        }
    }
}

/// The size of a pool for a copy: all its rows, and never empty.
pub open spec fn pool_size(format: CaptureFormat) -> int {
    if format.stride * format.height < 1 {
        1
    } else {
        format.stride * format.height
    }
}

impl AppState {
    /// The state after an event of the capture.
    pub open spec fn after_capture_event(self, event: FrameEvent) -> Self {
        match event {
            FrameEvent::Buffer { format, width, height, stride } => if supported(format) {
                AppState {
                    capture: CaptureState {
                        format: Some(CaptureFormat { format, width, height, stride }),
                        ..self.capture
                    },
                    ..self
                }
            } else {
                self
            },
            FrameEvent::BufferDone => if self.capture.format is Some {
                self
            } else {
                self.leaving()
            },
            FrameEvent::Flags(bits) => if bits == 0 || bits == Y_INVERT {
                AppState {
                    capture: CaptureState { y_invert: bits == Y_INVERT, ..self.capture },
                    ..self
                }
            } else {
                self
            },
            FrameEvent::Ready => if self.capture.format is None {
                self
            } else {
                let done = AppState {
                    capture: CaptureState { buffer: false, ..self.capture },
                    ..self
                };
                if self.capture.buffer {
                    done
                } else {
                    done.leaving()
                }
            },
            FrameEvent::Failed => self.leaving(),
            FrameEvent::LinuxDmabuf | FrameEvent::Damage | FrameEvent::Other => self,
        }
    }

    /// What to do about an event of the capture.
    pub open spec fn capture_action(self, event: FrameEvent) -> CaptureAction {
        match event {
            FrameEvent::BufferDone => match self.capture.format {
                Some(format) => CaptureAction::Allocate {
                    size: pool_size(format) as usize,
                    format,
                },
                None => CaptureAction::Report(CaptureFailure::NoFormat),
            },
            FrameEvent::Ready => match self.capture.format {
                Some(format) => if self.capture.buffer {
                    CaptureAction::Read { format }
                } else {
                    CaptureAction::Report(CaptureFailure::Canvas)
                },
                None => CaptureAction::Nothing,
            },
            FrameEvent::Failed => CaptureAction::Report(CaptureFailure::Copy),
            _ => CaptureAction::Nothing,
        }
    }

    /// Handles an event of the capture.
    pub fn event(&mut self, event: FrameEvent) -> (r: CaptureAction)
        requires
            event is BufferDone ==> (old(self).capture.format matches Some(format)
                ==> format.stride * format.height <= u32::MAX),
        ensures
            r == old(self).capture_action(event),
            *final(self) == old(self).after_capture_event(event),
            event matches FrameEvent::Buffer { format, width, height, stride } ==> (format
                is Argb8888 || format is Xrgb8888 ==> (final(self).capture.format matches Some(
                taken,
            ) && taken.format == format && taken.width == width && taken.height == height
                && taken.stride == stride)),
            r matches CaptureAction::Allocate { size, format } ==> Some(format) == old(
                self,
            ).capture.format && size >= format.stride * format.height,
            r matches CaptureAction::Read { format } ==> Some(format) == old(self).capture.format,
            old(self).well_formed() ==> final(self).well_formed(),
    {
        match event {
            FrameEvent::Buffer { format, width, height, stride } => {
                if is_supported(format) {
                    self.capture.format = Some(CaptureFormat { format, width, height, stride });
                }
                CaptureAction::Nothing
            },
            FrameEvent::BufferDone => {
                match self.capture.format {
                    Some(format) => {
                        let rows: u32 = format.stride * format.height;
                        let size: usize = if rows < 1 {
                            1
                        } else {
                            rows as usize
                        };
                        CaptureAction::Allocate { size, format }
                    },
                    None => {
                        self.exit = true;
                        CaptureAction::Report(CaptureFailure::NoFormat)
                    },
                }
            },
            FrameEvent::Flags(bits) => {
                if bits == 0 || bits == Y_INVERT {
                    self.capture.y_invert = bits == Y_INVERT;
                }
                CaptureAction::Nothing
            },
            FrameEvent::Ready => {
                match self.capture.format {
                    Some(format) => {
                        let held: bool = self.capture.buffer;
                        self.capture.buffer = false;
                        if held {
                            CaptureAction::Read { format }
                        } else {
                            self.exit = true;
                            CaptureAction::Report(CaptureFailure::Canvas)
                        }
                    },
                    None => CaptureAction::Nothing,
                }
            },
            FrameEvent::Failed => {
                self.exit = true;
                CaptureAction::Report(CaptureFailure::Copy)
            },
            FrameEvent::LinuxDmabuf | FrameEvent::Damage | FrameEvent::Other => {
                CaptureAction::Nothing
            },
        }
    }

    /// The state with a buffer for the copy.
    pub open spec fn with_buffer(self) -> Self {
        AppState { capture: CaptureState { buffer: true, ..self.capture }, ..self }
    }

    /// The buffer for the copy was allocated and the copy requested.
    pub fn allocated(&mut self)
        ensures
            *final(self) == old(self).with_buffer(),
            old(self).well_formed() ==> final(self).well_formed(),
    {
        self.capture.buffer = true;
    }

    /// Something that the capture needs could not be had.
    pub fn capture_failed(&mut self)
        ensures
            *final(self) == old(self).leaving(),
            old(self).well_formed() ==> final(self).well_formed(),
    {
        self.exit = true;
    }

    /// The state that holds a captured image.
    pub open spec fn holding(self, image: SourceImage) -> Self {
        AppState { capture: CaptureState { source: Some(image), ..self.capture }, ..self }
    }

    /// The copied pixels were read: freezes them, and puts them on display.
    pub fn captured(&mut self, canvas: &[u8], format: CaptureFormat) -> (r: Option<Magnify>)
        requires
            holds_capture(canvas@.len(), format),
        ensures
            exists|image: SourceImage|
                {
                    &&& image.width == format.width
                    &&& image.height == format.height
                    &&& image.data@ == normalized(
                        canvas@,
                        format.width as nat,
                        format.height as nat,
                        format.stride as nat,
                        old(self).capture.y_invert,
                    )
                    &&& r == #[trigger] old(self).holding(image).magnify_now()
                    &&& *final(self) == old(self).holding(image).magnifying()
                },
            old(self).well_formed() ==> final(self).well_formed(),
    {
        let image: SourceImage = normalize(canvas, format, self.capture.y_invert);
        let ghost frozen = image;
        self.capture.source = Some(image);
        proof {
            assert(*self == old(self).holding(frozen));
        }
        self.begin_magnify()
    }
}

} // verus!
