//! What the overlay remembers, along every course of events: the last usable offer, the
//! last orientation, the last size, and the border of the command line.
use crate::args::{launch, overlay_needs_known_arguments};
use crate::capture::{CaptureFormat, ShmFormat};
use crate::course::{decisions_are_final, Happening};
use crate::image::SourceImage;
use crate::number::binary::Binary32;
use crate::pointing::pointer_leaves_the_rest_alone;
use crate::screencopy::{CaptureAction, FrameEvent};
use crate::state::AppState;
use vstd::prelude::*;

verus! {

/// A happening that offers a usable format: one of the two with four bytes to a pixel,
/// blue first.
pub open spec fn offers(happening: Happening) -> bool {
    happening matches Happening::Capture(FrameEvent::Buffer { format, .. }) && (format
        == ShmFormat::Argb8888 || format == ShmFormat::Xrgb8888)
}

/// A happening that tells which way up the captured frame is.
pub open spec fn orients(happening: Happening) -> bool {
    happening matches Happening::Capture(FrameEvent::Flags(bits)) && bits <= 1
}

/// A happening that gives the overlay a size.
pub open spec fn sizes(happening: Happening) -> bool {
    happening matches Happening::Configure(w, h) && w > 0 && h > 0
}

/// What is remembered of two states is the same.
spec fn alike(a: AppState, b: AppState) -> bool {
    &&& a.capture.format == b.capture.format
    &&& a.capture.y_invert == b.capture.y_invert
    &&& a.wayland.size == b.wayland.size
}

/// Presenting something leaves what is remembered as it is.
proof fn lemma_presented(state: AppState)
    ensures
        alike(state.presented(), state),
        alike(state.redraw_requested(), state),
{
}

/// Showing a captured image leaves what is remembered as it is.
proof fn lemma_captured(state: AppState, image: SourceImage)
    ensures
        alike(state.holding(image).magnifying(), state),
{
    if let Some(size) = state.wayland.size {
        lemma_presented(state.holding(image).showing(image, size));
    }
}

/// A frame leaves what is remembered as it is.
proof fn lemma_frame(state: AppState, time: u32, decay: Binary32)
    ensures
        alike(state.after_frame(time, decay), state),
{
}

/// The way out leaves what is remembered as it is.
proof fn lemma_exit(state: AppState)
    ensures
        alike(state.exit_requested(), state),
{
}

/// An event of the capture that does not tell it anew leaves what is remembered as it is.
proof fn lemma_capture(state: AppState, event: FrameEvent)
    ensures
        ({
            let now = state.after_capture_event(event);
            &&& offers(Happening::Capture(event)) || now.capture.format == state.capture.format
            &&& orients(Happening::Capture(event)) || now.capture.y_invert == state.capture.y_invert
            &&& now.wayland.size == state.wayland.size
        }),
{
}

/// One happening that does not tell it anew leaves what is remembered as it is.
proof fn lemma_kept(state: AppState, happening: Happening)
    ensures
        ({
            let now = state.next(happening);
            &&& offers(happening) || now.capture.format == state.capture.format
            &&& orients(happening) || now.capture.y_invert == state.capture.y_invert
            &&& sizes(happening) || now.wayland.size == state.wayland.size
        }),
{
    let now = state.next(happening);
    match happening {
        Happening::Capture(event) => {
            lemma_capture(state, event);
        },
        Happening::Captured(image) => {
            lemma_captured(state, image);
            assert(alike(now, state));
        },
        Happening::Pointer(events) => {
            pointer_leaves_the_rest_alone(state, events@);
            assert(alike(now, state));
        },
        Happening::Frame(time, decay) => {
            lemma_frame(state, time, decay);
            assert(alike(now, state));
        },
        Happening::Key(_) | Happening::ExitRequest => {
            lemma_exit(state);
            assert(alike(now, state));
        },
        Happening::Configure(_, _) => {},
        _ => {
            assert(alike(now, state));
        },
    }
}

/// The offer is remembered until there is another one.
proof fn lemma_format_remembered(state: AppState, course: Seq<Happening>)
    requires
        forall|i: int| 0 <= i < course.len() ==> !offers(#[trigger] course[i]),
    ensures
        state.after(course).capture.format == state.capture.format,
    decreases course.len(),
{
    if course.len() > 0 {
        let before = course.drop_last();
        assert forall|i: int| 0 <= i < before.len() implies !offers(#[trigger] before[i]) by {
            assert(before[i] == course[i]);
        }
        lemma_format_remembered(state, before);
        assert(!offers(course[course.len() - 1]));
        lemma_kept(state.after(before), course.last());
    }
}

/// The orientation is remembered until there is another one.
proof fn lemma_orientation_remembered(state: AppState, course: Seq<Happening>)
    requires
        forall|i: int| 0 <= i < course.len() ==> !orients(#[trigger] course[i]),
    ensures
        state.after(course).capture.y_invert == state.capture.y_invert,
    decreases course.len(),
{
    if course.len() > 0 {
        let before = course.drop_last();
        assert forall|i: int| 0 <= i < before.len() implies !orients(#[trigger] before[i]) by {
            assert(before[i] == course[i]);
        }
        lemma_orientation_remembered(state, before);
        assert(!orients(course[course.len() - 1]));
        lemma_kept(state.after(before), course.last());
    }
}

/// The size is remembered until there is another one.
proof fn lemma_size_remembered(state: AppState, course: Seq<Happening>)
    requires
        forall|i: int| 0 <= i < course.len() ==> !sizes(#[trigger] course[i]),
    ensures
        state.after(course).wayland.size == state.wayland.size,
    decreases course.len(),
{
    if course.len() > 0 {
        let before = course.drop_last();
        assert forall|i: int| 0 <= i < before.len() implies !sizes(#[trigger] before[i]) by {
            assert(before[i] == course[i]);
        }
        lemma_size_remembered(state, before);
        assert(!sizes(course[course.len() - 1]));
        lemma_kept(state.after(before), course.last());
    }
}

/// Once a usable format was offered, and until another usable one is, what is allocated
/// and what is read is exactly of that format: its width, its height, its stride and the
/// order of its bytes. The pool has its stride times its height bytes, or one where that
/// is nothing.
pub proof fn last_usable_offer_is_taken(
    state: AppState,
    offer: CaptureFormat,
    course: Seq<Happening>,
)
    requires
        offer.format == ShmFormat::Argb8888 || offer.format == ShmFormat::Xrgb8888,
        offer.stride * offer.height <= u32::MAX,
        forall|i: int| 0 <= i < course.len() ==> !offers(#[trigger] course[i]),
    ensures
        ({
            let offered = FrameEvent::Buffer {
                format: offer.format,
                width: offer.width,
                height: offer.height,
                stride: offer.stride,
            };
            let now = state.next(Happening::Capture(offered)).after(course);
            &&& now.capture.format == Some(offer)
            &&& now.capture_action(FrameEvent::BufferDone) matches CaptureAction::Allocate {
                size,
                format,
            }
            &&& format.format == offer.format
            &&& format.width == offer.width
            &&& format.height == offer.height
            &&& format.stride == offer.stride
            &&& offer.stride * offer.height >= 1 ==> size == offer.stride * offer.height
            &&& offer.stride * offer.height == 0 ==> size == 1
            &&& now.capture.buffer ==> {
                &&& now.capture_action(FrameEvent::Ready) matches CaptureAction::Read { format }
                &&& format.format == offer.format
                &&& format.width == offer.width
                &&& format.height == offer.height
                &&& format.stride == offer.stride
            }
        }),
{
    let offered = FrameEvent::Buffer {
        format: offer.format,
        width: offer.width,
        height: offer.height,
        stride: offer.stride,
    };
    lemma_format_remembered(state.next(Happening::Capture(offered)), course);
}

/// Before any usable format was offered there is none to allocate for, and offers of
/// other formats do not count.
pub proof fn nothing_usable_is_no_format(border: bool, course: Seq<Happening>)
    requires
        forall|i: int| 0 <= i < course.len() ==> !offers(#[trigger] course[i]),
    ensures
        ({
            let now = AppState::initial(border).after(course);
            &&& now.capture.format is None
            &&& now.capture_action(FrameEvent::BufferDone) is Report
            &&& now.after_capture_event(FrameEvent::BufferDone).exit
            &&& now.capture_action(FrameEvent::Ready) is Nothing
        }),
{
    lemma_format_remembered(AppState::initial(border), course);
}

/// The rows are taken for bottom-up exactly if the last flags that the protocol defines
/// say so, and for top-down before there are any.
pub proof fn last_flags_orient_the_frame(state: AppState, bits: u32, course: Seq<Happening>)
    requires
        bits <= 1,
        forall|i: int| 0 <= i < course.len() ==> !orients(#[trigger] course[i]),
    ensures
        ({
            let told = state.next(Happening::Capture(FrameEvent::Flags(bits)));
            told.after(course).capture.y_invert <==> bits == 1
        }),
        forall|border: bool| !(#[trigger] AppState::initial(border)).after(course).capture.y_invert,
{
    lemma_orientation_remembered(state.next(Happening::Capture(FrameEvent::Flags(bits))), course);
    assert forall|border: bool| !(#[trigger] AppState::initial(border)).after(
        course,
    ).capture.y_invert by {
        lemma_orientation_remembered(AppState::initial(border), course);
    }
}

/// The overlay has the last size that it was given and that was not empty.
pub proof fn last_size_counts(state: AppState, w: u32, h: u32, course: Seq<Happening>)
    requires
        w > 0,
        h > 0,
        forall|i: int| 0 <= i < course.len() ==> !sizes(#[trigger] course[i]),
    ensures
        state.next(Happening::Configure(w, h)).after(course).wayland.size == Some((w, h)),
{
    lemma_size_remembered(state.next(Happening::Configure(w, h)), course);
}

/// From the command line to the display: whenever the frame is put on display, whatever
/// has happened before, the border is asked for exactly if the overlay was started with
/// it.
pub proof fn border_is_that_of_the_start(border: bool, course: Seq<Happening>)
    ensures
        ({
            let now = AppState::initial(border).after(course);
            now.magnify_now() matches Some(magnify) ==> (magnify.border <==> border)
        }),
        forall|image: SourceImage|
            (#[trigger] AppState::initial(border).after(course).holding(image)).magnify_now()
                matches Some(magnify) ==> (magnify.border <==> border),
{
    decisions_are_final(AppState::initial(border), course);
}

/// The border is drawn if there are no arguments, and never with the switch that turns it
/// off among them.
pub proof fn border_follows_the_command_line(
    args: Seq<String>,
    course: Seq<Happening>,
    image: SourceImage,
)
    requires
        launch(args) is Overlay,
    ensures
        ({
            let border = launch(args)->border;
            let now = AppState::initial(border).after(course).holding(image);
            now.magnify_now() matches Some(magnify) ==> {
                &&& args.len() == 0 ==> magnify.border
                &&& (exists|i: int| 0 <= i < args.len() && (#[trigger] args[i])@ == "--no-border"@)
                    ==> !magnify.border
            }
        }),
{
    overlay_needs_known_arguments(args);
    decisions_are_final(AppState::initial(launch(args)->border), course);
}

} // verus!
