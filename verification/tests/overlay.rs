use wayzoom::args::{parse_args, unknown_argument, usage, Launch, HELP_STATUS, UNKNOWN_STATUS};
use wayzoom::number::binary::{Binary32, Binary64};
use wayzoom::capture::{CaptureFormat, ShmFormat};
use wayzoom::crop::Rect;
use wayzoom::input::{Capability, PointerEvent, PointerKind, ESCAPE};
use wayzoom::screencopy::{CaptureAction, CaptureFailure, FrameEvent};
use wayzoom::state::{is_drawable, AppState, Arrival, Present};

fn single(x: f32) -> Binary32 {
    Binary32::from_bits(x.to_bits())
}

fn double(x: f64) -> Binary64 {
    Binary64::from_bits(x.to_bits())
}

fn value(x: Binary32) -> f32 {
    f32::from_bits(x.to_bits())
}

fn rect(x: f64, y: f64, w: f64, h: f64) -> Rect {
    Rect { x: double(x), y: double(y), w: double(w), h: double(h) }
}

const FORMAT: CaptureFormat =
    CaptureFormat { format: ShmFormat::Xrgb8888, width: 2, height: 2, stride: 8 };

/// Shows the frame at `time`, with the decay that belongs to it.
fn show(state: &mut AppState, time: u32) -> Option<Present> {
    let decay = value(state.frame_exponent(time)).exp();
    state.frame(time, single(decay))
}

fn at(x: f64, y: f64, kind: PointerKind) -> PointerEvent {
    PointerEvent { on_overlay: true, position: (double(x), double(y)), kind }
}

fn wheel(notches: i32) -> PointerKind {
    PointerKind::Axis {
        discrete: notches,
        absolute: double(0.0),
        factor: single(1.15f32.powf(-notches as f32)),
    }
}

/// An overlay of 100 by 50 that shows a frozen frame of 2 by 2 pixels.
fn showing() -> AppState {
    let mut state = AppState::new(true);
    assert!(state.configure(100, 50));
    assert_eq!(state.surface_enter(false), Arrival::Capture);
    state.allocated();
    let canvas: Vec<u8> = (0..16).collect();
    assert!(state.captured(&canvas, FORMAT).is_some());
    state
}

#[test]
fn an_overlay_starts_without_anything() {
    let mut state = AppState::new(false);
    assert!(!state.exit && !state.closing && !state.border);
    assert_eq!((value(state.zoom), value(state.zoom_target)), (1.0, 1.0));
    assert!(state.draw().is_none());
    assert!(state.request_redraw().is_none());
    assert!(state.begin_magnify().is_none());
    assert!(!state.render.frame_pending);
}

#[test]
fn only_the_first_size_puts_up_a_transparent_buffer() {
    let mut state = AppState::new(true);
    assert!(!state.configure(0, 5));
    assert!(!state.configure(5, 0));
    assert_eq!(state.wayland.size, None);
    assert!(state.configure(640, 480));
    assert!(!state.configure(800, 600));
    assert_eq!(state.wayland.size, Some((800, 600)));
}

#[test]
fn the_output_is_captured_once() {
    let mut state = AppState::new(true);
    assert_eq!(state.surface_enter(false), Arrival::Capture);
    assert_eq!(state.surface_enter(false), Arrival::Nothing);
    assert_eq!(state.surface_enter(true), Arrival::Nothing);
    assert!(!state.exit);
}

#[test]
fn a_second_instance_makes_way() {
    let mut second = AppState::new(true);
    assert_eq!(second.surface_enter(true), Arrival::MakeWay);
    assert!(second.exit);
    let mut first = showing();
    first.request_exit();
    let mut time = 0;
    while !first.exit {
        time += 16;
        show(&mut first, time);
    }
}

#[test]
fn a_capture_runs_its_course() {
    let mut state = AppState::new(true);
    state.configure(100, 50);
    state.surface_enter(false);
    // Formats that cannot be shown do not count.
    let offer = FrameEvent::Buffer {
        format: ShmFormat::Other(9),
        width: 1,
        height: 1,
        stride: 4,
    };
    assert!(matches!(state.event(offer), CaptureAction::Nothing));
    assert_eq!(state.capture.format, None);
    let offer = FrameEvent::Buffer {
        format: ShmFormat::Xrgb8888,
        width: 2,
        height: 2,
        stride: 8,
    };
    assert!(matches!(state.event(offer), CaptureAction::Nothing));
    assert_eq!(state.capture.format, Some(FORMAT));
    assert!(matches!(state.event(FrameEvent::LinuxDmabuf), CaptureAction::Nothing));
    match state.event(FrameEvent::BufferDone) {
        CaptureAction::Allocate { size, format } => {
            assert_eq!((size, format), (16, FORMAT));
        },
        _ => unreachable!(),
    }
    state.allocated();
    assert!(matches!(state.event(FrameEvent::Flags(1)), CaptureAction::Nothing));
    assert!(state.capture.y_invert);
    assert!(matches!(state.event(FrameEvent::Damage), CaptureAction::Nothing));
    match state.event(FrameEvent::Ready) {
        CaptureAction::Read { format } => {
            assert_eq!(format, FORMAT);
        },
        _ => unreachable!(),
    }
    assert!(!state.capture.buffer);
    let canvas: Vec<u8> = (0..16).collect();
    let magnify = state.captured(&canvas, FORMAT).unwrap();
    // The rows came bottom-up.
    assert_eq!(magnify.source.data, vec![8, 9, 10, 11, 12, 13, 14, 15, 0, 1, 2, 3, 4, 5, 6, 7]);
    assert_eq!(magnify.destination, (100, 50));
    assert!(magnify.border);
    assert_eq!(magnify.present.rect, rect(0.0, 0.0, 2.0, 2.0));
    assert_eq!((magnify.present.width, magnify.present.height), (2, 2));
    assert_eq!(state.wayland.cursor, Some((double(50.0), double(25.0))));
    assert!(state.render.frame_pending && !state.render.dirty);
    assert!(state.capture.source.is_none());
}

#[test]
fn flags_tell_which_way_up_the_frame_is() {
    let mut state = AppState::new(true);
    // Flags with bits that are not defined change nothing.
    for (bits, inverted) in [(3u32, false), (1, true), (2, true), (0, false), (u32::MAX, false)] {
        state.event(FrameEvent::Flags(bits));
        assert_eq!(state.capture.y_invert, inverted);
    }
}

#[test]
fn empty_pools_are_not_allocated() {
    let mut state = AppState::new(true);
    let offer = FrameEvent::Buffer {
        format: ShmFormat::Argb8888,
        width: 0,
        height: 0,
        stride: 0,
    };
    state.event(offer);
    assert!(matches!(
        state.event(FrameEvent::BufferDone),
        CaptureAction::Allocate { size: 1, .. }
    ));
}

fn failure(state: &mut AppState, event: FrameEvent) -> CaptureFailure {
    let reported = match state.event(event) {
        CaptureAction::Report(failure) => failure,
        _ => unreachable!(),
    };
    assert!(state.exit);
    reported
}

#[test]
fn every_capture_failure_is_reported() {
    let mut state = AppState::new(true);
    assert_eq!(failure(&mut state, FrameEvent::BufferDone), CaptureFailure::NoFormat);
    let mut state = AppState::new(true);
    assert_eq!(failure(&mut state, FrameEvent::Failed), CaptureFailure::Copy);
    let mut state = AppState::new(true);
    // Without a format the copy cannot have been requested.
    assert!(matches!(state.event(FrameEvent::Ready), CaptureAction::Nothing));
    assert!(!state.exit);
    state.capture.format = Some(FORMAT);
    assert_eq!(failure(&mut state, FrameEvent::Ready), CaptureFailure::Canvas);
    let mut state = AppState::new(true);
    state.capture_failed();
    assert!(state.exit);
}

#[test]
fn failures_are_told_in_words() {
    assert_eq!(
        CaptureFailure::NoFormat.message(""),
        "wayzoom: compositor offered no usable shm capture format"
    );
    assert_eq!(
        CaptureFailure::Pool.message("out of memory"),
        "wayzoom: failed to create capture pool: out of memory"
    );
    assert_eq!(
        CaptureFailure::Buffer.message("too large"),
        "wayzoom: failed to create capture buffer: too large"
    );
    assert_eq!(
        CaptureFailure::Canvas.message("unused"),
        "wayzoom: capture ready but buffer canvas was unavailable"
    );
    assert_eq!(CaptureFailure::Copy.message(""), "wayzoom: screencopy failed");
}

#[test]
fn a_capture_without_an_output_waits() {
    let mut state = AppState::new(true);
    assert!(state.captured(&[1, 2, 3, 4], CaptureFormat { width: 1, height: 1, ..FORMAT }).is_none());
    assert!(state.frame.is_none());
    state.configure(10, 10);
    let magnify = state.begin_magnify().unwrap();
    assert_eq!(magnify.source.data, vec![1, 2, 3, 4]);
    assert!(state.begin_magnify().is_none());
}

#[test]
fn the_cursor_pans_and_the_wheel_zooms() {
    let mut state = showing();
    // Moving while a frame is pending waits for it.
    let moved = vec![at(75.0, 10.0, PointerKind::Motion)];
    assert!(state.pointer_frame(&moved).is_none());
    assert!(state.render.dirty);
    assert_eq!(value(state.zoom_target), 1.0);
    let shown = show(&mut state, 1000).unwrap();
    assert_eq!(shown.rect, rect(0.0, 0.0, 2.0, 2.0));
    // Nothing more to do.
    assert!(show(&mut state, 1016).is_none());
    assert!(!state.render.frame_pending);
    // The wheel sets the target, and the display follows frame by frame.
    let turned = vec![at(0.0, 0.0, wheel(-5))];
    assert!(state.pointer_frame(&turned).is_some());
    assert_eq!(value(state.zoom_target), 1.15f32.powf(5.0));
    assert_eq!(state.wayland.cursor, Some((double(75.0), double(10.0))));
    let mut time = 5000;
    let mut before = value(state.zoom);
    while show(&mut state, time).is_some() {
        assert!(value(state.zoom) > before);
        before = value(state.zoom);
        time += 16;
    }
    assert_eq!(value(state.zoom), value(state.zoom_target));
}

#[test]
fn events_elsewhere_are_ignored() {
    let mut state = showing();
    show(&mut state, 10);
    let mut moved = at(1.0, 2.0, PointerKind::Enter);
    moved.on_overlay = false;
    let mut turned = at(1.0, 2.0, wheel(-3));
    turned.on_overlay = false;
    let other = at(9.0, 9.0, PointerKind::Other);
    let still = at(9.0, 9.0, wheel(0));
    assert!(state.pointer_frame(&vec![moved, turned, other, still]).is_none());
    assert_eq!(state.wayland.cursor, Some((double(50.0), double(25.0))));
    assert_eq!(value(state.zoom_target), 1.0);
    assert!(!state.render.dirty);
}

#[test]
fn the_wheel_cannot_leave_the_range() {
    let mut state = showing();
    state.pointer_frame(&vec![at(0.0, 0.0, wheel(-100))]);
    assert_eq!(value(state.zoom_target), 8.0);
    state.pointer_frame(&vec![at(0.0, 0.0, wheel(200))]);
    assert_eq!(value(state.zoom_target), 1.0);
}

#[test]
fn escape_zooms_out_before_it_quits() {
    let mut state = showing();
    state.pointer_frame(&vec![at(50.0, 25.0, wheel(-10))]);
    for frame in 0..200u32 {
        show(&mut state, frame * 16);
    }
    assert!(value(state.zoom) > 4.0);
    assert!(state.press_key(0x61).is_none());
    assert!(!state.closing);
    assert!(state.press_key(ESCAPE).is_some());
    assert!(state.closing && !state.exit);
    // The wheel no longer counts, the pointer does.
    state.pointer_frame(&vec![at(0.0, 0.0, wheel(-5)), at(7.0, 8.0, PointerKind::Motion)]);
    assert_eq!(value(state.zoom_target), 1.0);
    assert_eq!(state.wayland.cursor, Some((double(7.0), double(8.0))));
    let mut time = 10_000;
    let mut before = value(state.zoom);
    while !state.exit {
        let shown = show(&mut state, time);
        assert_eq!(shown.is_none(), state.exit);
        assert!(value(state.zoom) < before);
        before = value(state.zoom);
        time += 16;
    }
    assert_eq!(value(state.zoom), 1.0);
}

#[test]
fn escape_quits_at_once_while_nothing_is_shown() {
    let mut state = AppState::new(true);
    assert!(state.press_key(ESCAPE).is_none());
    assert!(state.exit);
    let mut state = showing();
    state.closed();
    assert!(state.exit);
}

#[test]
fn idle_gaps_do_not_make_the_zoom_jump() {
    let mut state = showing();
    show(&mut state, 100);
    state.pointer_frame(&vec![at(0.0, 0.0, wheel(-5))]);
    // The clock was stopped while idle.
    assert_eq!(state.render.last_frame_time, None);
    show(&mut state, 1_000_000);
    let moved = value(state.zoom) - 1.0;
    let whole = value(state.zoom_target) - 1.0;
    assert!(moved > 0.0 && moved < whole / 4.0);
    show(&mut state, 9_000_000);
    assert!(value(state.zoom) < value(state.zoom_target));
}

#[test]
fn step_zoom_reports_whether_it_goes_on() {
    let mut state = AppState::new(true);
    assert!(!state.step_zoom(5, single(0.875)));
    assert_eq!(state.render.last_frame_time, Some(5));
    state.zoom_target = single(2.0);
    assert!(state.step_zoom(21, single(0.875)));
    assert_eq!(value(state.zoom), 1.125);
}

#[test]
fn seventy_steps_end_the_animation() {
    // The decays of 16 milliseconds and of the longest step, which bound those between.
    assert!((-16.0f32 / 120.0).exp() <= 0.8752);
    assert!((-64.0f32 / 120.0).exp() >= 0.5);
    for (zoom, target) in [(1.0f32, 8.0f32), (8.0, 1.0), (3.0, 3.01), (2.0, 2.0)] {
        let mut state = AppState::new(true);
        state.zoom = single(zoom);
        state.zoom_target = single(target);
        let mut over = false;
        // The clock wraps around on the way.
        let mut time = u32::MAX - 300;
        for step in 0..90 {
            let decay = value(state.frame_exponent(time)).exp();
            let animating = state.step_zoom(time, single(decay));
            assert!(!over || !animating);
            assert!(animating || value(state.zoom) == target);
            assert!(!animating || step < 69);
            over = !animating;
            time = time.wrapping_add(16);
        }
    }
}

#[test]
fn computed_decays_are_exponentials() {
    let mut state = AppState::new(true);
    for time in 0..=64u32 {
        state.render.last_frame_time = Some(1000);
        let exponent = value(state.frame_exponent(1000 + time));
        let decay = exponent.exp() as f64;
        // Sums of the power series lie above and below, by turns.
        let (mut term, mut sum) = (1.0f64, 1.0f64);
        for n in 0..8u32 {
            if n > 0 {
                term *= exponent as f64 / n as f64;
                sum += term;
            }
            let off = if n % 2 == 0 { decay - sum } else { sum - decay };
            assert!(off <= 1.0 / 50000.0);
        }
    }
}

#[test]
fn the_wheel_leaves_the_zoom_on_display_alone() {
    let mut state = showing();
    state.zoom = single(2.5);
    state.zoom_target = single(3.0);
    state.pointer_frame(&vec![at(1.0, 1.0, wheel(-1)), at(2.0, 2.0, wheel(3))]);
    assert_eq!(value(state.zoom), 2.5);
    let target = value(state.zoom_target);
    assert!((1.0..3.0).contains(&target));
}

#[test]
fn an_empty_frame_is_shown_as_nothing() {
    let mut state = AppState::new(false);
    state.configure(100, 100);
    let empty = CaptureFormat { width: 0, height: 0, stride: 0, ..FORMAT };
    let magnify = state.captured(&[], empty).unwrap();
    assert_eq!(magnify.present.rect, rect(0.0, 0.0, 0.0, 0.0));
}

#[test]
fn devices_are_bound_once() {
    let mut state = AppState::new(true);
    for device in [Capability::Keyboard, Capability::Pointer] {
        assert!(state.new_capability(device));
        state.capability_bound(device, true);
        assert!(!state.new_capability(device));
        assert!(state.remove_capability(device));
        assert!(!state.remove_capability(device));
        // A device that could not be bound is tried again.
        assert!(state.new_capability(device));
        state.capability_bound(device, false);
        assert!(state.new_capability(device));
    }
    assert!(!state.new_capability(Capability::Touch));
    state.capability_bound(Capability::Touch, true);
    assert!(!state.remove_capability(Capability::Touch));
}

#[test]
fn drawable_sizes_fit_the_protocol() {
    assert!(is_drawable(3840, 2160));
    assert!(is_drawable(0, 0));
    assert!(is_drawable(0x1fff_ffff, 1));
    assert!(!is_drawable(0x2000_0000, 1));
    assert!(!is_drawable(1, 0x8000_0000));
}

fn arguments(list: &[&str]) -> Vec<String> {
    list.iter().map(|a| a.to_string()).collect()
}

#[test]
fn arguments_choose_what_to_launch() {
    let launch = |list: &[&str]| parse_args(&arguments(list));
    assert_eq!(launch(&[]), Launch::Overlay { border: true });
    assert_eq!(launch(&["--no-border"]), Launch::Overlay { border: false });
    assert_eq!(launch(&["--no-border", "--no-border"]), Launch::Overlay { border: false });
    assert_eq!(launch(&["-h"]), Launch::Help);
    assert_eq!(launch(&["--no-border", "--help", "bogus"]), Launch::Help);
    assert_eq!(launch(&["--no-border", "bogus", "--help"]), Launch::Unknown(1));
    assert_eq!(launch(&[""]), Launch::Unknown(0));
    assert_eq!(launch(&["--No-Border"]), Launch::Unknown(0));
    assert_eq!((HELP_STATUS, UNKNOWN_STATUS), (0, 2));
}

#[test]
fn the_command_line_is_explained() {
    assert_eq!(
        usage("wayzoom"),
        "Usage: wayzoom [--no-border]\n\nA view-only screen magnifier.\n\nOptions:\n  --no-border   Don't draw the reminder border around the overlay.\n  -h, --help    Show this help."
    );
    assert_eq!(
        unknown_argument("wz", "--fast"),
        "wz: unknown argument '--fast' (try --help)"
    );
}
