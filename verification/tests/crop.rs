use wayzoom::number::binary::{Binary32, Binary64};
use wayzoom::crop::{crop_source_rect, Rect};

fn single(x: f32) -> Binary32 {
    Binary32::from_bits(x.to_bits())
}

fn double(x: f64) -> Binary64 {
    Binary64::from_bits(x.to_bits())
}

fn value(x: Binary64) -> f64 {
    f64::from_bits(x.to_bits())
}

fn rect(x: f64, y: f64, w: f64, h: f64) -> Rect {
    Rect { x: double(x), y: double(y), w: double(w), h: double(h) }
}

fn crop(src: (u32, u32), logical: (u32, u32), cursor: (f64, f64), zoom: f32) -> Rect {
    crop_source_rect(
        src.0,
        src.1,
        logical.0,
        logical.1,
        (double(cursor.0), double(cursor.1)),
        single(zoom),
    )
}

#[test]
fn zoom_one_covers_whole_source() {
    let r = crop((1920, 1080), (1920, 1080), (500.0, 500.0), 1.0);
    assert_eq!(r, rect(0.0, 0.0, 1920.0, 1080.0));
}

#[test]
fn zoom_two_is_half_size_centered_on_cursor() {
    // Cursor at the center of a 1000x1000 output == center of source.
    let r = crop((1000, 1000), (1000, 1000), (500.0, 500.0), 2.0);
    assert_eq!(r, rect(250.0, 250.0, 500.0, 500.0));
}

#[test]
fn clamps_at_top_left_corner() {
    let r = crop((1000, 1000), (1000, 1000), (0.0, 0.0), 2.0);
    assert_eq!(r, rect(0.0, 0.0, 500.0, 500.0));
}

#[test]
fn clamps_at_bottom_right_corner() {
    let r = crop((1000, 1000), (1000, 1000), (1000.0, 1000.0), 2.0);
    assert_eq!(r, rect(500.0, 500.0, 500.0, 500.0));
}

#[test]
fn maps_logical_cursor_to_source_scale() {
    // Output is logical 1000 wide but the source is 2000px (scale 2).
    // Cursor at logical x=500 (center) -> source x=1000 (center).
    let r = crop((2000, 2000), (1000, 1000), (500.0, 500.0), 2.0);
    assert_eq!(r, rect(500.0, 500.0, 1000.0, 1000.0));
}

#[test]
fn rectangles_are_equal_by_value() {
    assert_eq!(rect(0.0, -0.0, 1.0, 2.0), rect(-0.0, 0.0, 1.0, 2.0));
    assert_ne!(rect(0.0, 0.0, 1.0, 2.0), rect(0.0, 0.0, 1.0, 3.0));
    assert_ne!(rect(f64::NAN, 0.0, 1.0, 2.0), rect(f64::NAN, 0.0, 1.0, 2.0));
}

/// The crop of one axis, by the machine's own arithmetic.
fn axis(source: u32, logical: u32, cursor: f64, zoom: f32) -> (f64, f64) {
    let zoom = (zoom as f64).max(1.0);
    let s = source as f64;
    let length = (s / zoom).max(1.0).min(s);
    let c = cursor / logical.max(1) as f64 * s;
    ((c - length / 2.0).clamp(0.0, (s - length).max(0.0)), length)
}

#[test]
fn crop_agrees_with_the_machine() {
    for zoom in [0.0f32, -3.0, 0.5, 1.0, 1.15, 1.3225, 2.0, 3.7, 7.999, 8.0, 1e9, f32::INFINITY] {
        for cursor in [-50.0f64, 0.0, 0.1, 33.3, 640.25, 1279.9, 1280.0, 5000.0, 1e300] {
            for (source, logical) in [(1920u32, 1280u32), (3, 7), (1, 1), (0, 0), (u32::MAX, 5)] {
                let r = crop((source, 1080), (logical, 720), (cursor, 360.5), zoom);
                let (x, w) = axis(source, logical, cursor, zoom);
                let (y, h) = axis(1080, 720, 360.5, zoom);
                assert_eq!(value(r.x), x);
                assert_eq!(value(r.w), w);
                assert_eq!(value(r.y), y);
                assert_eq!(value(r.h), h);
            }
        }
    }
}

#[test]
fn crop_never_leaves_the_source() {
    for step in 0..400u32 {
        let zoom = 1.0 + step as f32 * 0.0175;
        let r = crop((1367, 769), (1111, 625), (step as f64 * 3.1 - 40.0, 700.0), zoom);
        assert!(value(r.x) >= 0.0 && value(r.x) + value(r.w) <= 1367.0);
        assert!(value(r.y) >= 0.0 && value(r.y) + value(r.h) <= 769.0);
        assert!(value(r.w) >= 1.0 && value(r.h) >= 1.0);
    }
}

#[test]
fn whole_source_is_shown_below_zoom_one() {
    let r = crop((640, 480), (640, 480), (639.0, -7.0), 0.25);
    assert_eq!(r, rect(0.0, 0.0, 640.0, 480.0));
}

#[test]
fn crop_is_at_least_one_pixel() {
    let r = crop((4, 4), (4, 4), (2.0, 2.0), 1000.0);
    assert_eq!(r, rect(1.5, 1.5, 1.0, 1.0));
}

#[test]
fn an_empty_source_has_an_empty_crop() {
    let r = crop((0, 0), (100, 100), (50.0, 50.0), 1.0);
    assert_eq!(r, rect(0.0, 0.0, 0.0, 0.0));
    let r = crop((0, 0), (100, 100), (-7.0, 500.0), 3.0);
    assert_eq!(r, rect(0.0, 0.0, 0.0, 0.0));
    // Only one of the axes is empty.
    let r = crop((0, 10), (100, 100), (50.0, 50.0), 2.0);
    assert_eq!(r, rect(0.0, 2.5, 0.0, 5.0));
}
