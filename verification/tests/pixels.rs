use wayland_client::protocol::wl_shm;
use wayland_protocols_wlr::screencopy::v1::client::zwlr_screencopy_frame_v1::Flags;
use wayzoom::border::{draw_border_ring, setup_border, BORDER_COLOR, BORDER_PX};
use wayzoom::capture::{
    canvas_holds_capture, is_supported, normalize, CaptureFormat, ShmFormat,
};
use wayzoom::image::{clear, upload};
use wayzoom::screencopy::Y_INVERT;

fn format(width: u32, height: u32, stride: u32) -> CaptureFormat {
    CaptureFormat { format: ShmFormat::Xrgb8888, width, height, stride }
}

#[test]
fn uploaded_pixels_are_opaque() {
    let data: Vec<u8> = (0..24).collect();
    let mut canvas = vec![0u8; 24];
    upload(&data, &mut canvas);
    for (i, byte) in canvas.iter().enumerate() {
        assert_eq!(*byte, if i % 4 == 3 { 0xff } else { i as u8 });
    }
    let once = canvas.clone();
    upload(&once, &mut canvas);
    assert_eq!(canvas, once);
}

#[test]
fn cleared_pixels_are_transparent() {
    let mut canvas = vec![3u8; 9];
    clear(&mut canvas);
    assert_eq!(canvas, vec![0; 9]);
}

#[test]
fn the_border_is_a_red_ring_around_nothing() {
    let (w, h) = (10u32, 8u32);
    let mut canvas = vec![1u8; (w * h * 4) as usize];
    setup_border(&mut canvas, w, h);
    assert_eq!((BORDER_PX, BORDER_COLOR), (3, 0xFF_FF3B30));
    for y in 0..h {
        for x in 0..w {
            let i = ((y * w + x) * 4) as usize;
            let ring = x < 3 || x >= 7 || y < 3 || y >= 5;
            let want = if ring { [0x30, 0x3b, 0xff, 0xff] } else { [0; 4] };
            assert_eq!(canvas[i..i + 4], want);
        }
    }
    let once = canvas.clone();
    draw_border_ring(&mut canvas, w, h, BORDER_PX, BORDER_COLOR);
    assert_eq!(canvas, once);
}

#[test]
fn wide_borders_leave_room_for_both_sides() {
    // Two pixels on either side of a middle column of odd width.
    let mut canvas = vec![0u8; 5 * 9 * 4];
    draw_border_ring(&mut canvas, 5, 9, 100, 0x01_020304);
    let middle: Vec<usize> = (0..45).filter(|p| canvas[p * 4] == 0).collect();
    assert_eq!(middle, vec![2 * 5 + 2, 3 * 5 + 2, 4 * 5 + 2, 5 * 5 + 2, 6 * 5 + 2]);
}

#[test]
fn only_two_formats_are_supported() {
    assert!(is_supported(ShmFormat::Argb8888));
    assert!(is_supported(ShmFormat::Xrgb8888));
    assert!(!is_supported(ShmFormat::Other(0x3432_4742)));
    for code in [0u32, 1, 2, 0x3432_4742, u32::MAX] {
        assert_eq!(ShmFormat::from_code(code).code(), code);
        assert_eq!(is_supported(ShmFormat::from_code(code)), code < 2);
    }
}

#[test]
fn packed_upright_captures_are_kept() {
    let canvas: Vec<u8> = (0..2 * 3 * 4).collect();
    let image = normalize(&canvas, format(2, 3, 8), false);
    assert_eq!((image.width, image.height), (2, 3));
    assert_eq!(image.data, canvas);
}

#[test]
fn padding_is_dropped() {
    // One pixel and three bytes of padding per row.
    let canvas = vec![1, 2, 3, 4, 99, 99, 99, 5, 6, 7, 8, 98, 98, 98];
    let image = normalize(&canvas, format(1, 2, 7), false);
    assert_eq!(image.data, vec![1, 2, 3, 4, 5, 6, 7, 8]);
    // The last row needs no padding.
    let image = normalize(&canvas[..11], format(1, 2, 7), false);
    assert_eq!(image.data, vec![1, 2, 3, 4, 5, 6, 7, 8]);
}

#[test]
fn upside_down_captures_are_turned_over() {
    let canvas: Vec<u8> = (0..3 * 4).collect();
    let once = normalize(&canvas, format(1, 3, 4), true);
    assert_eq!(once.data, vec![8, 9, 10, 11, 4, 5, 6, 7, 0, 1, 2, 3]);
    let twice = normalize(&once.data, format(1, 3, 4), true);
    assert_eq!(twice.data, canvas);
}

#[test]
fn padded_captures_are_turned_over_too() {
    // One pixel and one byte of padding per row.
    let canvas: Vec<u8> = (0..3 * 5).collect();
    let once = normalize(&canvas, format(1, 3, 5), true);
    assert_eq!(once.data, vec![10, 11, 12, 13, 5, 6, 7, 8, 0, 1, 2, 3]);
    let twice = normalize(&once.data, format(1, 3, 4), true);
    assert_eq!(twice.data, normalize(&canvas, format(1, 3, 5), false).data);
}

#[test]
fn empty_captures_are_empty_images() {
    assert_eq!(normalize(&[], format(5, 0, 20), true).data, Vec::<u8>::new());
    assert_eq!(normalize(&[], format(0, 1, 0), false).data, Vec::<u8>::new());
}

#[test]
fn canvases_have_to_hold_every_row() {
    assert!(canvas_holds_capture(11, format(1, 2, 7)));
    assert!(!canvas_holds_capture(10, format(1, 2, 7)));
    assert!(canvas_holds_capture(0, format(9, 0, 36)));
    assert!(!canvas_holds_capture(usize::MAX, format(u32::MAX, u32::MAX, 0)));
}

#[test]
fn codes_are_those_of_the_protocol() {
    assert_eq!(ShmFormat::Argb8888.code(), wl_shm::Format::Argb8888 as u32);
    assert_eq!(ShmFormat::Xrgb8888.code(), wl_shm::Format::Xrgb8888 as u32);
    assert_eq!(Y_INVERT, Flags::YInvert.bits());
    assert_eq!(Y_INVERT, Flags::all().bits());
}
