use wayzoom::number::binary::Binary32;
use wayzoom::render::{draw_border, sample_bilinear, SourceImage};

fn single(x: f32) -> Binary32 {
    Binary32::from_bits(x.to_bits())
}

fn render(
    src: &SourceImage,
    dst: &mut [u8],
    dst_w: u32,
    dst_h: u32,
    zoom: f32,
    center: (f32, f32),
    border_px: u32,
    border_color: u32,
) {
    wayzoom::render::render(
        src,
        dst,
        dst_w,
        dst_h,
        single(zoom),
        (single(center.0), single(center.1)),
        border_px,
        border_color,
    );
}

/// 2x2 source with four distinct pixels; values encode (x,y) in the R channel.
fn src_2x2() -> SourceImage {
    // [B, G, R, A] per pixel.
    let data = vec![
        10, 20, 30, 0, // (0,0)
        11, 21, 31, 0, // (1,0)
        12, 22, 32, 0, // (0,1)
        13, 23, 33, 0, // (1,1)
    ];
    SourceImage { data, width: 2, height: 2 }
}

/// An image of varied pixels.
fn pattern(width: u32, height: u32) -> SourceImage {
    let mut data = Vec::new();
    let mut state: u32 = 7;
    for _ in 0..width * height * 4 {
        state = state.wrapping_mul(1_664_525).wrapping_add(1_013_904_223);
        data.push((state >> 24) as u8);
    }
    SourceImage { data, width, height }
}

#[test]
fn zoom_one_is_identity_with_forced_alpha() {
    let src = src_2x2();
    let mut dst = vec![0u8; 2 * 2 * 4];
    render(&src, &mut dst, 2, 2, 1.0, (1.0, 1.0), 0, 0);
    let expected = vec![
        10, 20, 30, 0xFF, //
        11, 21, 31, 0xFF, //
        12, 22, 32, 0xFF, //
        13, 23, 33, 0xFF, //
    ];
    assert_eq!(dst, expected);
}

#[test]
fn full_border_fills_everything() {
    let src = src_2x2();
    let mut dst = vec![0u8; 2 * 2 * 4];
    // border_px huge -> clamped to w/2,h/2 = 1, which for 2x2 covers all pixels.
    render(&src, &mut dst, 2, 2, 1.0, (1.0, 1.0), 100, 0xFF_FF3B30);
    let px = 0xFF_FF3B30u32.to_le_bytes();
    for chunk in dst.chunks_exact(4) {
        assert_eq!(chunk, px);
    }
}

#[test]
fn crop_clamps_at_corner_without_panic() {
    let src = src_2x2();
    let mut dst = vec![0u8; 4 * 4 * 4];
    // High zoom + center far outside bounds: must clamp, sample top-left pixel.
    render(&src, &mut dst, 4, 4, 8.0, (-100.0, -100.0), 0, 0);
    // Crop is clamped into the top-left corner, so every pixel is a bilinear
    // blend of the four source pixels (R channels 30..=33).
    for chunk in dst.chunks_exact(4) {
        assert!((30..=33).contains(&chunk[2]), "R={} out of range", chunk[2]);
    }
}

#[test]
fn bilinear_blends_between_pixels() {
    // 2x1 source: R channel 0 on the left, 200 on the right.
    let data = vec![
        0, 0, 0, 0, // (0,0) R=0
        0, 0, 200, 0, // (1,0) R=200
    ];
    let src = SourceImage { data, width: 2, height: 1 };
    let mut dst = vec![0u8; 4 * 4];
    // zoom 1, dst width 4: sample x positions 0.0, 0.5, 1.0, 1.5.
    render(&src, &mut dst, 4, 1, 1.0, (0.0, 0.0), 0, 0);
    let r = |x: usize| dst[x * 4 + 2];
    assert_eq!(r(0), 0); // exact left pixel
    assert_eq!(r(1), 100); // halfway -> mean(0, 200)
    assert_eq!(r(2), 200); // exact right pixel
    assert_eq!(r(3), 200); // clamped past the edge
}

/// One sampled pixel, by the machine's own arithmetic.
fn sample(src: &SourceImage, x: f32, y: f32) -> [u8; 4] {
    let x = x.clamp(0.0, (src.width - 1) as f32);
    let y = y.clamp(0.0, (src.height - 1) as f32);
    let (x0, y0) = (x.floor() as u32, y.floor() as u32);
    let (x1, y1) = ((x0 + 1).min(src.width - 1), (y0 + 1).min(src.height - 1));
    let (fx, fy) = (x - x0 as f32, y - y0 as f32);
    let at = |px: u32, py: u32, c: usize| src.data[(py * src.width + px) as usize * 4 + c] as f32;
    let mut out = [0xff; 4];
    for c in 0..3 {
        let top = at(x0, y0, c) * (1.0 - fx) + at(x1, y0, c) * fx;
        let bottom = at(x0, y1, c) * (1.0 - fx) + at(x1, y1, c) * fx;
        out[c] = (top * (1.0 - fy) + bottom * fy).round() as u8;
    }
    out
}

#[test]
fn rendering_agrees_with_the_machine() {
    let src = pattern(7, 5);
    for zoom in [0.5f32, 1.0, 1.15, 1.52, 2.0, 3.3, 8.0, 100.0] {
        for center in [(0.0f32, 0.0f32), (3.3, 2.2), (6.9, 4.9), (-20.0, 99.0)] {
            let (w, h) = (11u32, 9u32);
            let mut dst = vec![0u8; (w * h * 4) as usize];
            render(&src, &mut dst, w, h, zoom, center, 0, 0);
            let z = zoom.max(1.0);
            let axis = |extent: u32, c: f32| {
                let length = (extent as f32 / z).max(1.0);
                ((c - length / 2.0).clamp(0.0, (extent as f32 - length).max(0.0)), length)
            };
            let (x0, cw) = axis(src.width, center.0);
            let (y0, ch) = axis(src.height, center.1);
            for y in 0..h {
                for x in 0..w {
                    let i = ((y * w + x) * 4) as usize;
                    let want = sample(
                        &src,
                        x0 + x as f32 * (cw / w as f32),
                        y0 + y as f32 * (ch / h as f32),
                    );
                    assert_eq!(dst[i..i + 4], want);
                }
            }
        }
    }
}

#[test]
fn own_size_at_zoom_one_is_the_source() {
    let src = pattern(13, 6);
    let mut dst = vec![0u8; src.data.len()];
    render(&src, &mut dst, 13, 6, 1.0, (50.0, -3.0), 0, 0);
    for (i, byte) in dst.iter().enumerate() {
        assert_eq!(*byte, if i % 4 == 3 { 0xff } else { src.data[i] });
    }
}

#[test]
fn colours_stay_between_those_of_the_source() {
    let mut src = pattern(5, 5);
    for byte in src.data.iter_mut() {
        *byte = 90 + *byte % 21;
    }
    let mut dst = vec![0u8; 40 * 40 * 4];
    render(&src, &mut dst, 40, 40, 2.7, (2.1, 3.4), 0, 0);
    for chunk in dst.chunks_exact(4) {
        assert!(chunk[..3].iter().all(|c| (90..=110).contains(c)));
        assert_eq!(chunk[3], 0xff);
    }
}

#[test]
fn border_is_drawn_over_the_view() {
    let src = pattern(6, 6);
    let mut dst = vec![0u8; 6 * 6 * 4];
    render(&src, &mut dst, 6, 6, 1.0, (3.0, 3.0), 1, 0x80_112233);
    for y in 0..6usize {
        for x in 0..6usize {
            let i = (y * 6 + x) * 4;
            if x == 0 || y == 0 || x == 5 || y == 5 {
                assert_eq!(dst[i..i + 4], [0x33, 0x22, 0x11, 0x80]);
            } else {
                assert_eq!(dst[i..i + 3], src.data[i..i + 3]);
                assert_eq!(dst[i + 3], 0xff);
            }
        }
    }
}

#[test]
fn empty_destination_needs_no_source() {
    let src = SourceImage { data: Vec::new(), width: 0, height: 0 };
    let mut dst = vec![5u8; 3];
    render(&src, &mut dst, 0, 9, 1.0, (0.0, 0.0), 2, 0);
    render(&src, &mut dst, 9, 0, 1.0, (0.0, 0.0), 2, 0);
    assert_eq!(dst, vec![5, 5, 5]);
}

#[test]
fn bytes_past_the_view_are_kept() {
    let src = src_2x2();
    let mut dst = vec![77u8; 2 * 2 * 4 + 3];
    render(&src, &mut dst, 2, 2, 1.0, (1.0, 1.0), 0, 0);
    assert_eq!(dst[16..], [77, 77, 77]);
}

#[test]
fn borders_without_room_are_not_drawn() {
    let mut dst = vec![9u8; 4];
    draw_border(&mut dst, 1, 1, 3, 0xFF_FF3B30);
    draw_border(&mut dst, 1, 1, 0, 0xFF_FF3B30);
    assert_eq!(dst, vec![9, 9, 9, 9]);
}

#[test]
fn stride_counts_four_bytes_per_pixel() {
    assert_eq!(pattern(13, 2).stride(), 52);
    assert_eq!(SourceImage { data: Vec::new(), width: 0, height: 4 }.stride(), 0);
}

#[test]
fn sampling_repeats_the_edges() {
    let src = pattern(4, 3);
    let at = |x: f32, y: f32| sample_bilinear(&src, single(x), single(y));
    for (x, y) in [(-5.0f32, 1.25f32), (99.0, 0.5), (1.5, -0.1), (2.5, 77.0), (-1e30, f32::INFINITY)] {
        assert_eq!(at(x, y), at(x.clamp(0.0, 3.0), y.clamp(0.0, 2.0)));
    }
    let corner = &src.data[src.data.len() - 4..];
    assert_eq!(at(1e9, 1e9), (corner[0], corner[1], corner[2], 0xff));
    assert_eq!(at(1.5, 0.25).3, 0xff);
}

#[test]
fn very_wide_sources_keep_their_colours() {
    // Past two to the 24, positions are whole and nothing is interpolated.
    let width = 16_777_218u32;
    let src = SourceImage { data: vec![100u8; width as usize * 4], width, height: 1 };
    let mut dst = vec![0u8; 5 * 4];
    render(&src, &mut dst, 5, 1, 8.0, (16_777_216.0, 0.0), 0, 0);
    for chunk in dst.chunks_exact(4) {
        assert_eq!(chunk, [100, 100, 100, 0xff]);
    }
}
