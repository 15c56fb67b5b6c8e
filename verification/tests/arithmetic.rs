use wayzoom::number::binary::{Binary32, Binary64};

/// Encodings that reach every branch: zeros, subnormals, the edges of binades, ties,
/// large and small values, infinities.
fn singles() -> Vec<u32> {
    let mut v = vec![
        0, 1, 2, 3, 0x007f_ffff, 0x0080_0000, 0x0080_0001, 0x3f80_0000, 0x3f80_0001, 0x3f7f_ffff,
        0x4000_0000, 0x4040_0000, 0x4b00_0000, 0x4b7f_ffff, 0x4b80_0000, 0x4b80_0001, 0x7f7f_ffff,
        0x7f00_0000, 0x7f80_0000, 0x3f93_3333, 0x3b44_9ba6, 0x42f0_0000, 0x3eaa_aaab, 0x40a0_0000,
        0x7fc0_0000, 0x0400_0000, 0x0b80_0000, 0x3380_0000, 0x3400_0000, 0x33ff_ffff,
    ];
    let mut state: u32 = 0x1234_5678;
    for _ in 0..120 {
        state = state.wrapping_mul(1_664_525).wrapping_add(1_013_904_223);
        v.push(state & 0x7fff_ffff);
        // Values of ordinary size meet each other more often.
        v.push(0x3f00_0000 + (state >> 6));
    }
    let negatives: Vec<u32> = v.iter().map(|b| b | 0x8000_0000).collect();
    v.extend(negatives);
    v
}

fn doubles() -> Vec<u64> {
    let mut v: Vec<u64> = vec![
        0,
        1,
        0x000f_ffff_ffff_ffff,
        0x0010_0000_0000_0000,
        0x3ff0_0000_0000_0000,
        0x3ff0_0000_0000_0001,
        0x3fef_ffff_ffff_ffff,
        0x4340_0000_0000_0000,
        0x4340_0000_0000_0001,
        0x7fef_ffff_ffff_ffff,
        0x7ff0_0000_0000_0000,
        0x7ff8_0000_0000_0000,
        0x3ca0_0000_0000_0000,
        0x3cb0_0000_0000_0000,
        0x36a0_0000_0000_0000,
        0x380f_ffff_f000_0000,
        0x47ef_ffff_f000_0000,
        0x47ef_ffff_e000_0000,
    ];
    let mut state: u64 = 0x1234_5678_9abc_def0;
    for _ in 0..120 {
        state = state.wrapping_mul(6_364_136_223_846_793_005).wrapping_add(1_442_695_040_888_963_407);
        v.push(state & 0x7fff_ffff_ffff_ffff);
        v.push(0x3fe0_0000_0000_0000 + (state >> 9));
    }
    let negatives: Vec<u64> = v.iter().map(|b| b | 0x8000_0000_0000_0000).collect();
    v.extend(negatives);
    v
}

fn same32(got: Binary32, want: f32) {
    let bits = got.to_bits();
    if want.is_nan() {
        assert!(f32::from_bits(bits).is_nan());
    } else {
        assert_eq!(bits, want.to_bits());
    }
}

fn same64(got: Binary64, want: f64) {
    let bits = got.to_bits();
    if want.is_nan() {
        assert!(f64::from_bits(bits).is_nan());
    } else {
        assert_eq!(bits, want.to_bits());
    }
}

#[test]
fn single_arithmetic_agrees_with_the_machine() {
    let all = singles();
    for &a in &all {
        for &b in &all {
            let (x, y) = (Binary32::from_bits(a), Binary32::from_bits(b));
            let (p, q) = (f32::from_bits(a), f32::from_bits(b));
            same32(x.plus(y), p + q);
            same32(x.minus(y), p - q);
            same32(x.times(y), p * q);
            same32(x.over(y), p / q);
            assert_eq!(x.less_than(y), p < q);
        }
    }
}

#[test]
fn double_arithmetic_agrees_with_the_machine() {
    let all = doubles();
    for &a in &all {
        for &b in &all {
            let (x, y) = (Binary64::from_bits(a), Binary64::from_bits(b));
            let (p, q) = (f64::from_bits(a), f64::from_bits(b));
            same64(x.plus(y), p + q);
            same64(x.minus(y), p - q);
            same64(x.times(y), p * q);
            same64(x.over(y), p / q);
            assert_eq!(x.less_than(y), p < q);
        }
    }
}

#[test]
fn conversions_agree_with_the_machine() {
    for &a in &singles() {
        let (x, p) = (Binary32::from_bits(a), f32::from_bits(a));
        same64(x.convert(), p as f64);
        assert_eq!(x.to_floor(), p.floor() as u32);
        assert_eq!(x.to_byte(), p.round() as u8);
        same32(x.without_sign(), p.abs());
        same32(x.negate(), -p);
    }
    for &a in &doubles() {
        let (x, p) = (Binary64::from_bits(a), f64::from_bits(a));
        same32(x.convert(), p as f32);
        assert_eq!(x.to_floor(), p.floor() as u32);
        assert_eq!(x.to_byte(), p.round() as u8);
    }
    for n in [0u32, 1, 2, 255, 16_777_215, 16_777_216, 16_777_217, 16_777_219, u32::MAX] {
        same32(Binary32::from_integer(false, n as u64), n as f32);
        same64(Binary64::from_integer(false, n as u64), n as f64);
    }
    same32(Binary32::from_integer(true, 7), -7.0);
    same32(Binary32::from_integer(false, u64::MAX), u64::MAX as f32);
    same64(Binary64::from_integer(false, u64::MAX), u64::MAX as f64);
    for tenth in 0..3000u32 {
        let p = tenth as f32 / 10.0;
        let x = Binary32::from_bits(p.to_bits());
        assert_eq!(x.to_floor(), p.floor() as u32);
        assert_eq!(x.to_byte(), p.round() as u8);
    }
}

#[test]
fn extremes_and_intervals_agree_with_the_machine() {
    let all = singles();
    for &a in &all {
        for &b in &all {
            let (x, y) = (Binary32::from_bits(a), Binary32::from_bits(b));
            let (p, q) = (f32::from_bits(a), f32::from_bits(b));
            if p != q {
                same32(x.larger(y), p.max(q));
                same32(x.smaller(y), p.min(q));
            }
        }
        let (low, high) = (Binary32::from_bits(0), Binary32::from_bits(0x4100_0000));
        same32(
            Binary32::from_bits(a).clamp_to(low, high),
            f32::from_bits(a).clamp(0.0, 8.0),
        );
    }
}
