use wayzoom::number::binary::{Binary32, Binary64};
use wayzoom::zoom::{
    ease, exponent_of_decay, turned_target, wheel_exponent, wheel_notches, zoom_step,
};

fn single(x: f32) -> Binary32 {
    Binary32::from_bits(x.to_bits())
}

fn double(x: f64) -> Binary64 {
    Binary64::from_bits(x.to_bits())
}

fn value(x: Binary32) -> f32 {
    f32::from_bits(x.to_bits())
}

#[test]
fn the_zoom_step_is_fifteen_percent() {
    assert_eq!(value(zoom_step()), 1.15);
}

#[test]
fn notches_are_discrete_steps_or_scroll_distance() {
    assert_eq!(value(wheel_notches(-2, double(99.0))), -2.0);
    assert_eq!(value(wheel_notches(3, double(-45.0))), 3.0);
    assert_eq!(value(wheel_notches(i32::MIN, double(0.0))), i32::MIN as f32);
    for distance in [0.0f64, 15.0, -7.5, 1.0, 1e300, -0.3] {
        assert_eq!(value(wheel_notches(0, double(distance))), (distance / 15.0) as f32);
    }
}

#[test]
fn turning_the_wheel_up_zooms_in() {
    assert_eq!(value(wheel_exponent(-1, double(0.0))), 1.0);
    assert_eq!(value(wheel_exponent(2, double(0.0))), -2.0);
    assert_eq!(value(wheel_exponent(0, double(-30.0))), 2.0);
    let up = value(zoom_step()).powf(value(wheel_exponent(-1, double(0.0))));
    assert!(value(turned_target(single(2.0), single(up))) > 2.0);
    let down = value(zoom_step()).powf(value(wheel_exponent(1, double(0.0))));
    assert!(value(turned_target(single(2.0), single(down))) < 2.0);
}

#[test]
fn powers_of_the_step_are_what_the_wheel_needs() {
    for notches in -200..200i32 {
        let exponent = value(wheel_exponent(notches, double(0.0)));
        let power = value(zoom_step()).powf(exponent);
        assert!(power >= 0.0);
        assert!(exponent < 1.0 || power >= 1.1);
        assert!(exponent > -1.0 || power <= 0.9);
    }
    for distance in [f64::INFINITY, f64::NEG_INFINITY, 1e300, -1e-300] {
        let exponent = value(wheel_exponent(0, double(distance)));
        assert!(!value(zoom_step()).powf(exponent).is_nan());
    }
}

#[test]
fn the_target_stays_in_its_range() {
    assert_eq!(value(turned_target(single(1.0), single(0.5))), 1.0);
    assert_eq!(value(turned_target(single(8.0), single(1.15))), 8.0);
    assert_eq!(value(turned_target(single(2.0), single(1.15))), 2.0 * 1.15);
    assert_eq!(value(turned_target(single(2.0), single(f32::INFINITY))), 8.0);
    assert_eq!(value(turned_target(single(2.0), single(0.0))), 1.0);
}

#[test]
fn every_notch_counts() {
    for target in [1.0f32, 1.0001, 2.0, 5.5, 7.9999, 8.0] {
        for notches in 1..5 {
            let up = turned_target(single(target), single(1.15f32.powf(notches as f32)));
            let down = turned_target(single(target), single(1.15f32.powf(-notches as f32)));
            assert!(value(up) > target || target == 8.0);
            assert!(value(down) < target || target == 1.0);
        }
    }
}

#[test]
fn time_steps_are_capped() {
    let exponent = |previous: Option<u32>, time: u32| value(exponent_of_decay(previous, time));
    assert_eq!(exponent(None, 1234), -16.0 / 120.0);
    assert_eq!(exponent(Some(1000), 1017), -17.0 / 120.0);
    assert_eq!(exponent(Some(1000), 1064), -64.0 / 120.0);
    assert_eq!(exponent(Some(1000), 900_000), -64.0 / 120.0);
    // The clock wraps around.
    assert_eq!(exponent(Some(u32::MAX - 9), 10), -20.0 / 120.0);
    assert_eq!(exponent(Some(7), 7), 0.0);
}

#[test]
fn easing_agrees_with_the_machine() {
    for target in [1.0f32, 1.15, 2.0, 4.6, 8.0] {
        let mut zoom = 3.1f32;
        let mut mine = single(zoom);
        for _ in 0..200 {
            let decay = (-16.0f32 / 120.0).exp();
            let (next, animating) = ease(mine, single(target), single(decay));
            let diff = target - zoom;
            if diff.abs() < 0.003 {
                zoom = target;
                assert!(!animating);
            } else {
                zoom += diff * (1.0 - decay);
                assert!(animating);
            }
            assert_eq!(value(next), zoom);
            mine = next;
        }
        assert_eq!(zoom, target);
    }
}

#[test]
fn easing_neither_stalls_nor_jumps() {
    // One millisecond, and the longest step.
    for (step, most) in [(1.0f32, 2000), (16.0, 69), (64.0, 30)] {
        let decay = (-step / 120.0).exp();
        assert!((0.5..=127.0 / 128.0).contains(&decay));
        let mut zoom = single(8.0);
        let mut frames = 0;
        loop {
            let (next, animating) = ease(zoom, single(1.0), single(decay));
            if !animating {
                break;
            }
            let (before, after) = (value(zoom), value(next));
            assert!(after <= before - 1.0 / 65536.0);
            assert!(after - 1.0 >= (before - 1.0) / 4.0);
            zoom = next;
            frames += 1;
        }
        assert!(frames < most);
    }
}

#[test]
fn a_zoom_near_its_target_takes_its_value() {
    let (zoom, animating) = ease(single(1.9975), single(2.0), single(0.9));
    assert_eq!(value(zoom), 2.0);
    assert!(!animating);
    let (zoom, animating) = ease(single(1.996), single(2.0), single(0.5));
    assert_eq!(value(zoom), 1.996 + (2.0 - 1.996) * 0.5);
    assert!(animating);
}

#[test]
fn zooms_are_equal_by_value() {
    assert_eq!(single(0.0), single(-0.0));
    assert_ne!(single(f32::NAN), single(f32::NAN));
    assert_ne!(single(1.0), single(-1.0));
    assert_eq!(double(2.5), double(2.5));
    assert_ne!(double(2.5), double(2.25));
}
