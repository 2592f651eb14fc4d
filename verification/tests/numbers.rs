use bevy_worker::camera::{
    MAX_DISTANCE, MIN_DISTANCE, ORBIT_SENSITIVITY, PITCH_LIMIT, START_DISTANCE, START_PITCH,
    ZOOM_SENSITIVITY,
};
use bevy_worker::controls::{START_BLUE, START_GREEN, START_RED, START_SPEED, TILT};
use bevy_worker::pick::CUBE_HALF;
use bevy_worker::ray::{ONE, PARALLEL_LIMIT};
use bevy_worker::scene::{
    CUBE_EDGE, CUBE_ROUGHNESS, EIGHT, FOUR, ILLUMINANCE, MARKER_BLUE, MARKER_GREEN, MARKER_RADIUS,
    MARKER_RED, SIX, TWO,
};
use bevy_worker::single::{Single, INFINITY, NEG_INFINITY, SIGN_BIT, ZERO};
use bevy_worker::stats::WINDOW_SECONDS;
use bevy_worker::viewport::ONE_HALF;

fn single(x: f32) -> Single {
    Single::from_bits(x.to_bits())
}

fn samples() -> Vec<f32> {
    let mut all = vec![
        0.0,
        -0.0,
        1.0,
        -1.0,
        1.5,
        -1.5,
        0.25,
        1e-6,
        -1e-6,
        1e-45,
        -1e-45,
        f32::MIN_POSITIVE,
        -f32::MIN_POSITIVE,
        f32::MAX,
        f32::MIN,
        f32::INFINITY,
        f32::NEG_INFINITY,
        f32::NAN,
        -f32::NAN,
        20.0,
        19.999998,
        2.0,
        1.9999999,
    ];
    let mut bits: u32 = 1;
    for _ in 0..60 {
        bits = bits.wrapping_mul(1664525).wrapping_add(1013904223);
        all.push(f32::from_bits(bits));
    }
    all
}

#[test]
fn constants_are_the_decimals_they_stand_for() {
    assert_eq!(ORBIT_SENSITIVITY, 0.005f32.to_bits());
    assert_eq!(ZOOM_SENSITIVITY, 0.01f32.to_bits());
    assert_eq!(PITCH_LIMIT, 1.5f32.to_bits());
    assert_eq!(MIN_DISTANCE, 2.0f32.to_bits());
    assert_eq!(MAX_DISTANCE, 20.0f32.to_bits());
    assert_eq!(START_PITCH, 0.32f32.to_bits());
    assert_eq!(START_DISTANCE, 6.3f32.to_bits());
    assert_eq!(START_SPEED, 1.0f32.to_bits());
    assert_eq!(TILT, 0.4f32.to_bits());
    assert_eq!(ONE_HALF, 0.5f32.to_bits());
    assert_eq!(START_RED, 0.3f32.to_bits());
    assert_eq!(START_GREEN, 0.5f32.to_bits());
    assert_eq!(START_BLUE, 0.9f32.to_bits());
    assert_eq!(CUBE_HALF, 0.75f32.to_bits());
    assert_eq!(PARALLEL_LIMIT, 1e-6f32.to_bits());
    assert_eq!(WINDOW_SECONDS, 0.25f32.to_bits());
    assert_eq!(CUBE_EDGE, 1.5f32.to_bits());
    assert_eq!(CUBE_ROUGHNESS, 0.4f32.to_bits());
    assert_eq!(MARKER_RADIUS, 0.1f32.to_bits());
    assert_eq!(MARKER_RED, 1.0f32.to_bits());
    assert_eq!(MARKER_GREEN, 0.5f32.to_bits());
    assert_eq!(MARKER_BLUE, 0.1f32.to_bits());
    assert_eq!(ILLUMINANCE, 9000.0f32.to_bits());
    assert_eq!(ONE, 1.0f32.to_bits());
    assert_eq!(TWO, 2.0f32.to_bits());
    assert_eq!(FOUR, 4.0f32.to_bits());
    assert_eq!(SIX, 6.0f32.to_bits());
    assert_eq!(EIGHT, 8.0f32.to_bits());
    assert_eq!(ZERO, 0.0f32.to_bits());
    assert_eq!(SIGN_BIT, (-0.0f32).to_bits());
    assert_eq!(INFINITY, f32::INFINITY.to_bits());
    assert_eq!(NEG_INFINITY, f32::NEG_INFINITY.to_bits());
}

#[test]
fn bits_are_kept() {
    assert_eq!(single(-0.75).to_bits(), 0xbf40_0000);
}

#[test]
fn comparisons_are_those_of_the_numbers() {
    for a in samples() {
        for b in samples() {
            assert_eq!(single(a).is_below(single(b)), a < b);
            assert_eq!(single(a).is_at_least(single(b)), a >= b);
        }
    }
}

#[test]
fn zeros_are_neither_below_each_other() {
    assert!(!single(-0.0).is_below(single(0.0)));
    assert!(single(-0.0).is_at_least(single(0.0)));
    assert!(single(0.0) != single(-0.0));
}

#[test]
fn abs_and_neg_touch_the_sign_alone() {
    for a in samples() {
        assert_eq!(single(a).abs().to_bits(), a.abs().to_bits());
        assert_eq!(single(a).neg().to_bits(), (-a).to_bits());
        assert_eq!(single(a).is_nan(), a.is_nan());
    }
}

#[test]
fn clamp_is_that_of_the_numbers() {
    for a in samples() {
        let clamped = single(a).clamp(single(-1.5), single(1.5));
        assert_eq!(clamped.to_bits(), a.clamp(-1.5, 1.5).to_bits());
        assert_eq!(clamped.clamp(single(-1.5), single(1.5)), clamped);
    }
}

#[test]
fn clamp_passes_a_nan_through() {
    assert_eq!(single(f32::NAN).clamp(single(2.0), single(20.0)), single(f32::NAN));
}

#[test]
fn infinities_bound_all_numbers() {
    for a in samples() {
        if !a.is_nan() {
            assert!(single(a).is_at_least(Single::from_bits(NEG_INFINITY)));
            assert!(Single::from_bits(INFINITY).is_at_least(single(a)));
        }
    }
}

#[test]
fn order_of_unsigned_numbers_is_order_of_bits() {
    for a in samples() {
        for b in samples() {
            let (a, b) = (a.abs(), b.abs());
            if !a.is_nan() && !b.is_nan() {
                assert_eq!(single(a).is_below(single(b)), a.to_bits() < b.to_bits());
            }
        }
    }
}
