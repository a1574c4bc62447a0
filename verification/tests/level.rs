use keyboard_drums::level::{
    clamp_output, clamp_unit, is_not_a_number, MINUS_ONE, ONE, ZERO,
};

fn level(x: f32) -> u32 {
    x.to_bits()
}

#[test]
fn the_constants_are_the_bit_patterns_of_their_numbers() {
    assert_eq!(ZERO, level(0.0));
    assert_eq!(ONE, level(1.0));
    assert_eq!(MINUS_ONE, level(-1.0));
}

#[test]
fn clamp_unit_agrees_with_the_clamp_of_numbers() {
    let samples = [
        0.0f32,
        -0.0,
        0.25,
        0.5,
        0.8,
        1.0,
        1.0000001,
        5.0,
        -0.3,
        -5.0,
        f32::MIN_POSITIVE,
        f32::MAX,
        f32::MIN,
        f32::INFINITY,
        f32::NEG_INFINITY,
        1.0e-40,
        -1.0e-40,
    ];
    for x in samples {
        assert_eq!(clamp_unit(level(x)), level(x.clamp(0.0, 1.0)), "clamping {}", x);
    }
}

#[test]
fn clamp_unit_leaves_what_is_not_a_number() {
    let nan = f32::NAN.to_bits();
    assert_eq!(clamp_unit(nan), nan);
    assert!(f32::from_bits(clamp_unit(nan)).is_nan());
    let negative_nan = nan | 0x8000_0000;
    assert_eq!(clamp_unit(negative_nan), negative_nan);
}

#[test]
fn clamp_output_agrees_with_the_clamp_of_numbers() {
    let samples = [
        0.0f32,
        -0.0,
        0.9,
        -0.9,
        1.0,
        -1.0,
        1.0000001,
        -1.0000001,
        2.7,
        -2.7,
        f32::MAX,
        f32::MIN,
        f32::INFINITY,
        f32::NEG_INFINITY,
    ];
    for x in samples {
        assert_eq!(clamp_output(level(x)), level(x.clamp(-1.0, 1.0)), "clamping {}", x);
    }
}

#[test]
fn clamp_output_brings_2_7_down_to_one() {
    let stacked = 0.9f32 + 0.9 + 0.9;
    assert!((stacked - 2.7).abs() < 1.0e-6);
    assert_eq!(f32::from_bits(clamp_output(level(stacked))), 1.0);
    assert_eq!(f32::from_bits(clamp_output(level(-stacked))), -1.0);
}

#[test]
fn clamp_output_leaves_what_is_not_a_number() {
    let nan = f32::NAN.to_bits();
    assert_eq!(clamp_output(nan), nan);
}

#[test]
fn what_is_not_a_number_is_told_apart_from_numbers() {
    for x in [0.0f32, -0.0, 1.0, -1.0, 1.0e-40, f32::MAX, f32::MIN, f32::INFINITY, f32::NEG_INFINITY] {
        assert!(!is_not_a_number(level(x)), "{} is a number", x);
    }
    let nan = f32::NAN.to_bits();
    for bits in [nan, nan | 0x8000_0000, 0x7F80_0001, 0xFF80_0001, 0x7FFF_FFFF, 0xFFFF_FFFF] {
        assert!(f32::from_bits(bits).is_nan());
        assert!(is_not_a_number(bits));
    }
}
