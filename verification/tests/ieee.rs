use rusty_props::ieee;

fn samples() -> Vec<f32> {
    vec![
        0.0,
        -0.0,
        1.0,
        -1.0,
        0.5,
        -0.5,
        2.0,
        -2.0,
        f32::EPSILON,
        -f32::EPSILON,
        f32::MIN_POSITIVE,
        1.0e-40,
        -1.0e-40,
        f32::MAX,
        f32::MIN,
        f32::INFINITY,
        f32::NEG_INFINITY,
        f32::NAN,
        -f32::NAN,
        f32::from_bits(0x7f80_0001),
        f32::from_bits(0xffff_ffff),
        3.25,
        -1234.5,
    ]
}

#[test]
fn constants_are_the_patterns_of_their_numbers() {
    assert_eq!(ieee::NAN, f32::NAN.to_bits());
    assert_eq!(ieee::ZERO, 0.0f32.to_bits());
    assert_eq!(ieee::ONE, 1.0f32.to_bits());
    assert_eq!(ieee::TWO, 2.0f32.to_bits());
    assert_eq!(ieee::MINUS_TWO, (-2.0f32).to_bits());
    assert_eq!(ieee::INFINITY, f32::INFINITY.to_bits());
    assert_eq!(ieee::EPSILON, f32::EPSILON.to_bits());
    assert_eq!(ieee::SIGN, (-0.0f32).to_bits());
}

#[test]
fn not_a_number_is_told_from_the_pattern() {
    for x in samples() {
        assert_eq!(ieee::is_nan(x.to_bits()), x.is_nan(), "{}", x);
    }
    assert!(ieee::is_nan(0x7fc0_0000));
    assert!(ieee::is_nan(0x7f80_0001));
    assert!(!ieee::is_nan(0x7f80_0000));
    assert!(!ieee::is_nan(0xff80_0000));
    assert!(ieee::is_nan(0xff80_0001));
}

#[test]
fn absolute_value_clears_the_sign() {
    for x in samples() {
        if !x.is_nan() {
            assert_eq!(ieee::abs(x.to_bits()), x.abs().to_bits(), "{}", x);
        }
    }
    assert_eq!(ieee::abs(0xffc0_0000), 0x7fc0_0000);
}

#[test]
fn comparisons_agree_with_the_numbers() {
    for x in samples() {
        for y in samples() {
            assert_eq!(ieee::is_less(x.to_bits(), y.to_bits()), x < y, "{} < {}", x, y);
            assert_eq!(ieee::is_less_eq(x.to_bits(), y.to_bits()), x <= y, "{} <= {}", x, y);
        }
    }
}

#[test]
fn every_byte_converts_exactly() {
    for x in 0..=255u8 {
        assert_eq!(ieee::from_byte(x), f32::from(x).to_bits(), "{}", x);
    }
    assert_eq!(ieee::from_byte(0), 0);
    assert_eq!(ieee::from_byte(1), 0x3f80_0000);
    assert_eq!(ieee::from_byte(3), 0x4040_0000);
    assert_eq!(ieee::from_byte(255), 0x437f_0000);
}
