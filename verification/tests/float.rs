use ebml::float::promote;

fn widened(narrow: f32) -> u64 {
    f64::from(narrow).to_bits()
}

#[test]
fn promotion_of_normal_numbers() {
    assert_eq!(promote(1.5f32.to_bits()), 1.5f64.to_bits());
    assert_eq!(promote(1.0f32.to_bits()), 0x3ff0_0000_0000_0000);
    assert_eq!(promote((-2.0f32).to_bits()), 0xc000_0000_0000_0000);
    assert_eq!(promote(f32::MAX.to_bits()), widened(f32::MAX));
    assert_eq!(promote(f32::MIN_POSITIVE.to_bits()), widened(f32::MIN_POSITIVE));
    assert_eq!(promote(3.141_592_7f32.to_bits()), widened(3.141_592_7f32));
}

#[test]
fn promotion_of_zeros_and_infinities() {
    assert_eq!(promote(0), 0);
    assert_eq!(promote(0x8000_0000), 0x8000_0000_0000_0000);
    assert_eq!(promote(f32::INFINITY.to_bits()), f64::INFINITY.to_bits());
    assert_eq!(promote(f32::NEG_INFINITY.to_bits()), f64::NEG_INFINITY.to_bits());
}

#[test]
fn promotion_of_subnormal_numbers() {
    assert_eq!(promote(1), widened(f32::from_bits(1)));
    assert_eq!(promote(0x0000_0003), widened(f32::from_bits(3)));
    assert_eq!(promote(0x007f_ffff), widened(f32::from_bits(0x007f_ffff)));
    assert_eq!(promote(0x8040_0000), widened(f32::from_bits(0x8040_0000)));
    assert_eq!(promote(0x0000_1234), widened(f32::from_bits(0x0000_1234)));
}

#[test]
fn promotion_of_nan_is_nan() {
    assert!(f64::from_bits(promote(f32::NAN.to_bits())).is_nan());
    assert!(f64::from_bits(promote(0x7f80_0001)).is_nan());
    assert_eq!(promote(0x7fc0_0000), 0x7ff8_0000_0000_0000);
    assert_eq!(promote(0xffc0_0001), 0xfff8_0000_2000_0000);
}

#[test]
fn promotion_agrees_with_the_machine_on_every_exponent() {
    let mut exponent = 0u32;
    while exponent < 255 {
        let bits = (exponent << 23) | 0x0012_3456;
        assert_eq!(promote(bits), widened(f32::from_bits(bits)));
        let negative = bits | 0x8000_0000;
        assert_eq!(promote(negative), widened(f32::from_bits(negative)));
        exponent += 1;
    }
}
