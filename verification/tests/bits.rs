use minq::bits::{
    abs, is_nan, larger, larger_64, less, less_eq, max_value, neg, round_clamp, scaled_24,
    total_key,
};

const SAMPLES: [f32; 22] = [
    0.0,
    -0.0,
    1.0,
    -1.0,
    0.5,
    -0.5,
    1.5,
    2.5,
    -2.5,
    0.49999997,
    126.5,
    127.5,
    -127.4,
    1e-40,
    -1e-45,
    3.4e38,
    -3.4e38,
    8388607.5,
    16777216.0,
    f32::INFINITY,
    f32::NEG_INFINITY,
    f32::NAN,
];

#[test]
fn comparisons_are_those_of_the_machine() {
    for a in SAMPLES {
        for b in SAMPLES {
            let (x, y) = (a.to_bits(), b.to_bits());
            assert_eq!(less(x, y), a < b, "{a} < {b}");
            assert_eq!(less_eq(x, y), a <= b, "{a} <= {b}");
            assert_eq!(total_key(x).cmp(&total_key(y)), a.total_cmp(&b), "{a} {b}");
            let larger = f32::from_bits(larger(x, y));
            let expected = a.max(b);
            assert!(larger == expected || (larger.is_nan() && expected.is_nan()), "{a} {b}");
        }
    }
}

#[test]
fn signs_and_kinds() {
    for a in SAMPLES {
        assert_eq!(abs(a.to_bits()), a.abs().to_bits());
        assert_eq!(neg(a.to_bits()), (-a).to_bits());
        assert_eq!(is_nan(a.to_bits()), a.is_nan());
    }
}

#[test]
fn rounding_is_that_of_the_machine() {
    for a in SAMPLES {
        let expected = a.round().clamp(-127.0, 127.0) as i32;
        assert_eq!(round_clamp(a.to_bits(), -127, 127), expected, "{a}");
        let expected = a.round().clamp(-8.0, 7.0) as i32;
        assert_eq!(round_clamp(a.to_bits(), -8, 7), expected, "{a}");
    }
    for i in -1000..1000 {
        let a = i as f32 * 0.25;
        let expected = a.round().clamp(-127.0, 127.0) as i32;
        assert_eq!(round_clamp(a.to_bits(), -127, 127), expected, "{a}");
    }
}

#[test]
fn the_largest_value_ignores_nan() {
    let bits: Vec<u32> = SAMPLES.iter().map(|a| a.to_bits()).collect();
    assert_eq!(f32::from_bits(max_value(&bits)), f32::INFINITY);
    assert_eq!(f32::from_bits(max_value(&[])), f32::NEG_INFINITY);
    assert_eq!(f32::from_bits(max_value(&[f32::NAN.to_bits(), 2.0f32.to_bits()])), 2.0);
}

#[test]
fn scaled_integers_are_exact() {
    for k in [0u32, 1, 2, 3, 5, 1023, 0x7F_FFFF, 0x80_0000, 0xFF_FFFF, 12345] {
        assert_eq!(f32::from_bits(scaled_24(k)), k as f32 / 16777216.0);
    }
}

#[test]
fn larger_doubles() {
    for a in [0.0f64, -1.0, 1e-9, 2.5, f64::NAN, f64::INFINITY] {
        for b in [1e-9f64, -3.0, 7.0] {
            assert_eq!(f64::from_bits(larger_64(a.to_bits(), b.to_bits())), a.max(b));
        }
    }
}
