use json_value::number::Double;

fn bits_of(x: f64) -> u64 {
    x.to_bits()
}

#[test]
fn small_unsigned_integers_convert_exactly() {
    assert_eq!(Double::from_u128(0).to_bits(), bits_of(0.0));
    assert_eq!(Double::from_u128(1).to_bits(), 0x3ff0_0000_0000_0000);
    assert_eq!(Double::from_u128(1).to_bits(), bits_of(1.0));
    assert_eq!(Double::from_u128(2).to_bits(), bits_of(2.0));
    assert_eq!(Double::from_u128(3).to_bits(), bits_of(3.0));
    assert_eq!(Double::from_u128(43).to_bits(), bits_of(43.0));
    assert_eq!(Double::from_u128(100).to_bits(), bits_of(100.0));
    assert_eq!(Double::from_u128(480).to_bits(), bits_of(480.0));
}

#[test]
fn conversion_agrees_with_the_native_cast() {
    let samples: Vec<u128> = vec![
        0,
        1,
        2,
        3,
        255,
        65_535,
        4_294_967_295,
        (1u128 << 52) - 1,
        1u128 << 52,
        (1u128 << 53) - 1,
        1u128 << 53,
        (1u128 << 53) + 1,
        (1u128 << 53) + 2,
        (1u128 << 53) + 3,
        (1u128 << 54) + 2,
        (1u128 << 54) + 6,
        u64::MAX as u128,
        (u64::MAX as u128) - 1023,
        (u64::MAX as u128) - 1024,
        1u128 << 100,
        (1u128 << 100) + (1u128 << 47),
        (1u128 << 100) + (1u128 << 47) + 1,
        (1u128 << 100) + (1u128 << 48) + (1u128 << 47),
        u128::MAX,
        u128::MAX - (1u128 << 74),
        u128::MAX - (1u128 << 75),
        123_456_789_012_345_678_901_234_567_890,
    ];
    for n in samples {
        assert_eq!(Double::from_u128(n).to_bits(), bits_of(n as f64), "for {}", n);
    }
}

#[test]
fn signed_conversion_agrees_with_the_native_cast() {
    let samples: Vec<i128> = vec![
        0,
        1,
        -1,
        -2,
        -43,
        i64::MIN as i128,
        i64::MAX as i128,
        -(1i128 << 53) - 1,
        -(1i128 << 53) - 3,
        i128::MIN,
        i128::MIN + 1,
        i128::MAX,
        -123_456_789_012_345_678_901_234_567,
    ];
    for n in samples {
        assert_eq!(Double::from_i128(n).to_bits(), bits_of(n as f64), "for {}", n);
    }
}

#[test]
fn equality_of_doubles_is_that_of_the_format() {
    let samples: Vec<f64> = vec![
        0.0,
        -0.0,
        1.0,
        -1.0,
        480.0,
        f64::NAN,
        f64::INFINITY,
        f64::NEG_INFINITY,
        f64::MIN_POSITIVE,
        5e-324,
        1.5,
    ];
    for a in samples.iter() {
        for b in samples.iter() {
            let x = Double::from_bits(a.to_bits());
            let y = Double::from_bits(b.to_bits());
            assert_eq!(x == y, a == b, "for {} and {}", a, b);
        }
        assert_eq!(Double::from_bits(a.to_bits()).is_nan(), a.is_nan());
    }
}
