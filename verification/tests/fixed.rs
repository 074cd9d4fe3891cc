use scalar_quantizer::fixed::{sample_from_bits, samples_from_bits, FRACTION_BITS, ONE};

fn by_float_cast(x: f32) -> i64 {
    ((x as f64) * 4294967296.0) as i64
}

#[test]
fn one_is_two_to_the_fraction_bits() {
    assert_eq!(ONE, 1i64 << FRACTION_BITS);
    assert_eq!(sample_from_bits(1.0f32.to_bits()), ONE);
}

#[test]
fn exact_samples_of_simple_numbers() {
    assert_eq!(sample_from_bits(0.0f32.to_bits()), 0);
    assert_eq!(sample_from_bits((-0.0f32).to_bits()), 0);
    assert_eq!(sample_from_bits(2.0f32.to_bits()), 2 * ONE);
    assert_eq!(sample_from_bits(100.0f32.to_bits()), 100 * ONE);
    assert_eq!(sample_from_bits((-3.0f32).to_bits()), -3 * ONE);
    assert_eq!(sample_from_bits(0.5f32.to_bits()), ONE / 2);
    assert_eq!(sample_from_bits((-0.375f32).to_bits()), -3 * ONE / 8);
    assert_eq!(sample_from_bits(1.5f32.to_bits()), 3 * ONE / 2);
}

#[test]
fn values_below_one_unit_round_toward_zero() {
    // 2^-32 is one unit; anything smaller in size is zero.
    assert_eq!(sample_from_bits(f32::from_bits(0x2f80_0000).to_bits()), 1);
    assert_eq!(sample_from_bits(0x2f80_0000), 1);
    assert_eq!(sample_from_bits(0x2f7f_ffff), 0);
    assert_eq!(sample_from_bits(0xaf7f_ffff), 0);
    assert_eq!(sample_from_bits(0xaf80_0000), -1);
    // 1.5 * 2^-32 and 1.75 * 2^-31 lose their fraction.
    assert_eq!(sample_from_bits(0x2fc0_0000), 1);
    assert_eq!(sample_from_bits(0x3060_0000), 3);
    assert_eq!(sample_from_bits(0xb060_0000), -3);
    // Subnormals.
    assert_eq!(sample_from_bits(0x0000_0001), 0);
    assert_eq!(sample_from_bits(0x807f_ffff), 0);
    assert_eq!(sample_from_bits(f32::MIN_POSITIVE.to_bits()), 0);
}

#[test]
fn values_beyond_the_range_saturate() {
    // 2^31 is the first power of two that does not fit.
    assert_eq!(sample_from_bits(2147483648.0f32.to_bits()), i64::MAX);
    assert_eq!(sample_from_bits((-2147483648.0f32).to_bits()), i64::MIN);
    // The largest float below 2^31 still fits.
    assert_eq!(sample_from_bits(0x4eff_ffff), 0x7fff_ff80_0000_0000);
    assert_eq!(sample_from_bits(0xceff_ffff), -0x7fff_ff80_0000_0000);
    assert_eq!(sample_from_bits(f32::MAX.to_bits()), i64::MAX);
    assert_eq!(sample_from_bits(f32::MIN.to_bits()), i64::MIN);
    assert_eq!(sample_from_bits(f32::INFINITY.to_bits()), i64::MAX);
    assert_eq!(sample_from_bits(f32::NEG_INFINITY.to_bits()), i64::MIN);
}

#[test]
fn nan_is_zero() {
    assert_eq!(sample_from_bits(f32::NAN.to_bits()), 0);
    assert_eq!(sample_from_bits(0x7f80_0001), 0);
    assert_eq!(sample_from_bits(0xffff_ffff), 0);
}

#[test]
fn agrees_with_the_saturating_float_cast() {
    let picked: [f32; 16] = [
        0.0,
        1.0,
        -1.0,
        0.1,
        -0.1,
        3.14159,
        1.0e-3,
        -7.25e-5,
        1.0e-9,
        1.0e-12,
        123456.789,
        -2.0e9,
        2.2e9,
        1.0e30,
        -1.0e30,
        f32::EPSILON,
    ];
    for x in picked {
        assert_eq!(sample_from_bits(x.to_bits()), by_float_cast(x), "{x}");
    }
    // A walk over the whole space of bit patterns.
    let mut bits: u32 = 0;
    loop {
        let x = f32::from_bits(bits);
        assert_eq!(sample_from_bits(bits), by_float_cast(x), "{bits:#x}");
        match bits.checked_add(0x0001_2345) {
            Some(next) => bits = next,
            None => break,
        }
    }
}

#[test]
fn every_exponent_agrees_with_the_float_cast() {
    for exponent in 0..=255u32 {
        for fraction in [0u32, 1, 0x40_0000, 0x7f_ffff, 0x12_3456] {
            for sign in [0u32, 0x8000_0000] {
                let bits = sign | (exponent << 23) | fraction;
                assert_eq!(sample_from_bits(bits), by_float_cast(f32::from_bits(bits)), "{bits:#x}");
            }
        }
    }
}

#[test]
fn samples_keep_the_order_of_the_floats() {
    let ascending: [f32; 9] = [-1.0e20, -5.5, -1.0, -1.0e-3, 0.0, 2.5e-4, 1.0, 77.0, 3.0e15];
    let samples = samples_from_bits(&ascending.map(f32::to_bits));
    for pair in samples.windows(2) {
        assert!(pair[0] <= pair[1]);
    }
}

#[test]
fn samples_from_bits_converts_each_word_in_place() {
    let words = [1.0f32.to_bits(), (-2.0f32).to_bits(), 0.25f32.to_bits(), f32::NAN.to_bits()];
    assert_eq!(samples_from_bits(&words), vec![ONE, -2 * ONE, ONE / 4, 0]);
    assert_eq!(samples_from_bits(&[]), Vec::<i64>::new());
}
