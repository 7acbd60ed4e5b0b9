use yaml12::double::{instant_of, integer_to_double, whole_days};

#[test]
fn whole_numbers_are_day_counts() {
    assert_eq!(whole_days(0.0f64.to_bits()), Some(0));
    assert_eq!(whole_days((-0.0f64).to_bits()), Some(0));
    assert_eq!(whole_days(1.0f64.to_bits()), Some(1));
    assert_eq!(whole_days((-1.0f64).to_bits()), Some(-1));
    assert_eq!(whole_days(19782.0f64.to_bits()), Some(19782));
    assert_eq!(whole_days(9007199254740992.0f64.to_bits()), Some(9007199254740992));
}

#[test]
fn day_counts_allow_a_billionth() {
    assert_eq!(whole_days(1.0000000005f64.to_bits()), Some(1));
    assert_eq!(whole_days(0.9999999995f64.to_bits()), Some(1));
    assert_eq!(whole_days((-2.9999999995f64).to_bits()), Some(-3));
    assert_eq!(whole_days(1.00000001f64.to_bits()), None);
    assert_eq!(whole_days(0.5f64.to_bits()), None);
    assert_eq!(whole_days(1e-300f64.to_bits()), Some(0));
    assert_eq!(whole_days(5e-324f64.to_bits()), Some(0));
    assert_eq!(whole_days(2e-9f64.to_bits()), None);
    assert_eq!(whole_days(1e-9f64.to_bits()), Some(0));
    assert_eq!(whole_days(0x3e11_2e0b_e826_d696), None);
    assert_eq!(whole_days(7.0000000009f64.to_bits()), Some(7));
    assert_eq!(whole_days(7.0000000011f64.to_bits()), None);
}

#[test]
fn day_counts_out_of_range_or_not_finite() {
    assert_eq!(whole_days(f64::INFINITY.to_bits()), None);
    assert_eq!(whole_days(f64::NEG_INFINITY.to_bits()), None);
    assert_eq!(whole_days(f64::NAN.to_bits()), None);
    assert_eq!(whole_days(1e300f64.to_bits()), None);
    assert_eq!(whole_days(9223372036854775808.0f64.to_bits()), None);
    assert_eq!(whole_days((-9223372036854775808.0f64).to_bits()), Some(i64::MIN));
    assert_eq!(whole_days(9223372036854774784.0f64.to_bits()), Some(9223372036854774784));
}

fn instant(x: f64) -> Option<(i64, String)> {
    instant_of(x.to_bits()).map(|(seconds, digits)| (seconds, digits.into_iter().collect()))
}

fn some(seconds: i64, digits: &str) -> Option<(i64, String)> {
    Some((seconds, digits.to_string()))
}

#[test]
fn instants_split_into_seconds_and_fraction_digits() {
    assert_eq!(instant(0.0), some(0, ""));
    assert_eq!(instant(1.5), some(1, "5"));
    assert_eq!(instant(-1.5), some(-2, "5"));
    assert_eq!(instant(-0.25), some(-1, "75"));
    assert_eq!(instant(86399.75), some(86399, "75"));
    assert_eq!(instant(-3.0), some(-3, ""));
    assert_eq!(instant(-0.0), some(0, ""));
    assert_eq!(instant(9007199254740992.0), some(9007199254740992, ""));
}

#[test]
fn fraction_digits_are_those_of_arithmetic_on_doubles() {
    assert_eq!(instant(0.3), some(0, "3"));
    assert_eq!(instant(0.7), some(0, "7"));
    assert_eq!(instant(0.1), some(0, "1"));
    assert_eq!(instant(1.3), some(1, "3"));
    assert_eq!(instant(0.123456789), some(0, "123456788"));
    assert_eq!(instant(0.5), some(0, "5"));
    assert_eq!(instant(1_700_000_000.3), some(1_700_000_000, "299999952"));
    assert_eq!(instant(-0.3), some(-1, "699999999"));
    assert_eq!(instant(0.000000001), some(0, "000000001"));
}

#[test]
fn a_fraction_that_is_next_to_nothing_or_next_to_one_is_dropped() {
    assert_eq!(instant(1e-300), some(0, ""));
    assert_eq!(instant(1e-12), some(0, ""));
    assert_eq!(instant(5e-324), some(0, ""));
    assert_eq!(instant(-1e-300), some(-1, ""));
    assert_eq!(instant(-1e-20), some(-1, ""));
    assert_eq!(instant(-1e-7), some(-1, ""));
    assert_eq!(instant(59.9999995), some(59, ""));
    assert_eq!(instant(59.99999949), some(59, "99999949"));
    assert_eq!(instant(0.9999995), some(0, ""));
    assert_eq!(instant(f64::from_bits(0.9999995f64.to_bits() - 1)), some(0, "999999499"));
}

#[test]
fn instants_out_of_range_or_not_finite() {
    assert_eq!(instant(f64::INFINITY), None);
    assert_eq!(instant(f64::NAN), None);
    assert_eq!(instant(1e19), None);
    assert_eq!(instant(-1e19), None);
    assert_eq!(instant(-9223372036854775808.0), some(i64::MIN, ""));
}

#[test]
fn integers_convert_to_the_nearest_double() {
    let mut samples: Vec<i64> = vec![
        0, 1, -1, 2, 3, 7, 1 << 31, -(1 << 31) - 1, (1 << 52) - 1, 1 << 52, (1 << 52) + 1,
        (1 << 53) - 1, 1 << 53, (1 << 53) + 1, (1 << 53) + 2, (1 << 53) + 3, (1 << 54) + 2,
        (1 << 54) + 6, (1 << 54) - 1, i64::MAX, i64::MAX - 1, i64::MIN, i64::MIN + 1,
        (1 << 62) + (1 << 9), (1 << 62) + (1 << 9) + 1, (1 << 62) + (1 << 9) - 1,
        (1 << 62) + 3 * (1 << 9), 0x7fff_ffff_ffff_fbff, 0x7fff_ffff_ffff_fc00,
        0x7fff_ffff_ffff_fdff, 0x7fff_ffff_ffff_fe00, 0x001f_ffff_ffff_ffff, 0x003f_ffff_ffff_ffff,
        0x003f_ffff_ffff_fffe, 0x003f_ffff_ffff_fffd,
    ];
    let mut x: i64 = 1;
    for k in 0..4000 {
        x = x.wrapping_mul(6364136223846793005).wrapping_add(1442695040888963407);
        samples.push(x);
        samples.push(x >> (k % 63));
        samples.push((1i64 << (k % 63)) + (x >> 40));
    }
    for v in samples {
        assert_eq!(integer_to_double(v), (v as f64).to_bits(), "for {v}");
    }
}
