use yaml12::calendar::civil_from_days;
use yaml12::double::whole_days;
use yaml12::encode::{render_date_timestamp, render_posix_timestamp};

/// The date of a day count by the algorithm on years that begin in March.
fn march_based(days: i64) -> (i64, u32, u32) {
    let z = days + 719_468;
    let era = z.div_euclid(146_097);
    let doe = z - era * 146_097;
    let yoe = (doe - doe / 1460 + doe / 36_524 - doe / 146_096) / 365;
    let y = yoe + era * 400;
    let doy = doe - (365 * yoe + yoe / 4 - yoe / 100);
    let mp = (5 * doy + 2) / 153;
    let day = doy - (153 * mp + 2) / 5 + 1;
    let month = mp + if mp < 10 { 3 } else { -9 };
    let year = y + (month <= 2) as i64;
    (year, month as u32, day as u32)
}

/// The text of an instant by arithmetic on doubles.
fn by_doubles(secs: f64) -> Option<String> {
    if !secs.is_finite() {
        return None;
    }
    let mut days = (secs / 86_400.0).floor() as i64;
    let mut seconds = secs - (days as f64) * 86_400.0;
    if seconds < 0.0 {
        days -= 1;
        seconds += 86_400.0;
    }
    let (year, month, day) = march_based(days);
    let hour = (seconds / 3_600.0).floor() as u32;
    seconds -= hour as f64 * 3_600.0;
    let minute = (seconds / 60.0).floor() as u32;
    seconds -= minute as f64 * 60.0;
    let second = seconds.floor() as u32;
    let mut fraction = seconds - second as f64;
    if fraction >= 0.999_999_5 {
        fraction = 0.0;
    }
    let fraction_str = if fraction > 0.0 {
        let mut frac = fraction;
        let mut buf = String::from(".");
        for _ in 0..9 {
            frac *= 10.0;
            let digit = frac.floor() as u8;
            buf.push((b'0' + digit) as char);
            frac -= digit as f64;
            if frac < 1e-9 {
                break;
            }
        }
        while buf.ends_with('0') {
            buf.pop();
        }
        buf
    } else {
        String::new()
    };
    Some(format!(
        "{year:04}-{month:02}-{day:02}T{hour:02}:{minute:02}:{second:02}{fraction_str}Z"
    ))
}

/// The day count of a double by arithmetic on doubles.
fn day_by_doubles(days: f64) -> Option<i64> {
    if !days.is_finite() {
        return None;
    }
    let rounded = days.round();
    if (days - rounded).abs() > 1e-9 {
        return None;
    }
    Some(rounded as i64)
}

#[test]
fn both_calendar_algorithms_agree() {
    let mut days: i64 = -1_000_000;
    while days <= 1_000_000 {
        let date = civil_from_days(days);
        assert_eq!((date.year, date.month as u32, date.day as u32), march_based(days));
        days += 1;
    }
    for days in [-146_097_000_000i64, -719_468, -719_469, 146_096, 146_097, 3_652_059_000_000] {
        for delta in -400..400 {
            let date = civil_from_days(days + delta);
            assert_eq!(
                (date.year, date.month as u32, date.day as u32),
                march_based(days + delta)
            );
        }
    }
}

#[test]
fn day_counts_agree_with_arithmetic_on_doubles() {
    let mut samples: Vec<f64> = vec![
        0.0, -0.0, 1.0, -1.0, 0.5, -0.5, 1.5, 2.5, -2.5, 1e-9, -1e-9, 2e-9, 1e-10, 1e-300,
        0.999999999, 0.9999999989, 1.000000001, 1.0000000011, 4503599627370496.5,
        4503599627370495.5, 9007199254740991.0, 1e15, -1e15, 123456789.0000000001,
        19782.000000001, 19782.0000000009, 19782.0000000011, -19782.000000001,
    ];
    let tolerance = f64::from_bits(0x3e11_2e0b_e826_d695);
    samples.push(tolerance);
    samples.push(f64::from_bits(0x3e11_2e0b_e826_d696));
    samples.push(f64::from_bits(0x3e11_2e0b_e826_d694));
    samples.push(1.0 - f64::EPSILON);
    samples.push(1.0 + f64::EPSILON);
    for k in 0..2000 {
        samples.push(k as f64 / 7.0);
        samples.push(-(k as f64) / 64.0);
        samples.push(k as f64 + 1e-9 * (k as f64 / 1000.0));
    }
    for x in samples {
        assert_eq!(whole_days(x.to_bits()), day_by_doubles(x), "for {x:e}");
    }
}

#[test]
fn instants_of_our_days_agree_with_arithmetic_on_doubles() {
    let mut count = 0;
    for base in [946_684_800.0f64, 1_700_000_000.0, 2_147_483_647.0, -1_000_000_000.0] {
        for k in 0..5000 {
            let secs = base + k as f64 * 0.001 + k as f64 * 86_400.0 / 7.0;
            assert_eq!(render_posix_timestamp(secs.to_bits()), by_doubles(secs), "for {secs:?}");
            count += 1;
        }
    }
    for secs in [0.0f64, 1.5, 0.25, 86_399.5, 86_400.0, -0.5, -86_400.0, 1e9, 0.125, 59.999] {
        assert_eq!(render_posix_timestamp(secs.to_bits()), by_doubles(secs), "for {secs:?}");
        count += 1;
    }
    assert_eq!(count, 20_010);
}

#[test]
fn instants_near_the_epoch_agree_with_arithmetic_on_doubles() {
    let mut samples: Vec<f64> = vec![
        0.3, 0.7, 0.1, 0.2, 0.9, 1.3, 2.7, 0.123456789, 0.000001, 0.999999, 0.5000000001,
        59.3, 3599.7, 86399.3, 12.000000001, 0.33333333333333331, 0.66666666666666663,
        -0.3, -0.7, -1.3, -59.3, -86399.7, -0.123456789, -12.000001,
    ];
    let mut x: u64 = 88172645463325252;
    for _ in 0..20_000 {
        x ^= x << 13;
        x ^= x >> 7;
        x ^= x << 17;
        let unit = (x >> 11) as f64 / (1u64 << 53) as f64;
        samples.push(unit);
        samples.push(unit * 100_000.0);
        samples.push(-unit * 100_000.0);
        samples.push((unit * 1e6).round() / 1e3);
        samples.push(-(unit * 1e6).round() / 1e3);
    }
    let mut compared = 0;
    for secs in samples {
        let expected = by_doubles(secs).unwrap();
        // A point without digits and a time of day that has reached the next
        // second are not written.
        if expected.contains(".Z") || expected.contains("T24:") {
            continue;
        }
        assert_eq!(render_posix_timestamp(secs.to_bits()), Some(expected), "for {secs:?}");
        compared += 1;
    }
    assert!(compared > 99_000);
}

#[test]
fn a_fraction_is_written_without_a_bare_point_and_never_carried() {
    assert_eq!(
        render_posix_timestamp(0.3f64.to_bits()),
        Some("1970-01-01T00:00:00.3Z".to_string())
    );
    assert_eq!(
        render_posix_timestamp(1e-12f64.to_bits()),
        Some("1970-01-01T00:00:00Z".to_string())
    );
    assert_eq!(
        render_posix_timestamp((-1e-20f64).to_bits()),
        Some("1969-12-31T23:59:59Z".to_string())
    );
    assert_eq!(
        render_posix_timestamp(59.9999996f64.to_bits()),
        Some("1970-01-01T00:00:59Z".to_string())
    );
}

#[test]
fn dates_of_doubles() {
    assert_eq!(render_date_timestamp(1e-9f64.to_bits()), Some("1970-01-01".to_string()));
    assert_eq!(render_date_timestamp(1.1e-9f64.to_bits()), None);
    assert_eq!(render_date_timestamp(2932896.0f64.to_bits()), Some("9999-12-31".to_string()));
    assert_eq!(render_date_timestamp(f64::NAN.to_bits()), None);
}
