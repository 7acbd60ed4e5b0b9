use yaml12::calendar::{civil_from_days, render_date, render_instant};

#[test]
fn epoch_day_is_first_of_january_1970() {
    let date = civil_from_days(0);
    assert_eq!((date.year, date.month, date.day), (1970, 1, 1));
    assert_eq!(render_date(0), "1970-01-01");
}

#[test]
fn day_before_epoch_is_last_of_december_1969() {
    let date = civil_from_days(-1);
    assert_eq!((date.year, date.month, date.day), (1969, 12, 31));
    assert_eq!(render_date(-1), "1969-12-31");
}

#[test]
fn leap_days() {
    assert_eq!(render_date(11016), "2000-02-29");
    assert_eq!(render_date(11017), "2000-03-01");
    assert_eq!(render_date(-25509), "1900-02-28");
    assert_eq!(render_date(-25508), "1900-03-01");
    assert_eq!(render_date(19782), "2024-02-29");
    assert_eq!(render_date(19723 + 365), "2024-12-31");
}

#[test]
fn far_dates() {
    assert_eq!(render_date(-719528), "0000-01-01");
    assert_eq!(render_date(-719529), "-001-12-31");
    assert_eq!(render_date(2932896), "9999-12-31");
    assert_eq!(render_date(2932897), "10000-01-01");
    let first = civil_from_days(i64::MIN);
    assert!(first.year < -25_000_000_000_000_000);
    assert!((1..=12).contains(&first.month));
    let last = civil_from_days(i64::MAX);
    assert!(last.year > 25_000_000_000_000_000);
    assert!((1..=31).contains(&last.day));
}

#[test]
fn consecutive_days_are_consecutive_dates() {
    let mut previous = civil_from_days(-800_000);
    for days in -799_999..-790_000i64 {
        let date = civil_from_days(days);
        let same_month = date.year == previous.year && date.month == previous.month;
        if same_month {
            assert_eq!(date.day, previous.day + 1);
        } else {
            assert_eq!(date.day, 1);
        }
        previous = date;
    }
}

fn digits(text: &str) -> Vec<char> {
    text.chars().collect()
}

#[test]
fn instant_at_epoch() {
    assert_eq!(render_instant(0, &digits("")), "1970-01-01T00:00:00Z");
}

#[test]
fn instant_with_half_second() {
    assert_eq!(render_instant(1, &digits("5")), "1970-01-01T00:00:01.5Z");
}

#[test]
fn instant_before_epoch_keeps_time_of_day_positive() {
    assert_eq!(render_instant(-1, &digits("")), "1969-12-31T23:59:59Z");
    assert_eq!(render_instant(-86_400, &digits("")), "1969-12-31T00:00:00Z");
    assert_eq!(render_instant(-86_401, &digits("25")), "1969-12-30T23:59:59.25Z");
}

#[test]
fn instant_of_a_late_day() {
    assert_eq!(
        render_instant(1_700_000_000, &digits("123456789")),
        "2023-11-14T22:13:20.123456789Z"
    );
    assert_eq!(render_instant(86_399, &digits("000000001")), "1970-01-01T23:59:59.000000001Z");
    assert_eq!(render_instant(253_402_300_799, &digits("")), "9999-12-31T23:59:59Z");
}
