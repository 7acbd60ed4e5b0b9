//! The proleptic Gregorian calendar over day counts: the civil date of a
//! day number counted from 1970-01-01, and the textual forms of dates and
//! instants.

use vstd::prelude::*;
use crate::text::{
    push_all, push_padded, push_signed_padded, signed_padded, text_of, zero_padded,
};

verus! {

/// A calendar date as mathematical integers.
pub struct Date {
    pub year: int,
    pub month: int,
    pub day: int,
}

/// A calendar date in machine integers.
#[derive(Clone, Copy, Debug, PartialEq, Eq, Structural)]
pub struct CivilDate {
    pub year: i64,
    pub month: u8,
    pub day: u8,
}

impl View for CivilDate {
    type V = Date;

    open spec fn view(&self) -> Date {
        Date { year: self.year as int, month: self.month as int, day: self.day as int }
    }
}

/// Whether `year` has a 29th of February.
pub open spec fn is_leap_year(year: int) -> bool {
    year % 4 == 0 && (year % 100 != 0 || year % 400 == 0)
}

/// The number of days of month `month` in a year that is leap or not.
pub open spec fn month_days(month: int, leap: bool) -> int {
    if month == 2 {
        if leap {
            29
        } else {
            28
        }
    } else if month == 4 || month == 6 || month == 9 || month == 11 {
        30
    } else {
        31
    }
}

/// The number of days of month `month` in `year`.
pub open spec fn days_in_month(year: int, month: int) -> int {
    month_days(month, is_leap_year(year))
}

/// The number of days of `year` that lie before the first of `month`.
pub open spec fn days_before_month(year: int, month: int) -> int
    decreases month,
{
    if month <= 1 {
        0
    } else {
        days_before_month(year, month - 1) + days_in_month(year, month - 1)
    }
}

/// The number of leap years among the years 1 to `year - 1`, continued
/// below year 1 by the same 400-year pattern.
pub open spec fn leap_years_before(year: int) -> int {
    (year - 1) / 4 - (year - 1) / 100 + (year - 1) / 400
}

/// The day number of the first of January of `year`; 1970 gives 0.
pub open spec fn days_before_year(year: int) -> int {
    365 * (year - 1970) + leap_years_before(year) - leap_years_before(1970)
}

impl Date {
    /// Whether the month and the day exist in the calendar.
    pub open spec fn valid(self) -> bool {
        &&& 1 <= self.month <= 12
        &&& 1 <= self.day <= days_in_month(self.year, self.month)
    }

    /// The number of days from 1970-01-01 to this date.
    pub open spec fn day_number(self) -> int {
        days_before_year(self.year) + days_before_month(self.year, self.month) + self.day - 1
    }

    /// The form `YYYY-MM-DD`: the year filled to four characters, month and
    /// day to two.
    pub open spec fn text(self) -> Seq<char> {
        signed_padded(self.year, 4) + seq!['-'] + zero_padded(self.month as nat, 2) + seq!['-']
            + zero_padded(self.day as nat, 2)
    }
}

/// The date whose day number is `days`.
pub open spec fn date_of_day(days: int) -> Date {
    choose|d: Date| d.valid() && d.day_number() == days
}

/// The days before each month, written out.
pub proof fn lemma_days_before_month(year: int)
    ensures
        days_before_month(year, 1) == 0,
        days_before_month(year, 2) == 31,
        days_before_month(year, 3) == 59 + if is_leap_year(year) { 1int } else { 0 },
        days_before_month(year, 4) == 90 + if is_leap_year(year) { 1int } else { 0 },
        days_before_month(year, 5) == 120 + if is_leap_year(year) { 1int } else { 0 },
        days_before_month(year, 6) == 151 + if is_leap_year(year) { 1int } else { 0 },
        days_before_month(year, 7) == 181 + if is_leap_year(year) { 1int } else { 0 },
        days_before_month(year, 8) == 212 + if is_leap_year(year) { 1int } else { 0 },
        days_before_month(year, 9) == 243 + if is_leap_year(year) { 1int } else { 0 },
        days_before_month(year, 10) == 273 + if is_leap_year(year) { 1int } else { 0 },
        days_before_month(year, 11) == 304 + if is_leap_year(year) { 1int } else { 0 },
        days_before_month(year, 12) == 334 + if is_leap_year(year) { 1int } else { 0 },
        days_before_month(year, 13) == 365 + if is_leap_year(year) { 1int } else { 0 },
{
    reveal_with_fuel(days_before_month, 14);
}

/// A year has 365 days, and one more where it is a leap year.
pub proof fn lemma_year_length(year: int)
    ensures
        days_before_year(year + 1) == days_before_year(year) + 365 + if is_leap_year(year) {
            1int
        } else {
            0
        },
{
}

/// Later years begin later, by at least 365 days a year.
pub proof fn lemma_years_ascend(first: int, second: int)
    requires
        first <= second,
    ensures
        days_before_year(second) >= days_before_year(first) + 365 * (second - first),
    decreases second - first,
{
    if first < second {
        lemma_years_ascend(first, second - 1);
        lemma_year_length(second - 1);
    }
}

/// Every valid date lies within its own year.
pub proof fn lemma_day_within_year(d: Date)
    requires
        d.valid(),
    ensures
        days_before_year(d.year) <= d.day_number() < days_before_year(d.year + 1),
{
    lemma_days_before_month(d.year);
    lemma_year_length(d.year);
}

/// Two valid dates with the same day number are the same date.
pub proof fn lemma_day_number_injective(a: Date, b: Date)
    requires
        a.valid(),
        b.valid(),
        a.day_number() == b.day_number(),
    ensures
        a == b,
{
    lemma_day_within_year(a);
    lemma_day_within_year(b);
    if a.year < b.year {
        lemma_years_ascend(a.year + 1, b.year);
    } else if b.year < a.year {
        lemma_years_ascend(b.year + 1, a.year);
    } else {
        lemma_days_before_month(a.year);
    }
}

/// A valid date is the date of its day number.
pub proof fn lemma_date_of_day(d: Date)
    requires
        d.valid(),
    ensures
        date_of_day(d.day_number()) == d,
{
    let found = date_of_day(d.day_number());
    lemma_day_number_injective(found, d);
}

/// The number of days of a month, for a year known to be leap or not.
fn month_length(month: u8, leap: bool) -> (n: i128)
    ensures
        n == month_days(month as int, leap),
{
    if month == 2 {
        if leap {
            29
        } else {
            28
        }
    } else if month == 4 || month == 6 || month == 9 || month == 11 {
        30
    } else {
        31
    }
}

/// The year reached after `era` eras of 400 years, `century` centuries,
/// `cycle` cycles of four years and `step` single years from year 1, the day
/// number of its first day, and whether it is a leap year.
proof fn lemma_year_from_parts(era: int, century: int, cycle: int, step: int)
    requires
        0 <= century <= 3,
        0 <= cycle <= 24,
        0 <= step <= 3,
    ensures
        ({
            let year = 400 * era + 100 * century + 4 * cycle + step + 1;
            &&& days_before_year(year) == 146_097 * era + 36_524 * century + 1_461 * cycle + 365
                * step - 719_162
            &&& is_leap_year(year) == (step == 3 && (cycle != 24 || century == 3))
        }),
{
    let before = 400 * era + 100 * century + 4 * cycle + step;
    assert(before == 4 * (100 * era + 25 * century + cycle) + step);
    assert(before / 4 == 100 * era + 25 * century + cycle);
    assert(before == 100 * (4 * era + century) + (4 * cycle + step));
    assert(before / 100 == 4 * era + century);
    assert(before == 400 * era + (100 * century + 4 * cycle + step));
    assert(before / 400 == era);
    assert((before + 1) % 4 == 0 <==> step == 3);
    assert((before + 1) % 100 == 0 <==> 4 * cycle + step == 99);
    assert((before + 1) % 400 == 0 <==> 100 * century + 4 * cycle + step == 399);
}

/// The civil date of the day `days` days after 1970-01-01, for every day
/// count, by splitting it into 400-year eras, centuries, four-year cycles,
/// years and the day of the year.
pub fn civil_from_days(days: i64) -> (date: CivilDate)
    ensures
        date@.valid(),
        date@.day_number() == days,
        date@ == date_of_day(days as int),
{
    // Days since 0001-01-01, so that every era, century and cycle ends with
    // its irregular year.
    let z: i128 = days as i128 + 719_162;
    let era: i128;
    let doe: i128;
    if z >= 0 {
        era = z / 146_097;
        doe = z % 146_097;
    } else {
        let n: i128 = -z;
        let e: i128 = (n + 146_096) / 146_097;
        era = -e;
        doe = e * 146_097 - n;
    }
    assert(z == era * 146_097 + doe && 0 <= doe < 146_097);
    let century: i128 = if doe / 36_524 > 3 {
        3
    } else {
        doe / 36_524
    };
    let doc: i128 = doe - century * 36_524;
    let cycle: i128 = doc / 1_461;
    let doq: i128 = doc % 1_461;
    let step: i128 = if doq / 365 > 3 {
        3
    } else {
        doq / 365
    };
    let doy: i128 = doq - step * 365;
    let year: i128 = 400 * era + 100 * century + 4 * cycle + step + 1;
    let leap: bool = step == 3 && (cycle != 24 || century == 3);
    proof {
        lemma_year_from_parts(era as int, century as int, cycle as int, step as int);
        lemma_days_before_month(year as int);
    }
    let mut month: u8 = 1;
    let mut rest: i128 = doy;
    loop
        invariant
            1 <= month <= 12,
            0 <= rest,
            days_before_month(year as int, month as int) + rest == doy,
            is_leap_year(year as int) == leap,
        ensures
            month == 12 || rest < month_days(month as int, leap),
        decreases 12 - month,
    {
        let length = month_length(month, leap);
        if month == 12 || rest < length {
            break;
        }
        rest = rest - length;
        month = month + 1;
    }
    proof {
        lemma_days_before_month(year as int);
        assert(rest < month_days(month as int, leap));
    }
    let date = CivilDate { year: year as i64, month, day: (rest + 1) as u8 };
    proof {
        lemma_date_of_day(date@);
    }
    date
}

/// Appends the form `YYYY-MM-DD` of a date.
fn push_date(out: &mut Vec<char>, date: CivilDate)
    requires
        date@.valid(),
    ensures
        final(out)@ == old(out)@ + date@.text(),
{
    push_signed_padded(out, date.year, 4);
    out.push('-');
    push_padded(out, date.month as u64, 2);
    out.push('-');
    push_padded(out, date.day as u64, 2);
    assert(out@ =~= old(out)@ + date@.text());
}

/// The date `days` days after 1970-01-01, in the form `YYYY-MM-DD`.
pub fn render_date(days: i64) -> (r: String)
    ensures
        r@ == date_of_day(days as int).text(),
{
    let mut out: Vec<char> = Vec::new();
    push_date(&mut out, civil_from_days(days));
    text_of(&out)
}

/// The fraction of a second as it is written: nothing without digits, and
/// otherwise a point and the digits.
pub open spec fn fraction_text(digits: Seq<char>) -> Seq<char> {
    if digits.len() == 0 {
        Seq::empty()
    } else {
        seq!['.'] + digits
    }
}

/// The instant `seconds` whole seconds after 1970-01-01T00:00:00Z, with
/// the digits of its fraction of a second, in the form
/// `YYYY-MM-DDTHH:MM:SS[.fraction]Z`. The day is the quotient of the seconds
/// by 86400, rounded down, so that the time of day is never negative.
pub open spec fn instant_text(seconds: int, fraction: Seq<char>) -> Seq<char> {
    let days = seconds / 86_400;
    let rest = seconds % 86_400;
    date_of_day(days).text() + seq!['T'] + zero_padded((rest / 3_600) as nat, 2) + seq![':']
        + zero_padded((rest % 3_600 / 60) as nat, 2) + seq![':'] + zero_padded(
        (rest % 60) as nat,
        2,
    ) + fraction_text(fraction) + seq!['Z']
}

/// The instant `seconds` whole seconds after 1970-01-01T00:00:00Z, with the
/// digits of its fraction of a second, as text.
pub fn render_instant(seconds: i64, fraction: &Vec<char>) -> (r: String)
    ensures
        r@ == instant_text(seconds as int, fraction@),
{
    let days: i64;
    let rest: i64;
    if seconds >= 0 {
        days = seconds / 86_400;
        rest = seconds % 86_400;
    } else {
        let below: i64 = -(seconds + 1);
        days = -(below / 86_400) - 1;
        rest = 86_399 - below % 86_400;
    }
    proof {
        assert(seconds == days * 86_400 + rest && 0 <= rest < 86_400);
        vstd::arithmetic::div_mod::lemma_fundamental_div_mod_converse(
            seconds as int,
            86_400,
            days as int,
            rest as int,
        );
    }
    let mut out: Vec<char> = Vec::new();
    push_date(&mut out, civil_from_days(days));
    out.push('T');
    push_padded(&mut out, (rest / 3_600) as u64, 2);
    out.push(':');
    push_padded(&mut out, (rest % 3_600 / 60) as u64, 2);
    out.push(':');
    push_padded(&mut out, (rest % 60) as u64, 2);
    if fraction.len() > 0 {
        out.push('.');
        push_all(&mut out, fraction);
    }
    out.push('Z');
    assert(out@ =~= instant_text(seconds as int, fraction@));
    text_of(&out)
}

} // verus!
