//! Dates of the Gregorian calendar, and the RFC 3339 form of a point in time.

use crate::text::{decimal, decimal_padded, push_char, push_decimal, push_padded};
use vstd::arithmetic::div_mod::{lemma_hoist_over_denominator, lemma_mod_multiples_vanish};
use vstd::prelude::*;
use vstd::string::*;

verus! {

/// Whether a year has a twenty-ninth of February.
pub open spec fn leap(year: int) -> bool {
    year % 4 == 0 && (year % 100 != 0 || year % 400 == 0)
}

/// The number of days of a month.
pub open spec fn days_in_month(year: int, month: int) -> int {
    if month == 2 {
        if leap(year) {
            29
        } else {
            28
        }
    } else if month == 4 || month == 6 || month == 9 || month == 11 {
        30
    } else {
        31
    }
}

/// The number of days of a year before one of its months.
pub open spec fn days_before_month(year: int, month: int) -> int
    decreases month,
{
    if month <= 1 {
        0
    } else {
        days_before_month(year, month - 1) + days_in_month(year, month - 1)
    }
}

/// The number of days from the first day of year zero to the first day of a year.
pub open spec fn days_before_year(year: int) -> int {
    365 * year + (year - 1) / 4 - (year - 1) / 100 + (year - 1) / 400 + 1
}

/// Whether there is such a day: year, month and day of the month.
pub open spec fn is_date(date: (int, int, int)) -> bool {
    1 <= date.1 <= 12 && 1 <= date.2 <= days_in_month(date.0, date.1)
}

/// The number of days from the first of January 1970 to a date.
pub open spec fn day_number(date: (int, int, int)) -> int {
    days_before_year(date.0) - 719_528 + days_before_month(date.0, date.1) + date.2 - 1
}

/// The date that many days behind the first of January 1970.
pub open spec fn date_of(days: int) -> (int, int, int) {
    choose|date: (int, int, int)| is_date(date) && day_number(date) == days
}

proof fn lemma_months(year: int)
    ensures
        days_before_month(year, 1) == 0,
        days_before_month(year, 2) == 31,
        days_before_month(year, 3) == 31 + days_in_month(year, 2),
        days_before_month(year, 4) == 62 + days_in_month(year, 2),
        days_before_month(year, 5) == 92 + days_in_month(year, 2),
        days_before_month(year, 6) == 123 + days_in_month(year, 2),
        days_before_month(year, 7) == 153 + days_in_month(year, 2),
        days_before_month(year, 8) == 184 + days_in_month(year, 2),
        days_before_month(year, 9) == 215 + days_in_month(year, 2),
        days_before_month(year, 10) == 245 + days_in_month(year, 2),
        days_before_month(year, 11) == 276 + days_in_month(year, 2),
        days_before_month(year, 12) == 306 + days_in_month(year, 2),
{
    reveal_with_fuel(days_before_month, 12);
}

proof fn lemma_floor_step(n: int, d: int)
    requires
        d == 4 || d == 100 || d == 400,
    ensures
        n / d == (n - 1) / d + (if n % d == 0 {
            1int
        } else {
            0int
        }),
{
}

/// Each leap year is counted once.
proof fn lemma_leap_count(year: int)
    ensures
        year / 4 - year / 100 + year / 400 == (year - 1) / 4 - (year - 1) / 100 + (year - 1) / 400
            + (if leap(year) {
            1int
        } else {
            0int
        }),
{
    lemma_floor_step(year, 4);
    lemma_floor_step(year, 100);
    lemma_floor_step(year, 400);
}

/// One year is as long as its days.
proof fn lemma_year_step(year: int)
    ensures
        days_before_year(year + 1) == days_before_year(year) + 365 + (if leap(year) {
            1int
        } else {
            0int
        }),
{
    lemma_leap_count(year);
}

proof fn lemma_years_ordered(a: int, b: int)
    requires
        a <= b,
    ensures
        days_before_year(a) + 365 * (b - a) <= days_before_year(b),
    decreases b - a,
{
    if a < b {
        lemma_year_step(a);
        lemma_years_ordered(a + 1, b);
    }
}

/// A date lies within its year.
proof fn lemma_within_year(date: (int, int, int))
    requires
        is_date(date),
    ensures
        days_before_year(date.0) - 719_528 <= day_number(date) < days_before_year(date.0 + 1)
            - 719_528,
{
    lemma_months(date.0);
    lemma_year_step(date.0);
}

/// No two dates have the same day number.
pub proof fn lemma_day_number_injective(a: (int, int, int), b: (int, int, int))
    requires
        is_date(a),
        is_date(b),
        day_number(a) == day_number(b),
    ensures
        a == b,
{
    lemma_within_year(a);
    lemma_within_year(b);
    if a.0 < b.0 {
        lemma_years_ordered(a.0 + 1, b.0);
    } else if b.0 < a.0 {
        lemma_years_ordered(b.0 + 1, a.0);
    } else {
        lemma_months(a.0);
    }
}

/// A date is the date of its day number.
pub proof fn lemma_date_of(date: (int, int, int))
    requires
        is_date(date),
    ensures
        date_of(day_number(date)) == date,
{
    let found = date_of(day_number(date));
    assert(is_date(found) && day_number(found) == day_number(date));
    lemma_day_number_injective(found, date);
}

/// The year of a day within a span of four hundred years that starts on a first of March.
proof fn lemma_year_of_era(doe: int, yoe: int)
    requires
        0 <= doe < 146_097,
        yoe == (doe - doe / 1460 + doe / 36_524 - doe / 146_096) / 365,
    ensures
        0 <= yoe < 400,
        0 <= doe - (365 * yoe + yoe / 4 - yoe / 100) <= 365,
        doe - (365 * yoe + yoe / 4 - yoe / 100) == 365 ==> leap(yoe + 1),
{
    let c = if doe / 36_524 > 3 {
        3
    } else {
        doe / 36_524
    };
    let r = doe - 36_524 * c;
    assert(0 <= r <= 36_524);
    let q = r / 1461;
    let s = r - 1461 * q;
    let y = if s / 365 > 3 {
        3
    } else {
        s / 365
    };
    assert(0 <= q <= 24);
    assert(0 <= s < 1461);
    let year = 100 * c + 4 * q + y;
    assert(year / 4 == 25 * c + q);
    assert(year / 100 == c);
    assert(doe - (365 * year + year / 4 - year / 100) == s - 365 * y);
    assert(0 <= s - 365 * y <= 365);
    assert(doe / 1460 == 25 * c + (r + 24 * c) / 1460);
    assert(yoe == year);
}

/// Years four hundred years apart are alike.
proof fn lemma_era(yoe: int, era: int)
    requires
        0 <= yoe < 400,
    ensures
        (yoe + 400 * era) / 4 == yoe / 4 + 100 * era,
        (yoe + 400 * era) / 100 == yoe / 100 + 4 * era,
        (yoe + 400 * era) / 400 == era,
        leap(yoe + 1) == leap(yoe + 400 * era + 1),
{
    lemma_hoist_over_denominator(yoe, 100 * era, 4);
    lemma_hoist_over_denominator(yoe, 4 * era, 100);
    lemma_hoist_over_denominator(yoe, era, 400);
    lemma_mod_multiples_vanish(100 * era, yoe + 1, 4);
    lemma_mod_multiples_vanish(4 * era, yoe + 1, 100);
    lemma_mod_multiples_vanish(era, yoe + 1, 400);
}

/// The days of a year before the first of March, counted from year zero.
proof fn lemma_march(year: int)
    ensures
        days_before_year(year) + days_before_month(year, 3) == 365 * year + year / 4 - year / 100
            + year / 400 + 60,
{
    lemma_leap_count(year);
    assert(days_before_month(year, 3) == 31 + days_in_month(year, 2)) by {
        lemma_months(year);
    }
}

/// The month and day of a day of a year that starts on the first of March.
proof fn lemma_month_day(doy: int, index: int, day: int)
    requires
        0 <= doy <= 365,
        index == (5 * doy + 2) / 153,
        day == doy - (153 * index + 2) / 5 + 1,
    ensures
        0 <= index <= 11,
        1 <= day,
        index == 1 || index == 3 || index == 6 || index == 8 ==> day <= 30,
        day <= 31,
        index == 0 ==> day == doy + 1,
        index == 1 ==> day == doy - 30,
        index == 2 ==> day == doy - 60,
        index == 3 ==> day == doy - 91,
        index == 4 ==> day == doy - 121,
        index == 5 ==> day == doy - 152,
        index == 6 ==> day == doy - 183,
        index == 7 ==> day == doy - 213,
        index == 8 ==> day == doy - 244,
        index == 9 ==> day == doy - 274,
        index == 10 ==> day == doy - 305,
        index == 11 ==> day == doy - 336,
{
}

/// The pieces make up the date.
proof fn lemma_day(
    shifted: int,
    era: int,
    yoe: int,
    doy: int,
    index: int,
    date: (int, int, int),
)
    requires
        0 <= yoe < 400,
        shifted == 146_097 * era + 365 * yoe + yoe / 4 - yoe / 100 + doy,
        0 <= doy <= 365,
        doy == 365 ==> leap(yoe + 1),
        index == (5 * doy + 2) / 153,
        date.2 == doy - (153 * index + 2) / 5 + 1,
        date.1 == if index < 10 {
            index + 3
        } else {
            index - 9
        },
        date.0 == yoe + 400 * era + if date.1 <= 2 {
            1int
        } else {
            0int
        },
    ensures
        is_date(date),
        day_number(date) == shifted - 719_468,
{
    let year = yoe + 400 * era;
    lemma_era(yoe, era);
    lemma_march(year);
    lemma_month_day(doy, index, date.2);
    lemma_year_step(year);
    lemma_months(year);
    lemma_months(year + 1);
}

/// The date that many days behind the first of January 1970.
pub fn civil_from_days(days: i64) -> (r: (i64, u32, u32))
    requires
        days <= i64::MAX - 719_468,
    ensures
        (r.0 as int, r.1 as int, r.2 as int) == date_of(days as int),
        is_date((r.0 as int, r.1 as int, r.2 as int)),
        day_number((r.0 as int, r.1 as int, r.2 as int)) == days,
{
    let shifted: i64 = days + 719_468;
    let era: i64 = if shifted >= 0 {
        (shifted as u64 / 146_097) as i64
    } else {
        -(((-(shifted + 1)) as u64 / 146_097) as i64) - 1
    };
    let day_of_era: u64 = (shifted - era * 146_097) as u64;
    let year_of_era: u64 = (day_of_era - day_of_era / 1460 + day_of_era / 36_524 - day_of_era
        / 146_096) / 365;
    proof {
        lemma_year_of_era(day_of_era as int, year_of_era as int);
    }
    let year: i64 = year_of_era as i64 + era * 400;
    let day_of_year: u64 = day_of_era - (365 * year_of_era + year_of_era / 4 - year_of_era / 100);
    let month_index: u64 = (5 * day_of_year + 2) / 153;
    let day: u64 = day_of_year - (153 * month_index + 2) / 5 + 1;
    let month: u64 = if month_index < 10 {
        month_index + 3
    } else {
        month_index - 9
    };
    let year: i64 = if month <= 2 {
        year + 1
    } else {
        year
    };
    proof {
        let date = (year as int, month as int, day as int);
        lemma_months(year as int);
        lemma_day(
            shifted as int,
            era as int,
            year_of_era as int,
            day_of_year as int,
            month_index as int,
            date,
        );
        lemma_date_of(date);
    }
    (year, month as u32, day as u32)
}

/// A number of at least two digits.
pub open spec fn two_digits(n: int) -> Seq<char> {
    decimal_padded(n as nat, 2)
}

/// A year of at least four digits.
pub open spec fn year_digits(year: int) -> Seq<char> {
    if year < 10_000 {
        decimal_padded(year as nat, 4)
    } else {
        decimal(year as nat)
    }
}

/// The RFC 3339 form of a date and a second of its day, in UTC.
pub open spec fn rfc3339(date: (int, int, int), second: int) -> Seq<char> {
    year_digits(date.0) + "-"@ + two_digits(date.1) + "-"@ + two_digits(date.2) + "T"@
        + two_digits(second / 3600) + ":"@ + two_digits(second % 3600 / 60) + ":"@ + two_digits(
        second % 60,
    ) + "Z"@
}

/// The least number of seconds that is taken for a point in time and not for a duration.
pub const PLAUSIBLE_TIMESTAMP: i64 = 1_000_000_000;

/// The text form of a Unix timestamp, empty for what cannot be one.
pub open spec fn timestamp_text(seconds: int) -> Seq<char> {
    if seconds < PLAUSIBLE_TIMESTAMP {
        Seq::empty()
    } else {
        rfc3339(date_of(seconds / 86_400), seconds % 86_400)
    }
}

/// The years from zero on.
proof fn lemma_year_not_negative(date: (int, int, int))
    requires
        is_date(date),
        day_number(date) >= -719_528,
    ensures
        date.0 >= 0,
{
    lemma_within_year(date);
    if date.0 < 0 {
        lemma_years_ordered(date.0 + 1, 0);
    }
}

/// The RFC 3339 form of a Unix timestamp in UTC. A value too small to be a wall-clock time
/// would be a duration, so no date is claimed for it.
pub fn epoch_to_rfc3339(seconds: i64) -> (r: String)
    ensures
        r@ == timestamp_text(seconds as int),
{
    let mut out = String::new();
    if seconds < PLAUSIBLE_TIMESTAMP {
        proof {
            assert(out@ =~= Seq::empty());
        }
        return out;
    }
    let days: u64 = seconds as u64 / 86_400;
    let second: u64 = seconds as u64 % 86_400;
    let (year, month, day) = civil_from_days(days as i64);
    proof {
        lemma_year_not_negative((year as int, month as int, day as int));
        reveal_strlit("-");
        reveal_strlit("T");
        reveal_strlit(":");
        reveal_strlit("Z");
    }
    if year < 10_000 {
        push_padded(&mut out, year as u64, 4);
    } else {
        push_decimal(&mut out, year as u64);
    }
    push_char(&mut out, '-');
    push_padded(&mut out, month as u64, 2);
    push_char(&mut out, '-');
    push_padded(&mut out, day as u64, 2);
    push_char(&mut out, 'T');
    push_padded(&mut out, second / 3600, 2);
    push_char(&mut out, ':');
    push_padded(&mut out, second % 3600 / 60, 2);
    push_char(&mut out, ':');
    push_padded(&mut out, second % 60, 2);
    push_char(&mut out, 'Z');
    proof {
        assert(out@ =~= rfc3339((year as int, month as int, day as int), second as int));
    }
    out
}

} // verus!
