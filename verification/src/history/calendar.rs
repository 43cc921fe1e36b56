//! Dates of committer timestamps: the proleptic Gregorian calendar in UTC.

use vstd::prelude::*;
use vstd::string::*;

use crate::text::{append_padded, padded, Text};

verus! {

pub open spec fn is_leap(year: int) -> bool {
    year % 4 == 0 && (year % 100 != 0 || year % 400 == 0)
}

pub open spec fn days_in_month(year: int, month: int) -> int {
    if month == 2 {
        if is_leap(year) {
            29
        } else {
            28
        }
    } else if month == 4 || month == 6 || month == 9 || month == 11 {
        30
    } else {
        31
    }
}

/// Days from 1970-01-01 to the first of January of `year`: the years between,
/// and one day for each leap year among them.
pub open spec fn days_before_year(year: int) -> int {
    365 * (year - 1970) + (year - 1) / 4 - (year - 1) / 100 + (year - 1) / 400 - 477
}

/// Days from the first of January of `year` to the first of `month`.
pub open spec fn days_before_month(year: int, month: int) -> int
    decreases month,
{
    if month <= 1 {
        0
    } else {
        days_before_month(year, month - 1) + days_in_month(year, month - 1)
    }
}

/// A day that the calendar has.
pub open spec fn is_date(year: int, month: int, day: int) -> bool {
    1 <= month <= 12 && 1 <= day <= days_in_month(year, month)
}

/// Days from 1970-01-01 to the given day.
pub open spec fn day_number(year: int, month: int, day: int) -> int {
    days_before_year(year) + days_before_month(year, month) + day - 1
}

/// A year as RFC 3339 writes it: four places, of which a sign takes one.
pub open spec fn year_text(year: int) -> Text {
    if year < 0 {
        "-"@ + padded((-year) as nat, 3)
    } else {
        padded(year as nat, 4)
    }
}

/// A UTC date and time as RFC 3339 writes them.
pub open spec fn date_text(year: int, month: int, day: int, second_of_day: int) -> Text {
    year_text(year) + "-"@ + padded(month as nat, 2) + "-"@ + padded(day as nat, 2) + "T"@
        + padded((second_of_day / 3600) as nat, 2) + ":"@ + padded(
        (second_of_day % 3600 / 60) as nat,
        2,
    ) + ":"@ + padded((second_of_day % 60) as nat, 2) + "Z"@
}

/// `text` is the UTC date of `timestamp`, in seconds since 1970-01-01.
pub open spec fn is_utc_date(timestamp: int, text: Text) -> bool {
    exists|year: int, month: int, day: int|
        #![trigger day_number(year, month, day)]
        is_date(year, month, day) && day_number(year, month, day) == timestamp / 86_400 && text
            == date_text(year, month, day, timestamp % 86_400)
}

proof fn lemma_step_4(year: int)
    ensures
        year / 4 - (year - 1) / 4 == (if year % 4 == 0 {
            1int
        } else {
            0int
        }),
{
}

proof fn lemma_step_100(year: int)
    ensures
        year / 100 - (year - 1) / 100 == (if year % 100 == 0 {
            1int
        } else {
            0int
        }),
        year % 100 == 0 ==> year % 4 == 0,
{
}

proof fn lemma_step_400(year: int)
    ensures
        year / 400 - (year - 1) / 400 == (if year % 400 == 0 {
            1int
        } else {
            0int
        }),
        year % 400 == 0 ==> year % 100 == 0,
{
}

/// Each of the three leap rules counts `year` where it applies.
proof fn lemma_leap_steps(year: int)
    ensures
        (year / 4 - year / 100 + year / 400) - ((year - 1) / 4 - (year - 1) / 100 + (year - 1)
            / 400) == (if is_leap(year) {
            1int
        } else {
            0int
        }),
{
    lemma_step_4(year);
    lemma_step_100(year);
    lemma_step_400(year);
}

/// The UTC date of `timestamp`.
pub open spec fn utc_text(timestamp: int) -> Text {
    choose|text: Text| is_utc_date(timestamp, text)
}

/// A timestamp has one UTC date.
pub proof fn lemma_one_utc_date(timestamp: int, a: Text, b: Text)
    requires
        is_utc_date(timestamp, a),
        is_utc_date(timestamp, b),
    ensures
        a == b,
{
    let day = timestamp / 86_400;
    let (y1, m1, d1) = choose|y: int, m: int, d: int|
        #![trigger day_number(y, m, d)]
        is_date(y, m, d) && day_number(y, m, d) == day && a == date_text(
            y,
            m,
            d,
            timestamp % 86_400,
        );
    let (y2, m2, d2) = choose|y: int, m: int, d: int|
        #![trigger day_number(y, m, d)]
        is_date(y, m, d) && day_number(y, m, d) == day && b == date_text(
            y,
            m,
            d,
            timestamp % 86_400,
        );
    lemma_one_date_per_day(y1, m1, d1, y2, m2, d2);
}

/// A year is 365 days long, and a leap year one more.
pub proof fn lemma_year_length(year: int)
    ensures
        days_before_year(1970) == 0,
        days_before_year(year + 1) == days_before_year(year) + (if is_leap(year) {
            366int
        } else {
            365int
        }),
{
    lemma_leap_steps(year);
    let leaps = year / 4 - year / 100 + year / 400;
    let leaps_before = (year - 1) / 4 - (year - 1) / 100 + (year - 1) / 400;
    assert(leaps - leaps_before == (if is_leap(year) {
        1int
    } else {
        0int
    }));
    assert(days_before_year(year + 1) == 365 * (year + 1 - 1970) + leaps - 477);
    assert(days_before_year(year) == 365 * (year - 1970) + leaps_before - 477);
}

/// The twelve months fill the year.
pub proof fn lemma_months_fill_year(year: int)
    ensures
        days_before_month(year, 13) == (if is_leap(year) {
            366int
        } else {
            365int
        }),
{
    reveal_with_fuel(days_before_month, 14);
}

/// The months before `month` take no more than the months before a later one.
proof fn lemma_months_grow(year: int, month: int, later: int)
    requires
        1 <= month <= later,
    ensures
        days_before_month(year, month) <= days_before_month(year, later),
    decreases later,
{
    if month < later {
        lemma_months_grow(year, month, later - 1);
    }
}

/// The years before `year` take no more than the years before a later one.
proof fn lemma_years_grow(year: int, later: int)
    requires
        year <= later,
    ensures
        days_before_year(year) <= days_before_year(later),
    decreases later - year,
{
    if year < later {
        lemma_years_grow(year, later - 1);
        lemma_year_length(later - 1);
    }
}

/// Two dates with the same day number are the same date.
pub proof fn lemma_one_date_per_day(y1: int, m1: int, d1: int, y2: int, m2: int, d2: int)
    requires
        is_date(y1, m1, d1),
        is_date(y2, m2, d2),
        day_number(y1, m1, d1) == day_number(y2, m2, d2),
    ensures
        y1 == y2 && m1 == m2 && d1 == d2,
{
    lemma_year_length(y1);
    lemma_year_length(y2);
    lemma_months_fill_year(y1);
    lemma_months_fill_year(y2);
    lemma_months_grow(y1, 1, m1);
    lemma_months_grow(y2, 1, m2);
    lemma_months_grow(y1, m1 + 1, 13);
    lemma_months_grow(y2, m2 + 1, 13);
    if y1 < y2 {
        lemma_years_grow(y1 + 1, y2);
    } else if y2 < y1 {
        lemma_years_grow(y2 + 1, y1);
    } else if m1 < m2 {
        lemma_months_grow(y1, m1 + 1, m2);
    } else if m2 < m1 {
        lemma_months_grow(y1, m2 + 1, m1);
    }
}

/// In the years that start in March, the year of a day and its place in it.
proof fn lemma_march_year(day_of_era: int)
    requires
        0 <= day_of_era < 146_097,
    ensures
        ({
            let year = (day_of_era - day_of_era / 1460 + day_of_era / 36_524 - day_of_era
                / 146_096) / 365;
            let day = day_of_era - (365 * year + year / 4 - year / 100);
            &&& 0 <= year < 400
            &&& 0 <= day <= 365
            &&& day == 365 ==> is_leap(year + 1)
        }),
{
}

/// A day `day` into the March-based year `march_year` is the civil date that
/// the month formulas give.
proof fn lemma_civil(march_year: int, day: int)
    requires
        0 <= day <= 365,
        day == 365 ==> is_leap(march_year + 1),
    ensures
        ({
            let month_prime = (5 * day + 2) / 153;
            let month = month_prime + (if month_prime < 10 {
                3int
            } else {
                -9int
            });
            let year = march_year + (if month <= 2 {
                1int
            } else {
                0int
            });
            let day_of_month = day - (153 * month_prime + 2) / 5 + 1;
            &&& is_date(year, month, day_of_month)
            &&& day_number(year, month, day_of_month) == 365 * march_year + march_year / 4
                - march_year / 100 + march_year / 400 + day - 719_468
        }),
{
    reveal_with_fuel(days_before_month, 13);
    let month_prime = (5 * day + 2) / 153;
    assert(0 <= month_prime <= 11);
}

proof fn lemma_era_4(year: int, era: int)
    ensures
        (year + era * 400) / 4 == year / 4 + era * 100,
        (year + 1 + era * 400) % 4 == (year + 1) % 4,
{
}

proof fn lemma_era_100(year: int, era: int)
    ensures
        (year + era * 400) / 100 == year / 100 + era * 4,
        (year + 1 + era * 400) % 100 == (year + 1) % 100,
{
}

proof fn lemma_era_400(year: int, era: int)
    ensures
        (year + era * 400) / 400 == year / 400 + era,
        (year + 1 + era * 400) % 400 == (year + 1) % 400,
{
}

/// The calendar repeats every 400 years.
proof fn lemma_eras(year_of_era: int, era: int)
    requires
        0 <= year_of_era < 400,
    ensures
        ({
            let year = year_of_era + era * 400;
            &&& year / 4 == year_of_era / 4 + era * 100
            &&& year / 100 == year_of_era / 100 + era * 4
            &&& year / 400 == era
            &&& is_leap(year + 1) == is_leap(year_of_era + 1)
        }),
{
    lemma_era_4(year_of_era, era);
    lemma_era_100(year_of_era, era);
    lemma_era_400(year_of_era, era);
    assert(year_of_era + era * 400 + 1 == year_of_era + 1 + era * 400);
}

/// The civil date of a day counted from 1970-01-01.
pub fn civil_from_days(days_since_epoch: i64) -> (r: (i64, i64, i64))
    requires
        days_since_epoch <= i64::MAX - 719_468,
    ensures
        is_date(r.0 as int, r.1 as int, r.2 as int),
        day_number(r.0 as int, r.1 as int, r.2 as int) == days_since_epoch,
{
    let z: i64 = days_since_epoch + 719_468;
    let era: i64 = if z >= 0 {
        z / 146_097
    } else {
        -1 - (-1 - z) / 146_097
    };
    let day_of_era: i64 = z - era * 146_097;
    proof {
        lemma_march_year(day_of_era as int);
    }
    let year_of_era: i64 = (day_of_era - day_of_era / 1460 + day_of_era / 36_524 - day_of_era
        / 146_096) / 365;
    let march_year: i64 = year_of_era + era * 400;
    let day_of_year: i64 = day_of_era - (365 * year_of_era + year_of_era / 4 - year_of_era / 100);
    proof {
        lemma_eras(year_of_era as int, era as int);
        lemma_civil(march_year as int, day_of_year as int);
    }
    let month_prime: i64 = (5 * day_of_year + 2) / 153;
    let day: i64 = day_of_year - (153 * month_prime + 2) / 5 + 1;
    let month: i64 = if month_prime < 10 {
        month_prime + 3
    } else {
        month_prime - 9
    };
    let year: i64 = if month <= 2 {
        march_year + 1
    } else {
        march_year
    };
    (year, month, day)
}

/// The UTC date of a timestamp in seconds since 1970-01-01, as RFC 3339 writes
/// it.
pub fn utc_date(timestamp: i64) -> (r: String)
    ensures
        is_utc_date(timestamp as int, r@),
        r@ == utc_text(timestamp as int),
{
    let days: i64 = if timestamp >= 0 {
        timestamp / 86_400
    } else {
        -1 - (-1 - timestamp) / 86_400
    };
    let seconds: u64 = if timestamp >= 0 {
        (timestamp % 86_400) as u64
    } else {
        (86_399 - (-1 - timestamp) % 86_400) as u64
    };
    assert(days == timestamp as int / 86_400);
    assert(seconds == timestamp as int % 86_400);
    let (year, month, day) = civil_from_days(days);
    let mut r = String::new();
    if year < 0 {
        r.append("-");
        proof {
            lemma_year_bound(year as int, month as int, day as int);
        }
        append_padded(&mut r, (-year) as u64, 3);
    } else {
        append_padded(&mut r, year as u64, 4);
    }
    assert(r@ =~= year_text(year as int));
    r.append("-");
    append_padded(&mut r, month as u64, 2);
    r.append("-");
    append_padded(&mut r, day as u64, 2);
    r.append("T");
    append_padded(&mut r, seconds / 3600, 2);
    r.append(":");
    append_padded(&mut r, seconds % 3600 / 60, 2);
    r.append(":");
    append_padded(&mut r, seconds % 60, 2);
    r.append("Z");
    assert(r@ == date_text(year as int, month as int, day as int, timestamp as int % 86_400));
    assert(day_number(year as int, month as int, day as int) == timestamp as int / 86_400);
    proof {
        lemma_one_utc_date(timestamp as int, r@, utc_text(timestamp as int));
    }
    r
}

/// The year of a day is far smaller than the day's number.
proof fn lemma_year_bound(year: int, month: int, day: int)
    requires
        is_date(year, month, day),
    ensures
        year < 0 ==> year > day_number(year, month, day),
{
    lemma_year_length(year);
    lemma_months_fill_year(year);
    lemma_months_grow(year, month + 1, 13);
    if year < 0 {
        lemma_years_grow(year + 1, 0);
    }
}

} // verus!
