//! The calendar, said of one day and the next, and how a date is written.

use vstd::prelude::*;

use super::calendar::{
    date_text, day_number, days_before_month, days_in_month, is_date, is_utc_date,
    lemma_months_fill_year, lemma_one_utc_date, lemma_year_length, utc_text, year_text,
};
use crate::text::{decimal, digit, padded, Text};

verus! {

/// How long a month is: they take turns of 31 and 30 days up to July and again
/// from August, but for February, which has a day more every fourth year,
/// except in centuries that 400 does not divide.
pub open spec fn length_of_month(year: int, month: int) -> int {
    if month == 2 {
        if year % 400 == 0 || (year % 4 == 0 && year % 100 != 0) {
            29
        } else {
            28
        }
    } else if month <= 7 {
        30 + month % 2
    } else {
        31 - month % 2
    }
}

/// Days are counted from 1 January 1970, and every day has the number after
/// that of the day before it: within a month, from the end of a month to the
/// next, and from the end of a year to the next.
pub proof fn lemma_days_follow_each_other(year: int, month: int, day: int)
    requires
        1 <= month <= 12,
        1 <= day <= length_of_month(year, month),
    ensures
        is_date(year, month, day),
        !is_date(year, month, length_of_month(year, month) + 1),
        day_number(1970, 1, 1) == 0,
        day < length_of_month(year, month) ==> day_number(year, month, day + 1) == day_number(
            year,
            month,
            day,
        ) + 1,
        day == length_of_month(year, month) && month < 12 ==> day_number(year, month + 1, 1)
            == day_number(year, month, day) + 1,
        day == length_of_month(year, month) && month == 12 ==> day_number(year + 1, 1, 1)
            == day_number(year, month, day) + 1,
{
    lemma_year_length(year);
    lemma_months_fill_year(year);
    assert(days_before_month(year, month + 1) == days_before_month(year, month)
        + days_in_month(year, month));
}

/// A number below a hundred in two digits.
pub open spec fn two_digits(n: int) -> Text {
    seq![(n / 10 + 0x30) as char, (n % 10 + 0x30) as char]
}

proof fn lemma_two(n: nat)
    requires
        n < 100,
    ensures
        padded(n, 2) == two_digits(n as int),
{
    reveal_with_fuel(decimal, 3);
    if n < 10 {
        assert(decimal(n) =~= seq![digit(n)]);
        assert(padded(n, 2) =~= two_digits(n as int));
    } else {
        assert(decimal(n / 10) =~= seq![digit(n / 10)]);
        assert(decimal(n) =~= seq![digit(n / 10), digit(n % 10)]);
        assert(padded(n, 2) =~= two_digits(n as int));
    }
}

proof fn lemma_four(n: nat)
    requires
        n < 10_000,
    ensures
        padded(n, 4) == two_digits(n as int / 100) + two_digits(n as int % 100),
{
    let a = n / 1000;
    let b = n / 100 % 10;
    let c = n / 10 % 10;
    let d = n % 10;
    assert(n / 10 / 10 == n / 100);
    assert(n / 10 / 10 / 10 == n / 1000);
    assert(n % 100 / 10 == c);
    assert(n / 100 / 10 == a);
    assert(n % 100 % 10 == d);
    let all = two_digits(n as int / 100) + two_digits(n as int % 100);
    assert(all =~= seq![digit(a), digit(b), digit(c), digit(d)]);
    reveal_with_fuel(decimal, 5);
    if n < 10 {
        assert(decimal(n) =~= seq![digit(d)]);
        assert(padded(n, 4) =~= all);
    } else if n < 100 {
        assert(decimal(n / 10) =~= seq![digit(c)]);
        assert(decimal(n) =~= seq![digit(c), digit(d)]);
        assert(padded(n, 4) =~= all);
    } else if n < 1000 {
        assert(decimal(n / 10 / 10) =~= seq![digit(b)]);
        assert(decimal(n / 10) =~= seq![digit(b), digit(c)]);
        assert(decimal(n) =~= seq![digit(b), digit(c), digit(d)]);
        assert(padded(n, 4) =~= all);
    } else {
        assert(decimal(n / 10 / 10 / 10) =~= seq![digit(a)]);
        assert(decimal(n / 10 / 10) =~= seq![digit(a), digit(b)]);
        assert(decimal(n / 10) =~= seq![digit(a), digit(b), digit(c)]);
        assert(decimal(n) =~= seq![digit(a), digit(b), digit(c), digit(d)]);
        assert(padded(n, 4) =~= all);
    }
}

/// A time of a day is written as year, month and day and, after a `T`, as hours,
/// minutes and seconds with a `Z` behind them.
pub proof fn lemma_date_is_written(
    year: int,
    month: int,
    day: int,
    hours: int,
    minutes: int,
    seconds: int,
)
    requires
        0 <= year <= 9999,
        1 <= month <= 12,
        1 <= day <= length_of_month(year, month),
        0 <= hours < 24,
        0 <= minutes < 60,
        0 <= seconds < 60,
    ensures
        utc_text(
            day_number(year, month, day) * 86_400 + hours * 3600 + minutes * 60 + seconds,
        ) == two_digits(year / 100) + two_digits(year % 100) + seq!['-'] + two_digits(month)
            + seq!['-'] + two_digits(day) + seq!['T'] + two_digits(hours) + seq![':']
            + two_digits(minutes) + seq![':'] + two_digits(seconds) + seq!['Z'],
{
    let n = day_number(year, month, day);
    let rest = hours * 3600 + minutes * 60 + seconds;
    let timestamp = n * 86_400 + hours * 3600 + minutes * 60 + seconds;
    assert(timestamp == n * 86_400 + rest);
    assert(0 <= rest < 86_400);
    assert(timestamp / 86_400 == n);
    assert(timestamp % 86_400 == rest);
    assert(rest / 3600 == hours);
    assert(rest % 3600 == minutes * 60 + seconds);
    assert(rest % 3600 / 60 == minutes);
    assert(rest % 60 == seconds);
    let text = date_text(year, month, day, rest);
    lemma_days_follow_each_other(year, month, day);
    assert(is_utc_date(timestamp, text));
    lemma_one_utc_date(timestamp, text, utc_text(timestamp));
    lemma_four(year as nat);
    lemma_two(month as nat);
    lemma_two(day as nat);
    lemma_two(hours as nat);
    lemma_two(minutes as nat);
    lemma_two(seconds as nat);
    reveal_strlit("-");
    reveal_strlit("T");
    reveal_strlit(":");
    reveal_strlit("Z");
    assert("-"@ =~= seq!['-']);
    assert("T"@ =~= seq!['T']);
    assert(":"@ =~= seq![':']);
    assert("Z"@ =~= seq!['Z']);
    assert(year_text(year) == padded(year as nat, 4));
}

/// A year before the first is written with a minus and the digits of its
/// distance, a later one than 9999 with all of its digits.
pub proof fn lemma_far_years_are_written(year: int)
    ensures
        year < 0 ==> year_text(year)[0] == '-' && year_text(year).drop_first() == padded(
            (-year) as nat,
            3,
        ),
        year > 9999 ==> year_text(year) == decimal(year as nat),
{
    reveal_strlit("-");
    assert("-"@ =~= seq!['-']);
    if year < 0 {
        assert(year_text(year).drop_first() =~= padded((-year) as nat, 3));
    }
    if year > 9999 {
        reveal_with_fuel(decimal, 5);
        assert(decimal(year as nat).len() >= 4) by {
            let n = year as nat;
            assert(n / 10 / 10 / 10 >= 1);
        }
    }
}

} // verus!
