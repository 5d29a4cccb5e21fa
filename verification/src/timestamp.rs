//! Points in time as texts.
use vstd::prelude::*;

use crate::text::{decimal, digit, to_decimal};

verus! {

/// Whether a year has a 29th of February.
pub open spec fn is_leap(year: int) -> bool {
    year % 4 == 0 && (year % 100 != 0 || year % 400 == 0)
}

/// How many days a year has.
pub open spec fn year_days(year: int) -> int {
    if is_leap(year) {
        366
    } else {
        365
    }
}

/// How many days a month has.
pub open spec fn month_days(year: int, month: int) -> int {
    if month == 2 {
        if is_leap(year) {
            29
        } else {
            28
        }
    } else if month == 4 || month == 6 || month == 9 || month == 11 {
        30
    } else {
        31
    }
}

/// How many days lie between the start of 1970 and that of a year.
pub open spec fn days_before_year(year: int) -> int
    decreases year - 1970,
{
    if year <= 1970 {
        0
    } else {
        days_before_year(year - 1) + year_days(year - 1)
    }
}

/// How many days of a year lie before a month.
pub open spec fn days_before_month(year: int, month: int) -> int
    decreases month,
{
    if month <= 1 {
        0
    } else {
        days_before_month(year, month - 1) + month_days(year, month - 1)
    }
}

/// A date of the Gregorian calendar from 1970 on.
#[derive(Debug, Clone, Copy)]
pub struct Date {
    pub year: u64,
    pub month: u64,
    pub day: u64,
}

impl Date {
    /// Whether there is such a date.
    pub open spec fn exists_in_calendar(self) -> bool {
        &&& self.year >= 1970
        &&& 1 <= self.month <= 12
        &&& 1 <= self.day <= month_days(self.year as int, self.month as int)
    }

    /// How many days lie between the first of January 1970 and the date.
    pub open spec fn number(self) -> int {
        days_before_year(self.year as int) + days_before_month(self.year as int, self.month as int)
            + self.day - 1
    }
}

fn leap(year: u64) -> (r: bool)
    ensures
        r == is_leap(year as int),
{
    year % 4 == 0 && (year % 100 != 0 || year % 400 == 0)
}

fn length_of_month(year: u64, month: u64) -> (r: u64)
    ensures
        r == month_days(year as int, month as int),
{
    if month == 2 {
        if leap(year) {
            29
        } else {
            28
        }
    } else if month == 4 || month == 6 || month == 9 || month == 11 {
        30
    } else {
        31
    }
}

proof fn lemma_twelve_months(year: int)
    ensures
        days_before_month(year, 12) + 31 == year_days(year),
{
    reveal_with_fuel(days_before_month, 12);
}

/// The date that is `days` days after the first of January 1970.
pub fn date_of(days: u64) -> (r: Date)
    ensures
        r.exists_in_calendar(),
        r.number() == days,
{
    let mut year: u64 = 1970;
    let mut left: u64 = days;
    loop
        invariant
            1970 <= year,
            days_before_year(year as int) + left == days,
            365 * (year - 1970) <= days - left,
        decreases left,
    {
        let length: u64 = if leap(year) {
            366
        } else {
            365
        };
        if left < length {
            let mut month: u64 = 1;
            while left >= length_of_month(year, month)
                invariant
                    1970 <= year,
                    1 <= month <= 12,
                    days_before_year(year as int) + days_before_month(year as int, month as int)
                        + left == days,
                    days_before_month(year as int, month as int) + left < year_days(year as int),
                decreases 12 - month,
            {
                proof {
                    if month == 12 {
                        lemma_twelve_months(year as int);
                    }
                }
                left -= length_of_month(year, month);
                month += 1;
            }
            return Date { year, month, day: left + 1 };
        }
        left -= length;
        year += 1;
    }
}

/// A number from 0 to 99 with two digits.
pub open spec fn two_digits(n: nat) -> Seq<char> {
    if n < 10 {
        "0"@ + decimal(n)
    } else {
        decimal(n)
    }
}

fn append_two_digits(out: &mut String, n: u64)
    ensures
        final(out)@ == old(out)@ + two_digits(n as nat),
{
    if n < 10 {
        out.append("0");
    }
    out.append(to_decimal(n as u128).as_str());
    assert(out@ =~= old(out)@ + two_digits(n as nat));
}

/// A point in time as ISO 8601 writes it: the date, and the hour, minute and second in
/// UTC.
pub open spec fn written_time(date: Date, second_of_day: int) -> Seq<char> {
    decimal(date.year as nat) + "-"@ + two_digits(date.month as nat) + "-"@ + two_digits(
        date.day as nat,
    ) + "T"@ + two_digits((second_of_day / 3600) as nat) + ":"@ + two_digits(
        (second_of_day / 60 % 60) as nat,
    ) + ":"@ + two_digits((second_of_day % 60) as nat) + "Z"@
}

/// Writes the point in time that is `seconds` after the start of 1970 in UTC.
pub fn timestamp(seconds: u64) -> (r: String)
    ensures
        exists|date: Date|
            date.exists_in_calendar() && #[trigger] date.number() == seconds / 86_400 && r@
                == written_time(date, (seconds % 86_400) as int),
{
    let date = date_of(seconds / 86_400);
    let rest: u64 = seconds % 86_400;
    let mut out = to_decimal(date.year as u128);
    out.append("-");
    append_two_digits(&mut out, date.month);
    out.append("-");
    append_two_digits(&mut out, date.day);
    out.append("T");
    append_two_digits(&mut out, rest / 3600);
    out.append(":");
    append_two_digits(&mut out, rest / 60 % 60);
    out.append(":");
    append_two_digits(&mut out, rest % 60);
    out.append("Z");
    assert(date.number() == seconds / 86_400);
    out
}

// ---------------------------------------------------------------------------
// Laws

proof fn lemma_later_year(a: int, b: int)
    requires
        1970 <= a < b,
    ensures
        days_before_year(a) + year_days(a) <= days_before_year(b),
    decreases b,
{
    if b > a + 1 {
        lemma_later_year(a, b - 1);
    }
}

proof fn lemma_later_month(year: int, a: int, b: int)
    requires
        1 <= a < b,
    ensures
        days_before_month(year, a) + month_days(year, a) <= days_before_month(year, b),
    decreases b,
{
    if b > a + 1 {
        lemma_later_month(year, a, b - 1);
    }
}

proof fn lemma_within_year(date: Date)
    requires
        date.exists_in_calendar(),
    ensures
        date.number() < days_before_year(date.year as int) + year_days(date.year as int),
        days_before_year(date.year as int) <= date.number(),
{
    let year = date.year as int;
    lemma_twelve_months(year);
    if date.month < 12 {
        lemma_later_month(year, date.month as int, 12);
    }
    if date.month > 1 {
        lemma_later_month(year, 1, date.month as int);
    }
}

/// No two dates are the same number of days after the first of January 1970, so that
/// there is one timestamp for each point in time.
pub proof fn law_one_date_for_each_day(a: Date, b: Date)
    requires
        a.exists_in_calendar(),
        b.exists_in_calendar(),
        a.number() == b.number(),
    ensures
        a == b,
{
    lemma_within_year(a);
    lemma_within_year(b);
    if a.year < b.year {
        lemma_later_year(a.year as int, b.year as int);
    } else if b.year < a.year {
        lemma_later_year(b.year as int, a.year as int);
    } else if a.month < b.month {
        lemma_later_month(a.year as int, a.month as int, b.month as int);
    } else if b.month < a.month {
        lemma_later_month(a.year as int, b.month as int, a.month as int);
    }
}

/// The lengths of the months: 31 days for January, March, May, July, August, October and
/// December, 30 for April, June, September and November. February has 28 days, and 29 in
/// the years that four divides, but not in those that a hundred divides and four hundred
/// does not.
pub proof fn law_lengths_of_months(year: int)
    ensures
        month_days(year, 1) == 31,
        month_days(year, 3) == 31,
        month_days(year, 4) == 30,
        month_days(year, 5) == 31,
        month_days(year, 6) == 30,
        month_days(year, 7) == 31,
        month_days(year, 8) == 31,
        month_days(year, 9) == 30,
        month_days(year, 10) == 31,
        month_days(year, 11) == 30,
        month_days(year, 12) == 31,
        month_days(year, 2) == if year % 400 == 0 {
            29int
        } else if year % 100 == 0 {
            28int
        } else if year % 4 == 0 {
            29int
        } else {
            28int
        },
{
}

/// The first of January 1970 is day zero, and each day has the number after that of the
/// day before: in the same month, at the first of the next, or at the first of January.
pub proof fn law_next_day(date: Date, next: Date)
    requires
        date.year >= 1970,
        1 <= date.month <= 12,
    ensures
        date.year == 1970 && date.month == 1 && date.day == 1 ==> date.number() == 0,
        next.year == date.year && next.month == date.month && next.day == date.day + 1
            ==> next.number() == date.number() + 1,
        next.year == date.year && next.month == date.month + 1 && next.day == 1 && date.day
            == month_days(date.year as int, date.month as int) ==> next.number() == date.number()
            + 1,
        next.year == date.year + 1 && next.month == 1 && next.day == 1 && date.month == 12
            && date.day == 31 ==> next.number() == date.number() + 1,
        date.exists_in_calendar() <==> 1 <= date.day && date.day <= month_days(
            date.year as int,
            date.month as int,
        ),
{
    lemma_twelve_months(date.year as int);
}

proof fn lemma_two_digits(n: nat)
    requires
        n < 100,
    ensures
        two_digits(n) == seq![(n / 10 + 48) as char, (n % 10 + 48) as char],
{
    reveal_strlit("0");
    if n < 10 {
        assert(n / 10 == 0 && n % 10 == n);
        assert(decimal(n) == seq![digit(n as int)]);
        assert(two_digits(n) =~= seq![(n / 10 + 48) as char, (n % 10 + 48) as char]);
    } else {
        assert(n / 10 < 10);
        assert(decimal(n / 10) == seq![digit((n / 10) as int)]);
        assert(two_digits(n) =~= seq![(n / 10 + 48) as char, (n % 10 + 48) as char]);
    }
}

/// A point in time is written with its year, and its month, day, hour, minute and second
/// in two digits each.
pub proof fn law_written_time(date: Date, hour: nat, minute: nat, second: nat)
    requires
        date.exists_in_calendar(),
        hour < 24,
        minute < 60,
        second < 60,
    ensures
        written_time(date, (hour * 3600 + minute * 60 + second) as int) == decimal(date.year as nat) + seq![
            '-',
            (date.month / 10 + 48) as char,
            (date.month % 10 + 48) as char,
            '-',
            (date.day / 10 + 48) as char,
            (date.day % 10 + 48) as char,
            'T',
            (hour / 10 + 48) as char,
            (hour % 10 + 48) as char,
            ':',
            (minute / 10 + 48) as char,
            (minute % 10 + 48) as char,
            ':',
            (second / 10 + 48) as char,
            (second % 10 + 48) as char,
            'Z',
        ],
{
    let s = hour * 3600 + minute * 60 + second;
    assert(s / 3600 == hour);
    assert(s / 60 == hour * 60 + minute);
    assert(s / 60 % 60 == minute);
    assert(s % 60 == second);
    lemma_two_digits(date.month as nat);
    lemma_two_digits(date.day as nat);
    lemma_two_digits(hour);
    lemma_two_digits(minute);
    lemma_two_digits(second);
    reveal_strlit("-");
    reveal_strlit("T");
    reveal_strlit(":");
    reveal_strlit("Z");
    assert(written_time(date, s as int) =~= decimal(date.year as nat) + seq![
        '-',
        (date.month / 10 + 48) as char,
        (date.month % 10 + 48) as char,
        '-',
        (date.day / 10 + 48) as char,
        (date.day % 10 + 48) as char,
        'T',
        (hour / 10 + 48) as char,
        (hour % 10 + 48) as char,
        ':',
        (minute / 10 + 48) as char,
        (minute % 10 + 48) as char,
        ':',
        (second / 10 + 48) as char,
        (second % 10 + 48) as char,
        'Z',
    ]);
}

} // verus!
