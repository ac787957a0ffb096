//! Dates and times as they are kept with comments.
use vstd::prelude::*;
use crate::util::{decimal, push_decimal, push_text};

verus! {

pub open spec fn is_leap(year: int) -> bool {
    year % 4 == 0 && (year % 100 != 0 || year % 400 == 0)
}

pub open spec fn year_days(year: int) -> int {
    if is_leap(year) {
        366
    } else {
        365
    }
}

/// The days of a month, which counts from one.
pub open spec fn month_days(year: int, month: int) -> int {
    if month == 2 {
        if is_leap(year) {
            29
        } else {
            28
        }
    } else if month == 4 || month == 6 || month == 9 || month == 11 {
        30
    } else {
        31
    }
}

/// The days from the start of 1970 to the start of a year.
pub open spec fn days_before_year(year: int) -> int
    decreases year - 1970,
{
    if year <= 1970 {
        0
    } else {
        days_before_year(year - 1) + year_days(year - 1)
    }
}

/// The days from the start of a year to the start of a month.
pub open spec fn days_before_month(year: int, month: int) -> int
    decreases month,
{
    if month <= 1 {
        0
    } else {
        days_before_month(year, month - 1) + month_days(year, month - 1)
    }
}

/// A day of the calendar, from 1970 on.
#[derive(Clone, Copy, Debug, PartialEq, Eq, Structural)]
pub struct Date {
    pub year: u64,
    pub month: u64,
    pub day: u64,
}

/// Whether there is such a day.
pub open spec fn is_date(d: Date) -> bool {
    &&& d.year >= 1970
    &&& 1 <= d.month <= 12
    &&& 1 <= d.day <= month_days(d.year as int, d.month as int)
}

/// The days from the start of 1970 to a day.
pub open spec fn day_number(d: Date) -> int {
    days_before_year(d.year as int) + days_before_month(d.year as int, d.month as int) + d.day - 1
}

fn leap(year: u64) -> (r: bool)
    ensures
        r == is_leap(year as int),
{
    year % 4 == 0 && (year % 100 != 0 || year % 400 == 0)
}

fn days_in(year: u64, month: u64) -> (r: u64)
    ensures
        r == month_days(year as int, month as int),
{
    if month == 2 {
        if leap(year) {
            29
        } else {
            28
        }
    } else if month == 4 || month == 6 || month == 9 || month == 11 {
        30
    } else {
        31
    }
}

/// The day with a number.
pub fn date_of(days: u64) -> (r: Date)
    ensures
        is_date(r),
        day_number(r) == days,
{
    let mut year: u64 = 1970;
    let mut left: u64 = days;
    loop
        invariant
            1970 <= year,
            left <= days,
            365 * (year - 1970) <= days - left,
            days == days_before_year(year as int) + left,
        ensures
            left < year_days(year as int),
        decreases left,
    {
        let length: u64 = if leap(year) {
            366
        } else {
            365
        };
        if left < length {
            break;
        }
        assert(days_before_year(year + 1) == days_before_year(year as int) + year_days(year as int));
        left -= length;
        year += 1;
    }
    let mut month: u64 = 1;
    let ghost rest = left as int;
    proof {
        reveal_with_fuel(days_before_month, 14);
    }
    while month < 12 && left >= days_in(year, month)
        invariant
            1 <= month <= 12,
            rest == days_before_month(year as int, month as int) + left,
            rest < year_days(year as int),
        decreases 12 - month,
    {
        assert(days_before_month(year as int, month + 1) == days_before_month(
            year as int,
            month as int,
        ) + month_days(year as int, month as int));
        left -= days_in(year, month);
        month += 1;
    }
    proof {
        reveal_with_fuel(days_before_month, 14);
    }
    Date { year, month, day: left + 1 }
}

proof fn lemma_years_grow(a: int, b: int)
    requires
        1970 <= a < b,
    ensures
        days_before_year(a) + year_days(a) <= days_before_year(b),
    decreases b - a,
{
    if b > a + 1 {
        lemma_years_grow(a, b - 1);
    }
}

proof fn lemma_months_grow(year: int, a: int, b: int)
    requires
        1 <= a < b,
    ensures
        days_before_month(year, a) + month_days(year, a) <= days_before_month(year, b),
    decreases b - a,
{
    if b > a + 1 {
        lemma_months_grow(year, a, b - 1);
    }
}

proof fn lemma_day_in_year(d: Date)
    requires
        is_date(d),
    ensures
        days_before_year(d.year as int) <= day_number(d) < days_before_year(d.year as int)
            + year_days(d.year as int),
{
    reveal_with_fuel(days_before_month, 14);
    if d.month > 1 {
        lemma_months_grow(d.year as int, 1, d.month as int);
    }
    if d.month < 12 {
        lemma_months_grow(d.year as int, d.month as int, 12);
    }
}

/// A number belongs to one day only.
pub proof fn law_day_is_unique(a: Date, b: Date)
    requires
        is_date(a),
        is_date(b),
        day_number(a) == day_number(b),
    ensures
        a == b,
{
    lemma_day_in_year(a);
    lemma_day_in_year(b);
    if a.year < b.year {
        lemma_years_grow(a.year as int, b.year as int);
    } else if b.year < a.year {
        lemma_years_grow(b.year as int, a.year as int);
    } else if a.month < b.month {
        lemma_months_grow(a.year as int, a.month as int, b.month as int);
    } else if b.month < a.month {
        lemma_months_grow(a.year as int, b.month as int, a.month as int);
    }
}

/// A number with at least two digits.
pub open spec fn two_digits(n: nat) -> Seq<char> {
    if n < 10 {
        "0"@ + decimal(n)
    } else {
        decimal(n)
    }
}

/// A time in the notation of ISO 8601, to the second and in UTC.
pub open spec fn iso_text(d: Date, seconds: nat) -> Seq<char> {
    decimal(d.year as nat) + "-"@ + two_digits(d.month as nat) + "-"@ + two_digits(d.day as nat)
        + "T"@ + two_digits(seconds / 3600) + ":"@ + two_digits(seconds / 60 % 60) + ":"@
        + two_digits(seconds % 60) + "Z"@
}

fn push_two_digits(out: &mut String, n: u64)
    ensures
        final(out)@ == old(out)@ + two_digits(n as nat),
{
    let ghost before = out@;
    if n < 10 {
        push_text(out, "0");
    }
    push_decimal(out, n);
    assert(out@ =~= before + two_digits(n as nat));
}

/// The time so many seconds after the start of 1970.
pub fn iso_time(seconds: u64) -> (r: String)
    ensures
        forall|d: Date|
            is_date(d) && day_number(d) == seconds / 86400 ==> r@ == #[trigger] iso_text(
                d,
                (seconds % 86400) as nat,
            ),
        exists|d: Date|
            is_date(d) && day_number(d) == seconds / 86400 && r@ == #[trigger] iso_text(
                d,
                (seconds % 86400) as nat,
            ),
{
    let d = date_of(seconds / 86400);
    let rest: u64 = seconds % 86400;
    let mut out = String::new();
    push_decimal(&mut out, d.year);
    push_text(&mut out, "-");
    push_two_digits(&mut out, d.month);
    push_text(&mut out, "-");
    push_two_digits(&mut out, d.day);
    push_text(&mut out, "T");
    push_two_digits(&mut out, rest / 3600);
    push_text(&mut out, ":");
    push_two_digits(&mut out, rest / 60 % 60);
    push_text(&mut out, ":");
    push_two_digits(&mut out, rest % 60);
    push_text(&mut out, "Z");
    assert(out@ =~= iso_text(d, rest as nat));
    assert forall|e: Date| is_date(e) && day_number(e) == seconds / 86400 implies out@
        == #[trigger] iso_text(e, rest as nat) by {
        law_day_is_unique(d, e);
    }
    out
}

} // verus!
