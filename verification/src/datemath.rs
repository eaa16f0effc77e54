//! Pure Gregorian date arithmetic: leap years, month lengths, the
//! weekday offset of the first day of a month (Monday-first layout),
//! and month rollover.
//!
//! Dates are proleptic Gregorian; day counting starts at the first of
//! January of year 1, which is a Monday.

use vstd::prelude::*;

verus! {

/// A calendar date. `month` runs 1 through 12; `day` is bounded by the
/// month's length in that year.
#[derive(Clone, Copy, PartialEq, Eq, Structural, Debug)]
pub struct CalendarDate {
    pub year: u16,
    pub month: u8,
    pub day: u8,
}

pub open spec fn is_leap_spec(y: int) -> bool {
    (y % 4 == 0 && y % 100 != 0) || y % 400 == 0
}

pub open spec fn days_in_month_spec(y: int, m: int) -> int {
    if m == 2 {
        if is_leap_spec(y) {
            29
        } else {
            28
        }
    } else if m == 4 || m == 6 || m == 9 || m == 11 {
        30
    } else {
        31
    }
}

pub open spec fn days_in_year_spec(y: int) -> int {
    if is_leap_spec(y) {
        366
    } else {
        365
    }
}

/// Days strictly before the first of January of year `y`, counted from
/// the first of January of year 1.
pub open spec fn days_before_year(y: int) -> int
    decreases y,
{
    if y <= 1 {
        0
    } else {
        days_before_year(y - 1) + days_in_year_spec(y - 1)
    }
}

/// Days of year `y` strictly before the first of month `m`.
pub open spec fn days_before_month(y: int, m: int) -> int
    decreases m,
{
    if m <= 1 {
        0
    } else {
        days_before_month(y, m - 1) + days_in_month_spec(y, m - 1)
    }
}

/// Days between the first of January of year 1 and the given date.
pub open spec fn day_index(y: int, m: int, d: int) -> int {
    days_before_year(y) + days_before_month(y, m) + (d - 1)
}

/// Weekday of a date, 0 = Monday through 6 = Sunday. The first of
/// January of year 1 is a Monday in the proleptic Gregorian calendar.
pub open spec fn weekday_spec(y: int, m: int, d: int) -> int {
    day_index(y, m, d) % 7
}

/// Number of blank cells before day 1 in a Monday-first week row.
pub open spec fn first_weekday_offset_spec(y: int, m: int) -> int {
    weekday_spec(y, m, 1)
}

pub open spec fn next_month_spec(y: int, m: int) -> (int, int) {
    if m == 12 {
        (y + 1, 1)
    } else {
        (y, m + 1)
    }
}

pub open spec fn valid_date(d: CalendarDate) -> bool {
    &&& 1 <= d.year <= 9999
    &&& 1 <= d.month <= 12
    &&& 1 <= d.day <= days_in_month_spec(d.year as int, d.month as int)
}

/// The day after a date: the next day of the month, or the first of the
/// next month, or New Year of the next year.
pub open spec fn next_day_spec(d: CalendarDate) -> (int, int, int) {
    if d.day < days_in_month_spec(d.year as int, d.month as int) {
        (d.year as int, d.month as int, d.day + 1)
    } else if d.month < 12 {
        (d.year as int, d.month + 1, 1)
    } else {
        (d.year + 1, 1, 1)
    }
}

impl CalendarDate {
    /// Build a date after checking the calendar invariant: the month
    /// in range and the day within the month's length. The year must
    /// fit the interchange format's four digits.
    pub fn new(year: u16, month: u8, day: u8) -> (r: Option<CalendarDate>)
        ensures
            r is Some <==> valid_date(CalendarDate { year, month, day }),
            match r {
                Option::None => true,
                Option::Some(d) => d == (CalendarDate { year, month, day }),
            },
    {
        if 1 <= year && year <= 9999 && 1 <= month && month <= 12 && 1 <= day && day
            <= days_in_month(year, month) {
            Some(CalendarDate { year, month, day })
        } else {
            None
        }
    }
}

/// True iff `year` has 366 days: divisible by 4 and not by 100, unless
/// also by 400.
pub fn is_leap_year(year: u16) -> (r: bool)
    ensures
        r == is_leap_spec(year as int),
{
    (year % 4 == 0 && year % 100 != 0) || year % 400 == 0
}

/// Length of a month under the standard Gregorian rule.
pub fn days_in_month(year: u16, month: u8) -> (r: u8)
    requires
        1 <= month <= 12,
    ensures
        r == days_in_month_spec(year as int, month as int),
{
    if month == 2 {
        if is_leap_year(year) {
            29
        } else {
            28
        }
    } else if month == 4 || month == 6 || month == 9 || month == 11 {
        30
    } else {
        31
    }
}

/// The month after the given one, wrapping December into January of the
/// following year.
pub fn next_month(year: u16, month: u8) -> (r: (u16, u8))
    requires
        1 <= month <= 12,
        year < 9999 || month < 12,
    ensures
        (r.0 as int, r.1 as int) == next_month_spec(year as int, month as int),
{
    if month == 12 {
        (year + 1, 1)
    } else {
        (year, month + 1)
    }
}

proof fn lemma_days_before_year_bound(y: int)
    requires
        y >= 1,
    ensures
        0 <= days_before_year(y) <= 366 * (y - 1),
    decreases y,
{
    if y > 1 {
        lemma_days_before_year_bound(y - 1);
    }
}

proof fn lemma_days_before_month_bound(y: int, m: int)
    requires
        1 <= m <= 13,
    ensures
        0 <= days_before_month(y, m) <= 31 * (m - 1),
    decreases m,
{
    if m > 1 {
        lemma_days_before_month_bound(y, m - 1);
    }
}

/// Number of blank cells before day 1 of the month in a Monday-first
/// layout: 0 when the month starts on a Monday, 6 on a Sunday.
pub fn first_weekday_offset(year: u16, month: u8) -> (r: u8)
    requires
        1 <= year,
        1 <= month <= 12,
    ensures
        r == first_weekday_offset_spec(year as int, month as int),
        r < 7,
{
    proof {
        lemma_days_before_year_bound(year as int);
        lemma_days_before_month_bound(year as int, month as int);
    }
    let mut y: u16 = 1;
    let mut acc: u32 = 0;
    while y < year
        invariant
            1 <= y <= year,
            acc == days_before_year(y as int),
        decreases year - y,
    {
        proof {
            lemma_days_before_year_bound(y as int);
        }
        if is_leap_year(y) {
            acc = acc + 366;
        } else {
            acc = acc + 365;
        }
        y = y + 1;
    }
    let mut m: u8 = 1;
    let mut md: u32 = 0;
    while m < month
        invariant
            1 <= m <= month <= 12,
            md == days_before_month(year as int, m as int),
        decreases month - m,
    {
        proof {
            lemma_days_before_month_bound(year as int, m as int);
        }
        md = md + days_in_month(year, m) as u32;
        m = m + 1;
    }
    proof {
        lemma_days_before_year_bound(year as int);
        lemma_days_before_month_bound(year as int, month as int);
    }
    ((acc + md) % 7) as u8
}

/// The day after a valid date, rolling over month and year ends.
pub fn next_day(d: CalendarDate) -> (r: CalendarDate)
    requires
        valid_date(d),
        d.year < 9999 || d.month < 12 || d.day < 31,
    ensures
        (r.year as int, r.month as int, r.day as int) == next_day_spec(d),
        valid_date(r),
{
    if d.day < days_in_month(d.year, d.month) {
        CalendarDate { year: d.year, month: d.month, day: d.day + 1 }
    } else if d.month < 12 {
        CalendarDate { year: d.year, month: d.month + 1, day: 1 }
    } else {
        CalendarDate { year: d.year + 1, month: 1, day: 1 }
    }
}

/// Law: a month's first-weekday offset plus its length agrees, modulo
/// one week, with the following month's first-weekday offset; that is,
/// the weekday slot immediately after the last day of a month is the
/// weekday of day 1 of the next month.
pub proof fn lemma_weekday_offset_chain(y: int, m: int)
    requires
        1 <= y,
        1 <= m <= 12,
    ensures
        ({
            let (ny, nm) = next_month_spec(y, m);
            (first_weekday_offset_spec(y, m) + days_in_month_spec(y, m)) % 7
                == first_weekday_offset_spec(ny, nm)
        }),
{
    let a = days_before_year(y) + days_before_month(y, m);
    let b = days_in_month_spec(y, m);
    vstd::arithmetic::div_mod::lemma_mod_twice(a, 7);
    vstd::arithmetic::div_mod::lemma_add_mod_noop_right(a % 7, b, 7);
    vstd::arithmetic::div_mod::lemma_add_mod_noop(a, b, 7);
    assert((a % 7 + b) % 7 == (a + b) % 7);
    if m == 12 {
        assert(days_before_month(y, 12) + days_in_month_spec(y, 12) == days_in_year_spec(y)) by {
            reveal_with_fuel(days_before_month, 13);
        };
        assert(days_before_year(y + 1) == days_before_year(y) + days_in_year_spec(y));
    }
}

} // verus!
