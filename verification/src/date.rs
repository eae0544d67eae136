//! Proleptic Gregorian date arithmetic: leap years, month lengths, and
//! weekday computation, used by the month renderer for week alignment.

use vstd::prelude::*;

verus! {

/// A (year, month, day) triple. The renderer only compares `today`
/// against the month being drawn, so any triple may be carried here;
/// functions that need a calendar-valid date say so in `requires`.
#[derive(Clone, Copy, Debug, PartialEq, Eq, Structural)]
pub struct CalendarDate {
    pub year: i32,
    pub month: u32,
    pub day: u32,
}

/// A Gregorian leap year: divisible by 4, except centuries not divisible by 400.
pub open spec fn is_leap_year(y: int) -> bool {
    y % 4 == 0 && (y % 100 != 0 || y % 400 == 0)
}

/// Number of days in the given month of the given year.
pub open spec fn days_in_month(y: int, m: int) -> int {
    if m == 2 {
        if is_leap_year(y) {
            29
        } else {
            28
        }
    } else if m == 4 || m == 6 || m == 9 || m == 11 {
        30
    } else {
        31
    }
}

/// Number of days in year `y` that precede the first of month `m`.
pub open spec fn days_before_month(y: int, m: int) -> int
    decreases m,
{
    if m <= 1 {
        0
    } else {
        days_before_month(y, m - 1) + days_in_month(y, m - 1)
    }
}

/// Number of leap years in `1..=n`.
pub open spec fn leap_years_through(n: int) -> int {
    n / 4 - n / 100 + n / 400
}

/// Day number of (y, m, d) counted from day 1 = January 1st of year 1.
pub open spec fn rata_die(y: int, m: int, d: int) -> int {
    (y - 1) * 365 + leap_years_through(y - 1) + days_before_month(y, m) + d
}

/// Weekday counted from Sunday = 1 through Saturday = 7.
pub open spec fn weekday_from_sunday(y: int, m: int, d: int) -> int {
    rata_die(y, m, d) % 7 + 1
}

/// Leap-year test on an in-range year.
pub fn is_leap_year_exec(year: i32) -> (r: bool)
    requires
        1 <= year <= 9999,
    ensures
        r == is_leap_year(year as int),
{
    year % 4 == 0 && (year % 100 != 0 || year % 400 == 0)
}

/// Number of days in the given month, as an executable value.
pub fn days_in_month_exec(year: i32, month: u32) -> (r: u32)
    requires
        1 <= year <= 9999,
        1 <= month <= 12,
    ensures
        r == days_in_month(year as int, month as int),
        28 <= r <= 31,
{
    if month == 2 {
        if is_leap_year_exec(year) {
            29
        } else {
            28
        }
    } else if month == 4 || month == 6 || month == 9 || month == 11 {
        30
    } else {
        31
    }
}

/// The last valid day of the given month in the given year.
pub fn last_day_in_month(year: i32, month: u32) -> (r: CalendarDate)
    requires
        1 <= year <= 9999,
        1 <= month <= 12,
    ensures
        r.year == year,
        r.month == month,
        r.day == days_in_month(year as int, month as int),
{
    CalendarDate { year, month, day: days_in_month_exec(year, month) }
}

/// The last day of February is 29 exactly in leap years, else 28.
pub proof fn lemma_february_last_day(y: int)
    ensures
        days_in_month(y, 2) == 29 <==> is_leap_year(y),
        days_in_month(y, 2) == 28 <==> !is_leap_year(y),
{
}

} // verus!
