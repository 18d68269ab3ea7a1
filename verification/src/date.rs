//! Calendar dates of birth and death, checked by chrono.
use vstd::prelude::*;

verus! {

/// The earliest year that `chrono::NaiveDate` represents.
pub const MIN_YEAR: i32 = -262143;

/// The latest year that `chrono::NaiveDate` represents.
pub const MAX_YEAR: i32 = 262142;

/// Leap years of the proleptic Gregorian calendar (year 0 is 1 BCE).
pub open spec fn is_leap_year(y: int) -> bool {
    y % 4 == 0 && (y % 100 != 0 || y % 400 == 0)
}

/// Number of days of month `m` (1 to 12) in year `y`.
pub open spec fn days_in_month(y: int, m: int) -> int {
    if m == 2 {
        if is_leap_year(y) { 29 } else { 28 }
    } else if m == 4 || m == 6 || m == 9 || m == 11 {
        30
    } else {
        31
    }
}

/// The day `y-m-d` exists in the proleptic Gregorian calendar and its year
/// lies in the range of `chrono::NaiveDate`.
pub open spec fn valid_ymd(y: int, m: int, d: int) -> bool {
    &&& MIN_YEAR <= y <= MAX_YEAR
    &&& 1 <= m <= 12
    &&& 1 <= d <= days_in_month(y, m)
}

/// Asks `chrono::NaiveDate::from_ymd_opt` whether `year-month-day` is a date.
/// Trusted: chrono documents that it returns `None` exactly when the day does
/// not exist, month or day is out of range, or the year is outside
/// `MIN_YEAR..=MAX_YEAR` (the bounds are chrono's `MIN_YEAR`/`MAX_YEAR`).
#[verifier::external_body]
fn chrono_ymd_exists(year: i32, month: u32, day: u32) -> (r: bool)
    ensures
        r == valid_ymd(year as int, month as int, day as int),
{
    chrono::NaiveDate::from_ymd_opt(year, month, day).is_some()
}

/// A calendar date, as the plain values of a `chrono::NaiveDate`.
#[derive(Clone, Copy, Debug, PartialEq, Eq)]
pub struct Date {
    pub year: i32,
    pub month: u32,
    pub day: u32,
}

impl Date {
    /// The date is one that `chrono::NaiveDate` can hold.
    pub open spec fn wf(&self) -> bool {
        valid_ymd(self.year as int, self.month as int, self.day as int)
    }

    /// `NaiveDate::from_ymd_opt`: the date `year-month-day`, or `None` where
    /// no such date exists.
    pub fn from_ymd_opt(year: i32, month: u32, day: u32) -> (r: Option<Date>)
        ensures
            r is Some <==> valid_ymd(year as int, month as int, day as int),
            r matches Some(d) ==> d.year == year && d.month == month && d.day == day,
    {
        if chrono_ymd_exists(year, month, day) {
            Some(Date { year, month, day })
        } else {
            None
        }
    }
}

/// The death date put in the form when the "is dead" box is ticked:
/// 2024-12-06.
pub fn default_death_date() -> (d: Date)
    ensures
        d.wf(),
        d.year == 2024 && d.month == 12 && d.day == 6,
{
    let r = Date::from_ymd_opt(2024, 12, 6);
    assert(valid_ymd(2024, 12, 6));
    r.unwrap()
}

/// The birth date that the creation form starts with: 2024-12-06.
pub fn default_birth_date() -> (d: Date)
    ensures
        d.wf(),
        d.year == 2024 && d.month == 12 && d.day == 6,
{
    default_death_date()
}

/// The birth date of the displayed person before any is fetched: 1900-01-01.
pub fn placeholder_birth_date() -> (d: Date)
    ensures
        d.wf(),
        d.year == 1900 && d.month == 1 && d.day == 1,
{
    let r = Date::from_ymd_opt(1900, 1, 1);
    assert(valid_ymd(1900, 1, 1));
    r.unwrap()
}

} // verus!
