//! Calendar timestamps with second precision.

use vstd::prelude::*;

verus! {

/// Largest year the calendar represents.
pub const MAX_YEAR: i32 = 262142;

/// A calendar date and time of day, as written in a record.
#[derive(Debug, PartialEq, Eq, Clone, Copy, Structural)]
pub struct Timestamp {
    pub year: i32,
    pub month: u32,
    pub day: u32,
    pub hour: u32,
    pub minute: u32,
    pub second: u32,
}

/// Gregorian leap years: every fourth year, except centuries not divisible by 400.
pub open spec fn is_leap_year(year: int) -> bool {
    year % 4 == 0 && (year % 100 != 0 || year % 400 == 0)
}

/// Number of days of `month` in `year`.
pub open spec fn days_in_month(year: int, month: int) -> int {
    if month == 2 {
        if is_leap_year(year) {
            29
        } else {
            28
        }
    } else if month == 4 || month == 6 || month == 9 || month == 11 {
        30
    } else {
        31
    }
}

/// True when the day exists in the proleptic Gregorian calendar and the
/// year, taken from zero on, is one the calendar represents.
pub open spec fn date_exists(year: int, month: int, day: int) -> bool {
    &&& 0 <= year <= MAX_YEAR
    &&& 1 <= month <= 12
    &&& 1 <= day <= days_in_month(year, month)
}

/// True for a time of day without leap second.
pub open spec fn time_exists(hour: int, minute: int, second: int) -> bool {
    0 <= hour < 24 && 0 <= minute < 60 && 0 <= second < 60
}

impl Timestamp {
    /// True when both the date and the time of day exist.
    pub open spec fn well_formed(&self) -> bool {
        &&& date_exists(self.year as int, self.month as int, self.day as int)
        &&& time_exists(self.hour as int, self.minute as int, self.second as int)
    }

    /// Tells whether the timestamp names a moment that exists.
    pub fn is_valid(&self) -> (ok: bool)
        ensures
            ok == self.well_formed(),
    {
        self.year >= 0 && calendar_has_date(self.year, self.month, self.day) && clock_has_time(
            self.hour,
            self.minute,
            self.second,
        )
    }
}

/// `chrono::NaiveDate::from_ymd_opt` yields a date exactly when the day
/// exists in the calendar and the year is within its range. Stated for years
/// from zero on.
#[verifier::external_body]
pub(crate) fn calendar_has_date(year: i32, month: u32, day: u32) -> (ok: bool)
    requires
        0 <= year,
    ensures
        ok == date_exists(year as int, month as int, day as int),
{
    chrono::NaiveDate::from_ymd_opt(year, month, day).is_some()
}

/// `chrono::NaiveTime::from_hms_opt` yields a time exactly when the hour is
/// below 24 and minute and second are below 60.
#[verifier::external_body]
pub(crate) fn clock_has_time(hour: u32, minute: u32, second: u32) -> (ok: bool)
    ensures
        ok == time_exists(hour as int, minute as int, second as int),
{
    chrono::NaiveTime::from_hms_opt(hour, minute, second).is_some()
}

} // verus!
