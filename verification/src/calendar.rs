//! The calendar date of a day, for showing the days of the year.

use chrono::Datelike;
use vstd::prelude::*;
use crate::day::Day;

verus! {

/// A date of the calendar.
#[derive(Clone, Copy, Debug, PartialEq, Eq, Structural)]
pub struct CalendarDate {
    /// The year.
    pub year: i32,
    /// The month, counted from one.
    pub month: u32,
    /// The day of the month, counted from one.
    pub day: u32,
    /// The day of the week, Monday being one.
    pub weekday: u32,
}

/// The date, in universal time, of the moment that lies `seconds` after the
/// start of 1970, as `chrono` computes it; none where `chrono` has no date
/// for it.
pub uninterp spec fn date_at(seconds: int) -> Option<CalendarDate>;

/// The date of a moment given in seconds since the start of 1970.
///
/// Trusted: this calls `chrono::DateTime::from_timestamp` and reads the
/// year, month, day and weekday of the date it gives, with `date_naive`,
/// the methods of `Datelike` and `Weekday::number_from_monday`. All of them
/// compute from the number of seconds alone; the contract only gives the
/// result a name.
#[verifier::external_body]
fn date_of_seconds(seconds: i64) -> (date: Option<CalendarDate>)
    ensures
        date == date_at(seconds as int),
{
    chrono::DateTime::from_timestamp(seconds, 0).map(|moment| moment.date_naive()).map(
        |date| CalendarDate {
            year: date.year(),
            month: date.month(),
            day: date.day(),
            weekday: date.weekday().number_from_monday(),
        },
    )
}

/// The number of seconds in a day.
pub const SECONDS_IN_DAY: i64 = 86400;

/// The moment of a day for which its date is asked: one hour after the day
/// has begun.
pub open spec fn moment_of(day: Day) -> int {
    day.0 * 86400 + 3600
}

/// The calendar date of a day; none for a day so far off that its seconds
/// cannot be counted, or that the calendar has no date for it.
pub fn date_from_day(day: Day) -> (date: Option<CalendarDate>)
    ensures
        date == (if moment_of(day) <= i64::MAX {
            date_at(moment_of(day))
        } else {
            None
        }),
{
    if day.0 > ((i64::MAX - 3600) / SECONDS_IN_DAY) as u64 {
        None
    } else {
        date_of_seconds(day.0 as i64 * SECONDS_IN_DAY + 3600)
    }
}

/// What parts two neighbouring days of the calendar.
#[derive(Clone, Copy, Debug, PartialEq, Eq, Structural)]
pub enum Boundary {
    /// Nothing: the days lie in one month.
    Nothing,
    /// A month ends between them, within one year.
    Month,
    /// A year ends between them.
    Year,
}

/// What parts the days of two dates.
pub fn boundary(date: CalendarDate, next: CalendarDate) -> (parts: Boundary)
    ensures
        parts == (if next.year != date.year {
            Boundary::Year
        } else if next.month != date.month {
            Boundary::Month
        } else {
            Boundary::Nothing
        }),
{
    if next.year != date.year {
        Boundary::Year
    } else if next.month != date.month {
        Boundary::Month
    } else {
        Boundary::Nothing
    }
}

} // verus!
