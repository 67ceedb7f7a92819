//! The day on which feedback is due, as shown in the messages of a round.
use vstd::prelude::*;

use crate::matching_round::{Date, MatchingRound};

verus! {

/// Julian day of -9999-01-01, the first day that the calendar handles.
pub const MIN_JULIAN_DAY: i32 = -1930999;

/// Julian day of 9999-12-31, the last day that the calendar handles.
pub const MAX_JULIAN_DAY: i32 = 5373484;

/// The day of the week on which feedback is given, counted from Sunday.
pub const FEEDBACK_WEEKDAY: i64 = 4;

/// Whether the calendar handles the day with this Julian day number.
pub open spec fn in_calendar(julian_day: int) -> bool {
    MIN_JULIAN_DAY <= julian_day <= MAX_JULIAN_DAY
}

/// The day of the week of a Julian day, counted from Sunday (0) to Saturday (6).
pub open spec fn weekday_from_sunday(julian_day: int) -> int {
    (julian_day % 7 + 1) % 7
}

/// The text of a day as its day of the month and its month, two digits each,
/// each followed by a dot.
pub uninterp spec fn day_month_of(julian_day: int) -> Seq<char>;

/// Relies on time's `Date::from_julian_day`, `Date::weekday` and
/// `Weekday::number_days_from_sunday`: the weekday is read from the Julian day
/// modulo 7, with 0 for Monday.
#[verifier::external_body]
fn days_from_sunday(date: Date) -> (r: u8)
    requires
        in_calendar(date.julian_day as int),
    ensures
        r == weekday_from_sunday(date.julian_day as int),
{
    time::Date::from_julian_day(date.julian_day).unwrap().weekday().number_days_from_sunday()
}

/// Relies on time's `Date::format` with the description `[day].[month].`.
#[verifier::external_body]
fn day_month_text(date: Date) -> (r: String)
    requires
        in_calendar(date.julian_day as int),
    ensures
        r@ == day_month_of(date.julian_day as int),
{
    let day = time::Date::from_julian_day(date.julian_day).unwrap();
    let description = time::format_description::parse("[day].[month].").unwrap();
    day.format(&description).unwrap()
}

/// The day on which feedback for a round made on `julian_day` is due: the
/// Thursday of the week that lies `weeks` weeks after the round's week, the
/// week starting on Sunday.
pub open spec fn feedback_day_of(julian_day: int, weeks: int) -> int {
    julian_day + 7 * weeks + FEEDBACK_WEEKDAY - weekday_from_sunday(julian_day)
}

/// The day on which feedback for a round made on `date` is due, `weeks` weeks
/// later; `None` where that day or `date` lies outside the calendar.
pub fn feedback_day_checked(date: Date, weeks: i32) -> (r: Option<Date>)
    ensures
        r is Some <==> in_calendar(date.julian_day as int) && in_calendar(
            feedback_day_of(date.julian_day as int, weeks as int),
        ),
        r matches Some(d) ==> d.julian_day == feedback_day_of(date.julian_day as int, weeks as int),
{
    if date.julian_day < MIN_JULIAN_DAY || date.julian_day > MAX_JULIAN_DAY {
        return None;
    }
    let weekday = days_from_sunday(date) as i64;
    let day = date.julian_day as i64 + 7 * (weeks as i64) + FEEDBACK_WEEKDAY - weekday;
    if day < MIN_JULIAN_DAY as i64 || day > MAX_JULIAN_DAY as i64 {
        None
    } else {
        Some(Date { julian_day: day as i32 })
    }
}

/// The day on which feedback for a round made on `date` is due, `weeks` weeks
/// later.
pub fn feedback_day(date: Date, weeks: i32) -> (r: Date)
    requires
        in_calendar(date.julian_day as int),
        in_calendar(feedback_day_of(date.julian_day as int, weeks as int)),
    ensures
        r.julian_day == feedback_day_of(date.julian_day as int, weeks as int),
{
    feedback_day_checked(date, weeks).unwrap()
}

/// The due day of feedback for `matching_round`, as day and month.
pub fn feedback_date(matching_round: &MatchingRound, intervall_weeks: i32) -> (r: String)
    requires
        in_calendar(matching_round.date.julian_day as int),
        in_calendar(feedback_day_of(matching_round.date.julian_day as int, intervall_weeks as int)),
    ensures
        r@ == day_month_of(
            feedback_day_of(matching_round.date.julian_day as int, intervall_weeks as int),
        ),
{
    day_month_text(feedback_day(matching_round.date, intervall_weeks))
}

} // verus!
