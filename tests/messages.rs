use feedback_matcher::matching_round::{Date, MatchingRound};
use feedback_matcher::messages::{
    feedback_date, feedback_day, feedback_day_checked, MAX_JULIAN_DAY, MIN_JULIAN_DAY,
};

fn day(year: i32, month: time::Month, day: u8) -> Date {
    Date { julian_day: time::Date::from_calendar_date(year, month, day).unwrap().to_julian_day() }
}

#[test]
fn test_feedback_date_match_on_thursday() {
    let date = day(2024, time::Month::February, 29);
    let matching_round = MatchingRound { id: 2, date, matches: vec![] };
    assert_eq!(feedback_date(&matching_round, 2), "14.03.");
}

#[test]
fn test_feedback_date_match_on_wednesday() {
    let date = day(2024, time::Month::February, 28);
    let matching_round = MatchingRound { id: 2, date, matches: vec![] };
    assert_eq!(feedback_date(&matching_round, 2), "14.03.");
}

#[test]
fn test_feedback_date_match_on_friday() {
    let date = day(2024, time::Month::March, 1);
    let matching_round = MatchingRound { id: 2, date, matches: vec![] };
    assert_eq!(feedback_date(&matching_round, 2), "14.03.");
}

#[test]
fn feedback_day_lands_on_thursday_of_the_later_week() {
    // 2024-03-03 is a Sunday; four weeks later the Thursday is 2024-04-04.
    let start = day(2024, time::Month::March, 3);
    assert_eq!(feedback_day(start, 4), day(2024, time::Month::April, 4));
    // A Saturday: the Thursday of its own week, two weeks on.
    let saturday = day(2024, time::Month::March, 9);
    assert_eq!(feedback_day(saturday, 2), day(2024, time::Month::March, 21));
}

#[test]
fn feedback_date_pads_day_and_month() {
    let matching_round = MatchingRound { id: 1, date: day(2024, time::Month::January, 1), matches: vec![] };
    // 2024-01-01 is a Monday; the Thursday one week later is 2024-01-11.
    assert_eq!(feedback_date(&matching_round, 1), "11.01.");
}

#[test]
fn feedback_day_outside_the_calendar_is_refused() {
    let start = day(2024, time::Month::March, 3);
    assert_eq!(feedback_day_checked(start, 4), Some(day(2024, time::Month::April, 4)));
    let last = Date { julian_day: MAX_JULIAN_DAY };
    assert_eq!(feedback_day_checked(last, 4), None);
    assert_eq!(feedback_day_checked(Date { julian_day: MIN_JULIAN_DAY - 1 }, 0), None);
    assert_eq!(feedback_day_checked(Date { julian_day: MIN_JULIAN_DAY }, -4), None);
}
