use memobot::{growth_up_to, next_review, Date, Rating, TaskError, MAX_DAY, MIN_DAY};

fn day(n: i32) -> Date {
    Date::from_days(n).unwrap()
}

#[test]
fn hard_at_level_three_waits_six_days() {
    let today = day(739349);
    assert_eq!(next_review(3, Rating::Hard, today), Ok((4, day(739355))));
}

#[test]
fn good_at_level_five_waits_three_days() {
    let today = day(739349);
    assert_eq!(next_review(5, Rating::Good, today), Ok((6, day(739352))));
}

#[test]
fn reset_at_level_two_clamps_to_zero() {
    let today = day(739349);
    assert_eq!(next_review(2, Rating::Reset, today), Ok((0, day(739350))));
}

#[test]
fn reset_at_level_zero_stays_zero() {
    let today = day(739349);
    assert_eq!(next_review(0, Rating::Reset, today), Ok((0, day(739350))));
}

#[test]
fn reset_demotes_by_three() {
    let today = day(1000);
    assert_eq!(next_review(7, Rating::Reset, today), Ok((4, day(1001))));
}

#[test]
fn level_zero_success_waits_one_day() {
    let today = day(1000);
    assert_eq!(next_review(0, Rating::Hard, today), Ok((1, day(1001))));
    assert_eq!(next_review(0, Rating::Good, today), Ok((1, day(1001))));
}

#[test]
fn growth_is_exact_floor() {
    assert_eq!(growth_up_to(19, 3, 1000), Some(6));
    assert_eq!(growth_up_to(13, 5, 1000), Some(3));
    assert_eq!(growth_up_to(19, 10, 1000), Some(613));
    assert_eq!(growth_up_to(13, 20, 1000), Some(190));
    assert_eq!(growth_up_to(13, 50, 1_000_000), Some(497929));
    assert_eq!(growth_up_to(19, 23, 3_000_000), Some(2578296));
    assert_eq!(growth_up_to(13, 57, 3_652_058), Some(3124432));
}

#[test]
fn growth_past_limit_is_none() {
    assert_eq!(growth_up_to(19, 10, 612), None);
    assert_eq!(growth_up_to(19, 10, 613), Some(613));
    assert_eq!(growth_up_to(13, 4000, 3_652_058), None);
}

#[test]
fn due_date_past_calendar_is_refused() {
    assert_eq!(next_review(40, Rating::Hard, day(1000)), Err(TaskError::OutOfRange));
    assert_eq!(next_review(0, Rating::Reset, day(MAX_DAY)), Err(TaskError::OutOfRange));
    assert_eq!(next_review(u32::MAX, Rating::Good, day(1000)), Err(TaskError::OutOfRange));
}

#[test]
fn rating_codes() {
    assert_eq!(Rating::from_code(1), Ok(Rating::Hard));
    assert_eq!(Rating::from_code(2), Ok(Rating::Good));
    assert_eq!(Rating::from_code(3), Ok(Rating::Reset));
    assert_eq!(Rating::from_code(0), Err(TaskError::InvalidRating));
    assert_eq!(Rating::from_code(4), Err(TaskError::InvalidRating));
    assert_eq!(Rating::from_code(-1), Err(TaskError::InvalidRating));
}

#[test]
fn date_range_and_arithmetic() {
    assert!(Date::from_days(MIN_DAY - 1).is_none());
    assert!(Date::from_days(MAX_DAY + 1).is_none());
    assert_eq!(day(10).add_days(5), Some(day(15)));
    assert_eq!(day(MAX_DAY - 1).add_days(2), None);
    assert!(day(3).on_or_before(&day(3)));
    assert!(!day(4).on_or_before(&day(3)));
}

#[test]
fn iso_text_round_trip() {
    assert_eq!(day(739349).to_iso(), "2025-04-08");
    assert_eq!(day(MIN_DAY).to_iso(), "0001-01-01");
    assert_eq!(day(MAX_DAY).to_iso(), "9999-12-31");
    assert_eq!(Date::parse_iso("2025-04-08"), Some(day(739349)));
    assert_eq!(Date::parse_iso("2025-02-30"), None);
    assert_eq!(Date::parse_iso("not a date"), None);
}
