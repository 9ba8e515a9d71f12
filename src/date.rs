use chrono::Datelike;
use vstd::prelude::*;

verus! {

/// Day number of 0001-01-01, counting as chrono's `num_days_from_ce` does.
pub const MIN_DAY: i32 = 1;

/// Day number of 9999-12-31: the last date whose ISO text has a four-digit year,
/// so that text order and date order coincide on every valid date.
pub const MAX_DAY: i32 = 3652059;

/// The ISO text (`YYYY-MM-DD`) of a day number.
pub uninterp spec fn iso_text_of_day(day: int) -> Seq<char>;

/// The day number that an ISO date text denotes, if it denotes one.
pub uninterp spec fn day_of_iso_text(text: Seq<char>) -> Option<int>;

/// Relies on chrono's `NaiveDate::from_num_days_from_ce_opt` (which accepts every
/// day in range) and its `%Y-%m-%d` format: the ISO text of the day.
#[verifier::external_body]
fn format_iso_day(day: i32) -> (r: String)
    requires
        MIN_DAY <= day <= MAX_DAY,
    ensures
        r@ == iso_text_of_day(day as int),
{
    chrono::NaiveDate::from_num_days_from_ce_opt(day).unwrap().format("%Y-%m-%d").to_string()
}

/// Relies on chrono's `FromStr` for `NaiveDate` and on `num_days_from_ce`: the day
/// number of the date that the text spells, or nothing when chrono rejects it.
#[verifier::external_body]
fn parse_iso_day(text: &str) -> (r: Option<i32>)
    ensures
        r matches Some(d) ==> day_of_iso_text(text@) == Some(d as int),
        r is None ==> day_of_iso_text(text@) is None,
{
    match text.parse::<chrono::NaiveDate>() {
        Ok(d) => Some(d.num_days_from_ce()),
        Err(_) => None,
    }
}

/// A calendar date without time, held as its day number (0001-01-01 is day 1).
#[derive(Clone, Copy, Debug, PartialEq, Eq, Structural)]
pub struct Date {
    pub days: i32,
}

impl Date {
    /// A date lies between 0001-01-01 and 9999-12-31.
    pub open spec fn valid(self) -> bool {
        MIN_DAY <= self.days <= MAX_DAY
    }

    /// The date with the given day number, if it lies in the calendar's range.
    pub fn from_days(days: i32) -> (r: Option<Date>)
        ensures
            r matches Some(d) ==> d.valid() && d.days == days,
            r is None <==> !(MIN_DAY <= days <= MAX_DAY),
    {
        if MIN_DAY <= days && days <= MAX_DAY {
            Some(Date { days })
        } else {
            None
        }
    }

    /// Whether the date lies in the calendar's range.
    pub fn valid_exec(&self) -> (r: bool)
        ensures
            r == self.valid(),
    {
        MIN_DAY <= self.days && self.days <= MAX_DAY
    }

    /// The date `n` days later, if it still lies in the calendar's range.
    pub fn add_days(&self, n: u64) -> (r: Option<Date>)
        requires
            self.valid(),
        ensures
            r matches Some(d) ==> d.valid() && d.days == self.days + n,
            r is None <==> self.days + n > MAX_DAY,
    {
        if n <= (MAX_DAY - self.days) as u64 {
            Some(Date { days: self.days + n as i32 })
        } else {
            None
        }
    }

    /// Whether this date falls on or before `other`.
    pub fn on_or_before(&self, other: &Date) -> (r: bool)
        ensures
            r == (self.days <= other.days),
    {
        self.days <= other.days
    }

    /// The date as ISO text, `YYYY-MM-DD`.
    pub fn to_iso(&self) -> (r: String)
        requires
            self.valid(),
        ensures
            r@ == iso_text_of_day(self.days as int),
    {
        format_iso_day(self.days)
    }

    /// The date that an ISO text spells, if it spells one in the calendar's range.
    pub fn parse_iso(text: &str) -> (r: Option<Date>)
        ensures
            r matches Some(d) ==> d.valid() && day_of_iso_text(text@) == Some(d.days as int),
            r is None <==> match day_of_iso_text(text@) {
                Some(d) => !(MIN_DAY <= d <= MAX_DAY),
                None => true,
            },
    {
        match parse_iso_day(text) {
            Some(d) => Date::from_days(d),
            None => None,
        }
    }
}

} // verus!
