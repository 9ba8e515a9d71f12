use crate::date::{Date, MAX_DAY};
use crate::growth::{growth, growth_up_to};
use vstd::prelude::*;

verus! {

/// Why an operation on tasks did not happen.
#[derive(Clone, Copy, Debug, PartialEq, Eq, Structural)]
pub enum TaskError {
    /// No task has the requested id.
    NotFound,
    /// The store could not take the record (no id is left to assign, or the
    /// record breaks a constraint of the store).
    StorageError,
    /// The rating code is none of the defined outcomes.
    InvalidRating,
    /// The next due date would fall past the last date of the calendar.
    OutOfRange,
}

/// The outcome of one review.
#[derive(Clone, Copy, Debug, PartialEq, Eq, Structural)]
pub enum Rating {
    /// Recalled with effort: steep growth, base 1.9.
    Hard,
    /// Recalled: gentler growth, base 1.3.
    Good,
    /// Forgotten: demote by up to three levels, due again tomorrow.
    Reset,
}

/// The rating that a numeric code stands for: 1 is hard, 2 good, 3 reset.
pub open spec fn rating_of_code(code: i64) -> Option<Rating> {
    if code == 1 {
        Some(Rating::Hard)
    } else if code == 2 {
        Some(Rating::Good)
    } else if code == 3 {
        Some(Rating::Reset)
    } else {
        None
    }
}

/// The level that a review with `rating` leaves behind.
pub open spec fn level_after(rating: Rating, level: nat) -> nat {
    match rating {
        Rating::Hard => level + 1,
        Rating::Good => level + 1,
        Rating::Reset => if level >= 3 {
            (level - 3) as nat
        } else {
            0
        },
    }
}

/// Days from the review to the next due date, read from the level before the review.
pub open spec fn interval_days(rating: Rating, level: nat) -> nat {
    match rating {
        Rating::Hard => growth(19, level),
        Rating::Good => growth(13, level),
        Rating::Reset => 1,
    }
}

/// A review can be recorded: the new level fits its integer and the new due
/// date still lies in the calendar.
pub open spec fn schedulable(rating: Rating, level: nat, today: Date) -> bool {
    &&& level_after(rating, level) <= u32::MAX
    &&& today.days + interval_days(rating, level) <= MAX_DAY
}

impl Rating {
    /// The rating for a numeric code; any code but 1, 2 and 3 is refused.
    pub fn from_code(code: i64) -> (r: Result<Rating, TaskError>)
        ensures
            r matches Ok(x) ==> rating_of_code(code) == Some(x),
            r matches Err(e) ==> rating_of_code(code) is None && e == TaskError::InvalidRating,
    {
        if code == 1 {
            Ok(Rating::Hard)
        } else if code == 2 {
            Ok(Rating::Good)
        } else if code == 3 {
            Ok(Rating::Reset)
        } else {
            Err(TaskError::InvalidRating)
        }
    }
}

/// The level and due date after a review with `rating` of a task at `level`, done
/// on `today`.
pub fn next_review(level: u32, rating: Rating, today: Date) -> (r: Result<(u32, Date), TaskError>)
    requires
        today.valid(),
    ensures
        r matches Ok((l, d)) ==> schedulable(rating, level as nat, today) && l == level_after(
            rating,
            level as nat,
        ) && d.valid() && d.days == today.days + interval_days(rating, level as nat),
        r matches Err(e) ==> !schedulable(rating, level as nat, today) && e
            == TaskError::OutOfRange,
{
    let room: u64 = (MAX_DAY - today.days) as u64;
    let (new_level, interval): (u32, u64) = match rating {
        Rating::Hard | Rating::Good => {
            if level == u32::MAX {
                return Err(TaskError::OutOfRange);
            }
            let tenths: u8 = if rating == Rating::Hard {
                19
            } else {
                13
            };
            match growth_up_to(tenths, level, room) {
                Some(days) => (level + 1, days),
                None => {
                    return Err(TaskError::OutOfRange);
                },
            }
        },
        Rating::Reset => (if level >= 3 {
            level - 3
        } else {
            0
        }, 1),
    };
    match today.add_days(interval) {
        Some(due) => Ok((new_level, due)),
        None => Err(TaskError::OutOfRange),
    }
}

} // verus!
