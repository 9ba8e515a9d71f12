//! Spaced-repetition review tasks: a calendar date type, the scheduling rule
//! that maps a proficiency level and a rating to the next level and due date,
//! and an in-memory task store whose queries are proved against its model.

mod date;
mod growth;
mod laws;
mod schedule;
mod store;

pub use date::{Date, MAX_DAY, MIN_DAY};
pub use growth::{growth, growth_up_to, pow};
pub use schedule::{
    interval_days, level_after, next_review, rating_of_code, schedulable, Rating, TaskError,
};
pub use store::{
    due_by, due_descending, has_id, ids_unique, is_placeholder, precedes, reviewed, valid_store,
    well_ordered, Task, TaskStore,
};
pub use laws::{
    lemma_deleted_stays_gone, lemma_due_listing, lemma_level_never_negative, lemma_review_rule,
    level_after_reviews,
};
