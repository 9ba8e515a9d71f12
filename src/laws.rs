use crate::date::Date;
use crate::growth::pow;
use crate::schedule::{level_after, schedulable, Rating};
use crate::store::{due_by, due_descending, has_id, reviewed, well_ordered, Task, TaskStore};
use vstd::prelude::*;

verus! {

/// Filtering keeps the listing order, keeps exactly the tasks that pass, and
/// keeps ids apart.
proof fn lemma_filter_ordered(s: Seq<Task>, pred: spec_fn(Task) -> bool)
    requires
        well_ordered(s),
    ensures
        well_ordered(s.filter(pred)),
        forall|x: Task| #[trigger]
            s.filter(pred).contains(x) <==> (s.contains(x) && pred(x)),
    decreases s.len(),
{
    reveal(Seq::filter);
    if s.len() > 0 {
        let d = s.drop_last();
        let f = d.filter(pred);
        assert(well_ordered(d)) by {
            assert forall|i: int, j: int| 0 <= i < j < d.len() implies crate::store::precedes(
                #[trigger] d[i],
                #[trigger] d[j],
            ) by {
                assert(d[i] == s[i] && d[j] == s[j]);
            }
        }
        lemma_filter_ordered(d, pred);
        let last = s.last();
        assert forall|x: Task| #[trigger] s.contains(x) <==> (d.contains(x) || x == last) by {
            if s.contains(x) {
                let i = choose|i: int| 0 <= i < s.len() && s[i] == x;
                if i < s.len() - 1 {
                    assert(d[i] == x);
                }
            }
            if d.contains(x) {
                let i = choose|i: int| 0 <= i < d.len() && d[i] == x;
                assert(s[i] == x);
            }
        }
        if pred(last) {
            let g = f.push(last);
            assert forall|i: int, j: int| 0 <= i < j < g.len() implies crate::store::precedes(
                #[trigger] g[i],
                #[trigger] g[j],
            ) by {
                if j == g.len() - 1 {
                    assert(f.contains(g[i]));
                    let k = choose|k: int| 0 <= k < d.len() && d[k] == g[i];
                    assert(s[k] == g[i]);
                    assert(s[s.len() - 1] == last);
                } else {
                    assert(g[i] == f[i] && g[j] == f[j]);
                }
            }
            assert forall|x: Task| #[trigger] g.contains(x) <==> (f.contains(x) || x == last) by {
                if g.contains(x) {
                    let i = choose|i: int| 0 <= i < g.len() && g[i] == x;
                    if i < f.len() {
                        assert(f[i] == x);
                    }
                }
                if f.contains(x) {
                    let i = choose|i: int| 0 <= i < f.len() && f[i] == x;
                    assert(g[i] == x);
                }
                if x == last {
                    assert(g[g.len() - 1] == x);
                }
            }
        }
    } else {
        assert forall|x: Task| #[trigger] s.filter(pred).contains(x) implies false by {
            let i = choose|i: int| 0 <= i < s.filter(pred).len() && s.filter(pred)[i] == x;
        }
    }
}

/// The due listing as of a date holds exactly the tasks of the full listing
/// that are due on or before that date, in the same order, and both listings
/// run from the latest due date to the earliest.
pub proof fn lemma_due_listing(store: TaskStore, as_of: Date)
    requires
        store.wf(),
    ensures
        forall|t: Task| #[trigger]
            due_by(store@, as_of).contains(t) <==> (store@.contains(t) && t.due_date.days
                <= as_of.days),
        well_ordered(due_by(store@, as_of)),
        due_descending(store@),
        due_descending(due_by(store@, as_of)),
{
    lemma_filter_ordered(store@, |t: Task| t.due_date.days <= as_of.days);
    let f = due_by(store@, as_of);
    assert forall|i: int, j: int| 0 <= i < j < f.len() implies #[trigger] f[i].due_date.days
        >= #[trigger] f[j].due_date.days by {
        assert(crate::store::precedes(f[i], f[j]));
    }
    let s = store@;
    assert forall|i: int, j: int| 0 <= i < j < s.len() implies #[trigger] s[i].due_date.days
        >= #[trigger] s[j].due_date.days by {
        assert(crate::store::precedes(s[i], s[j]));
    }
}

/// Once the tasks of an id are taken out, no task with that id is left to find,
/// list or review, and the id is never handed out again: every id a store
/// assigns lies at or above its next id, which is above every id it holds.
pub proof fn lemma_deleted_stays_gone(before: TaskStore, after: TaskStore, id: i64)
    requires
        before.wf(),
        after.wf(),
        forall|x: Task| #[trigger] after@.contains(x) <==> (before@.contains(x) && x.id != id),
    ensures
        !has_id(after@, id),
        forall|x: Task| #[trigger] after@.contains(x) ==> x.id != id,
        !has_id(after@, after.next_id() as i64),
{
    if has_id(after@, id) {
        let k = choose|k: int| 0 <= k < after@.len() && #[trigger] after@[k].id == id;
        assert(after@.contains(after@[k]));
    }
    if has_id(after@, after.next_id() as i64) {
        let k = choose|k: int|
            0 <= k < after@.len() && #[trigger] after@[k].id == after.next_id() as i64;
    }
}

/// A recorded review: hard and good raise the level by one and set the task due
/// `floor(1.9 ^ level)` or `floor(1.3 ^ level)` days after the review, read from
/// the level before it; reset lowers the level by three, not below zero, and
/// sets the task due the next day. Name, url and id stay.
pub proof fn lemma_review_rule(t: Task, rating: Rating, today: Date)
    requires
        today.valid(),
        schedulable(rating, t.level as nat, today),
    ensures
        reviewed(t, rating, today).id == t.id,
        reviewed(t, rating, today).name == t.name,
        reviewed(t, rating, today).url == t.url,
        rating == Rating::Hard ==> reviewed(t, rating, today).level == t.level + 1
            && reviewed(t, rating, today).due_date.days - today.days == pow(19, t.level as nat)
            / pow(10, t.level as nat),
        rating == Rating::Good ==> reviewed(t, rating, today).level == t.level + 1
            && reviewed(t, rating, today).due_date.days - today.days == pow(13, t.level as nat)
            / pow(10, t.level as nat),
        rating == Rating::Reset ==> reviewed(t, rating, today).level == (if t.level >= 3 {
            t.level - 3
        } else {
            0
        }) && reviewed(t, rating, today).due_date.days == today.days + 1,
{
}

/// The level after a run of reviews, one rating after another.
pub open spec fn level_after_reviews(level: nat, ratings: Seq<Rating>) -> int
    decreases ratings.len(),
{
    if ratings.len() == 0 {
        level as int
    } else {
        level_after_reviews(level_after(ratings[0], level), ratings.skip(1))
    }
}

/// Whatever run of ratings a task goes through, its level never drops below
/// zero: a reset demotes by three levels at most and stops at zero.
pub proof fn lemma_level_never_negative(level: nat, ratings: Seq<Rating>)
    ensures
        level_after_reviews(level, ratings) >= 0,
        level_after(Rating::Reset, level) == (if level >= 3 {
            level - 3
        } else {
            0
        }),
    decreases ratings.len(),
{
    if ratings.len() > 0 {
        lemma_level_never_negative(level_after(ratings[0], level), ratings.skip(1));
    }
}

} // verus!
