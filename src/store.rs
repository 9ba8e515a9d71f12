use crate::date::Date;
use crate::schedule::{interval_days, level_after, next_review, rating_of_code, schedulable};
use crate::schedule::{Rating, TaskError};
use vstd::prelude::*;

verus! {

/// One thing to revisit periodically.
#[derive(Debug)]
pub struct Task {
    pub id: i64,
    pub name: String,
    pub url: String,
    pub level: u32,
    pub due_date: Date,
}

/// `a` comes before `b` in a listing: later due date first, then higher id first.
pub open spec fn precedes(a: Task, b: Task) -> bool {
    a.due_date.days > b.due_date.days || (a.due_date.days == b.due_date.days && a.id > b.id)
}

/// Every task comes before all that follow it.
pub open spec fn well_ordered(s: Seq<Task>) -> bool {
    forall|i: int, j: int| 0 <= i < j < s.len() ==> precedes(#[trigger] s[i], #[trigger] s[j])
}

/// No due date of the sequence falls before a later entry's.
pub open spec fn due_descending(s: Seq<Task>) -> bool {
    forall|i: int, j: int|
        0 <= i < j < s.len() ==> #[trigger] s[i].due_date.days >= #[trigger] s[j].due_date.days
}

/// No two tasks share an id.
pub open spec fn ids_unique(s: Seq<Task>) -> bool {
    forall|i: int, j: int| 0 <= i < j < s.len() ==> #[trigger] s[i].id != #[trigger] s[j].id
}

/// Some task has the id.
pub open spec fn has_id(s: Seq<Task>, id: i64) -> bool {
    exists|i: int| 0 <= i < s.len() && #[trigger] s[i].id == id
}

/// `t` after a review with `rating` on `today`: new level and due date, the rest kept.
pub open spec fn reviewed(t: Task, rating: Rating, today: Date) -> Task {
    Task {
        level: level_after(rating, t.level as nat) as u32,
        due_date: Date { days: (today.days + interval_days(rating, t.level as nat)) as i32 },
        ..t
    }
}

/// `t` is the placeholder that an empty store receives on first start.
pub open spec fn is_placeholder(t: Task, id: int, today: Date) -> bool {
    &&& t.id == id
    &&& t.name@ == "Add a task"@
    &&& t.url@ == "http://example.com"@
    &&& t.level == 0
    &&& t.due_date == today
}

/// The tasks due on or before `as_of`, in their order.
pub open spec fn due_by(s: Seq<Task>, as_of: Date) -> Seq<Task> {
    s.filter(|t: Task| t.due_date.days <= as_of.days)
}

/// The state of a store: tasks in listing order with unique ids, each below
/// the next id to assign, each due on a valid date.
pub open spec fn valid_store(s: Seq<Task>, next_id: int) -> bool {
    &&& well_ordered(s)
    &&& ids_unique(s)
    &&& 1 <= next_id <= i64::MAX
    &&& forall|i: int|
        0 <= i < s.len() ==> 0 < (#[trigger] s[i]).id < next_id && s[i].due_date.valid()
}

impl Task {
    /// A copy of the task.
    pub fn duplicate(&self) -> (r: Task)
        ensures
            r == *self,
    {
        Task {
            id: self.id,
            name: self.name.clone(),
            url: self.url.clone(),
            level: self.level,
            due_date: self.due_date,
        }
    }

    /// The task that a stored row describes; a row whose level is negative or too
    /// large, or whose due date is no ISO date of the calendar, is refused.
    pub fn from_row(id: i64, name: String, url: String, level: i64, due_text: &str) -> (r: Result<
        Task,
        TaskError,
    >)
        ensures
            r matches Ok(t) ==> t.id == id && t.name == name && t.url == url && t.level == level
                && t.due_date.valid() && crate::date::day_of_iso_text(due_text@) == Some(
                t.due_date.days as int,
            ),
            r is Err ==> r == Err::<Task, TaskError>(TaskError::StorageError),
            r is Err <==> !(0 <= level <= u32::MAX) || match crate::date::day_of_iso_text(
                due_text@,
            ) {
                Some(d) => !(crate::date::MIN_DAY <= d <= crate::date::MAX_DAY),
                None => true,
            },
    {
        if level < 0 || level > u32::MAX as i64 {
            return Err(TaskError::StorageError);
        }
        match Date::parse_iso(due_text) {
            Some(due_date) => Ok(Task { id, name, url, level: level as u32, due_date }),
            None => Err(TaskError::StorageError),
        }
    }
}

/// With unique ids, the id at `idx` stands at no other index.
proof fn lemma_id_at_one_index(s: Seq<Task>, idx: int)
    requires
        ids_unique(s),
        0 <= idx < s.len(),
    ensures
        forall|k: int| 0 <= k < s.len() && #[trigger] s[k].id == s[idx].id ==> k == idx,
{
    assert forall|k: int| 0 <= k < s.len() && #[trigger] s[k].id == s[idx].id implies k == idx by {
        if k < idx {
            assert(s[k].id != s[idx].id);
        } else if k > idx {
            assert(s[idx].id != s[k].id);
        }
    }
}

fn precedes_exec(a: &Task, b: &Task) -> (r: bool)
    ensures
        r == precedes(*a, *b),
{
    a.due_date.days > b.due_date.days || (a.due_date.days == b.due_date.days && a.id > b.id)
}

/// An ordered, id-keyed collection of tasks.
pub struct TaskStore {
    tasks: Vec<Task>,
    next_id: i64,
}

impl View for TaskStore {
    type V = Seq<Task>;

    closed spec fn view(&self) -> Seq<Task> {
        self.tasks@
    }
}

impl TaskStore {
    /// The id that the next created task receives.
    pub closed spec fn next_id(&self) -> int {
        self.next_id as int
    }

    /// The store's invariant: see `valid_store`.
    pub open spec fn wf(&self) -> bool {
        valid_store(self@, self.next_id())
    }

    /// An empty store.
    pub fn new() -> (r: TaskStore)
        ensures
            r.wf(),
            r@ == Seq::<Task>::empty(),
            r.next_id() == 1,
    {
        TaskStore { tasks: Vec::new(), next_id: 1 }
    }

    /// Puts a task into its place in the listing order.
    fn place(&mut self, task: Task)
        requires
            old(self).wf(),
            task.due_date.valid(),
            0 < task.id < old(self).next_id(),
            !has_id(old(self)@, task.id),
        ensures
            final(self).wf(),
            final(self).next_id() == old(self).next_id(),
            final(self)@.len() == old(self)@.len() + 1,
            forall|t: Task| #[trigger]
                final(self)@.contains(t) <==> (old(self)@.contains(t) || t == task),
    {
        let ghost s = self.tasks@;
        let mut p: usize = 0;
        while p < self.tasks.len() && precedes_exec(&self.tasks[p], &task)
            invariant
                p <= self.tasks@.len(),
                self.tasks@ == s,
                forall|k: int| 0 <= k < p ==> precedes(#[trigger] s[k], task),
            decreases self.tasks@.len() - p,
        {
            p = p + 1;
        }
        proof {
            assert forall|m: int| p <= m < s.len() implies precedes(task, #[trigger] s[m]) by {
                assert(s[m].id != task.id);
                if m > p {
                    assert(precedes(s[p as int], s[m]));
                }
            }
        }
        self.tasks.insert(p, task);
        proof {
            let n = self.tasks@;
            assert forall|i: int, j: int| 0 <= i < j < n.len() implies precedes(
                #[trigger] n[i],
                #[trigger] n[j],
            ) by {
                if j < p {
                } else if j == p {
                } else if i < p {
                    assert(precedes(s[i], s[j - 1]));
                } else if i == p {
                } else {
                    assert(precedes(s[i - 1], s[j - 1]));
                }
            }
            assert forall|i: int, j: int| 0 <= i < j < n.len() implies #[trigger] n[i].id
                != #[trigger] n[j].id by {
                if i == p {
                    assert(n[j] == s[j - 1]);
                } else if j == p {
                    if i < p {
                        assert(n[i] == s[i]);
                    }
                } else {
                    let a = if i < p {
                        i
                    } else {
                        i - 1
                    };
                    let b = if j < p {
                        j
                    } else {
                        j - 1
                    };
                    assert(n[i] == s[a] && n[j] == s[b]);
                }
            }
            assert forall|i: int| 0 <= i < n.len() implies 0 < (#[trigger] n[i]).id
                < self.next_id && n[i].due_date.valid() by {
                if i < p {
                    assert(n[i] == s[i]);
                } else if i > p {
                    assert(n[i] == s[i - 1]);
                }
            }
            assert forall|t: Task| #[trigger] n.contains(t) <==> (s.contains(t) || t == task) by {
                if n.contains(t) {
                    let i = choose|i: int| 0 <= i < n.len() && n[i] == t;
                    if i < p {
                        assert(s[i] == t);
                    } else if i > p {
                        assert(s[i - 1] == t);
                    }
                }
                if s.contains(t) {
                    let i = choose|i: int| 0 <= i < s.len() && s[i] == t;
                    if i < p {
                        assert(n[i] == t);
                    } else {
                        assert(n[i + 1] == t);
                    }
                }
                if t == task {
                    assert(n[p as int] == t);
                }
            }
        }
    }

    /// Takes out the task at `idx`.
    fn remove_at(&mut self, idx: usize) -> (r: Task)
        requires
            old(self).wf(),
            idx < old(self)@.len(),
        ensures
            final(self).wf(),
            final(self).next_id() == old(self).next_id(),
            final(self)@.len() == old(self)@.len() - 1,
            r == old(self)@[idx as int],
            forall|t: Task| #[trigger]
                final(self)@.contains(t) <==> (old(self)@.contains(t) && t.id != r.id),
    {
        let ghost s = self.tasks@;
        let r = self.tasks.remove(idx);
        proof {
            let n = self.tasks@;
            assert forall|i: int, j: int| 0 <= i < j < n.len() implies precedes(
                #[trigger] n[i],
                #[trigger] n[j],
            ) && n[i].id != n[j].id by {
                let a = if i < idx {
                    i
                } else {
                    i + 1
                };
                let b = if j < idx {
                    j
                } else {
                    j + 1
                };
                assert(n[i] == s[a] && n[j] == s[b]);
            }
            assert forall|i: int| 0 <= i < n.len() implies 0 < (#[trigger] n[i]).id
                < self.next_id && n[i].due_date.valid() by {
                if i >= idx {
                    assert(n[i] == s[i + 1]);
                }
            }
            assert forall|t: Task| #[trigger]
                n.contains(t) <==> (s.contains(t) && t.id != r.id) by {
                if n.contains(t) {
                    let i = choose|i: int| 0 <= i < n.len() && n[i] == t;
                    let a = if i < idx {
                        i
                    } else {
                        i + 1
                    };
                    assert(s[a] == t);
                    if a < idx {
                        assert(s[a].id != s[idx as int].id);
                    } else {
                        assert(s[idx as int].id != s[a].id);
                    }
                }
                if s.contains(t) && t.id != r.id {
                    let i = choose|i: int| 0 <= i < s.len() && s[i] == t;
                    if i < idx {
                        assert(n[i] == t);
                    } else {
                        assert(i != idx);
                        assert(n[i - 1] == t);
                    }
                }
            }
        }
        r
    }

    /// Where the task of the given id stands, if any does.
    fn index_of(&self, id: i64) -> (r: Option<usize>)
        ensures
            r matches Some(i) ==> i < self@.len() && self@[i as int].id == id,
            r is None <==> !has_id(self@, id),
    {
        let mut i: usize = 0;
        while i < self.tasks.len()
            invariant
                i <= self.tasks@.len(),
                forall|k: int| 0 <= k < i ==> (#[trigger] self.tasks@[k]).id != id,
            decreases self.tasks@.len() - i,
        {
            if self.tasks[i].id == id {
                return Some(i);
            }
            i = i + 1;
        }
        None
    }

    /// Every task, latest due date first (equal dates: higher id first).
    pub fn list_all(&self) -> (r: Vec<Task>)
        ensures
            r@ == self@,
    {
        let mut r: Vec<Task> = Vec::new();
        let mut i: usize = 0;
        while i < self.tasks.len()
            invariant
                i <= self.tasks@.len(),
                r@ == self.tasks@.take(i as int),
            decreases self.tasks@.len() - i,
        {
            r.push(self.tasks[i].duplicate());
            assert(self.tasks@.take(i + 1) =~= self.tasks@.take(i as int).push(self.tasks@[i as int]));
            i = i + 1;
        }
        assert(self.tasks@.take(i as int) =~= self.tasks@);
        r
    }

    /// The tasks due on or before `as_of`, in the order of `list_all`.
    pub fn list_due(&self, as_of: Date) -> (r: Vec<Task>)
        ensures
            r@ == due_by(self@, as_of),
    {
        let mut r: Vec<Task> = Vec::new();
        let mut i: usize = 0;
        assert(self.tasks@.take(0) =~= Seq::<Task>::empty());
        proof {
            reveal(Seq::filter);
        }
        while i < self.tasks.len()
            invariant
                i <= self.tasks@.len(),
                r@ == due_by(self.tasks@.take(i as int), as_of),
            decreases self.tasks@.len() - i,
        {
            proof {
                reveal(Seq::filter);
                assert(self.tasks@.take(i + 1).drop_last() =~= self.tasks@.take(i as int));
                assert(self.tasks@.take(i + 1).last() == self.tasks@[i as int]);
            }
            if self.tasks[i].due_date.on_or_before(&as_of) {
                r.push(self.tasks[i].duplicate());
            }
            i = i + 1;
        }
        assert(self.tasks@.take(i as int) =~= self.tasks@);
        r
    }

    /// The task of the given id.
    pub fn get(&self, id: i64) -> (r: Result<Task, TaskError>)
        ensures
            r matches Ok(t) ==> self@.contains(t) && t.id == id,
            r matches Err(e) ==> e == TaskError::NotFound,
            r is Err <==> !has_id(self@, id),
    {
        match self.index_of(id) {
            Some(i) => Ok(self.tasks[i].duplicate()),
            None => Err(TaskError::NotFound),
        }
    }

    /// Adds a task at level 0, due `today`, under the next id.
    pub fn create(&mut self, name: String, url: String, today: Date) -> (r: Result<Task, TaskError>)
        requires
            old(self).wf(),
            today.valid(),
        ensures
            final(self).wf(),
            r matches Ok(t) ==> t == (Task { id: old(self).next_id() as i64, name, url, level: 0, due_date: today })
                && final(self).next_id() == old(self).next_id() + 1
                && final(self)@.len() == old(self)@.len() + 1
                && forall|x: Task| #[trigger]
                final(self)@.contains(x) <==> (old(self)@.contains(x) || x == t),
            r matches Err(e) ==> e == TaskError::StorageError && final(self)@ == old(self)@
                && final(self).next_id() == old(self).next_id(),
            r is Err <==> old(self).next_id() == i64::MAX,
    {
        if self.next_id == i64::MAX {
            return Err(TaskError::StorageError);
        }
        let id = self.next_id;
        self.next_id = id + 1;
        let task = Task { id, name, url, level: 0, due_date: today };
        let out = task.duplicate();
        proof {
            if has_id(self.tasks@, id) {
                let i = choose|i: int| 0 <= i < self.tasks@.len() && #[trigger] self.tasks@[i].id == id;
                assert(self.tasks@[i].id < id);
            }
        }
        self.place(task);
        Ok(out)
    }

    /// Removes the task of the given id; an absent id leaves the store as it is.
    pub fn delete(&mut self, id: i64)
        requires
            old(self).wf(),
        ensures
            final(self).wf(),
            final(self).next_id() == old(self).next_id(),
            !has_id(final(self)@, id),
            forall|x: Task| #[trigger]
                final(self)@.contains(x) <==> (old(self)@.contains(x) && x.id != id),
            !has_id(old(self)@, id) ==> final(self)@ == old(self)@,
    {
        match self.index_of(id) {
            Some(i) => {
                let _ = self.remove_at(i);
                proof {
                    if has_id(self.tasks@, id) {
                        let k = choose|k: int| 0 <= k < self.tasks@.len() && #[trigger] self.tasks@[k].id == id;
                        assert(self@.contains(self.tasks@[k]));
                    }
                }
            },
            None => {
                proof {
                    assert forall|x: Task| #[trigger] self@.contains(x) implies x.id != id by {
                        let k = choose|k: int| 0 <= k < self.tasks@.len() && self.tasks@[k] == x;
                        assert(self.tasks@[k].id != id);
                    }
                }
            },
        }
    }

    /// Sets the level and due date of the task of the given id.
    pub fn update(&mut self, id: i64, level: u32, due_date: Date) -> (r: Result<Task, TaskError>)
        requires
            old(self).wf(),
            due_date.valid(),
        ensures
            final(self).wf(),
            final(self).next_id() == old(self).next_id(),
            r is Err <==> !has_id(old(self)@, id),
            r matches Err(e) ==> e == TaskError::NotFound && final(self)@ == old(self)@,
            r matches Ok(t) ==> final(self)@.len() == old(self)@.len() && (forall|k: int|
                0 <= k < old(self)@.len() && old(self)@[k].id == id ==> t == (Task {
                    level,
                    due_date,
                    ..old(self)@[k]
                })) && forall|x: Task| #[trigger]
                final(self)@.contains(x) <==> ((old(self)@.contains(x) && x.id != id) || x == t),
    {
        let idx = match self.index_of(id) {
            Some(i) => i,
            None => {
                return Err(TaskError::NotFound);
            },
        };
        let ghost before = self@;
        let mut task = self.remove_at(idx);
        task.level = level;
        task.due_date = due_date;
        let out = task.duplicate();
        proof {
            if has_id(self@, id) {
                let k = choose|k: int| 0 <= k < self@.len() && #[trigger] self@[k].id == id;
                assert(self@.contains(self@[k]));
            }
            assert(before.contains(before[idx as int]));
            lemma_id_at_one_index(before, idx as int);
        }
        self.place(task);
        Ok(out)
    }

    /// Records a review of the task of the given id with a rating code (1 hard,
    /// 2 good, 3 reset) on `today`. An absent id (looked up first), an unknown
    /// code or a due date past the calendar leaves the store as it is.
    pub fn review(&mut self, id: i64, rating_code: i64, today: Date) -> (r: Result<Task, TaskError>)
        requires
            old(self).wf(),
            today.valid(),
        ensures
            final(self).wf(),
            final(self).next_id() == old(self).next_id(),
            !has_id(old(self)@, id) ==> r == Err::<Task, TaskError>(TaskError::NotFound)
                && final(self)@ == old(self)@,
            has_id(old(self)@, id) && rating_of_code(rating_code) is None ==> r == Err::<
                Task,
                TaskError,
            >(TaskError::InvalidRating) && final(self)@ == old(self)@,
            forall|k: int|
                #![trigger old(self)@[k]]
                0 <= k < old(self)@.len() && old(self)@[k].id == id && rating_of_code(rating_code)
                    is Some ==> {
                    let rating = rating_of_code(rating_code)->0;
                    let t = old(self)@[k];
                    &&& schedulable(rating, t.level as nat, today) ==> {
                        &&& r == Ok::<Task, TaskError>(reviewed(t, rating, today))
                        &&& final(self)@.len() == old(self)@.len()
                        &&& forall|x: Task| #[trigger]
                            final(self)@.contains(x) <==> ((old(self)@.contains(x) && x.id != id)
                                || x == reviewed(t, rating, today))
                    }
                    &&& !schedulable(rating, t.level as nat, today) ==> r == Err::<Task, TaskError>(
                        TaskError::OutOfRange,
                    ) && final(self)@ == old(self)@
                },
    {
        let idx = match self.index_of(id) {
            Some(i) => i,
            None => {
                return Err(TaskError::NotFound);
            },
        };
        let rating = match Rating::from_code(rating_code) {
            Ok(x) => x,
            Err(e) => {
                return Err(e);
            },
        };
        proof {
            lemma_id_at_one_index(self@, idx as int);
        }
        match next_review(self.tasks[idx].level, rating, today) {
            Ok((level, due_date)) => self.update(id, level, due_date),
            Err(e) => Err(e),
        }
    }

    /// On a store without tasks, adds the placeholder task, due `today`; a store
    /// that holds any task is left as it is.
    pub fn seed(&mut self, today: Date) -> (r: Result<Option<Task>, TaskError>)
        requires
            old(self).wf(),
            today.valid(),
        ensures
            final(self).wf(),
            old(self)@.len() > 0 ==> r == Ok::<Option<Task>, TaskError>(None) && final(self)@
                == old(self)@ && final(self).next_id() == old(self).next_id(),
            old(self)@.len() == 0 && old(self).next_id() < i64::MAX ==> (r matches Ok(Some(t))
                && is_placeholder(t, old(self).next_id(), today) && final(self)@ == seq![t]
                && final(self).next_id() == old(self).next_id() + 1),
            old(self)@.len() == 0 && old(self).next_id() == i64::MAX ==> r == Err::<
                Option<Task>,
                TaskError,
            >(TaskError::StorageError) && final(self)@ == old(self)@,
    {
        if self.tasks.len() > 0 {
            return Ok(None);
        }
        let name = "Add a task".to_string();
        let url = "http://example.com".to_string();
        match self.create(name, url, today) {
            Ok(t) => {
                proof {
                    assert(self@.contains(t));
                    assert(self@ =~= seq![t]);
                }
                Ok(Some(t))
            },
            Err(e) => Err(e),
        }
    }

    /// Takes in a task kept from an earlier session, under its own id; a task whose
    /// id is not positive, is the largest id, or is taken, or whose due date lies
    /// outside the calendar, is refused.
    pub fn restore(&mut self, task: Task) -> (r: Result<(), TaskError>)
        requires
            old(self).wf(),
        ensures
            final(self).wf(),
            r is Ok <==> (0 < task.id < i64::MAX && task.due_date.valid() && !has_id(
                old(self)@,
                task.id,
            )),
            r is Ok ==> final(self)@.len() == old(self)@.len() + 1 && final(self).next_id() == (
            if task.id >= old(self).next_id() {
                task.id + 1
            } else {
                old(self).next_id()
            }) && forall|x: Task| #[trigger]
                final(self)@.contains(x) <==> (old(self)@.contains(x) || x == task),
            r matches Err(e) ==> e == TaskError::StorageError && final(self)@ == old(self)@
                && final(self).next_id() == old(self).next_id(),
    {
        if task.id <= 0 || task.id == i64::MAX || !task.due_date.valid_exec() {
            return Err(TaskError::StorageError);
        }
        if self.index_of(task.id).is_some() {
            return Err(TaskError::StorageError);
        }
        if task.id >= self.next_id {
            self.next_id = task.id + 1;
        }
        self.place(task);
        Ok(())
    }
}

} // verus!
