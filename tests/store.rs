use memobot::{Date, Task, TaskError, TaskStore};

fn day(n: i32) -> Date {
    Date::from_days(n).unwrap()
}

fn ids(tasks: &[Task]) -> Vec<i64> {
    tasks.iter().map(|t| t.id).collect()
}

fn sample() -> TaskStore {
    let mut store = TaskStore::new();
    store.create("a".to_string(), "u1".to_string(), day(100)).unwrap();
    store.create("b".to_string(), "u2".to_string(), day(300)).unwrap();
    store.create("c".to_string(), "u3".to_string(), day(200)).unwrap();
    store.create("d".to_string(), "u4".to_string(), day(200)).unwrap();
    store
}

#[test]
fn created_task_starts_at_level_zero_due_today() {
    let mut store = TaskStore::new();
    let t = store.create("read".to_string(), "http://x".to_string(), day(739349)).unwrap();
    assert_eq!(t.id, 1);
    assert_eq!(t.level, 0);
    assert_eq!(t.due_date, day(739349));
    assert_eq!(t.name, "read");
    assert_eq!(t.url, "http://x");
    let again = store.create("more".to_string(), "".to_string(), day(5)).unwrap();
    assert_eq!(again.id, 2);
}

#[test]
fn list_all_runs_from_latest_due_date() {
    let store = sample();
    assert_eq!(ids(&store.list_all()), vec![2, 4, 3, 1]);
}

#[test]
fn list_due_is_the_due_part_of_list_all() {
    let store = sample();
    assert_eq!(ids(&store.list_due(day(200))), vec![4, 3, 1]);
    assert_eq!(ids(&store.list_due(day(99))), Vec::<i64>::new());
    assert_eq!(ids(&store.list_due(day(300))), vec![2, 4, 3, 1]);
    let all = store.list_all();
    let due = store.list_due(day(250));
    let expected: Vec<i64> = all.iter().filter(|t| t.due_date.days <= 250).map(|t| t.id).collect();
    assert_eq!(ids(&due), expected);
}

#[test]
fn deleted_task_is_gone_for_good() {
    let mut store = sample();
    store.delete(3);
    assert_eq!(ids(&store.list_all()), vec![2, 4, 1]);
    assert_eq!(store.get(3).unwrap_err(), TaskError::NotFound);
    assert_eq!(store.review(3, 1, day(400)).unwrap_err(), TaskError::NotFound);
    assert_eq!(store.review(3, 0, day(400)).unwrap_err(), TaskError::NotFound);
    let fresh = store.create("e".to_string(), "u5".to_string(), day(1)).unwrap();
    assert_eq!(fresh.id, 5);
    store.delete(42);
    assert_eq!(ids(&store.list_all()), vec![2, 4, 1, 5]);
}

#[test]
fn seeding_happens_only_on_an_empty_store() {
    let mut store = TaskStore::new();
    let seeded = store.seed(day(739349)).unwrap().unwrap();
    assert_eq!(seeded.name, "Add a task");
    assert_eq!(seeded.url, "http://example.com");
    assert_eq!(seeded.level, 0);
    assert_eq!(seeded.due_date, day(739349));
    assert!(store.seed(day(739350)).unwrap().is_none());
    assert_eq!(store.list_all().len(), 1);
    let mut full = sample();
    assert!(full.seed(day(1)).unwrap().is_none());
    assert_eq!(full.list_all().len(), 4);
}

#[test]
fn review_moves_task_in_listing() {
    let mut store = sample();
    let t = store.review(1, 1, day(500)).unwrap();
    assert_eq!(t.level, 1);
    assert_eq!(t.due_date, day(501));
    assert_eq!(t.name, "a");
    assert_eq!(ids(&store.list_all()), vec![1, 2, 4, 3]);
    let t = store.review(1, 2, day(501)).unwrap();
    assert_eq!((t.level, t.due_date), (2, day(502)));
    let t = store.review(1, 3, day(502)).unwrap();
    assert_eq!((t.level, t.due_date), (0, day(503)));
    assert_eq!(store.get(1).unwrap().level, 0);
}

#[test]
fn review_with_unknown_rating_changes_nothing() {
    let mut store = sample();
    assert_eq!(store.review(1, 7, day(500)).unwrap_err(), TaskError::InvalidRating);
    assert_eq!(store.review(99, 0, day(500)).unwrap_err(), TaskError::NotFound);
    let t = store.get(1).unwrap();
    assert_eq!((t.level, t.due_date), (0, day(100)));
}

#[test]
fn update_sets_level_and_date() {
    let mut store = sample();
    let t = store.update(4, 9, day(50)).unwrap();
    assert_eq!((t.id, t.level, t.due_date), (4, 9, day(50)));
    assert_eq!(ids(&store.list_all()), vec![2, 3, 1, 4]);
    assert_eq!(store.update(17, 1, day(50)).unwrap_err(), TaskError::NotFound);
}

#[test]
fn restore_keeps_ids_and_refuses_clashes() {
    let mut store = TaskStore::new();
    let row = Task::from_row(7, "x".to_string(), "y".to_string(), 2, "2025-04-08").unwrap();
    assert_eq!(row.due_date, day(739349));
    store.restore(row).unwrap();
    let clash = Task::from_row(7, "z".to_string(), "w".to_string(), 0, "2025-04-09").unwrap();
    assert_eq!(store.restore(clash), Err(TaskError::StorageError));
    let bad_id = Task::from_row(0, "z".to_string(), "w".to_string(), 0, "2025-04-09").unwrap();
    assert_eq!(store.restore(bad_id), Err(TaskError::StorageError));
    let t = store.create("n".to_string(), "m".to_string(), day(1)).unwrap();
    assert_eq!(t.id, 8);
}

#[test]
fn rows_with_bad_fields_are_refused() {
    let neg = Task::from_row(1, "a".to_string(), "b".to_string(), -1, "2025-04-08");
    assert_eq!(neg.unwrap_err(), TaskError::StorageError);
    let bad_date = Task::from_row(1, "a".to_string(), "b".to_string(), 0, "yesterday");
    assert_eq!(bad_date.unwrap_err(), TaskError::StorageError);
}
