use todo_tasks::errors::TodoError;
use todo_tasks::store::ToDolist;

#[test]
fn ids_count_up_from_one() {
    let mut store = ToDolist::new();
    assert_eq!(store.next_id, 1);
    let a = store.add("first".to_string());
    let b = store.add("second".to_string());
    let c = store.add("third".to_string());
    assert_eq!(a, 1);
    assert_eq!(b, 2);
    assert_eq!(c, 3);
}

#[test]
fn ids_keep_counting_up_after_removals() {
    let mut store = ToDolist::new();
    let a = store.add("first".to_string());
    let b = store.add("second".to_string());
    assert_eq!((a, b), (1, 2));
    assert!(store.remove(1).is_ok());
    let c = store.add("third".to_string());
    assert_eq!(c, 3);
    assert!(store.remove(3).is_ok());
    assert!(store.remove(2).is_ok());
    let d = store.add("fourth".to_string());
    assert_eq!(d, 4);
    let ids: Vec<u64> = store.list().iter().map(|item| item.id).collect();
    assert_eq!(ids, vec![4]);
}

#[test]
fn complete_marks_only_that_task() {
    let mut store = ToDolist::new();
    store.add("one".to_string());
    store.add("two".to_string());
    store.add("three".to_string());
    assert!(store.complete(2).is_ok());
    let done_flags: Vec<(u64, bool)> = store.list().iter().map(|item| (item.id, item.done)).collect();
    assert_eq!(done_flags, vec![(1, false), (2, true), (3, false)]);
    assert!(store.tasks[1].completed_at.is_some());
    assert!(store.tasks[0].completed_at.is_none());
    assert!(store.tasks[2].completed_at.is_none());
}

#[test]
fn complete_missing_id_reports_not_found() {
    let mut store = ToDolist::new();
    store.add("one".to_string());
    assert_eq!(store.complete(7), Err(TodoError::NotFound));
    assert_eq!(store.list().len(), 1);
    assert!(!store.list()[0].done);
}

#[test]
fn remove_keeps_relative_order_and_ids() {
    let mut store = ToDolist::new();
    store.add("one".to_string());
    store.add("two".to_string());
    store.add("three".to_string());
    store.add("four".to_string());
    assert!(store.remove(2).is_ok());
    let rows: Vec<(u64, String)> = store
        .list()
        .iter()
        .map(|item| (item.id, item.text.clone()))
        .collect();
    assert_eq!(
        rows,
        vec![
            (1, "one".to_string()),
            (3, "three".to_string()),
            (4, "four".to_string()),
        ]
    );
    assert_eq!(store.next_id, 5);
}

#[test]
fn remove_missing_id_leaves_store_unchanged() {
    let mut store = ToDolist::new();
    store.add("one".to_string());
    store.add("two".to_string());
    let before: Vec<u64> = store.list().iter().map(|item| item.id).collect();
    assert_eq!(store.remove(9), Err(TodoError::NotFound));
    let after: Vec<u64> = store.list().iter().map(|item| item.id).collect();
    assert_eq!(before, after);
    assert_eq!(store.next_id, 3);
}

#[test]
fn add_with_invalid_calendar_date_fails_and_changes_nothing() {
    let mut store = ToDolist::new();
    store.add("existing".to_string());
    let r = store.add_with_due_date("dated".to_string(), "2024-02-30".to_string());
    assert_eq!(r, Err(TodoError::InvalidDateFormat));
    assert_eq!(store.list().len(), 1);
    assert_eq!(store.next_id, 2);
}

#[test]
fn add_with_valid_date_attaches_it() {
    let mut store = ToDolist::new();
    let r = store.add_with_due_date("dated".to_string(), "2024-02-29".to_string());
    assert_eq!(r, Ok(1));
    let listing = store.list();
    assert_eq!(listing.len(), 1);
    assert_eq!(listing[0].due_date.as_deref(), Some("2024-02-29"));
    assert!(!listing[0].done);
}

#[test]
fn scenario_add_list_complete_remove_with_progress() {
    let mut store = ToDolist::new();
    assert_eq!(store.list().len(), 0);
    assert_eq!(store.progress_permille(), 0);

    let first = store.add("buy milk".to_string());
    assert_eq!(first, 1);

    let second = store.add_with_due_date("write report".to_string(), "2025-01-15".to_string());
    assert_eq!(second, Ok(2));

    let listing = store.list();
    assert_eq!(listing.len(), 2);
    assert_eq!(store.progress_permille(), 0);
    assert_eq!(listing[0].text, "buy milk");
    assert_eq!(listing[1].due_date.as_deref(), Some("2025-01-15"));

    assert!(store.complete(1).is_ok());
    assert_eq!(store.progress_permille(), 500);

    assert!(store.remove(2).is_ok());
    let listing = store.list();
    assert_eq!(listing.len(), 1);
    assert_eq!(listing[0].id, 1);
    assert_eq!(store.progress_permille(), 1000);
}

#[test]
fn progress_rounds_down_in_permille() {
    let mut store = ToDolist::new();
    store.add("a".to_string());
    store.add("b".to_string());
    store.add("c".to_string());
    assert!(store.complete(1).is_ok());
    assert_eq!(store.progress_permille(), 333);
}
