use todo_tasks::date::is_valid_date;
use todo_tasks::errors::TodoError;
use todo_tasks::task::Task;

#[test]
fn accepts_ordinary_dates() {
    assert!(is_valid_date("2025-01-15"));
    assert!(is_valid_date("2024-12-31"));
    assert!(is_valid_date("0001-01-01"));
    assert!(is_valid_date("9999-12-31"));
}

#[test]
fn handles_leap_years() {
    assert!(is_valid_date("2024-02-29"));
    assert!(!is_valid_date("2023-02-29"));
    assert!(is_valid_date("2000-02-29"));
    assert!(!is_valid_date("1900-02-29"));
    assert!(!is_valid_date("2024-02-30"));
}

#[test]
fn respects_month_lengths() {
    assert!(is_valid_date("2024-04-30"));
    assert!(!is_valid_date("2024-04-31"));
    assert!(is_valid_date("2024-01-31"));
    assert!(!is_valid_date("2024-06-31"));
    assert!(!is_valid_date("2024-09-31"));
    assert!(!is_valid_date("2024-11-31"));
}

#[test]
fn rejects_malformed_shapes() {
    assert!(!is_valid_date(""));
    assert!(!is_valid_date("2024-1-01"));
    assert!(!is_valid_date("2024-01-1"));
    assert!(!is_valid_date("24-01-01"));
    assert!(!is_valid_date("2024/01/01"));
    assert!(!is_valid_date("2024-00-10"));
    assert!(!is_valid_date("2024-13-01"));
    assert!(!is_valid_date("2024-01-00"));
    assert!(!is_valid_date("abcd-ef-gh"));
    assert!(!is_valid_date("2024-01-015"));
    assert!(!is_valid_date(" 2024-01-01"));
}

#[test]
fn task_constructor_validates_the_due_date() {
    let ok = Task::with_due_date(1, "dated".to_string(), Some("2025-06-30".to_string()));
    let t = ok.expect("valid date must be accepted");
    assert_eq!(t.due_date.as_deref(), Some("2025-06-30"));
    assert!(!t.done);
    assert!(t.completed_at.is_none());

    let bad = Task::with_due_date(1, "dated".to_string(), Some("2025-06-31".to_string()));
    assert_eq!(bad.err(), Some(TodoError::InvalidDateFormat));

    let none = Task::with_due_date(2, "plain".to_string(), None);
    assert!(none.expect("no date is fine").due_date.is_none());
}

#[test]
fn completing_a_task_stamps_it() {
    let mut t = Task::new(1, "to finish".to_string());
    assert!(!t.done);
    assert!(t.completed_at.is_none());
    t.complete();
    assert!(t.done);
    assert!(t.completed_at.is_some());
    assert_eq!(t.id, 1);
    assert_eq!(t.text, "to finish");
}
