use todo_tasks::codec::{load, load_from_string, save_to_string};
use todo_tasks::errors::TodoError;
use todo_tasks::store::{check_tasks, ToDolist};
use todo_tasks::task::Task;

fn task(id: u64, text: &str, done: bool, created_at: &str, completed_at: Option<&str>, due_date: Option<&str>) -> Task {
    Task {
        id,
        text: text.to_string(),
        done,
        created_at: created_at.to_string(),
        completed_at: completed_at.map(|s| s.to_string()),
        due_date: due_date.map(|s| s.to_string()),
    }
}

#[test]
fn save_writes_canonical_json() {
    let tasks = vec![task(
        1,
        "buy milk",
        false,
        "2024-01-01 09:00:00",
        None,
        None,
    )];
    let text = save_to_string(&tasks);
    assert_eq!(
        text,
        "[{\"id\":1,\"text\":\"buy milk\",\"done\":false,\"created_at\":\"2024-01-01 09:00:00\",\"completed_at\":null,\"due_date\":null}]"
    );
}

#[test]
fn save_escapes_specials_and_escapes_are_undone_on_load() {
    let tasks = vec![task(
        3,
        "say \"hi\"\\\n\tdone\u{1}",
        false,
        "t",
        None,
        None,
    )];
    let text = save_to_string(&tasks);
    assert_eq!(
        text,
        "[{\"id\":3,\"text\":\"say \\\"hi\\\"\\\\\\n\\tdone\\u0001\",\"done\":false,\"created_at\":\"t\",\"completed_at\":null,\"due_date\":null}]"
    );
    let loaded = load_from_string(&text).expect("canonical text must load");
    assert_eq!(loaded, tasks);
}

#[test]
fn save_empty_list_writes_empty_array() {
    let tasks: Vec<Task> = Vec::new();
    assert_eq!(save_to_string(&tasks), "[]");
    assert_eq!(load_from_string("[]"), Ok(Vec::new()));
}

#[test]
fn round_trip_preserves_every_field() {
    let tasks = vec![
        task(
            1,
            "plain",
            false,
            "2024-05-06 07:08:09.123 +02:00",
            None,
            None,
        ),
        task(
            2,
            "done with date",
            true,
            "2024-05-06 07:08:09 +02:00",
            Some("2024-05-07 10:00:00 +02:00"),
            Some("2024-12-31"),
        ),
        task(5, "unicode t\u{e4}sk \u{2600}", false, "t3", None, Some("2024-02-29")),
    ];
    let text = save_to_string(&tasks);
    let loaded = load_from_string(&text).expect("round trip must succeed");
    assert_eq!(loaded, tasks);
}

#[test]
fn load_of_missing_file_is_the_empty_list() {
    let r = load(None);
    assert_eq!(r, Ok(Vec::new()));
}

#[test]
fn load_of_present_text_parses_it() {
    let tasks = vec![task(4, "kept", true, "t", Some("t2"), None)];
    let text = save_to_string(&tasks);
    assert_eq!(load(Some(&text)), Ok(tasks));
}

#[test]
fn load_rejects_malformed_text() {
    assert_eq!(load_from_string(""), Err(TodoError::ParseError));
    assert_eq!(load_from_string("not json"), Err(TodoError::ParseError));
    assert_eq!(load_from_string("["), Err(TodoError::ParseError));
    assert_eq!(load_from_string("[]extra"), Err(TodoError::ParseError));
    assert_eq!(
        load_from_string("[{\"id\":1,\"text\":\"a\",\"done\":false}]"),
        Err(TodoError::ParseError)
    );
    assert_eq!(
        load_from_string("[{\"id\":1,\"text\":\"a\",\"done\":false,\"created_at\":\"t\",\"completed_at\":null,\"due_date\":null}"),
        Err(TodoError::ParseError)
    );
}

#[test]
fn load_rejects_lists_that_break_the_invariants() {
    // ids out of order
    let unordered = "[{\"id\":2,\"text\":\"a\",\"done\":false,\"created_at\":\"t\",\"completed_at\":null,\"due_date\":null},{\"id\":1,\"text\":\"b\",\"done\":false,\"created_at\":\"t\",\"completed_at\":null,\"due_date\":null}]";
    assert_eq!(load_from_string(unordered), Err(TodoError::ParseError));
    // duplicate ids
    let duplicated = "[{\"id\":1,\"text\":\"a\",\"done\":false,\"created_at\":\"t\",\"completed_at\":null,\"due_date\":null},{\"id\":1,\"text\":\"b\",\"done\":false,\"created_at\":\"t\",\"completed_at\":null,\"due_date\":null}]";
    assert_eq!(load_from_string(duplicated), Err(TodoError::ParseError));
    // done without a completion timestamp
    let done_without_stamp = "[{\"id\":1,\"text\":\"a\",\"done\":true,\"created_at\":\"t\",\"completed_at\":null,\"due_date\":null}]";
    assert_eq!(load_from_string(done_without_stamp), Err(TodoError::ParseError));
    // invalid due date
    let bad_due = "[{\"id\":1,\"text\":\"a\",\"done\":false,\"created_at\":\"t\",\"completed_at\":null,\"due_date\":\"2024-13-01\"}]";
    assert_eq!(load_from_string(bad_due), Err(TodoError::ParseError));
}

#[test]
fn check_tasks_mirrors_the_invariants() {
    let good = vec![
        task(1, "a", false, "t", None, None),
        task(2, "b", true, "t", Some("t2"), Some("2024-01-31")),
    ];
    assert!(check_tasks(&good));
    let empty_text = vec![task(1, "", false, "t", None, None)];
    assert!(!check_tasks(&empty_text));
    let zero_id = vec![task(0, "a", false, "t", None, None)];
    assert!(!check_tasks(&zero_id));
    let stamp_without_done = vec![task(1, "a", false, "t", Some("t2"), None)];
    assert!(!check_tasks(&stamp_without_done));
}

#[test]
fn store_resumes_counting_after_the_largest_loaded_id() {
    let tasks = vec![
        task(3, "a", false, "t", None, None),
        task(7, "b", false, "t", None, None),
    ];
    let text = save_to_string(&tasks);
    let loaded = load_from_string(&text).expect("must load");
    let mut store = ToDolist::from_tasks(loaded);
    assert_eq!(store.next_id, 8);
    assert_eq!(store.add("c".to_string()), 8);
}

#[test]
fn store_from_empty_list_starts_at_one() {
    let store = ToDolist::from_tasks(Vec::new());
    assert_eq!(store.next_id, 1);
}

#[test]
fn store_from_list_with_largest_usable_id() {
    let tasks = vec![task(u64::MAX - 1, "a", false, "t", None, None)];
    let store = ToDolist::from_tasks(tasks);
    assert_eq!(store.next_id, u64::MAX);
}
