//! The task record: one to-do item, its invariant and its lifecycle.

use vstd::prelude::*;
use crate::date::spec_valid_date;
use crate::errors::TodoError;

verus! {

/// Mathematical model of a task: the fields of [`Task`] with strings
/// abstracted to character sequences.
#[verifier::ext_equal]
pub struct TaskV {
    pub id: u64,
    pub text: Seq<char>,
    pub done: bool,
    pub created_at: Seq<char>,
    pub completed_at: Option<Seq<char>>,
    pub due_date: Option<Seq<char>>,
}

/// One to-do item. `id` is unique within a store and never changes; `done`
/// moves from `false` to `true` at most once, together with `completed_at`.
#[derive(Debug)]
pub struct Task {
    pub id: u64,
    pub text: String,
    pub done: bool,
    pub created_at: String,
    pub completed_at: Option<String>,
    pub due_date: Option<String>,
}

impl View for Task {
    type V = TaskV;

    open spec fn view(&self) -> TaskV {
        TaskV {
            id: self.id,
            text: self.text@,
            done: self.done,
            created_at: self.created_at@,
            completed_at: match self.completed_at {
                Some(ref s) => Some(s@),
                None => None,
            },
            due_date: match self.due_date {
                Some(ref s) => Some(s@),
                None => None,
            },
        }
    }
}

/// A task is well formed when its id is positive, its text is non-empty,
/// its completion timestamp is present exactly when it is done, and its due
/// date, if any, is a valid calendar date.
pub open spec fn task_wf(t: TaskV) -> bool {
    &&& t.id >= 1
    &&& t.text.len() > 0
    &&& (t.done <==> t.completed_at is Some)
    &&& (t.due_date is Some ==> spec_valid_date(t.due_date->0))
}

/// Relies on `chrono::Local::now` and the `Display` of `chrono::DateTime`:
/// the current local time rendered as text. The value depends on the clock,
/// so nothing is promised about it.
#[verifier::external_body]
fn now_string() -> String {
    chrono::Local::now().to_string()
}

impl Task {
    /// Constructs an open task with the given id and text, stamped with the
    /// current local time and without a due date.
    pub fn new(id: u64, text: String) -> (t: Task)
        requires
            id >= 1,
            text@.len() > 0,
        ensures
            t@.id == id,
            t@.text == text@,
            !t@.done,
            t@.completed_at is None,
            t@.due_date is None,
            task_wf(t@),
    {
        Task {
            id,
            text,
            done: false,
            created_at: now_string(),
            completed_at: None,
            due_date: None,
        }
    }

    /// Constructs an open task with an optional due date, validated as a
    /// `YYYY-MM-DD` calendar date; on an invalid date no task is made.
    pub fn with_due_date(id: u64, text: String, due_date: Option<String>) -> (r: Result<
        Task,
        TodoError,
    >)
        requires
            id >= 1,
            text@.len() > 0,
        ensures
            match due_date {
                Some(d) => if spec_valid_date(d@) {
                    &&& r is Ok
                    &&& r->Ok_0@.due_date == Some(d@)
                } else {
                    r == Err::<Task, TodoError>(TodoError::InvalidDateFormat)
                },
                None => r is Ok && r->Ok_0@.due_date is None,
            },
            r is Ok ==> {
                let t = r->Ok_0@;
                &&& t.id == id
                &&& t.text == text@
                &&& !t.done
                &&& t.completed_at is None
                &&& task_wf(t)
            },
    {
        if let Some(ref d) = due_date {
            if !crate::date::is_valid_date(d.as_str()) {
                return Err(TodoError::InvalidDateFormat);
            }
        }
        Ok(
            Task {
                id,
                text,
                done: false,
                created_at: now_string(),
                completed_at: None,
                due_date,
            },
        )
    }

    /// Marks the task done and stamps the completion time with the current
    /// local time; id, text, creation time and due date stay as they were.
    pub fn complete(&mut self)
        ensures
            final (self)@.done,
            final (self)@.completed_at is Some,
            final (self)@.id == old(self)@.id,
            final (self)@.text == old(self)@.text,
            final (self)@.created_at == old(self)@.created_at,
            final (self)@.due_date == old(self)@.due_date,
            task_wf(old(self)@) ==> task_wf(final (self)@),
    {
        self.done = true;
        self.completed_at = Some(now_string());
    }
}

impl PartialEq for Task {
    /// Field-for-field equality of two tasks.
    fn eq(&self, other: &Task) -> (r: bool) {
        let same_completed = match (&self.completed_at, &other.completed_at) {
            (Some(a), Some(b)) => *a == *b,
            (None, None) => true,
            _ => false,
        };
        let same_due = match (&self.due_date, &other.due_date) {
            (Some(a), Some(b)) => *a == *b,
            (None, None) => true,
            _ => false,
        };
        self.id == other.id && self.text == other.text && self.done == other.done
            && self.created_at == other.created_at && same_completed && same_due
    }
}

impl vstd::std_specs::cmp::PartialEqSpecImpl for Task {
    open spec fn obeys_eq_spec() -> bool {
        true
    }

    open spec fn eq_spec(&self, other: &Task) -> bool {
        &&& self.id == other.id
        &&& self.text@ == other.text@
        &&& self.done == other.done
        &&& self.created_at@ == other.created_at@
        &&& match (self.completed_at, other.completed_at) {
            (Some(a), Some(b)) => a@ == b@,
            (None, None) => true,
            _ => false,
        }
        &&& match (self.due_date, other.due_date) {
            (Some(a), Some(b)) => a@ == b@,
            (None, None) => true,
            _ => false,
        }
    }
}

} // verus!
