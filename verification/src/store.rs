//! The task store: an ordered list of tasks plus the id counter, with the
//! add / complete / remove / list operations.

use vstd::prelude::*;
use crate::date::spec_valid_date;
use crate::errors::TodoError;
use crate::task::{task_wf, Task, TaskV};

verus! {

/// The models of the tasks in `ts`, in the same order.
pub open spec fn seq_view(ts: Seq<Task>) -> Seq<TaskV> {
    Seq::new(ts.len(), |i: int| ts[i]@)
}

/// A task list is well formed when every task is well formed and the ids
/// strictly increase in display order (so ids are unique and the last id is
/// the largest).
pub open spec fn tasks_wf(ts: Seq<TaskV>) -> bool {
    &&& forall|i: int, j: int|
        #![trigger ts[i].id, ts[j].id]
        0 <= i < j < ts.len() ==> ts[i].id < ts[j].id
    &&& forall|i: int| 0 <= i < ts.len() ==> task_wf(#[trigger] ts[i])
}

/// Some task in `ts` carries the id `id`.
pub open spec fn contains_id(ts: Seq<TaskV>, id: u64) -> bool {
    exists|i: int| 0 <= i < ts.len() && ts[i].id == id
}

/// The index of the task carrying `id`, where one exists.
pub open spec fn idx_of(ts: Seq<TaskV>, id: u64) -> int {
    choose|i: int| 0 <= i < ts.len() && ts[i].id == id
}

/// How many tasks in `ts` are done.
pub open spec fn count_done(ts: Seq<TaskV>) -> nat
    decreases ts.len(),
{
    if ts.len() == 0 {
        0
    } else {
        count_done(ts.drop_last()) + if ts.last().done {
            1nat
        } else {
            0nat
        }
    }
}

/// In a well-formed list an id determines its index.
pub proof fn lemma_id_index_unique(ts: Seq<TaskV>, i: int, j: int)
    requires
        tasks_wf(ts),
        0 <= i < ts.len(),
        0 <= j < ts.len(),
        ts[i].id == ts[j].id,
    ensures
        i == j,
{
    if i < j {
        assert(ts[i].id < ts[j].id);
    } else if j < i {
        assert(ts[j].id < ts[i].id);
    }
}

/// A fresh task appended with the counter's id keeps the list well formed.
proof fn lemma_append_keeps_wf(oldv: Seq<TaskV>, newv: Seq<TaskV>, nid: u64)
    requires
        tasks_wf(oldv),
        forall|i: int| 0 <= i < oldv.len() ==> (#[trigger] oldv[i]).id < nid,
        newv.len() == oldv.len() + 1,
        forall|i: int| 0 <= i < oldv.len() ==> #[trigger] newv[i] == oldv[i],
        newv.last().id == nid,
        task_wf(newv.last()),
    ensures
        tasks_wf(newv),
        forall|i: int| 0 <= i < newv.len() ==> (#[trigger] newv[i]).id < nid + 1,
{
    assert forall|i: int, j: int| 0 <= i < j < newv.len() implies newv[i].id < newv[j].id by {
        assert(newv[i] == oldv[i]);
        if j < newv.len() - 1 {
            assert(newv[j] == oldv[j]);
        }
    }
    assert forall|i: int| 0 <= i < newv.len() implies task_wf(newv[i]) by {
        if i < oldv.len() {
            assert(newv[i] == oldv[i]);
        }
    }
}

/// Changing one task without touching its id keeps the list well formed.
proof fn lemma_update_keeps_wf(oldv: Seq<TaskV>, newv: Seq<TaskV>, at: int)
    requires
        tasks_wf(oldv),
        0 <= at < oldv.len(),
        newv.len() == oldv.len(),
        forall|j: int| 0 <= j < oldv.len() && j != at ==> #[trigger] newv[j] == oldv[j],
        newv[at].id == oldv[at].id,
        task_wf(newv[at]),
    ensures
        tasks_wf(newv),
        forall|j: int| 0 <= j < newv.len() ==> (#[trigger] newv[j]).id == oldv[j].id,
{
    assert forall|j: int| 0 <= j < newv.len() implies (#[trigger] newv[j]).id == oldv[j].id by {
        if j != at {
            assert(newv[j] == oldv[j]);
        }
    }
    assert forall|i: int, j: int| 0 <= i < j < newv.len() implies newv[i].id < newv[j].id by {
        assert(newv[i].id == oldv[i].id);
        assert(newv[j].id == oldv[j].id);
    }
    assert forall|i: int| 0 <= i < newv.len() implies task_wf(newv[i]) by {
        if i != at {
            assert(newv[i] == oldv[i]);
        }
    }
}

/// One row of the read-only snapshot that [`ToDolist::list`] produces.
pub struct ListItem {
    pub id: u64,
    pub done: bool,
    pub text: String,
    pub due_date: Option<String>,
}

/// The in-memory task store: tasks in display order plus the counter from
/// which the next id is taken. Ids are never reused; `next_id` only grows.
pub struct ToDolist {
    pub tasks: Vec<Task>,
    pub next_id: u64,
}

impl ToDolist {
    /// The models of the stored tasks, in display order.
    pub open spec fn tasks_view(&self) -> Seq<TaskV> {
        seq_view(self.tasks@)
    }

    /// Store invariant: the list is well formed and every id is below
    /// `next_id`, so a fresh id collides with nothing.
    pub open spec fn wf(&self) -> bool {
        &&& tasks_wf(self.tasks_view())
        &&& self.next_id >= 1
        &&& forall|i: int|
            0 <= i < self.tasks_view().len() ==> (#[trigger] self.tasks_view()[i]).id
                < self.next_id
    }

    /// An empty store; the first id to be assigned is 1.
    pub fn new() -> (s: ToDolist)
        ensures
            s.wf(),
            s.tasks_view() =~= Seq::<TaskV>::empty(),
            s.next_id == 1,
    {
        ToDolist { tasks: Vec::new(), next_id: 1 }
    }

    /// Rebuilds a store from a persisted well-formed task list. The counter
    /// resumes one past the largest id ever assigned — the last id, since
    /// ids increase in display order — or at 1 for an empty list.
    pub fn from_tasks(tasks: Vec<Task>) -> (s: ToDolist)
        requires
            tasks_wf(seq_view(tasks@)),
            seq_view(tasks@).len() > 0 ==> seq_view(tasks@).last().id < u64::MAX,
        ensures
            s.wf(),
            s.tasks_view() =~= seq_view(tasks@),
            s.next_id == if seq_view(tasks@).len() == 0 {
                1u64
            } else {
                (seq_view(tasks@).last().id + 1) as u64
            },
    {
        let n = tasks.len();
        let next_id: u64 = if n == 0 {
            1
        } else {
            tasks[n - 1].id + 1
        };
        let s = ToDolist { tasks, next_id };
        proof {
            assert forall|i: int| 0 <= i < s.tasks_view().len() implies (
            #[trigger] s.tasks_view()[i]).id < s.next_id by {
                if i < s.tasks_view().len() - 1 {
                    assert(s.tasks_view()[i].id < s.tasks_view().last().id);
                }
            }
        }
        s
    }

    /// Appends a new open task with the given text, assigns it the current
    /// `next_id`, advances the counter by one and returns the assigned id.
    pub fn add(&mut self, text: String) -> (id: u64)
        requires
            old(self).wf(),
            old(self).next_id < u64::MAX,
            text@.len() > 0,
        ensures
            final (self).wf(),
            id == old(self).next_id,
            final (self).next_id == old(self).next_id + 1,
            final (self).tasks_view().len() == old(self).tasks_view().len() + 1,
            forall|i: int|
                0 <= i < old(self).tasks_view().len() ==> final (self).tasks_view()[i]
                    == old(self).tasks_view()[i],
            final (self).tasks_view().last().id == id,
            final (self).tasks_view().last().text == text@,
            !final (self).tasks_view().last().done,
            final (self).tasks_view().last().completed_at is None,
            final (self).tasks_view().last().due_date is None,
    {
        let id = self.next_id;
        let t = Task::new(id, text);
        let ghost tv = t@;
        self.tasks.push(t);
        self.next_id = self.next_id + 1;
        proof {
            let oldv = old(self).tasks_view();
            let newv = self.tasks_view();
            assert forall|k: int| 0 <= k < oldv.len() implies #[trigger] newv[k] == oldv[k] by {
                assert(self.tasks@[k] == old(self).tasks@[k]);
            }
            assert(newv.last() == tv);
            lemma_append_keeps_wf(oldv, newv, id);
        }
        id
    }

    /// Like [`Self::add`], but first validates `due_date` as a `YYYY-MM-DD`
    /// calendar date. On an invalid date the store is exactly as it was and
    /// `InvalidDateFormat` is returned; otherwise the new task carries the
    /// due date and the assigned id is returned.
    pub fn add_with_due_date(&mut self, text: String, due_date: String) -> (r: Result<
        u64,
        TodoError,
    >)
        requires
            old(self).wf(),
            old(self).next_id < u64::MAX,
            text@.len() > 0,
        ensures
            final (self).wf(),
            spec_valid_date(due_date@) ==> {
                &&& r == Ok::<u64, TodoError>(old(self).next_id)
                &&& final (self).next_id == old(self).next_id + 1
                &&& final (self).tasks_view().len() == old(self).tasks_view().len() + 1
                &&& forall|i: int|
                    0 <= i < old(self).tasks_view().len() ==> final (self).tasks_view()[i]
                        == old(self).tasks_view()[i]
                &&& final (self).tasks_view().last().id == old(self).next_id
                &&& final (self).tasks_view().last().text == text@
                &&& !final (self).tasks_view().last().done
                &&& final (self).tasks_view().last().completed_at is None
                &&& final (self).tasks_view().last().due_date == Some(due_date@)
            },
            !spec_valid_date(due_date@) ==> r == Err::<u64, TodoError>(TodoError::InvalidDateFormat)
                && *final (self) == *old(self),
    {
        let id = self.next_id;
        match Task::with_due_date(id, text, Some(due_date)) {
            Ok(t) => {
                let ghost tv = t@;
                self.tasks.push(t);
                self.next_id = self.next_id + 1;
                proof {
                    let oldv = old(self).tasks_view();
                    let newv = self.tasks_view();
                    assert forall|k: int| 0 <= k < oldv.len() implies #[trigger] newv[k]
                        == oldv[k] by {
                        assert(self.tasks@[k] == old(self).tasks@[k]);
                    }
                    assert(newv.last() == tv);
                    lemma_append_keeps_wf(oldv, newv, id);
                }
                Ok(id)
            },
            Err(e) => Err(e),
        }
    }

    /// Marks the task carrying `id` as done and stamps its completion time;
    /// every other task and the counter are untouched. Returns `NotFound`,
    /// leaving the store exactly as it was, when no task carries `id`.
    #[verifier::loop_isolation(false)]
    pub fn complete(&mut self, id: u64) -> (r: Result<(), TodoError>)
        requires
            old(self).wf(),
        ensures
            final (self).wf(),
            final (self).next_id == old(self).next_id,
            contains_id(old(self).tasks_view(), id) ==> {
                let at = idx_of(old(self).tasks_view(), id);
                &&& r is Ok
                &&& final (self).tasks_view().len() == old(self).tasks_view().len()
                &&& forall|j: int|
                    0 <= j < old(self).tasks_view().len() && j != at ==> final (self).tasks_view()[j]
                        == old(self).tasks_view()[j]
                &&& final (self).tasks_view()[at].id == id
                &&& final (self).tasks_view()[at].text == old(self).tasks_view()[at].text
                &&& final (self).tasks_view()[at].created_at == old(self).tasks_view()[at].created_at
                &&& final (self).tasks_view()[at].due_date == old(self).tasks_view()[at].due_date
                &&& final (self).tasks_view()[at].done
                &&& final (self).tasks_view()[at].completed_at is Some
            },
            !contains_id(old(self).tasks_view(), id) ==> r == Err::<(), TodoError>(
                TodoError::NotFound,
            ) && *final (self) == *old(self),
    {
        let ghost old_view = self.tasks_view();
        let n = self.tasks.len();
        let mut i: usize = 0;
        while i < n
            invariant
                n == self.tasks@.len(),
                0 <= i <= n,
                forall|j: int| 0 <= j < i ==> seq_view(self.tasks@)[j].id != id,
                *self == *old(self),
            decreases n - i,
        {
            if self.tasks[i].id == id {
                proof {
                    assert(old_view[i as int] == self.tasks@[i as int]@);
                    assert(contains_id(old_view, id));
                    lemma_id_index_unique(old_view, idx_of(old_view, id), i as int);
                }
                let ghost pos = i as int;
                let mut t = self.tasks.remove(i);
                t.complete();
                self.tasks.insert(i, t);
                proof {
                    let base = old(self).tasks@.remove(pos);
                    old(self).tasks@.remove_ensures(pos);
                    base.insert_ensures(pos, t);
                    assert(self.tasks@ == base.insert(pos, t));
                    let newv = seq_view(self.tasks@);
                    assert forall|j: int|
                        0 <= j < old_view.len() && j != pos implies #[trigger] newv[j]
                        == old_view[j] by {
                        if j < pos {
                            assert(self.tasks@[j] == base[j]);
                            assert(base[j] == old(self).tasks@[j]);
                        } else {
                            assert(base.insert(pos, t)[(j - 1) + 1] == base[j - 1]);
                            assert(base[j - 1] == old(self).tasks@[j]);
                        }
                    }
                    assert(newv[pos] == t@);
                    lemma_update_keeps_wf(old_view, newv, pos);
                }
                return Ok(());
            }
            i = i + 1;
        }
        Err(TodoError::NotFound)
    }

    /// Deletes the task carrying `id`; the remaining tasks keep their ids
    /// and relative order, and the counter does not move (ids are never
    /// reused). Returns `NotFound`, leaving the store exactly as it was,
    /// when no task carries `id`.
    #[verifier::loop_isolation(false)]
    pub fn remove(&mut self, id: u64) -> (r: Result<(), TodoError>)
        requires
            old(self).wf(),
        ensures
            final (self).wf(),
            final (self).next_id == old(self).next_id,
            contains_id(old(self).tasks_view(), id) ==> r is Ok && final (self).tasks_view()
                =~= old(self).tasks_view().remove(idx_of(old(self).tasks_view(), id)),
            !contains_id(old(self).tasks_view(), id) ==> r == Err::<(), TodoError>(
                TodoError::NotFound,
            ) && *final (self) == *old(self),
    {
        let ghost old_view = self.tasks_view();
        let n = self.tasks.len();
        let mut i: usize = 0;
        while i < n
            invariant
                n == self.tasks@.len(),
                0 <= i <= n,
                forall|j: int| 0 <= j < i ==> seq_view(self.tasks@)[j].id != id,
                *self == *old(self),
            decreases n - i,
        {
            if self.tasks[i].id == id {
                proof {
                    assert(old_view[i as int] == self.tasks@[i as int]@);
                    assert(contains_id(old_view, id));
                    lemma_id_index_unique(old_view, idx_of(old_view, id), i as int);
                }
                let ghost pos = i as int;
                self.tasks.remove(i);
                proof {
                    old(self).tasks@.remove_ensures(pos);
                    old_view.remove_ensures(pos);
                    let newv = seq_view(self.tasks@);
                    assert forall|j: int|
                        0 <= j < newv.len() implies #[trigger] newv[j] == old_view.remove(pos)[
                        j] by {
                        if j < pos {
                            assert(self.tasks@[j] == old(self).tasks@[j]);
                        } else {
                            assert(self.tasks@[j] == old(self).tasks@[j + 1]);
                        }
                    }
                    assert(newv =~= old_view.remove(pos));
                    assert forall|a: int, b: int| 0 <= a < b < newv.len() implies newv[a].id
                        < newv[b].id by {
                        let a2: int = if a < pos {
                            a
                        } else {
                            a + 1
                        };
                        let b2: int = if b < pos {
                            b
                        } else {
                            b + 1
                        };
                        assert(old_view[a2].id < old_view[b2].id);
                    }
                    assert forall|j: int| 0 <= j < newv.len() implies task_wf(#[trigger] newv[j])
                        && newv[j].id < self.next_id by {
                        if j < pos {
                            assert(newv[j] == old_view[j]);
                        } else {
                            assert(newv[j] == old_view[j + 1]);
                        }
                    }
                }
                return Ok(());
            }
            i = i + 1;
        }
        Err(TodoError::NotFound)
    }

    /// A read-only snapshot of the list in display order: id, done flag,
    /// text and optional due date of each task.
    #[verifier::loop_isolation(false)]
    pub fn list(&self) -> (r: Vec<ListItem>)
        ensures
            r@.len() == self.tasks_view().len(),
            forall|i: int|
                0 <= i < r@.len() ==> {
                    let item = #[trigger] r@[i];
                    let t = self.tasks_view()[i];
                    &&& item.id == t.id
                    &&& item.done == t.done
                    &&& item.text@ == t.text
                    &&& (item.due_date is Some <==> t.due_date is Some)
                    &&& (item.due_date is Some ==> item.due_date->0@ == t.due_date->0)
                },
    {
        let n = self.tasks.len();
        let mut r: Vec<ListItem> = Vec::new();
        let mut i: usize = 0;
        while i < n
            invariant
                n == self.tasks@.len(),
                0 <= i <= n,
                r@.len() == i,
                forall|j: int|
                    0 <= j < i ==> {
                        let item = #[trigger] r@[j];
                        let t = seq_view(self.tasks@)[j];
                        &&& item.id == t.id
                        &&& item.done == t.done
                        &&& item.text@ == t.text
                        &&& (item.due_date is Some <==> t.due_date is Some)
                        &&& (item.due_date is Some ==> item.due_date->0@ == t.due_date->0)
                    },
            decreases n - i,
        {
            let t = &self.tasks[i];
            let due: Option<String> = match &t.due_date {
                Some(d) => Some(d.clone()),
                None => None,
            };
            r.push(ListItem { id: t.id, done: t.done, text: t.text.clone(), due_date: due });
            i = i + 1;
        }
        r
    }

    /// Completion progress in tenths of a percent: `done * 1000 / total`,
    /// and 0 for an empty store (the caller reports an empty store as its
    /// own condition rather than as a percentage).
    #[verifier::loop_isolation(false)]
    pub fn progress_permille(&self) -> (p: u64)
        ensures
            self.tasks_view().len() == 0 ==> p == 0,
            self.tasks_view().len() > 0 ==> p == count_done(self.tasks_view()) * 1000
                / self.tasks_view().len(),
            p <= 1000,
    {
        let n = self.tasks.len();
        let mut count: u64 = 0;
        let mut i: usize = 0;
        while i < n
            invariant
                n == self.tasks@.len(),
                0 <= i <= n,
                count == count_done(seq_view(self.tasks@).take(i as int)),
                count <= i,
            decreases n - i,
        {
            proof {
                let v = seq_view(self.tasks@);
                assert(v.take(i + 1 as int).drop_last() =~= v.take(i as int));
                assert(v.take(i + 1 as int).last() == v[i as int]);
            }
            if self.tasks[i].done {
                count = count + 1;
            }
            i = i + 1;
        }
        proof {
            assert(seq_view(self.tasks@).take(n as int) =~= seq_view(self.tasks@));
        }
        if n == 0 {
            0
        } else {
            let total: u128 = n as u128;
            let done: u128 = count as u128;
            let p128: u128 = done * 1000 / total;
            proof {
                vstd::arithmetic::mul::lemma_mul_inequality(done as int, total as int, 1000);
                vstd::arithmetic::div_mod::lemma_div_is_ordered(
                    done as int * 1000,
                    total as int * 1000,
                    total as int,
                );
                vstd::arithmetic::div_mod::lemma_div_multiples_vanish(1000, total as int);
            }
            p128 as u64
        }
    }
}


/// Pairwise order of ids follows from adjacent order.
proof fn lemma_adjacent_increasing(ts: Seq<TaskV>, i: int, j: int)
    requires
        forall|k: int| 0 <= k < ts.len() - 1 ==> (#[trigger] ts[k]).id < ts[k + 1].id,
        0 <= i < j < ts.len(),
    ensures
        ts[i].id < ts[j].id,
    decreases j - i,
{
    if i + 1 == j {
        assert(ts[i].id < ts[i + 1].id);
    } else {
        lemma_adjacent_increasing(ts, i, j - 1);
        assert(ts[j - 1].id < ts[j - 1 + 1].id);
    }
}

/// Decides whether a task list is well formed: every task well formed and
/// the ids strictly increasing in order.
#[verifier::loop_isolation(false)]
pub fn check_tasks(ts: &Vec<Task>) -> (r: bool)
    ensures
        r == tasks_wf(seq_view(ts@)),
{
    let ghost v = seq_view(ts@);
    let n = ts.len();
    let mut i: usize = 0;
    while i < n
        invariant
            i <= n,
            n == ts@.len(),
            forall|k: int| 0 <= k < i ==> task_wf(#[trigger] v[k]),
            forall|k: int| 0 <= k < i - 1 ==> (#[trigger] v[k]).id < v[k + 1].id,
        decreases n - i,
    {
        proof {
            assert(v[i as int] == ts@[i as int]@);
        }
        let t = &ts[i];
        if t.id < 1 {
            return false;
        }
        if t.text.as_str().unicode_len() == 0 {
            return false;
        }
        let completed_ok = match (t.done, &t.completed_at) {
            (true, Some(_)) => true,
            (false, None) => true,
            _ => false,
        };
        if !completed_ok {
            return false;
        }
        let due_ok = match &t.due_date {
            Some(d) => crate::date::is_valid_date(d.as_str()),
            None => true,
        };
        if !due_ok {
            return false;
        }
        if i > 0 && ts[i - 1].id >= t.id {
            proof {
                assert(v[i as int - 1].id >= v[i as int].id);
            }
            return false;
        }
        i = i + 1;
    }
    proof {
        assert forall|a: int, b: int|
            #![trigger v[a].id, v[b].id]
            0 <= a < b < v.len() implies v[a].id < v[b].id by {
            lemma_adjacent_increasing(v, a, b);
        }
    }
    true
}



/// However a well-formed store was produced — additions interleaved with
/// removals in any order — the ids on display strictly increase from front
/// to back: assignment order is display order, and removals never disturb
/// the relative order or the ids of the remaining tasks.
pub proof fn lemma_display_ids_increase(s: &ToDolist)
    requires
        s.wf(),
    ensures
        forall|i: int, j: int|
            #![trigger s.tasks_view()[i].id, s.tasks_view()[j].id]
            0 <= i < j < s.tasks_view().len() ==> s.tasks_view()[i].id < s.tasks_view()[j].id,
{
}


} // verus!
