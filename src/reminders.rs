//! The reminder scheduler and the reminder worker's store side: recording a
//! pending reminder for a task, reading its delay, and consuming it.
use vstd::prelude::*;
use crate::commands::task_index_to_task_id;
use crate::delay::{delay_seconds, lemma_delay_positive, parse_delay_spec_into_seconds};
use crate::errors::{AppError, TaskError, TaskIndex};
use crate::model::{
    ReminderM, StoreM, cur_idx, cur_tasks, has_reminder, has_task, is_text_of, reminder_added,
    reminder_fired, reminder_idx, stack_idx, wf,
};
use crate::store::{Reminder, Store, lemma_stack_idx, reminders_view};

verus! {

/// Relies on `uuid::Uuid::new_v4` for a random identifier and on the
/// hyphenated form (36 characters) that `Uuid`'s `Display` writes.
#[verifier::external_body]
fn new_reminder_id() -> (r: String)
    ensures
        r@.len() == 36,
{
    uuid::Uuid::new_v4().to_string()
}

pub proof fn lemma_reminder_idx_of(m: StoreM, q: int)
    requires
        wf(m),
        0 <= q < m.reminders.len(),
    ensures
        reminder_idx(m, m.reminders[q].id) == q,
{
    let p = reminder_idx(m, m.reminders[q].id);
    assert(0 <= p < m.reminders.len() && m.reminders[p].id == m.reminders[q].id);
}

impl Store {
    /// Position of reminder `rid`.
    pub(crate) fn find_reminder(&self, rid: &String) -> (r: Option<usize>)
        requires
            self.wf(),
        ensures
            r is None <==> !has_reminder(self@, rid@),
            r matches Some(q) ==> q < self@.reminders.len() && q == reminder_idx(self@, rid@)
                && self@.reminders[q as int].id == rid@,
    {
        let mut q: usize = 0;
        while q < self.reminders.len()
            invariant
                0 <= q <= self.reminders.len(),
                self.wf(),
                forall|j: int| 0 <= j < q ==> #[trigger] self@.reminders[j].id != rid@,
            decreases self.reminders.len() - q,
        {
            if self.reminders[q].id == *rid {
                proof {
                    lemma_reminder_idx_of(self@, q as int);
                }
                return Some(q);
            }
            q = q + 1;
        }
        None
    }

    /// Text of a task with identifier `id`.
    fn task_text(&self, id: i64) -> (r: Option<String>)
        requires
            self.wf(),
        ensures
            r is None <==> !has_task(self@.stacks, id as int),
            r matches Some(t) ==> is_text_of(self@, id as int, t@),
    {
        let mut s: usize = 0;
        while s < self.stacks.len()
            invariant
                0 <= s <= self.stacks.len(),
                self.wf(),
                forall|a: int, k: int|
                    0 <= a < s && 0 <= k < self@.stacks[a].tasks.len() ==> #[trigger] self@.stacks[a].tasks[k].id
                        != id,
            decreases self.stacks.len() - s,
        {
            let ts = &self.stacks[s].tasks;
            let mut k: usize = 0;
            while k < ts.len()
                invariant
                    0 <= k <= ts.len(),
                    s < self.stacks.len(),
                    ts == &self.stacks@[s as int].tasks,
                    forall|j: int| 0 <= j < k ==> #[trigger] self@.stacks[s as int].tasks[j].id != id,
                decreases ts.len() - k,
            {
                assert(self@.stacks[s as int].tasks[k as int] == ts@[k as int]@);
                if ts[k].id == id {
                    let t = ts[k].text.clone();
                    assert(self@.stacks[s as int].tasks[k as int].id == id);
                    return Some(t);
                }
                k = k + 1;
            }
            s = s + 1;
        }
        None
    }
}

/// Recording a new reminder with a positive delay for a task of the current
/// stack keeps the store well formed.
pub proof fn lemma_reminder_added_wf(m: StoreM, i: int, delay: nat, rid: Seq<char>)
    requires
        wf(m),
        0 <= i < cur_tasks(m).len(),
        delay > 0,
        !has_reminder(m, rid),
    ensures
        wf(reminder_added(m, i, delay, rid)),
{
    let ci = cur_idx(m);
    let m2 = reminder_added(m, i, delay, rid);
    let nq = m.reminders.len() as int;
    assert(has_task(m2.stacks, m2.reminders[nq].task_id)) by {
        assert(m.stacks[ci].tasks[i].id == m2.reminders[nq].task_id);
    }
    assert forall|q: int| 0 <= q < m2.reminders.len() implies has_task(
        m2.stacks,
        #[trigger] m2.reminders[q].task_id,
    ) by {
        if q < nq {
            assert(m2.reminders[q] == m.reminders[q]);
        }
    }
    assert forall|q: int| 0 <= q < m2.reminders.len() implies #[trigger] m2.reminders[q].delay
        > 0 by {
        if q < nq {
            assert(m2.reminders[q] == m.reminders[q]);
        }
    }
    assert forall|p: int, q: int|
        0 <= p < m2.reminders.len() && 0 <= q < m2.reminders.len() && p != q implies #[trigger] m2.reminders[p].id
        != #[trigger] m2.reminders[q].id by {
        if p < nq && q < nq {
            assert(m2.reminders[p] == m.reminders[p] && m2.reminders[q] == m.reminders[q]);
        } else if p < nq {
            assert(m2.reminders[p] == m.reminders[p]);
        } else if q < nq {
            assert(m2.reminders[q] == m.reminders[q]);
        }
    }
}

/// Record a reminder `reminder_id` for the task at position `task_index` of
/// the current stack, after the delay that `delay_spec` denotes.
pub fn schedule_reminder(
    store: &mut Store,
    task_index: TaskIndex,
    delay_spec: &str,
    reminder_id: String,
) -> (r: Result<(), AppError>)
    requires
        old(store).wf(),
    ensures
        final(store).wf(),
        ({
            let m = old(store)@;
            let n = cur_tasks(m).len();
            &&& task_index >= n ==> (r matches Err(AppError::Task(TaskError::NoSuchTask(i)))
                && i == task_index)
            &&& task_index < n && delay_seconds(delay_spec@) is None ==> (r matches Err(
                AppError::Reminder(crate::errors::ReminderError::InvalidReminderTime(e)),
            ) && e@ == delay_spec@)
            &&& task_index < n && delay_seconds(delay_spec@) is Some && has_reminder(
                m,
                reminder_id@,
            ) ==> (r matches Err(AppError::Constraint))
            &&& task_index < n && delay_seconds(delay_spec@) is Some && !has_reminder(
                m,
                reminder_id@,
            ) ==> r is Ok && final(store)@ == reminder_added(
                m,
                task_index as int,
                delay_seconds(delay_spec@)->0,
                reminder_id@,
            )
            &&& r is Err ==> final(store)@ == m
        }),
{
    let ghost m = store@;
    let current = store.current;
    let task_id = task_index_to_task_id(store, current, task_index)?;
    let delay = parse_delay_spec_into_seconds(delay_spec)?;
    if store.find_reminder(&reminder_id).is_some() {
        return Err(AppError::Constraint);
    }
    let ghost rid = reminder_id@;
    store.reminders.push(Reminder { id: reminder_id, delay, task_id });
    proof {
        let ci = cur_idx(m);
        let m2 = reminder_added(m, task_index as int, delay as nat, rid);
        assert(store@.reminders =~= m2.reminders);
        assert(store@ =~= m2);
        lemma_delay_positive(delay_spec@);
        assert(m.stacks[ci].tasks[task_index as int].id == task_id);
        lemma_reminder_added_wf(m, task_index as int, delay as nat, rid);
    }
    Ok(())
}

/// Record a reminder with a fresh random identifier for the task at position
/// `task_index` of the current stack, after the delay `reminder_string`, and
/// return that identifier. The errors come as in `schedule_reminder`; the
/// random identifier cannot be known in advance, and in the unlikely case
/// that it is already in use nothing is recorded and `Constraint` comes back.
/// Where no pending reminder has an identifier of 36 characters (the length
/// of every identifier made here), it cannot be in use, and the reminder is
/// recorded.
pub fn remind_me(store: &mut Store, task_index: TaskIndex, reminder_string: String) -> (r: Result<
    String,
    AppError,
>)
    requires
        old(store).wf(),
    ensures
        final(store).wf(),
        ({
            let m = old(store)@;
            let n = cur_tasks(m).len();
            &&& task_index >= n ==> (r matches Err(AppError::Task(TaskError::NoSuchTask(i)))
                && i == task_index)
            &&& task_index < n && delay_seconds(reminder_string@) is None ==> (r matches Err(
                AppError::Reminder(crate::errors::ReminderError::InvalidReminderTime(e)),
            ) && e@ == reminder_string@)
            &&& task_index < n && delay_seconds(reminder_string@) is Some ==> (r is Ok || (r matches Err(
                AppError::Constraint,
            )))
            &&& task_index < n && delay_seconds(reminder_string@) is Some && (forall|q: int|
                0 <= q < m.reminders.len() ==> #[trigger] m.reminders[q].id.len() != 36) ==> r is Ok
            &&& r matches Ok(id) ==> id@.len() == 36 && !has_reminder(m, id@) && final(store)@
                == reminder_added(m, task_index as int, delay_seconds(reminder_string@)->0, id@)
            &&& r is Err ==> final(store)@ == m
        }),
{
    let id = new_reminder_id();
    let ghost idv = id@;
    proof {
        let m = store@;
        if (forall|q: int| 0 <= q < m.reminders.len() ==> #[trigger] m.reminders[q].id.len() != 36)
            && has_reminder(m, idv) {
            let q = choose|q: int| 0 <= q < m.reminders.len() && #[trigger] m.reminders[q].id == idv;
            assert(m.reminders[q].id.len() != 36);
        }
    }
    let kept = id.clone();
    schedule_reminder(store, task_index, reminder_string.as_str(), id)?;
    assert(kept@ == idv);
    Ok(kept)
}

/// Delay in seconds of reminder `reminder_id`, if it is still pending.
pub fn reminder_delay(store: &Store, reminder_id: &String) -> (r: Option<u32>)
    requires
        store.wf(),
    ensures
        has_reminder(store@, reminder_id@) ==> r == Some(
            store@.reminders[reminder_idx(store@, reminder_id@)].delay as u32,
        ),
        !has_reminder(store@, reminder_id@) ==> r is None,
{
    match store.find_reminder(reminder_id) {
        Some(q) => Some(store.reminders[q].delay),
        None => None,
    }
}

/// Consume reminder `reminder_id` and return the text of its task. Where the
/// reminder is gone (its task was deleted, or it already fired) nothing
/// changes and `None` comes back.
pub fn trigger_reminder(store: &mut Store, reminder_id: String) -> (r: Option<String>)
    requires
        old(store).wf(),
    ensures
        final(store).wf(),
        !has_reminder(old(store)@, reminder_id@) ==> r is None && final(store)@ == old(store)@,
        has_reminder(old(store)@, reminder_id@) ==> (r matches Some(t) && is_text_of(
            old(store)@,
            old(store)@.reminders[reminder_idx(old(store)@, reminder_id@)].task_id,
            t@,
        )) && final(store)@ == reminder_fired(old(store)@, reminder_id@),
{
    let ghost m = store@;
    let q = match store.find_reminder(&reminder_id) {
        Some(q) => q,
        None => {
            return None;
        },
    };
    let task_id = store.reminders[q].task_id;
    let text = match store.task_text(task_id) {
        Some(t) => t,
        None => {
            proof {
                assert(has_task(m.stacks, m.reminders[q as int].task_id));
            }
            return None;
        },
    };
    let _fired = store.reminders.remove(q);
    proof {
        let m2 = reminder_fired(m, reminder_id@);
        assert(store@.reminders =~= m2.reminders);
        assert(store@ =~= m2);
        let q = q as int;
        assert forall|a: int| 0 <= a < m2.reminders.len() implies has_task(
            m2.stacks,
            #[trigger] m2.reminders[a].task_id,
        ) by {
            let a0 = if a < q { a } else { a + 1 };
            assert(m2.reminders[a] == m.reminders[a0]);
        }
        assert forall|a: int| 0 <= a < m2.reminders.len() implies #[trigger] m2.reminders[a].delay
            > 0 by {
            let a0 = if a < q { a } else { a + 1 };
            assert(m2.reminders[a] == m.reminders[a0]);
        }
        assert forall|a: int, b: int|
            0 <= a < m2.reminders.len() && 0 <= b < m2.reminders.len() && a != b implies #[trigger] m2.reminders[a].id
            != #[trigger] m2.reminders[b].id by {
            let a0 = if a < q { a } else { a + 1 };
            let b0 = if b < q { b } else { b + 1 };
            assert(m2.reminders[a] == m.reminders[a0] && m2.reminders[b] == m.reminders[b0]);
        }
        let d = stack_idx(m, 1);
        assert(m2.stacks[d].id == 1);
        let c = stack_idx(m, m.current);
        assert(m2.stacks[c].id == m.current);
    }
    Some(text)
}

} // verus!
