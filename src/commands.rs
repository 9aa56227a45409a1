//! The store's operations: the stack directory, the task sequencer and the
//! reminder scheduler, each on the current stack unless it names another.
use vstd::prelude::*;
use crate::errors::{AppError, StackError, TaskError, TaskIndex};
use crate::model::{
    ReminderM, StackM, StoreM, TaskM, ids_distinct, task_ids_unique, bottom_key, cleared, cleared_all, cur_idx, cur_tasks, has_stack,
    has_stack_named, has_task, has_task_in, moved_top, stack_added, stack_dropped, stack_idx_named,
    stack_names, DEFAULT_STACK_ID, insert_exhausted, inserted_after, is_i64, is_split, killed,
    lemma_split_unique, new_task, shift_from, split_at_key, lemma_filter_reminders, lemma_not_for_push,
    lemma_outside_push, popped, push_exhausted, pushback_exhausted, pushed, pushed_back,
    reminder_ids_distinct, reminders_not_for, reminders_outside, sorted_by_order, stack_idx,
    swapped, texts, top_key, wf, with_tasks,
};
use crate::store::{
    Reminder, Stack, Store, Task, lemma_stack_idx, lemma_stack_idx_named, reminders_view, stacks_view, tasks_view,
};

verus! {

/// Replacing the tasks of stack `si` by tasks with distinct identifiers, each
/// of them either from that stack or from nowhere in the store, keeps task
/// identifiers unique.
proof fn lemma_unique_update(stacks: Seq<StackM>, si: int, ts: Seq<TaskM>)
    requires
        task_ids_unique(stacks),
        0 <= si < stacks.len(),
        ids_distinct(ts),
        forall|k: int|
            0 <= k < ts.len() ==> has_task_in(stacks[si].tasks, #[trigger] ts[k].id) || !has_task(
                stacks,
                ts[k].id,
            ),
    ensures
        task_ids_unique(stacks.update(si, StackM { tasks: ts, ..stacks[si] })),
{
    let st2 = stacks.update(si, StackM { tasks: ts, ..stacks[si] });
    assert forall|s1: int, k1: int, s2: int, k2: int|
        0 <= s1 < st2.len() && 0 <= k1 < st2[s1].tasks.len() && 0 <= s2 < st2.len() && 0 <= k2
            < st2[s2].tasks.len() && (s1 != s2 || k1 != k2) implies #[trigger] st2[s1].tasks[k1].id
        != #[trigger] st2[s2].tasks[k2].id by {
        if s1 != si && s2 != si {
            assert(st2[s1] == stacks[s1] && st2[s2] == stacks[s2]);
        } else if s1 == si && s2 == si {
            assert(ts[k1].id != ts[k2].id);
        } else {
            let (a, ka, b, kb) = if s1 == si {
                (s1, k1, s2, k2)
            } else {
                (s2, k2, s1, k1)
            };
            assert(st2[b] == stacks[b]);
            let id = ts[ka].id;
            if has_task_in(stacks[si].tasks, id) {
                let k0 = choose|k0: int| 0 <= k0 < stacks[si].tasks.len() && #[trigger] stacks[si].tasks[k0].id == id;
                assert(stacks[si].tasks[k0].id != stacks[b].tasks[kb].id);
            } else {
                assert(!has_task(stacks, id));
                if stacks[b].tasks[kb].id == id {
                    assert(has_task(stacks, id));
                }
            }
        }
    }
}

/// The tasks of one stack of a well-formed store have distinct identifiers.
proof fn lemma_own_ids_distinct(m: StoreM, si: int)
    requires
        wf(m),
        0 <= si < m.stacks.len(),
    ensures
        ids_distinct(m.stacks[si].tasks),
{
    let ts = m.stacks[si].tasks;
    assert forall|i: int, j: int| 0 <= i < ts.len() && 0 <= j < ts.len() && i != j implies #[trigger] ts[i].id
        != #[trigger] ts[j].id by {
        assert(m.stacks[si].tasks[i].id != m.stacks[si].tasks[j].id);
    }
}

/// A store whose stacks keep their identifiers and names, whose tasks stay
/// sorted with unique identifiers, and which keeps every task identifier it
/// had, is well formed with the same reminders.
proof fn lemma_restacked_wf(m: StoreM, m2: StoreM)
    requires
        wf(m),
        m2.current == m.current,
        m2.reminders == m.reminders,
        m2.next_stack_id == m.next_stack_id,
        m2.next_task_id == m.next_task_id,
        m2.stacks.len() == m.stacks.len(),
        forall|i: int| 0 <= i < m.stacks.len() ==> #[trigger] m2.stacks[i].id == m.stacks[i].id,
        forall|i: int| 0 <= i < m.stacks.len() ==> #[trigger] m2.stacks[i].name == m.stacks[i].name,
        forall|i: int| 0 <= i < m2.stacks.len() ==> sorted_by_order(#[trigger] m2.stacks[i].tasks),
        forall|s: int, k: int|
            0 <= s < m2.stacks.len() && 0 <= k < m2.stacks[s].tasks.len() ==> has_task(
                m.stacks,
                #[trigger] m2.stacks[s].tasks[k].id,
            ),
        task_ids_unique(m2.stacks),
        forall|s: int, k: int|
            0 <= s < m.stacks.len() && 0 <= k < m.stacks[s].tasks.len() ==> has_task(
                m2.stacks,
                #[trigger] m.stacks[s].tasks[k].id,
            ),
    ensures
        wf(m2),
{
    assert forall|i: int, j: int|
        0 <= i < m2.stacks.len() && 0 <= j < m2.stacks.len() && i != j implies #[trigger] m2.stacks[i].name
        != #[trigger] m2.stacks[j].name by {
        assert(m2.stacks[i].name == m.stacks[i].name && m2.stacks[j].name == m.stacks[j].name);
    }
    assert forall|i: int, j: int|
        0 <= i < m2.stacks.len() && 0 <= j < m2.stacks.len() && i != j implies #[trigger] m2.stacks[i].id
        != #[trigger] m2.stacks[j].id by {
        assert(m2.stacks[i].id == m.stacks[i].id && m2.stacks[j].id == m.stacks[j].id);
    }
    assert forall|i: int| 0 <= i < m2.stacks.len() implies #[trigger] m2.stacks[i].id
        < m2.next_stack_id by {
        assert(m2.stacks[i].id == m.stacks[i].id);
    }
    let d = stack_idx(m, 1);
    assert(m2.stacks[d].id == 1);
    let c = stack_idx(m, m.current);
    assert(m2.stacks[c].id == m.current);
    assert forall|s: int, k: int|
        0 <= s < m2.stacks.len() && 0 <= k < m2.stacks[s].tasks.len() implies #[trigger] m2.stacks[s].tasks[k].id
        < m2.next_task_id by {
        assert(has_task(m.stacks, m2.stacks[s].tasks[k].id));
        let (a, b) = choose|a: int, b: int|
            0 <= a < m.stacks.len() && 0 <= b < m.stacks[a].tasks.len() && #[trigger] m.stacks[a].tasks[b].id
                == m2.stacks[s].tasks[k].id;
    }
    lemma_tasks_kept(m, m2);
}

/// Replacing the tasks of one stack by a sorted sequence of tasks, and the
/// reminders by some of the old ones that all still find their task, keeps the
/// store well formed.
proof fn lemma_with_tasks_wf(
    m: StoreM,
    si: int,
    ts: Seq<TaskM>,
    next: int,
    rs: Seq<ReminderM>,
)
    requires
        wf(m),
        0 <= si < m.stacks.len(),
        sorted_by_order(ts),
        m.next_task_id <= next <= i64::MAX,
        forall|k: int| 0 <= k < ts.len() ==> #[trigger] ts[k].id < next,
        ids_distinct(ts),
        forall|k: int|
            0 <= k < ts.len() ==> has_task_in(m.stacks[si].tasks, #[trigger] ts[k].id) || !has_task(
                m.stacks,
                ts[k].id,
            ),
        forall|q: int| 0 <= q < rs.len() ==> m.reminders.contains(#[trigger] rs[q]),
        forall|q: int|
            0 <= q < rs.len() ==> has_task(with_tasks(m, si, ts).stacks, #[trigger] rs[q].task_id),
        reminder_ids_distinct(rs),
    ensures
        wf(StoreM { next_task_id: next, reminders: rs, ..with_tasks(m, si, ts) }),
{
    let m2 = StoreM { next_task_id: next, reminders: rs, ..with_tasks(m, si, ts) };
    lemma_unique_update(m.stacks, si, ts);
    assert(m2.stacks == m.stacks.update(si, StackM { tasks: ts, ..m.stacks[si] }));
    assert(m2.stacks[si].id == m.stacks[si].id);
    let d = stack_idx(m, 1);
    assert(m2.stacks[d].id == 1);
    let c = stack_idx(m, m.current);
    assert(m2.stacks[c].id == m.current);
    assert forall|s: int, k: int|
        0 <= s < m2.stacks.len() && 0 <= k < m2.stacks[s].tasks.len() implies #[trigger] m2.stacks[s].tasks[k].id
        < m2.next_task_id by {
        if s != si {
            assert(m2.stacks[s] == m.stacks[s]);
            assert(m.stacks[s].tasks[k].id < m.next_task_id);
        }
    }
    assert forall|i: int| 0 <= i < m2.stacks.len() implies sorted_by_order(
        #[trigger] m2.stacks[i].tasks,
    ) by {
        if i != si {
            assert(m2.stacks[i] == m.stacks[i]);
        }
    }
    assert forall|q: int| 0 <= q < rs.len() implies #[trigger] rs[q].delay > 0 by {
        assert(m.reminders.contains(rs[q]));
    }
}

/// The same as `lemma_with_tasks_wf` where the reminders stay as they are.
pub(crate) proof fn lemma_with_tasks_wf_same_reminders(m: StoreM, si: int, ts: Seq<TaskM>, next: int)
    requires
        wf(m),
        0 <= si < m.stacks.len(),
        sorted_by_order(ts),
        m.next_task_id <= next <= i64::MAX,
        forall|k: int| 0 <= k < ts.len() ==> #[trigger] ts[k].id < next,
        ids_distinct(ts),
        forall|k: int|
            0 <= k < ts.len() ==> has_task_in(m.stacks[si].tasks, #[trigger] ts[k].id) || !has_task(
                m.stacks,
                ts[k].id,
            ),
        forall|s: int, k: int|
            0 <= s < m.stacks.len() && 0 <= k < m.stacks[s].tasks.len() ==> has_task(
                with_tasks(m, si, ts).stacks,
                #[trigger] m.stacks[s].tasks[k].id,
            ),
    ensures
        wf(StoreM { next_task_id: next, ..with_tasks(m, si, ts) }),
{
    let rs = m.reminders;
    assert forall|q: int| 0 <= q < rs.len() implies m.reminders.contains(#[trigger] rs[q]) by {}
    lemma_tasks_kept(m, with_tasks(m, si, ts));
    lemma_with_tasks_wf(m, si, ts, next, rs);
    assert(StoreM { next_task_id: next, reminders: rs, ..with_tasks(m, si, ts) } == StoreM {
        next_task_id: next,
        ..with_tasks(m, si, ts)
    });
}

/// Every task of `m` is still somewhere in `m2`.
pub(crate) proof fn lemma_tasks_kept(m: StoreM, m2: StoreM)
    requires
        forall|s: int, k: int|
            0 <= s < m.stacks.len() && 0 <= k < m.stacks[s].tasks.len() ==> has_task(
                m2.stacks,
                #[trigger] m.stacks[s].tasks[k].id,
            ),
    ensures
        forall|id: int| has_task(m.stacks, id) ==> has_task(m2.stacks, id),
{
}

impl Store {
    /// Position of the stack named `name`.
    pub(crate) fn find_stack_named(&self, name: &String) -> (r: Option<usize>)
        requires
            self.wf(),
        ensures
            r is None <==> !has_stack_named(self@, name@),
            r matches Some(i) ==> i < self@.stacks.len() && i == stack_idx_named(self@, name@)
                && self@.stacks[i as int].name == name@,
    {
        let mut i: usize = 0;
        while i < self.stacks.len()
            invariant
                0 <= i <= self.stacks.len(),
                self.wf(),
                forall|j: int| 0 <= j < i ==> #[trigger] self@.stacks[j].name != name@,
            decreases self.stacks.len() - i,
        {
            if self.stacks[i].name == *name {
                proof {
                    lemma_stack_idx_named(self@, i as int);
                }
                return Some(i);
            }
            i = i + 1;
        }
        None
    }

    /// Position of the current stack.
    pub(crate) fn current_pos(&self) -> (r: usize)
        requires
            self.wf(),
        ensures
            r < self@.stacks.len(),
            r == cur_idx(self@),
    {
        match self.find_stack(self.current) {
            Some(i) => i,
            None => {
                proof {
                    assert(false);
                }
                0
            },
        }
    }
}

/// Identifier of the current stack.
pub fn get_current_stack_id(store: &Store) -> (r: i64)
    requires
        store.wf(),
    ensures
        r == store@.current,
{
    store.current
}

/// Push `task` onto the top of the current stack, with a key one above the
/// largest there (or 1 on an empty stack).
pub fn push_task(store: &mut Store, task: String) -> (r: Result<(), AppError>)
    requires
        old(store).wf(),
    ensures
        final(store).wf(),
        push_exhausted(old(store)@) ==> (r matches Err(AppError::Constraint)) && final(store)@
            == old(store)@,
        !push_exhausted(old(store)@) ==> r is Ok && final(store)@ == pushed(old(store)@, task@),
{
    let ghost m = store@;
    let ci = store.current_pos();
    let n = store.stacks[ci].tasks.len();
    let key: i64 = if n == 0 {
        1
    } else {
        let last = store.stacks[ci].tasks[n - 1].order;
        if last == i64::MAX {
            return Err(AppError::Constraint);
        }
        last + 1
    };
    if store.next_task_id == i64::MAX {
        return Err(AppError::Constraint);
    }
    let id = store.next_task_id;
    let ghost text = task@;
    store.stacks[ci].tasks.push(Task { id, text: task, order: key });
    store.next_task_id = id + 1;
    proof {
        let ts = cur_tasks(m);
        let ts2 = ts.push(TaskM { id: id as int, text, order: key as int });
        assert(store@.stacks[ci as int].tasks =~= ts2);
        assert(store@.stacks =~= with_tasks(m, ci as int, ts2).stacks);
        assert(store@ =~= pushed(m, text));
        lemma_pushed_wf(m, text);
    }
    Ok(())
}

/// Pushing keeps the store well formed.
pub proof fn lemma_pushed_wf(m: StoreM, text: Seq<char>)
    requires
        wf(m),
        !push_exhausted(m),
    ensures
        wf(pushed(m, text)),
{
    let ci = cur_idx(m);
    let ts = cur_tasks(m);
    let ts2 = ts.push(new_task(m, text, top_key(ts)));
    let m1 = with_tasks(m, ci, ts2);
    assert forall|s: int, k: int|
        0 <= s < m.stacks.len() && 0 <= k < m.stacks[s].tasks.len() implies has_task(
        m1.stacks,
        #[trigger] m.stacks[s].tasks[k].id,
    ) by {
        assert(m1.stacks[s].tasks[k] == m.stacks[s].tasks[k]);
    }
    lemma_with_tasks_wf_same_reminders(m, ci, ts2, m.next_task_id + 1);
}

/// Putting a task at the bottom keeps the store well formed.
pub proof fn lemma_pushed_back_wf(m: StoreM, text: Seq<char>)
    requires
        wf(m),
        !pushback_exhausted(m),
    ensures
        wf(pushed_back(m, text)),
{
    let ci = cur_idx(m);
    let ts = cur_tasks(m);
    let ts2 = ts.insert(0, new_task(m, text, bottom_key(ts)));
    let m1 = with_tasks(m, ci, ts2);
    assert forall|s: int, k: int|
        0 <= s < m.stacks.len() && 0 <= k < m.stacks[s].tasks.len() implies has_task(
        m1.stacks,
        #[trigger] m.stacks[s].tasks[k].id,
    ) by {
        if s == ci {
            assert(m1.stacks[s].tasks[k + 1] == m.stacks[s].tasks[k]);
        } else {
            assert(m1.stacks[s] == m.stacks[s]);
        }
    }
    assert(sorted_by_order(ts));
    assert(sorted_by_order(ts2)) by {
        assert forall|i: int, j: int| 0 <= i < j < ts2.len() implies #[trigger] ts2[i].order
            <= #[trigger] ts2[j].order by {
            if i > 0 {
                assert(ts2[i] == ts[i - 1] && ts2[j] == ts[j - 1]);
            } else {
                assert(ts2[j] == ts[j - 1]);
                assert(ts[0].order <= ts[j - 1].order);
            }
        }
    }
    lemma_with_tasks_wf_same_reminders(m, ci, ts2, m.next_task_id + 1);
}

/// A sorted sequence of tasks has a split position for every key.
proof fn lemma_split_exists(ts: Seq<TaskM>, k: int)
    requires
        sorted_by_order(ts),
    ensures
        is_split(ts, k, split_at_key(ts, k)),
    decreases ts.len(),
{
    if ts.len() == 0 {
        assert(is_split(ts, k, 0));
    } else {
        let rest = ts.drop_last();
        assert(sorted_by_order(rest)) by {
            assert forall|i: int, j: int| 0 <= i < j < rest.len() implies #[trigger] rest[i].order
                <= #[trigger] rest[j].order by {
                assert(rest[i] == ts[i] && rest[j] == ts[j]);
            }
        }
        lemma_split_exists(rest, k);
        let p = split_at_key(rest, k);
        if ts.last().order < k {
            assert forall|j: int| 0 <= j < ts.len() implies #[trigger] ts[j].order < k by {
                if j < ts.len() - 1 {
                    assert(ts[j].order <= ts[ts.len() - 1].order);
                }
            }
            assert(is_split(ts, k, ts.len() as int));
        } else {
            assert forall|j: int| 0 <= j < p implies #[trigger] ts[j].order < k by {
                assert(rest[j] == ts[j]);
            }
            assert forall|j: int| p <= j < ts.len() implies #[trigger] ts[j].order >= k by {
                if j < ts.len() - 1 {
                    assert(rest[j] == ts[j]);
                }
            }
            assert(is_split(ts, k, p));
        }
    }
}

/// Inserting in the middle of the current stack keeps the store well formed.
pub proof fn lemma_inserted_after_wf(m: StoreM, i: int, text: Seq<char>)
    requires
        wf(m),
        0 < i < cur_tasks(m).len() - 1,
        !insert_exhausted(m),
    ensures
        wf(inserted_after(m, i, text)),
{
    let ci = cur_idx(m);
    let ts = cur_tasks(m);
    let k = ts[i].order + 1;
    assert(sorted_by_order(ts));
    lemma_split_exists(ts, k);
    lemma_insert_wf(m, ci, ts, k, split_at_key(ts, k), new_task(m, text, k));
}

/// Removing the task at position `k0` of stack `si`, and every reminder of it,
/// leaves each remaining reminder with its task.
proof fn lemma_removal_keeps_reminders(m: StoreM, si: int, k0: int)
    requires
        wf(m),
        0 <= si < m.stacks.len(),
        0 <= k0 < m.stacks[si].tasks.len(),
    ensures
        ({
            let ts = m.stacks[si].tasks;
            let rs = reminders_not_for(m.reminders, ts[k0].id);
            &&& forall|q: int| 0 <= q < rs.len() ==> m.reminders.contains(#[trigger] rs[q])
            &&& forall|q: int|
                0 <= q < rs.len() ==> has_task(
                    with_tasks(m, si, ts.remove(k0)).stacks,
                    #[trigger] rs[q].task_id,
                )
            &&& reminder_ids_distinct(rs)
        }),
{
    let ts = m.stacks[si].tasks;
    let x = ts[k0].id;
    let rs = reminders_not_for(m.reminders, x);
    let m2 = with_tasks(m, si, ts.remove(k0));
    lemma_filter_reminders(m.reminders, |r: ReminderM| r.task_id != x);
    assert forall|q: int| 0 <= q < rs.len() implies has_task(m2.stacks, #[trigger] rs[q].task_id) by {
        assert(m.reminders.contains(rs[q]));
        let p = choose|p: int| 0 <= p < m.reminders.len() && m.reminders[p] == rs[q];
        assert(has_task(m.stacks, m.reminders[p].task_id));
        let (s, k) = choose|s: int, k: int|
            0 <= s < m.stacks.len() && 0 <= k < m.stacks[s].tasks.len()
                && #[trigger] m.stacks[s].tasks[k].id == rs[q].task_id;
        if s == si {
            if k < k0 {
                assert(m2.stacks[s].tasks[k] == ts[k]);
            } else {
                assert(k != k0);
                assert(m2.stacks[s].tasks[k - 1] == ts[k]);
            }
        } else {
            assert(m2.stacks[s] == m.stacks[s]);
        }
    }
}

/// Whether one of `ts` has identifier `id`.
fn task_in(ts: &Vec<Task>, id: i64) -> (r: bool)
    ensures
        r == has_task_in(tasks_view(ts@), id as int),
{
    let mut k: usize = 0;
    while k < ts.len()
        invariant
            0 <= k <= ts.len(),
            forall|j: int| 0 <= j < k ==> #[trigger] ts@[j].id != id,
        decreases ts.len() - k,
    {
        if ts[k].id == id {
            assert(tasks_view(ts@)[k as int].id == id);
            return true;
        }
        k = k + 1;
    }
    assert forall|j: int| 0 <= j < ts.len() implies #[trigger] tasks_view(ts@)[j].id != id by {
        assert(ts@[j].id != id);
    }
    false
}

fn copy_reminder(r: &Reminder) -> (c: Reminder)
    ensures
        c@ == r@,
{
    Reminder { id: r.id.clone(), delay: r.delay, task_id: r.task_id }
}

/// The reminders of `rs` that do not point at task `id`.
fn reminders_without_task(rs: &Vec<Reminder>, id: i64) -> (r: Vec<Reminder>)
    ensures
        reminders_view(r@) == reminders_not_for(reminders_view(rs@), id as int),
{
    let ghost rsv = reminders_view(rs@);
    let mut out: Vec<Reminder> = Vec::new();
    let mut i: usize = 0;
    assert(rsv.take(0) =~= Seq::<ReminderM>::empty());
    assert(reminders_not_for(Seq::<ReminderM>::empty(), id as int) =~= Seq::<ReminderM>::empty())
        by {
        Seq::<ReminderM>::empty().lemma_filter_len(|r: ReminderM| r.task_id != id);
    }
    assert(reminders_view(out@) =~= Seq::<ReminderM>::empty());
    while i < rs.len()
        invariant
            0 <= i <= rs.len(),
            rsv == reminders_view(rs@),
            reminders_view(out@) == reminders_not_for(rsv.take(i as int), id as int),
        decreases rs.len() - i,
    {
        proof {
            assert(rsv.take(i + 1) =~= rsv.take(i as int).push(rsv[i as int]));
            lemma_not_for_push(rsv.take(i as int), rsv[i as int], id as int);
        }
        if rs[i].task_id != id {
            let c = copy_reminder(&rs[i]);
            let ghost before = out@;
            out.push(c);
            assert(reminders_view(out@) =~= reminders_view(before).push(rsv[i as int]));
        }
        i = i + 1;
    }
    assert(rsv.take(rs.len() as int) =~= rsv);
    out
}

/// The reminders of `rs` whose task is not one of `ts`.
fn reminders_without_tasks(rs: &Vec<Reminder>, ts: &Vec<Task>) -> (r: Vec<Reminder>)
    ensures
        reminders_view(r@) == reminders_outside(reminders_view(rs@), tasks_view(ts@)),
{
    let ghost rsv = reminders_view(rs@);
    let ghost tv = tasks_view(ts@);
    let mut out: Vec<Reminder> = Vec::new();
    let mut i: usize = 0;
    assert(rsv.take(0) =~= Seq::<ReminderM>::empty());
    assert(reminders_outside(Seq::<ReminderM>::empty(), tv) =~= Seq::<ReminderM>::empty()) by {
        Seq::<ReminderM>::empty().lemma_filter_len(|r: ReminderM| !has_task_in(tv, r.task_id));
    }
    assert(reminders_view(out@) =~= Seq::<ReminderM>::empty());
    while i < rs.len()
        invariant
            0 <= i <= rs.len(),
            rsv == reminders_view(rs@),
            tv == tasks_view(ts@),
            reminders_view(out@) == reminders_outside(rsv.take(i as int), tv),
        decreases rs.len() - i,
    {
        proof {
            assert(rsv.take(i + 1) =~= rsv.take(i as int).push(rsv[i as int]));
            lemma_outside_push(rsv.take(i as int), rsv[i as int], tv);
        }
        if !task_in(ts, rs[i].task_id) {
            let c = copy_reminder(&rs[i]);
            let ghost before = out@;
            out.push(c);
            assert(reminders_view(out@) =~= reminders_view(before).push(rsv[i as int]));
        }
        i = i + 1;
    }
    assert(rsv.take(rs.len() as int) =~= rsv);
    out
}

/// Put `task` at the bottom of the current stack, with a key one below the
/// smallest there (or 1 on an empty stack).
pub fn pushback_task(store: &mut Store, task: String) -> (r: Result<(), AppError>)
    requires
        old(store).wf(),
    ensures
        final(store).wf(),
        pushback_exhausted(old(store)@) ==> (r matches Err(AppError::Constraint)) && final(store)@
            == old(store)@,
        !pushback_exhausted(old(store)@) ==> r is Ok && final(store)@ == pushed_back(
            old(store)@,
            task@,
        ),
{
    let ghost m = store@;
    let ci = store.current_pos();
    let n = store.stacks[ci].tasks.len();
    let key: i64 = if n == 0 {
        1
    } else {
        let first = store.stacks[ci].tasks[0].order;
        if first == i64::MIN {
            return Err(AppError::Constraint);
        }
        first - 1
    };
    if store.next_task_id == i64::MAX {
        return Err(AppError::Constraint);
    }
    let id = store.next_task_id;
    let ghost text = task@;
    store.stacks[ci].tasks.insert(0, Task { id, text: task, order: key });
    store.next_task_id = id + 1;
    proof {
        let ts = cur_tasks(m);
        let ts2 = ts.insert(0, TaskM { id: id as int, text, order: key as int });
        assert(store@.stacks[ci as int].tasks =~= ts2);
        assert(store@.stacks =~= with_tasks(m, ci as int, ts2).stacks);
        assert(store@ =~= pushed_back(m, text));
        lemma_pushed_back_wf(m, text);
    }
    Ok(())
}

/// Remove and return the top task of the current stack, with its reminders;
/// `None` when the stack is empty.
pub fn pop_task(store: &mut Store) -> (r: Option<String>)
    requires
        old(store).wf(),
    ensures
        final(store).wf(),
        cur_tasks(old(store)@).len() == 0 ==> r is None && final(store)@ == old(store)@,
        cur_tasks(old(store)@).len() > 0 ==> (r matches Some(t) && t@ == cur_tasks(
            old(store)@,
        ).last().text) && final(store)@ == popped(old(store)@),
{
    let ghost m = store@;
    let ci = store.current_pos();
    if store.stacks[ci].tasks.len() == 0 {
        return None;
    }
    match store.stacks[ci].tasks.pop() {
        None => None,
        Some(t) => {
            let rs = reminders_without_task(&store.reminders, t.id);
            store.reminders = rs;
            proof {
                let ts = cur_tasks(m);
                lemma_removal_keeps_reminders(m, ci as int, ts.len() - 1);
                assert(ts.remove(ts.len() - 1) =~= ts.drop_last());
                assert(store@.stacks[ci as int].tasks =~= ts.drop_last());
                assert(store@.stacks =~= with_tasks(m, ci as int, ts.drop_last()).stacks);
                assert(store@ =~= popped(m));
                lemma_with_tasks_wf(
                    m,
                    ci as int,
                    ts.drop_last(),
                    m.next_task_id,
                    reminders_not_for(m.reminders, ts.last().id),
                );
            }
            Some(t.text)
        },
    }
}

/// Identifier of the task at position `task_index` of stack `stack_id`.
pub fn task_index_to_task_id(store: &Store, stack_id: i64, task_index: TaskIndex) -> (r: Result<
    i64,
    AppError,
>)
    requires
        store.wf(),
    ensures
        has_stack(store@, stack_id as int) && task_index < store@.stacks[stack_idx(
            store@,
            stack_id as int,
        )].tasks.len() ==> r == Ok::<i64, AppError>(
            store@.stacks[stack_idx(store@, stack_id as int)].tasks[task_index as int].id as i64,
        ),
        !(has_stack(store@, stack_id as int) && task_index < store@.stacks[stack_idx(
            store@,
            stack_id as int,
        )].tasks.len()) ==> (r matches Err(AppError::Task(TaskError::NoSuchTask(i))) && i
            == task_index),
{
    match store.find_stack(stack_id) {
        None => Err(AppError::Task(TaskError::NoSuchTask(task_index))),
        Some(si) => {
            if (task_index as usize) < store.stacks[si].tasks.len() {
                Ok(store.stacks[si].tasks[task_index as usize].id)
            } else {
                Err(AppError::Task(TaskError::NoSuchTask(task_index)))
            }
        },
    }
}

/// Delete the task at position `idx` of the current stack, with its
/// reminders, and return its text.
pub fn kill_task(store: &mut Store, idx: TaskIndex) -> (r: Result<String, AppError>)
    requires
        old(store).wf(),
    ensures
        final(store).wf(),
        idx < cur_tasks(old(store)@).len() ==> (r matches Ok(t) && t@ == cur_tasks(
            old(store)@,
        )[idx as int].text) && final(store)@ == killed(old(store)@, idx as int),
        idx >= cur_tasks(old(store)@).len() ==> (r matches Err(
            AppError::Task(TaskError::NoSuchTask(i)),
        ) && i == idx) && final(store)@ == old(store)@,
{
    let ghost m = store@;
    let ci = store.current_pos();
    let i = idx as usize;
    if i >= store.stacks[ci].tasks.len() {
        return Err(AppError::Task(TaskError::NoSuchTask(idx)));
    }
    let t = store.stacks[ci].tasks.remove(i);
    let rs = reminders_without_task(&store.reminders, t.id);
    store.reminders = rs;
    proof {
        let ts = cur_tasks(m);
        lemma_removal_keeps_reminders(m, ci as int, i as int);
        assert(store@.stacks[ci as int].tasks =~= ts.remove(i as int));
        assert(store@.stacks =~= with_tasks(m, ci as int, ts.remove(i as int)).stacks);
        assert(store@ =~= killed(m, i as int));
        assert(sorted_by_order(ts.remove(i as int))) by {
            let ts2 = ts.remove(i as int);
            assert forall|a: int, b: int| 0 <= a < b < ts2.len() implies #[trigger] ts2[a].order
                <= #[trigger] ts2[b].order by {
                let a0 = if a < i { a } else { a + 1 };
                let b0 = if b < i { b } else { b + 1 };
                assert(ts2[a] == ts[a0] && ts2[b] == ts[b0]);
            }
        }
        lemma_with_tasks_wf(
            m,
            ci as int,
            ts.remove(i as int),
            m.next_task_id,
            reminders_not_for(m.reminders, ts[i as int].id),
        );
    }
    Ok(t.text)
}

/// Exchange the keys of the tasks at positions `idx1` and `idx2` of the
/// current stack; their identifiers, and so their reminders, stay with them.
pub fn swap_tasks(store: &mut Store, idx1: TaskIndex, idx2: TaskIndex) -> (r: Result<(), AppError>)
    requires
        old(store).wf(),
    ensures
        final(store).wf(),
        ({
            let n = cur_tasks(old(store)@).len();
            &&& idx1 < n && idx2 < n ==> r is Ok && final(store)@ == with_tasks(
                old(store)@,
                cur_idx(old(store)@),
                swapped(cur_tasks(old(store)@), idx1 as int, idx2 as int),
            )
            &&& idx1 >= n && idx2 >= n ==> (r matches Err(
                AppError::Task(TaskError::NoSuchTasks(a, b)),
            ) && a == idx1 && b == idx2)
            &&& (idx1 >= n) != (idx2 >= n) ==> (r matches Err(
                AppError::Task(TaskError::NoSuchTask(a)),
            ) && a == if idx1 >= n {
                idx1
            } else {
                idx2
            })
            &&& r is Err ==> final(store)@ == old(store)@
        }),
{
    let ghost m = store@;
    let ci = store.current_pos();
    let n = store.stacks[ci].tasks.len();
    let bad1 = idx1 as usize >= n;
    let bad2 = idx2 as usize >= n;
    if bad1 && bad2 {
        return Err(AppError::Task(TaskError::NoSuchTasks(idx1, idx2)));
    } else if bad1 {
        return Err(AppError::Task(TaskError::NoSuchTask(idx1)));
    } else if bad2 {
        return Err(AppError::Task(TaskError::NoSuchTask(idx2)));
    }
    let i = idx1 as usize;
    let j = idx2 as usize;
    let id_i = store.stacks[ci].tasks[i].id;
    let id_j = store.stacks[ci].tasks[j].id;
    let text_i = store.stacks[ci].tasks[i].text.clone();
    let text_j = store.stacks[ci].tasks[j].text.clone();
    let order_i = store.stacks[ci].tasks[i].order;
    let order_j = store.stacks[ci].tasks[j].order;
    store.stacks[ci].tasks[i] = Task { id: id_j, text: text_j, order: order_i };
    store.stacks[ci].tasks[j] = Task { id: id_i, text: text_i, order: order_j };
    proof {
        let ts = cur_tasks(m);
        let ts2 = swapped(ts, i as int, j as int);
        assert(store@.stacks[ci as int].tasks =~= ts2);
        assert(store@.stacks =~= with_tasks(m, ci as int, ts2).stacks);
        assert(store@ =~= with_tasks(m, ci as int, ts2));
        let m1 = with_tasks(m, ci as int, ts2);
        assert forall|s: int, k: int|
            0 <= s < m.stacks.len() && 0 <= k < m.stacks[s].tasks.len() implies has_task(
            m1.stacks,
            #[trigger] m.stacks[s].tasks[k].id,
        ) by {
            if s == ci {
                if k == i {
                    assert(m1.stacks[s].tasks[j as int].id == ts[k].id);
                } else if k == j {
                    assert(m1.stacks[s].tasks[i as int].id == ts[k].id);
                } else {
                    assert(m1.stacks[s].tasks[k] == ts[k]);
                }
            } else {
                assert(m1.stacks[s] == m.stacks[s]);
            }
        }
        assert(sorted_by_order(ts2)) by {
            assert forall|a: int, b: int| 0 <= a < b < ts2.len() implies #[trigger] ts2[a].order
                <= #[trigger] ts2[b].order by {
                assert(ts2[a].order == ts[a].order && ts2[b].order == ts[b].order);
            }
        }
        lemma_with_tasks_wf_same_reminders(m, ci as int, ts2, m.next_task_id);
        assert(StoreM { next_task_id: m.next_task_id, ..m1 } == m1);
    }
    Ok(())
}

/// The texts of the current stack's tasks, bottom first.
pub fn list_tasks(store: &Store) -> (r: Vec<String>)
    requires
        store.wf(),
    ensures
        r@.map_values(|s: String| s@) == texts(cur_tasks(store@)),
{
    let ci = store.current_pos();
    let ts = &store.stacks[ci].tasks;
    let ghost tv = texts(cur_tasks(store@));
    assert(tasks_view(ts@) == cur_tasks(store@));
    let mut out: Vec<String> = Vec::new();
    let mut k: usize = 0;
    while k < ts.len()
        invariant
            0 <= k <= ts.len(),
            tv == texts(tasks_view(ts@)),
            out@.map_values(|s: String| s@) =~= tv.take(k as int),
        decreases ts.len() - k,
    {
        let c = ts[k].text.clone();
        let ghost before = out@;
        out.push(c);
        assert(tv[k as int] == ts@[k as int].text@);
        assert(out@.map_values(|s: String| s@) =~= before.map_values(|s: String| s@).push(c@));
        k = k + 1;
    }
    assert(tv.take(ts.len() as int) =~= tv);
    out
}

/// Delete every task of the current stack, with their reminders.
pub fn clear_tasks(store: &mut Store)
    requires
        old(store).wf(),
    ensures
        final(store).wf(),
        final(store)@ == cleared(old(store)@),
{
    let ghost m = store@;
    let ci = store.current_pos();
    let rs = reminders_without_tasks(&store.reminders, &store.stacks[ci].tasks);
    store.reminders = rs;
    store.stacks[ci].tasks = Vec::new();
    proof {
        let ts = cur_tasks(m);
        let rs = reminders_outside(m.reminders, ts);
        let empty = Seq::<TaskM>::empty();
        assert(store@.stacks[ci as int].tasks =~= empty);
        assert(store@.stacks =~= with_tasks(m, ci as int, empty).stacks);
        assert(store@ =~= cleared(m));
        lemma_filter_reminders(m.reminders, |r: ReminderM| !has_task_in(ts, r.task_id));
        let m2 = with_tasks(m, ci as int, empty);
        assert forall|q: int| 0 <= q < rs.len() implies has_task(m2.stacks, #[trigger] rs[q].task_id)
            by {
            assert(m.reminders.contains(rs[q]));
            let p = choose|p: int| 0 <= p < m.reminders.len() && m.reminders[p] == rs[q];
            assert(has_task(m.stacks, m.reminders[p].task_id));
            let (s, k) = choose|s: int, k: int|
                0 <= s < m.stacks.len() && 0 <= k < m.stacks[s].tasks.len()
                    && #[trigger] m.stacks[s].tasks[k].id == rs[q].task_id;
            if s == ci {
                assert(has_task_in(ts, rs[q].task_id));
            } else {
                assert(m2.stacks[s] == m.stacks[s]);
            }
        }
        lemma_with_tasks_wf(m, ci as int, empty, m.next_task_id, rs);
    }
}

/// Raise by one every key of the sorted `tasks` that is at least `key`, the
/// key just above the task at position `i`; return where a task with `key`
/// now goes.
fn shift_above(tasks: &mut Vec<Task>, i: usize, key: i64) -> (p: usize)
    requires
        i + 1 < old(tasks).len(),
        sorted_by_order(tasks_view(old(tasks)@)),
        old(tasks)@.last().order < i64::MAX,
        key == old(tasks)@[i as int].order + 1,
    ensures
        i < p <= old(tasks).len(),
        is_split(tasks_view(old(tasks)@), key as int, p as int),
        split_at_key(tasks_view(old(tasks)@), key as int) == p,
        tasks_view(final(tasks)@) == shift_from(tasks_view(old(tasks)@), key as int),
        final(tasks).len() == old(tasks).len(),
{
    let ghost ts = tasks_view(tasks@);
    let n = tasks.len();
    assert(ts[n - 1] == tasks@.last()@);
    let mut p: usize = i + 1;
    while p < n && tasks[p].order < key
        invariant
            i < p <= n,
            n == tasks.len(),
            tasks_view(tasks@) == ts,
            key == ts[i as int].order + 1,
            sorted_by_order(ts),
            forall|j: int| 0 <= j < p ==> #[trigger] ts[j].order < key,
        decreases n - p,
    {
        assert(ts[p as int].order == tasks@[p as int].order);
        p = p + 1;
    }
    assert forall|j: int| p <= j < n implies #[trigger] ts[j].order >= key by {
        assert(ts[p as int].order <= ts[j].order);
    }
    assert(is_split(ts, key as int, p as int));
    proof {
        lemma_split_unique(ts, key as int, p as int);
    }
    let ghost sh = shift_from(ts, key as int);
    assert(sh.take(p as int) + ts.skip(p as int) =~= ts);
    let mut j: usize = p;
    while j < n
        invariant
            p <= j <= n,
            n == tasks.len(),
            n == ts.len(),
            ts[n - 1].order < i64::MAX,
            sorted_by_order(ts),
            sh == shift_from(ts, key as int),
            tasks_view(tasks@) == sh.take(j as int) + ts.skip(j as int),
            is_split(ts, key as int, p as int),
        decreases n - j,
    {
        assert(ts[j as int].order <= ts[n - 1].order);
        assert(tasks_view(tasks@)[j as int] == ts[j as int]);
        assert(ts[j as int].order >= key);
        assert(sh[j as int] == TaskM { order: ts[j as int].order + 1, ..ts[j as int] });
        let o = tasks[j].order;
        let ghost before = tasks@;
        tasks[j].order = o + 1;
        assert(tasks@.len() == before.len());
        assert(tasks@[j as int].order == o + 1);
        assert(tasks@[j as int].id == before[j as int].id);
        assert(tasks@[j as int].text == before[j as int].text);
        assert(forall|k: int| 0 <= k < n && k != j ==> tasks@[k] == before[k]);
        assert(tasks_view(tasks@)[j as int] == sh[j as int]);
        let ghost goal = sh.take(j + 1) + ts.skip(j + 1);
        assert forall|k: int| 0 <= k < n implies #[trigger] tasks_view(tasks@)[k] == goal[k] by {
            if k < j {
                assert(tasks_view(before)[k] == sh[k]);
            } else if k > j {
                assert(tasks_view(before)[k] == ts[k]);
            }
        }
        assert(tasks_view(tasks@) =~= goal);
        j = j + 1;
    }
    assert(sh.take(n as int) + ts.skip(n as int) =~= sh);
    p
}

/// Inserting a fresh task with key `key` at its split position, after the
/// keys from `key` on moved up by one, keeps the store well formed.
proof fn lemma_insert_wf(m: StoreM, ci: int, ts: Seq<TaskM>, key: int, p: int, nt: TaskM)
    requires
        wf(m),
        0 <= ci < m.stacks.len(),
        ts == m.stacks[ci].tasks,
        is_split(ts, key, p),
        nt.id == m.next_task_id,
        nt.order == key,
        m.next_task_id < i64::MAX,
    ensures
        ({
            let ts2 = shift_from(ts, key).insert(p, nt);
            wf(StoreM { next_task_id: m.next_task_id + 1, ..with_tasks(m, ci, ts2) })
        }),
{
    let sh = shift_from(ts, key);
    let ts2 = sh.insert(p, nt);
    let m1 = with_tasks(m, ci, ts2);
    assert forall|s: int, k: int|
        0 <= s < m.stacks.len() && 0 <= k < m.stacks[s].tasks.len() implies has_task(
        m1.stacks,
        #[trigger] m.stacks[s].tasks[k].id,
    ) by {
        if s == ci {
            if k < p {
                assert(m1.stacks[s].tasks[k].id == ts[k].id);
            } else {
                assert(m1.stacks[s].tasks[k + 1].id == ts[k].id);
            }
        } else {
            assert(m1.stacks[s] == m.stacks[s]);
        }
    }
    assert(sorted_by_order(ts2)) by {
        assert forall|a: int, b: int| 0 <= a < b < ts2.len() implies #[trigger] ts2[a].order
            <= #[trigger] ts2[b].order by {
            if b < p {
                assert(ts2[a] == ts[a] && ts2[b] == ts[b]);
            } else if b == p {
                assert(ts2[a] == ts[a]);
            } else if a < p {
                assert(ts2[b].order == ts[b - 1].order + 1);
                assert(ts2[a] == ts[a]);
            } else if a == p {
                assert(ts2[b].order == ts[b - 1].order + 1);
            } else {
                assert(ts2[b].order == ts[b - 1].order + 1);
                assert(ts2[a].order == ts[a - 1].order + 1);
            }
        }
    }
    assert forall|k: int| 0 <= k < ts2.len() implies #[trigger] ts2[k].id < m.next_task_id
        + 1 by {
        if k < p {
            assert(ts2[k].id == ts[k].id);
        } else if k > p {
            assert(ts2[k].id == ts[k - 1].id);
        }
    }
    lemma_with_tasks_wf_same_reminders(m, ci, ts2, m.next_task_id + 1);
}

/// Insert `task` after the task at position `task_index` of the current stack.
/// Position 0 puts it at the bottom, as `pushback_task` does; the last
/// position puts it on top, as `push_task` does. Otherwise the new key is one
/// above that task's key, every task from the new key on moves one key up,
/// and the new task takes the freed key: it goes after every task whose key is
/// not larger than that task's (right after it where keys are distinct).
pub fn insert_after(store: &mut Store, task_index: TaskIndex, task: String) -> (r: Result<
    (),
    AppError,
>)
    requires
        old(store).wf(),
    ensures
        final(store).wf(),
        ({
            let m = old(store)@;
            let n = cur_tasks(m).len();
            let i = task_index as int;
            &&& i >= n ==> (r matches Err(AppError::Task(TaskError::NoSuchTask(e))) && e
                == task_index) && final(store)@ == m
            &&& i == 0 && n > 0 ==> if pushback_exhausted(m) {
                (r matches Err(AppError::Constraint)) && final(store)@ == m
            } else {
                r is Ok && final(store)@ == pushed_back(m, task@)
            }
            &&& 0 < i && i == n - 1 ==> if push_exhausted(m) {
                (r matches Err(AppError::Constraint)) && final(store)@ == m
            } else {
                r is Ok && final(store)@ == pushed(m, task@)
            }
            &&& 0 < i < n - 1 ==> if insert_exhausted(m) {
                (r matches Err(AppError::Constraint)) && final(store)@ == m
            } else {
                r is Ok && final(store)@ == inserted_after(m, i, task@)
            }
        }),
{
    let ghost m = store@;
    let ci = store.current_pos();
    let n = store.stacks[ci].tasks.len();
    let i = task_index as usize;
    if i >= n {
        return Err(AppError::Task(TaskError::NoSuchTask(task_index)));
    } else if i == 0 {
        return pushback_task(store, task);
    } else if i == n - 1 {
        return push_task(store, task);
    }
    if store.stacks[ci].tasks[n - 1].order == i64::MAX || store.next_task_id == i64::MAX {
        return Err(AppError::Constraint);
    }
    let ghost ts = cur_tasks(m);
    assert(sorted_by_order(ts));
    assert(ts[i as int].order <= ts[n - 1].order);
    let mut tasks: Vec<Task> = Vec::new();
    core::mem::swap(&mut store.stacks[ci].tasks, &mut tasks);
    assert(tasks_view(tasks@) == ts);
    let key = tasks[i].order + 1;
    let p = shift_above(&mut tasks, i, key);
    let ghost sh = shift_from(ts, key as int);
    let id = store.next_task_id;
    let ghost text = task@;
    tasks.insert(p, Task { id, text: task, order: key });
    store.stacks[ci].tasks = tasks;
    store.next_task_id = id + 1;
    proof {
        let nt = TaskM { id: id as int, text, order: key as int };
        let ts2 = sh.insert(p as int, nt);
        assert(store@.stacks[ci as int].tasks =~= ts2);
        assert(store@.stacks =~= with_tasks(m, ci as int, ts2).stacks);
        assert(store@ =~= inserted_after(m, i as int, text));
        lemma_insert_wf(m, ci as int, ts, key as int, p as int, nt);
    }
    Ok(())
}

/// Name of the current stack.
pub fn get_current_stack_name(store: &Store) -> (r: String)
    requires
        store.wf(),
    ensures
        r@ == store@.stacks[cur_idx(store@)].name,
{
    let ci = store.current_pos();
    store.stacks[ci].name.clone()
}

/// Identifier of the stack named `name`.
pub fn stack_name_to_id(store: &Store, name: &String) -> (r: Result<i64, AppError>)
    requires
        store.wf(),
    ensures
        has_stack_named(store@, name@) ==> r == Ok::<i64, AppError>(
            store@.stacks[stack_idx_named(store@, name@)].id as i64,
        ),
        !has_stack_named(store@, name@) ==> (r matches Err(
            AppError::Stack(StackError::NoSuchStack(e)),
        ) && e@ == name@),
{
    match store.find_stack_named(name) {
        Some(i) => Ok(store.stacks[i].id),
        None => Err(AppError::Stack(StackError::NoSuchStack(name.clone()))),
    }
}

/// Create an empty stack named `stack_name` with a fresh identifier.
pub fn new_stack(store: &mut Store, stack_name: String) -> (r: Result<(), AppError>)
    requires
        old(store).wf(),
    ensures
        final(store).wf(),
        ({
            let m = old(store)@;
            &&& has_stack_named(m, stack_name@) ==> (r matches Err(
                AppError::Stack(StackError::StackAlreadyExists(e)),
            ) && e@ == stack_name@) && final(store)@ == m
            &&& !has_stack_named(m, stack_name@) && m.next_stack_id == i64::MAX ==> (r matches Err(
                AppError::Constraint,
            )) && final(store)@ == m
            &&& !has_stack_named(m, stack_name@) && m.next_stack_id < i64::MAX ==> r is Ok
                && final(store)@ == stack_added(m, stack_name@)
        }),
{
    let ghost m = store@;
    if store.find_stack_named(&stack_name).is_some() {
        return Err(AppError::Stack(StackError::StackAlreadyExists(stack_name)));
    }
    if store.next_stack_id == i64::MAX {
        return Err(AppError::Constraint);
    }
    let id = store.next_stack_id;
    let ghost name = stack_name@;
    store.stacks.push(Stack { id, name: stack_name, tasks: Vec::new() });
    store.next_stack_id = id + 1;
    proof {
        let m2 = stack_added(m, name);
        assert(store@.stacks[m.stacks.len() as int].tasks =~= Seq::<TaskM>::empty());
        assert(store@.stacks =~= m2.stacks);
        assert(store@ =~= m2);
        let n = m.stacks.len() as int;
        assert forall|i: int, j: int|
            0 <= i < m2.stacks.len() && 0 <= j < m2.stacks.len() && i != j implies #[trigger] m2.stacks[i].name
            != #[trigger] m2.stacks[j].name by {
            if i == n {
                assert(m.stacks[j].name == m2.stacks[j].name);
            } else if j == n {
                assert(m.stacks[i].name == m2.stacks[i].name);
            } else {
                assert(m.stacks[i] == m2.stacks[i] && m.stacks[j] == m2.stacks[j]);
            }
        }
        assert forall|i: int, j: int|
            0 <= i < m2.stacks.len() && 0 <= j < m2.stacks.len() && i != j implies #[trigger] m2.stacks[i].id
            != #[trigger] m2.stacks[j].id by {
            if i == n {
                assert(m.stacks[j].id < m.next_stack_id);
            } else if j == n {
                assert(m.stacks[i].id < m.next_stack_id);
            } else {
                assert(m.stacks[i] == m2.stacks[i] && m.stacks[j] == m2.stacks[j]);
            }
        }
        let d = stack_idx(m, 1);
        assert(m2.stacks[d].id == 1);
        let c = stack_idx(m, m.current);
        assert(m2.stacks[c].id == m.current);
        assert forall|i: int| 0 <= i < m2.stacks.len() implies #[trigger] m2.stacks[i].id
            < m2.next_stack_id by {
            if i < n {
                assert(m2.stacks[i] == m.stacks[i]);
            }
        }
        assert forall|i: int| 0 <= i < m2.stacks.len() implies sorted_by_order(
            #[trigger] m2.stacks[i].tasks,
        ) by {
            if i < n {
                assert(m2.stacks[i] == m.stacks[i]);
            }
        }
        assert forall|s: int, k: int|
            0 <= s < m2.stacks.len() && 0 <= k < m2.stacks[s].tasks.len() implies #[trigger] m2.stacks[s].tasks[k].id
            < m2.next_task_id by {
            assert(s < n);
            assert(m2.stacks[s] == m.stacks[s]);
        }
        assert forall|s: int, k: int|
            0 <= s < m.stacks.len() && 0 <= k < m.stacks[s].tasks.len() implies has_task(
            m2.stacks,
            #[trigger] m.stacks[s].tasks[k].id,
        ) by {
            assert(m2.stacks[s] == m.stacks[s]);
        }
        lemma_tasks_kept(m, m2);
    }
    Ok(())
}

/// Make the stack named `stack_name` the current one.
pub fn switch_to_stack(store: &mut Store, stack_name: String) -> (r: Result<(), AppError>)
    requires
        old(store).wf(),
    ensures
        final(store).wf(),
        ({
            let m = old(store)@;
            &&& has_stack_named(m, stack_name@) ==> r is Ok && final(store)@ == (StoreM {
                current: m.stacks[stack_idx_named(m, stack_name@)].id,
                ..m
            })
            &&& !has_stack_named(m, stack_name@) ==> (r matches Err(
                AppError::Stack(StackError::NoSuchStack(e)),
            ) && e@ == stack_name@) && final(store)@ == m
        }),
{
    let id = stack_name_to_id(store, &stack_name)?;
    store.current = id;
    proof {
        let m = old(store)@;
        let si = stack_idx_named(m, stack_name@);
        assert(store@.stacks[si].id == id);
    }
    Ok(())
}

/// Names of all stacks.
pub fn list_stacks(store: &Store) -> (r: Vec<String>)
    requires
        store.wf(),
    ensures
        r@.map_values(|s: String| s@) == stack_names(store@),
{
    let ghost names = stack_names(store@);
    let mut out: Vec<String> = Vec::new();
    let mut k: usize = 0;
    while k < store.stacks.len()
        invariant
            0 <= k <= store.stacks.len(),
            names == stack_names(store@),
            out@.map_values(|s: String| s@) =~= names.take(k as int),
        decreases store.stacks.len() - k,
    {
        let c = store.stacks[k].name.clone();
        let ghost before = out@;
        out.push(c);
        assert(names[k as int] == store.stacks@[k as int].name@);
        assert(out@.map_values(|s: String| s@) =~= before.map_values(|s: String| s@).push(c@));
        k = k + 1;
    }
    assert(names.take(store.stacks.len() as int) =~= names);
    out
}

/// Delete the stack named `stack_name` with all its tasks and their
/// reminders. The default stack and the current stack cannot be deleted.
pub fn drop_stack(store: &mut Store, stack_name: String) -> (r: Result<(), AppError>)
    requires
        old(store).wf(),
    ensures
        final(store).wf(),
        ({
            let m = old(store)@;
            let si = stack_idx_named(m, stack_name@);
            let id = m.stacks[si].id;
            &&& !has_stack_named(m, stack_name@) ==> (r matches Err(
                AppError::Stack(StackError::NoSuchStack(e)),
            ) && e@ == stack_name@)
            &&& has_stack_named(m, stack_name@) && id == DEFAULT_STACK_ID ==> (r matches Err(
                AppError::Stack(StackError::CantDeleteDefaultStack),
            ))
            &&& has_stack_named(m, stack_name@) && id != DEFAULT_STACK_ID && id == m.current ==> (r matches Err(
                AppError::Stack(StackError::CantDeleteCurrentStack),
            ))
            &&& has_stack_named(m, stack_name@) && id != DEFAULT_STACK_ID && id != m.current ==> r is Ok
                && final(store)@ == stack_dropped(m, si)
            &&& r is Err ==> final(store)@ == m
        }),
{
    let ghost m = store@;
    let si = match store.find_stack_named(&stack_name) {
        Some(i) => i,
        None => {
            return Err(AppError::Stack(StackError::NoSuchStack(stack_name)));
        },
    };
    let id = store.stacks[si].id;
    if id == DEFAULT_STACK_ID {
        return Err(AppError::Stack(StackError::CantDeleteDefaultStack));
    } else if id == store.current {
        return Err(AppError::Stack(StackError::CantDeleteCurrentStack));
    }
    let rs = reminders_without_tasks(&store.reminders, &store.stacks[si].tasks);
    store.reminders = rs;
    let _gone = store.stacks.remove(si);
    proof {
        let si = si as int;
        let m2 = stack_dropped(m, si);
        assert(store@.stacks =~= m2.stacks);
        assert(store@ =~= m2);
        let ts = m.stacks[si].tasks;
        let rs = m2.reminders;
        lemma_filter_reminders(m.reminders, |r: ReminderM| !has_task_in(ts, r.task_id));
        assert forall|i: int, j: int|
            0 <= i < m2.stacks.len() && 0 <= j < m2.stacks.len() && i != j implies #[trigger] m2.stacks[i].name
            != #[trigger] m2.stacks[j].name by {
            let i0 = if i < si { i } else { i + 1 };
            let j0 = if j < si { j } else { j + 1 };
            assert(m2.stacks[i] == m.stacks[i0] && m2.stacks[j] == m.stacks[j0]);
        }
        assert forall|i: int, j: int|
            0 <= i < m2.stacks.len() && 0 <= j < m2.stacks.len() && i != j implies #[trigger] m2.stacks[i].id
            != #[trigger] m2.stacks[j].id by {
            let i0 = if i < si { i } else { i + 1 };
            let j0 = if j < si { j } else { j + 1 };
            assert(m2.stacks[i] == m.stacks[i0] && m2.stacks[j] == m.stacks[j0]);
        }
        let d = stack_idx(m, 1);
        assert(d != si);
        let d2 = if d < si { d } else { d - 1 };
        assert(m2.stacks[d2].id == 1);
        let c = stack_idx(m, m.current);
        assert(c != si);
        let c2 = if c < si { c } else { c - 1 };
        assert(m2.stacks[c2].id == m.current);
        assert forall|i: int| 0 <= i < m2.stacks.len() implies #[trigger] m2.stacks[i].id
            < m2.next_stack_id by {
            let i0 = if i < si { i } else { i + 1 };
            assert(m2.stacks[i] == m.stacks[i0]);
        }
        assert forall|i: int| 0 <= i < m2.stacks.len() implies sorted_by_order(
            #[trigger] m2.stacks[i].tasks,
        ) by {
            let i0 = if i < si { i } else { i + 1 };
            assert(m2.stacks[i] == m.stacks[i0]);
        }
        assert forall|s: int, k: int|
            0 <= s < m2.stacks.len() && 0 <= k < m2.stacks[s].tasks.len() implies #[trigger] m2.stacks[s].tasks[k].id
            < m2.next_task_id by {
            let s0 = if s < si { s } else { s + 1 };
            assert(m2.stacks[s] == m.stacks[s0]);
        }
        assert forall|q: int| 0 <= q < rs.len() implies has_task(m2.stacks, #[trigger] rs[q].task_id)
            by {
            assert(m.reminders.contains(rs[q]));
            let p = choose|p: int| 0 <= p < m.reminders.len() && m.reminders[p] == rs[q];
            assert(has_task(m.stacks, m.reminders[p].task_id));
            let (s, k) = choose|s: int, k: int|
                0 <= s < m.stacks.len() && 0 <= k < m.stacks[s].tasks.len()
                    && #[trigger] m.stacks[s].tasks[k].id == rs[q].task_id;
            if s == si {
                assert(has_task_in(ts, rs[q].task_id));
            } else if s < si {
                assert(m2.stacks[s] == m.stacks[s]);
            } else {
                assert(m2.stacks[s - 1] == m.stacks[s]);
            }
        }
        assert forall|q: int| 0 <= q < rs.len() implies #[trigger] rs[q].delay > 0 by {
            assert(m.reminders.contains(rs[q]));
        }
    }
    Ok(())
}

/// Delete every task of every stack, and so every reminder.
pub fn clear_all_tasks(store: &mut Store)
    requires
        old(store).wf(),
    ensures
        final(store).wf(),
        final(store)@ == cleared_all(old(store)@),
{
    let ghost m = store@;
    let ghost target = cleared_all(m);
    assert(target.stacks.len() == m.stacks.len());
    assert(target.stacks.take(0) + m.stacks.skip(0) =~= m.stacks);
    assert(m == (StoreM { stacks: target.stacks.take(0) + m.stacks.skip(0), ..m }));
    let mut k: usize = 0;
    while k < store.stacks.len()
        invariant
            0 <= k <= store.stacks.len(),
            store.stacks.len() == m.stacks.len(),
            target == cleared_all(m),
            target.stacks.len() == m.stacks.len(),
            store@ == (StoreM {
                stacks: target.stacks.take(k as int) + m.stacks.skip(k as int),
                ..m
            }),
        decreases store.stacks.len() - k,
    {
        let ghost before = store@;
        store.stacks[k].tasks = Vec::new();
        proof {
            assert(store@.stacks[k as int].tasks =~= Seq::<TaskM>::empty());
            let goal = target.stacks.take(k + 1) + m.stacks.skip(k + 1);
            let prev = target.stacks.take(k as int) + m.stacks.skip(k as int);
            assert(before.stacks == prev);
            assert(goal.len() == m.stacks.len());
            assert forall|i: int| 0 <= i < m.stacks.len() implies #[trigger] store@.stacks[i]
                == goal[i] by {
                if i < k {
                    assert(store@.stacks[i] == before.stacks[i]);
                    assert(prev[i] == target.stacks[i]);
                    assert(goal[i] == target.stacks[i]);
                } else if i > k {
                    assert(store@.stacks[i] == before.stacks[i]);
                    assert(prev[i] == m.stacks[i]);
                    assert(goal[i] == m.stacks[i]);
                } else {
                    assert(goal[i] == target.stacks[i]);
                    assert(prev[i] == m.stacks[i]);
                    assert(store@.stacks[i] =~= target.stacks[i]);
                }
            }
            assert(store@.stacks =~= goal);
        }
        k = k + 1;
    }
    store.reminders = Vec::new();
    proof {
        assert(target.stacks.take(m.stacks.len() as int) + m.stacks.skip(m.stacks.len() as int)
            =~= target.stacks);
        assert(store@.reminders =~= Seq::<ReminderM>::empty());
        assert(store@ =~= target);
        let m2 = target;
        let d = stack_idx(m, 1);
        assert(m2.stacks[d].id == 1);
        let c = stack_idx(m, m.current);
        assert(m2.stacks[c].id == m.current);
        assert forall|i: int, j: int|
            0 <= i < m2.stacks.len() && 0 <= j < m2.stacks.len() && i != j implies #[trigger] m2.stacks[i].name
            != #[trigger] m2.stacks[j].name by {
            assert(m2.stacks[i].name == m.stacks[i].name && m2.stacks[j].name == m.stacks[j].name);
        }
        assert forall|i: int, j: int|
            0 <= i < m2.stacks.len() && 0 <= j < m2.stacks.len() && i != j implies #[trigger] m2.stacks[i].id
            != #[trigger] m2.stacks[j].id by {
            assert(m2.stacks[i].id == m.stacks[i].id && m2.stacks[j].id == m.stacks[j].id);
        }
        assert forall|i: int| 0 <= i < m2.stacks.len() implies #[trigger] m2.stacks[i].id
            < m2.next_stack_id by {
            assert(m2.stacks[i].id == m.stacks[i].id);
        }
    }
}

/// Where a task with key `key` goes in the sorted `tasks`, above every task
/// whose key is not larger.
fn split_after(tasks: &Vec<Task>, key: i64) -> (p: usize)
    requires
        sorted_by_order(tasks_view(tasks@)),
    ensures
        p <= tasks.len(),
        is_split(tasks_view(tasks@), key + 1, p as int),
        split_at_key(tasks_view(tasks@), key + 1) == p,
{
    let ghost ts = tasks_view(tasks@);
    let n = tasks.len();
    let mut p: usize = 0;
    while p < n && tasks[p].order <= key
        invariant
            p <= n,
            n == tasks.len(),
            ts == tasks_view(tasks@),
            sorted_by_order(ts),
            forall|j: int| 0 <= j < p ==> #[trigger] ts[j].order < key + 1,
        decreases n - p,
    {
        assert(ts[p as int].order == tasks@[p as int].order);
        p = p + 1;
    }
    if p < n {
        assert(ts[p as int].order == tasks@[p as int].order);
    }
    assert forall|j: int| p <= j < n implies #[trigger] ts[j].order >= key + 1 by {
        assert(ts[p as int].order <= ts[j].order);
    }
    proof {
        lemma_split_unique(ts, key + 1, p as int);
    }
    p
}

/// Move the top task of the current stack onto the stack named
/// `destination_stack`. The task keeps its identifier and its key, and goes
/// above every task there whose key is not larger. Nothing moves when the
/// current stack is empty.
pub fn pop_to(store: &mut Store, destination_stack: String) -> (r: Result<(), AppError>)
    requires
        old(store).wf(),
    ensures
        final(store).wf(),
        ({
            let m = old(store)@;
            &&& has_stack_named(m, destination_stack@) ==> r is Ok && final(store)@ == moved_top(
                m,
                stack_idx_named(m, destination_stack@),
            )
            &&& !has_stack_named(m, destination_stack@) ==> (r matches Err(
                AppError::Stack(StackError::NoSuchStack(e)),
            ) && e@ == destination_stack@) && final(store)@ == m
        }),
{
    let ghost m = store@;
    let di = match store.find_stack_named(&destination_stack) {
        Some(i) => i,
        None => {
            return Err(AppError::Stack(StackError::NoSuchStack(destination_stack)));
        },
    };
    let ci = store.current_pos();
    let n = store.stacks[ci].tasks.len();
    if n == 0 || di == ci {
        return Ok(());
    }
    let ghost ts = cur_tasks(m);
    let ghost dts = m.stacks[di as int].tasks;
    assert(sorted_by_order(dts));
    let top = match store.stacks[ci].tasks.pop() {
        Some(t) => t,
        None => {
            return Ok(());
        },
    };
    let ghost topv = top@;
    assert(topv == ts.last());
    let p = split_after(&store.stacks[di].tasks, top.order);
    store.stacks[di].tasks.insert(p, top);
    proof {
        let ci = ci as int;
        let di = di as int;
        let p = p as int;
        let dts2 = dts.insert(p, topv);
        let m1 = with_tasks(m, di, dts2);
        let m2 = with_tasks(m1, ci, ts.drop_last());
        assert(store@.stacks[ci].tasks =~= ts.drop_last());
        assert(store@.stacks[di].tasks =~= dts2);
        assert(store@.stacks =~= m2.stacks);
        assert(store@ =~= m2);
        assert(m2.stacks =~= moved_top(m, di).stacks);
        assert(m2 =~= moved_top(m, di));
        assert(sorted_by_order(dts2)) by {
            assert forall|a: int, b: int| 0 <= a < b < dts2.len() implies #[trigger] dts2[a].order
                <= #[trigger] dts2[b].order by {
                if b < p {
                    assert(dts2[a] == dts[a] && dts2[b] == dts[b]);
                } else if b == p {
                    assert(dts2[a] == dts[a]);
                } else if a < p {
                    assert(dts2[a] == dts[a] && dts2[b] == dts[b - 1]);
                } else if a == p {
                    assert(dts2[b] == dts[b - 1]);
                } else {
                    assert(dts2[a] == dts[a - 1] && dts2[b] == dts[b - 1]);
                }
            }
        }
        assert(topv.id < m.next_task_id);
        assert forall|k: int| 0 <= k < dts2.len() implies #[trigger] dts2[k].id < m.next_task_id by {
            if k < p {
                assert(dts2[k] == dts[k]);
            } else if k > p {
                assert(dts2[k] == dts[k - 1]);
            }
        }
        assert forall|s: int, k: int|
            0 <= s < m.stacks.len() && 0 <= k < m.stacks[s].tasks.len() implies has_task(
            m1.stacks,
            #[trigger] m.stacks[s].tasks[k].id,
        ) by {
            if s == di {
                if k < p {
                    assert(m1.stacks[s].tasks[k] == dts[k]);
                } else {
                    assert(m1.stacks[s].tasks[k + 1] == dts[k]);
                }
            } else {
                assert(m1.stacks[s] == m.stacks[s]);
            }
        }
        let ma = with_tasks(m, ci, ts.drop_last());
        let n = ts.len();
        lemma_own_ids_distinct(m, ci);
        lemma_own_ids_distinct(m, di);
        let t2 = ts.drop_last();
        assert forall|k: int| 0 <= k < t2.len() implies has_task_in(
            m.stacks[ci].tasks,
            #[trigger] t2[k].id,
        ) || !has_task(m.stacks, t2[k].id) by {
            assert(m.stacks[ci].tasks[k] == t2[k]);
        }
        lemma_unique_update(m.stacks, ci, t2);
        assert(ma.stacks == m.stacks.update(ci, StackM { tasks: t2, ..m.stacks[ci] }));
        assert(ma.stacks[di] == m.stacks[di]);
        assert(!has_task(ma.stacks, topv.id)) by {
            if has_task(ma.stacks, topv.id) {
                let (s, j) = choose|s: int, j: int|
                    0 <= s < ma.stacks.len() && 0 <= j < ma.stacks[s].tasks.len()
                        && #[trigger] ma.stacks[s].tasks[j].id == topv.id;
                if s == ci {
                    assert(ma.stacks[s].tasks[j] == ts[j]);
                    assert(m.stacks[ci].tasks[j].id != m.stacks[ci].tasks[n - 1].id);
                } else {
                    assert(ma.stacks[s] == m.stacks[s]);
                    assert(m.stacks[s].tasks[j].id != m.stacks[ci].tasks[n - 1].id);
                }
            }
        }
        assert forall|a: int, b: int|
            0 <= a < dts2.len() && 0 <= b < dts2.len() && a != b implies #[trigger] dts2[a].id
            != #[trigger] dts2[b].id by {
            if a != p && b != p {
                let a0 = if a < p { a } else { a - 1 };
                let b0 = if b < p { b } else { b - 1 };
                assert(dts2[a] == dts[a0] && dts2[b] == dts[b0]);
            } else {
                let o = if a == p { b } else { a };
                let o0 = if o < p { o } else { o - 1 };
                assert(dts2[o] == dts[o0]);
                assert(m.stacks[di].tasks[o0].id != m.stacks[ci].tasks[n - 1].id);
            }
        }
        assert forall|k: int| 0 <= k < dts2.len() implies has_task_in(
            ma.stacks[di].tasks,
            #[trigger] dts2[k].id,
        ) || !has_task(ma.stacks, dts2[k].id) by {
            if k < p {
                assert(ma.stacks[di].tasks[k] == dts2[k]);
            } else if k > p {
                assert(ma.stacks[di].tasks[k - 1] == dts2[k]);
            }
        }
        lemma_unique_update(ma.stacks, di, dts2);
        assert(m2.stacks =~= ma.stacks.update(di, StackM { tasks: dts2, ..ma.stacks[di] }));
        assert forall|s: int, k: int|
            0 <= s < m.stacks.len() && 0 <= k < m.stacks[s].tasks.len() implies has_task(
            m2.stacks,
            #[trigger] m.stacks[s].tasks[k].id,
        ) by {
            if s == ci {
                if k == n - 1 {
                    assert(m2.stacks[di].tasks[p] == topv);
                } else {
                    assert(m2.stacks[s].tasks[k] == ts[k]);
                }
            } else if s == di {
                if k < p {
                    assert(m2.stacks[s].tasks[k] == dts[k]);
                } else {
                    assert(m2.stacks[s].tasks[k + 1] == dts[k]);
                }
            } else {
                assert(m2.stacks[s] == m.stacks[s]);
            }
        }
        assert(sorted_by_order(ts.drop_last())) by {
            assert forall|a: int, b: int| 0 <= a < b < t2.len() implies #[trigger] t2[a].order
                <= #[trigger] t2[b].order by {
                assert(t2[a] == ts[a] && t2[b] == ts[b]);
            }
        }
        lemma_restacked_wf(m, m2);
    }
    Ok(())
}

} // verus!
