//! Laws of the store that relate its operations to one another.
use vstd::prelude::*;
use crate::model::{
    DEFAULT_STACK_ID, StoreM, TaskM, cur_idx, cur_tasks, has_reminder, has_stack, has_stack_named,
    insert_exhausted, inserted_after, is_split, keys_distinct, killed, popped, push_exhausted,
    pushback_exhausted, pushed, pushed_back, reminder_added, reminder_ids_distinct, reminders_not_for,
    reminders_outside, shift_from, sorted_by_order, split_at_key, stack_dropped, stack_idx,
    stack_names, swapped, top_key, wf, with_tasks, lemma_filter_reminders, ReminderM, has_task_in,
};
use crate::commands::{lemma_inserted_after_wf, lemma_pushed_back_wf, lemma_pushed_wf};
use crate::reminders::{lemma_reminder_added_wf, lemma_reminder_idx_of};

verus! {

/// Replacing the tasks of a stack leaves the current stack where it was.
proof fn lemma_cur_idx_with_tasks(m: StoreM, si: int, ts: Seq<TaskM>)
    requires
        wf(m),
        0 <= si < m.stacks.len(),
    ensures
        cur_idx(with_tasks(m, si, ts)) == cur_idx(m),
{
    let m2 = with_tasks(m, si, ts);
    let c = cur_idx(m);
    assert(m2.stacks[c].id == m.current);
    let c2 = cur_idx(m2);
    assert(0 <= c2 < m2.stacks.len() && m2.stacks[c2].id == m.current);
    assert(m.stacks[c2].id == m2.stacks[c2].id);
}

proof fn lemma_sorted_distinct_increasing(ts: Seq<TaskM>)
    requires
        sorted_by_order(ts),
        keys_distinct(ts),
    ensures
        forall|i: int, j: int| 0 <= i < j < ts.len() ==> #[trigger] ts[i].order < #[trigger] ts[j].order,
{
}

/// Pushing, putting at the bottom, and inserting in the middle of the current
/// stack keep the order keys of that stack pairwise distinct.
pub proof fn lemma_sequencer_keeps_keys_distinct(m: StoreM, text: Seq<char>, i: int)
    requires
        wf(m),
        keys_distinct(cur_tasks(m)),
    ensures
        !push_exhausted(m) ==> keys_distinct(cur_tasks(pushed(m, text))),
        !pushback_exhausted(m) ==> keys_distinct(cur_tasks(pushed_back(m, text))),
        0 < i < cur_tasks(m).len() - 1 && !insert_exhausted(m) ==> keys_distinct(
            cur_tasks(inserted_after(m, i, text)),
        ),
{
    let ci = cur_idx(m);
    let ts = cur_tasks(m);
    let n = ts.len();
    assert(sorted_by_order(ts));
    lemma_sorted_distinct_increasing(ts);
    if !push_exhausted(m) {
        let ts2 = ts.push(TaskM { id: m.next_task_id, text, order: top_key(ts) });
        lemma_cur_idx_with_tasks(m, ci, ts2);
        assert(cur_tasks(pushed(m, text)) == ts2);
        assert forall|a: int, b: int|
            0 <= a < ts2.len() && 0 <= b < ts2.len() && a != b implies #[trigger] ts2[a].order
            != #[trigger] ts2[b].order by {
            if a < n && b < n {
                assert(ts2[a] == ts[a] && ts2[b] == ts[b]);
            } else if a < n {
                assert(ts[a].order <= ts[n - 1].order);
            } else if b < n {
                assert(ts[b].order <= ts[n - 1].order);
            }
        }
    }
    if !pushback_exhausted(m) {
        let key = if n == 0 {
            1
        } else {
            ts[0].order - 1
        };
        let ts2 = ts.insert(0, TaskM { id: m.next_task_id, text, order: key });
        lemma_cur_idx_with_tasks(m, ci, ts2);
        assert(cur_tasks(pushed_back(m, text)) == ts2);
        assert forall|a: int, b: int|
            0 <= a < ts2.len() && 0 <= b < ts2.len() && a != b implies #[trigger] ts2[a].order
            != #[trigger] ts2[b].order by {
            if a > 0 && b > 0 {
                assert(ts2[a] == ts[a - 1] && ts2[b] == ts[b - 1]);
            } else if a > 0 {
                assert(ts2[a] == ts[a - 1]);
                assert(ts[0].order <= ts[a - 1].order);
            } else if b > 0 {
                assert(ts2[b] == ts[b - 1]);
                assert(ts[0].order <= ts[b - 1].order);
            }
        }
    }
    if 0 < i < n - 1 && !insert_exhausted(m) {
        let k = ts[i].order + 1;
        let p = split_at_key(ts, k);
        assert(is_split(ts, k, i + 1)) by {
            assert forall|j: int| 0 <= j < i + 1 implies #[trigger] ts[j].order < k by {
                if j < i {
                    assert(ts[j].order < ts[i].order);
                }
            }
            assert forall|j: int| i + 1 <= j < n implies #[trigger] ts[j].order >= k by {
                assert(ts[i].order < ts[j].order);
            }
        }
        assert(is_split(ts, k, p));
        if p < i + 1 {
            assert(ts[p].order >= k);
        } else if p > i + 1 {
            assert(ts[i + 1].order >= k);
        }
        let sh = shift_from(ts, k);
        let ts2 = sh.insert(p, TaskM { id: m.next_task_id, text, order: k });
        lemma_cur_idx_with_tasks(m, ci, ts2);
        assert(cur_tasks(inserted_after(m, i, text)) == ts2);
        assert forall|a: int, b: int|
            0 <= a < ts2.len() && 0 <= b < ts2.len() && a != b implies #[trigger] ts2[a].order
            != #[trigger] ts2[b].order by {
            if a != p && b != p {
                let a0 = if a < p { a } else { a - 1 };
                let b0 = if b < p { b } else { b - 1 };
                assert(ts2[a] == sh[a0] && ts2[b] == sh[b0]);
                assert(ts[a0].order != ts[b0].order);
            } else if a == p {
                let b0 = if b < p { b } else { b - 1 };
                assert(ts2[b] == sh[b0]);
            } else {
                let a0 = if a < p { a } else { a - 1 };
                assert(ts2[a] == sh[a0]);
            }
        }
    }
}

/// One step of the task sequencer on the current stack.
pub enum SequencerStep {
    Push(Seq<char>),
    PushBack(Seq<char>),
    InsertAfter(int, Seq<char>),
}

/// The store after one sequencer step, as `push_task`, `pushback_task` and
/// `insert_after` leave it (a step that fails leaves the store as it was).
pub open spec fn after_step(m: StoreM, step: SequencerStep) -> StoreM {
    let n = cur_tasks(m).len();
    match step {
        SequencerStep::Push(t) => if push_exhausted(m) {
            m
        } else {
            pushed(m, t)
        },
        SequencerStep::PushBack(t) => if pushback_exhausted(m) {
            m
        } else {
            pushed_back(m, t)
        },
        SequencerStep::InsertAfter(i, t) => if i < 0 || i >= n {
            m
        } else if i == 0 {
            if pushback_exhausted(m) {
                m
            } else {
                pushed_back(m, t)
            }
        } else if i == n - 1 {
            if push_exhausted(m) {
                m
            } else {
                pushed(m, t)
            }
        } else if insert_exhausted(m) {
            m
        } else {
            inserted_after(m, i, t)
        },
    }
}

/// The store after a sequence of sequencer steps, first step first.
pub open spec fn after_steps(m: StoreM, steps: Seq<SequencerStep>) -> StoreM
    decreases steps.len(),
{
    if steps.len() == 0 {
        m
    } else {
        after_step(after_steps(m, steps.drop_last()), steps.last())
    }
}

/// Any sequence of pushes, bottom pushes and insertions keeps the order keys
/// of the current stack pairwise distinct (and the store well formed).
pub proof fn lemma_steps_keep_keys_distinct(m: StoreM, steps: Seq<SequencerStep>)
    requires
        wf(m),
        keys_distinct(cur_tasks(m)),
    ensures
        wf(after_steps(m, steps)),
        keys_distinct(cur_tasks(after_steps(m, steps))),
    decreases steps.len(),
{
    if steps.len() > 0 {
        lemma_steps_keep_keys_distinct(m, steps.drop_last());
        let m1 = after_steps(m, steps.drop_last());
        let n = cur_tasks(m1).len();
        match steps.last() {
            SequencerStep::Push(t) => {
                lemma_sequencer_keeps_keys_distinct(m1, t, 0);
                if !push_exhausted(m1) {
                    lemma_pushed_wf(m1, t);
                }
            },
            SequencerStep::PushBack(t) => {
                lemma_sequencer_keeps_keys_distinct(m1, t, 0);
                if !pushback_exhausted(m1) {
                    lemma_pushed_back_wf(m1, t);
                }
            },
            SequencerStep::InsertAfter(i, t) => {
                lemma_sequencer_keeps_keys_distinct(m1, t, i);
                if 0 <= i < n {
                    if i == 0 {
                        if !pushback_exhausted(m1) {
                            lemma_pushed_back_wf(m1, t);
                        }
                    } else if i == n - 1 {
                        if !push_exhausted(m1) {
                            lemma_pushed_wf(m1, t);
                        }
                    } else if !insert_exhausted(m1) {
                        lemma_inserted_after_wf(m1, i, t);
                    }
                }
            },
        }
    }
}

/// Inserting after the first task is putting at the bottom, and inserting
/// after the last task of a stack of two or more is pushing.
pub proof fn lemma_insert_after_ends(m: StoreM, t: Seq<char>)
    ensures
        cur_tasks(m).len() >= 1 ==> after_step(m, SequencerStep::InsertAfter(0, t)) == after_step(
            m,
            SequencerStep::PushBack(t),
        ),
        cur_tasks(m).len() >= 2 ==> after_step(
            m,
            SequencerStep::InsertAfter(cur_tasks(m).len() - 1, t),
        ) == after_step(m, SequencerStep::Push(t)),
{
}

/// A reminder recorded for the task at position `i` is the one new pending
/// reminder, it points at that task, nothing else changes; once that task is
/// deleted the reminder is gone.
pub proof fn lemma_reminder_follows_its_task(m: StoreM, i: int, delay: nat, rid: Seq<char>)
    requires
        wf(m),
        0 <= i < cur_tasks(m).len(),
        delay > 0,
        !has_reminder(m, rid),
    ensures
        ({
            let m1 = reminder_added(m, i, delay, rid);
            &&& wf(m1)
            &&& m1.reminders == m.reminders.push(
                ReminderM { id: rid, delay, task_id: cur_tasks(m)[i].id },
            )
            &&& m1.stacks == m.stacks && m1.current == m.current
            &&& has_reminder(m1, rid)
            &&& !has_reminder(killed(m1, i), rid)
        }),
{
    let m1 = reminder_added(m, i, delay, rid);
    lemma_reminder_added_wf(m, i, delay, rid);
    let q = m.reminders.len() as int;
    assert(m1.reminders[q].id == rid);
    lemma_reminder_idx_of(m1, q);
    lemma_kill_cascades_to_reminders(m1, i, rid);
}

/// Exchanging the same two positions twice gives back the order as it was.
pub proof fn lemma_swap_involutive(ts: Seq<TaskM>, i: int, j: int)
    requires
        0 <= i < ts.len(),
        0 <= j < ts.len(),
    ensures
        swapped(swapped(ts, i, j), i, j) == ts,
{
    assert(swapped(swapped(ts, i, j), i, j) =~= ts);
}

/// Swapping two positions of the current stack twice gives back the store.
pub proof fn lemma_swap_twice_restores(m: StoreM, i: int, j: int)
    requires
        wf(m),
        0 <= i < cur_tasks(m).len(),
        0 <= j < cur_tasks(m).len(),
    ensures
        ({
            let m1 = with_tasks(m, cur_idx(m), swapped(cur_tasks(m), i, j));
            with_tasks(m1, cur_idx(m1), swapped(cur_tasks(m1), i, j)) == m
        }),
{
    let ci = cur_idx(m);
    let ts = cur_tasks(m);
    let m1 = with_tasks(m, ci, swapped(ts, i, j));
    lemma_cur_idx_with_tasks(m, ci, swapped(ts, i, j));
    lemma_swap_involutive(ts, i, j);
    assert(with_tasks(m1, ci, swapped(cur_tasks(m1), i, j)).stacks =~= m.stacks);
    assert(with_tasks(m1, ci, swapped(cur_tasks(m1), i, j)) =~= m);
}

/// A pushed task is the next one popped, and popping it gives back the store
/// as it was, but for the identifier that the push used up.
pub proof fn lemma_push_then_pop(m: StoreM, text: Seq<char>)
    requires
        wf(m),
        !push_exhausted(m),
    ensures
        cur_tasks(pushed(m, text)).last().text == text,
        popped(pushed(m, text)) == (StoreM { next_task_id: m.next_task_id + 1, ..m }),
{
    let ci = cur_idx(m);
    let ts = cur_tasks(m);
    let t = TaskM { id: m.next_task_id, text, order: top_key(ts) };
    let m1 = pushed(m, text);
    lemma_cur_idx_with_tasks(m, ci, ts.push(t));
    assert(cur_idx(m1) == ci);
    assert(cur_tasks(m1) == ts.push(t));
    assert(ts.push(t).drop_last() =~= ts);
    let rs = reminders_not_for(m.reminders, m.next_task_id);
    lemma_filter_reminders(m.reminders, |r: ReminderM| r.task_id != m.next_task_id);
    assert forall|q: int| 0 <= q < m.reminders.len() implies #[trigger] m.reminders[q].task_id
        != m.next_task_id by {
        let (s, k) = choose|s: int, k: int|
            0 <= s < m.stacks.len() && 0 <= k < m.stacks[s].tasks.len()
                && #[trigger] m.stacks[s].tasks[k].id == m.reminders[q].task_id;
    }
    crate::model::lemma_not_for_absent(m.reminders, m.next_task_id);
    assert(popped(m1).stacks =~= m.stacks);
    assert(popped(m1) =~= (StoreM { next_task_id: m.next_task_id + 1, ..m }));
}

/// Deleting a task deletes every reminder of it: a reminder of the task at
/// position `i` is no longer pending afterwards, so firing it does nothing.
pub proof fn lemma_kill_cascades_to_reminders(m: StoreM, i: int, rid: Seq<char>)
    requires
        wf(m),
        0 <= i < cur_tasks(m).len(),
        has_reminder(m, rid),
        m.reminders[crate::model::reminder_idx(m, rid)].task_id == cur_tasks(m)[i].id,
    ensures
        !has_reminder(killed(m, i), rid),
{
    let x = cur_tasks(m)[i].id;
    let rs = killed(m, i).reminders;
    assert(rs == reminders_not_for(m.reminders, x));
    lemma_filter_reminders(m.reminders, |r: ReminderM| r.task_id != x);
    if has_reminder(killed(m, i), rid) {
        let q = choose|q: int| 0 <= q < rs.len() && #[trigger] rs[q].id == rid;
        assert(m.reminders.contains(rs[q]));
        let p = choose|p: int| 0 <= p < m.reminders.len() && m.reminders[p] == rs[q];
        let p0 = crate::model::reminder_idx(m, rid);
        assert(m.reminders[p0].id == rid);
        assert(p == p0);
    }
}

/// Dropping a stack that is neither the default nor the current one removes
/// it and its tasks: the other stacks stay in order, its name is no longer
/// listed, and no reminder of its tasks is left.
pub proof fn lemma_dropped_stack_is_gone(m: StoreM, name: Seq<char>)
    requires
        wf(m),
        has_stack_named(m, name),
        m.stacks[crate::model::stack_idx_named(m, name)].id != DEFAULT_STACK_ID,
        m.stacks[crate::model::stack_idx_named(m, name)].id != m.current,
    ensures
        ({
            let si = crate::model::stack_idx_named(m, name);
            let m2 = stack_dropped(m, si);
            &&& m2.stacks == m.stacks.remove(si)
            &&& !stack_names(m2).contains(name)
            &&& !has_stack_named(m2, name)
            &&& forall|q: int|
                0 <= q < m2.reminders.len() ==> !has_task_in(
                    m.stacks[si].tasks,
                    #[trigger] m2.reminders[q].task_id,
                )
        }),
{
    let si = crate::model::stack_idx_named(m, name);
    let m2 = stack_dropped(m, si);
    let ts = m.stacks[si].tasks;
    lemma_filter_reminders(m.reminders, |r: ReminderM| !has_task_in(ts, r.task_id));
    if stack_names(m2).contains(name) {
        let j = choose|j: int| 0 <= j < stack_names(m2).len() && stack_names(m2)[j] == name;
        let j0 = if j < si { j } else { j + 1 };
        assert(m2.stacks[j] == m.stacks[j0]);
    }
    if has_stack_named(m2, name) {
        let j = choose|j: int| 0 <= j < m2.stacks.len() && #[trigger] m2.stacks[j].name == name;
        let j0 = if j < si { j } else { j + 1 };
        assert(m2.stacks[j] == m.stacks[j0]);
    }
}

} // verus!
