//! The mathematical model of the task store: stacks of tasks ordered by an
//! order key, a current-stack pointer and pending reminders, together with the
//! effect of every store operation on that model.
use vstd::prelude::*;

verus! {

/// Identifier of the protected default stack.
pub const DEFAULT_STACK_ID: i64 = 1;

/// A task as the model sees it.
pub struct TaskM {
    pub id: int,
    pub text: Seq<char>,
    pub order: int,
}

/// A stack as the model sees it: its tasks, listed by ascending order key.
pub struct StackM {
    pub id: int,
    pub name: Seq<char>,
    pub tasks: Seq<TaskM>,
}

/// A pending reminder as the model sees it.
pub struct ReminderM {
    pub id: Seq<char>,
    pub delay: nat,
    pub task_id: int,
}

/// The whole store as the model sees it.
pub struct StoreM {
    pub stacks: Seq<StackM>,
    pub current: int,
    pub reminders: Seq<ReminderM>,
    pub next_task_id: int,
    pub next_stack_id: int,
}

pub open spec fn is_i64(x: int) -> bool {
    i64::MIN <= x <= i64::MAX
}

/// Tasks are listed by ascending order key (ties are allowed: a task moved to
/// another stack keeps its key).
pub open spec fn sorted_by_order(ts: Seq<TaskM>) -> bool {
    forall|i: int, j: int| 0 <= i < j < ts.len() ==> #[trigger] ts[i].order <= #[trigger] ts[j].order
}

/// No two tasks of `ts` share an order key.
pub open spec fn keys_distinct(ts: Seq<TaskM>) -> bool {
    forall|i: int, j: int|
        0 <= i < ts.len() && 0 <= j < ts.len() && i != j ==> #[trigger] ts[i].order
            != #[trigger] ts[j].order
}

pub open spec fn has_stack(m: StoreM, id: int) -> bool {
    exists|i: int| 0 <= i < m.stacks.len() && #[trigger] m.stacks[i].id == id
}

pub open spec fn has_stack_named(m: StoreM, name: Seq<char>) -> bool {
    exists|i: int| 0 <= i < m.stacks.len() && #[trigger] m.stacks[i].name == name
}

/// Position of the stack with identifier `id`.
pub open spec fn stack_idx(m: StoreM, id: int) -> int {
    choose|i: int| 0 <= i < m.stacks.len() && #[trigger] m.stacks[i].id == id
}

/// Position of the stack named `name`.
pub open spec fn stack_idx_named(m: StoreM, name: Seq<char>) -> int {
    choose|i: int| 0 <= i < m.stacks.len() && #[trigger] m.stacks[i].name == name
}

pub open spec fn cur_idx(m: StoreM) -> int {
    stack_idx(m, m.current)
}

/// The tasks of the current stack, bottom first.
pub open spec fn cur_tasks(m: StoreM) -> Seq<TaskM> {
    m.stacks[cur_idx(m)].tasks
}

pub open spec fn has_task_in(ts: Seq<TaskM>, id: int) -> bool {
    exists|k: int| 0 <= k < ts.len() && #[trigger] ts[k].id == id
}

pub open spec fn has_task(stacks: Seq<StackM>, id: int) -> bool {
    exists|s: int, k: int|
        0 <= s < stacks.len() && 0 <= k < stacks[s].tasks.len() && #[trigger] stacks[s].tasks[k].id
            == id
}

pub open spec fn has_reminder(m: StoreM, id: Seq<char>) -> bool {
    exists|q: int| 0 <= q < m.reminders.len() && #[trigger] m.reminders[q].id == id
}

/// No two tasks of `ts` share an identifier.
pub open spec fn ids_distinct(ts: Seq<TaskM>) -> bool {
    forall|i: int, j: int|
        0 <= i < ts.len() && 0 <= j < ts.len() && i != j ==> #[trigger] ts[i].id != #[trigger] ts[j].id
}

/// No two tasks of the store, in one stack or in two, share an identifier.
pub open spec fn task_ids_unique(stacks: Seq<StackM>) -> bool {
    forall|s1: int, k1: int, s2: int, k2: int|
        0 <= s1 < stacks.len() && 0 <= k1 < stacks[s1].tasks.len() && 0 <= s2 < stacks.len() && 0
            <= k2 < stacks[s2].tasks.len() && (s1 != s2 || k1 != k2) ==> #[trigger] stacks[s1].tasks[k1].id
            != #[trigger] stacks[s2].tasks[k2].id
}

/// Well-formedness of the stacks and their tasks.
pub open spec fn wf_stacks(m: StoreM) -> bool {
    &&& forall|i: int, j: int|
        0 <= i < m.stacks.len() && 0 <= j < m.stacks.len() && i != j ==> #[trigger] m.stacks[i].id
            != #[trigger] m.stacks[j].id
    &&& forall|i: int, j: int|
        0 <= i < m.stacks.len() && 0 <= j < m.stacks.len() && i != j ==> #[trigger] m.stacks[i].name
            != #[trigger] m.stacks[j].name
    &&& has_stack(m, DEFAULT_STACK_ID as int)
    &&& has_stack(m, m.current)
    &&& is_i64(m.next_task_id) && is_i64(m.next_stack_id)
    &&& forall|i: int| 0 <= i < m.stacks.len() ==> #[trigger] m.stacks[i].id < m.next_stack_id
    &&& forall|i: int| 0 <= i < m.stacks.len() ==> sorted_by_order(#[trigger] m.stacks[i].tasks)
    &&& forall|s: int, k: int|
        0 <= s < m.stacks.len() && 0 <= k < m.stacks[s].tasks.len() ==> #[trigger] m.stacks[s].tasks[k].id
            < m.next_task_id
    &&& task_ids_unique(m.stacks)
}

/// Well-formedness of the reminders: each points at a task of the store,
/// waits a positive delay, and has an identifier of its own.
pub open spec fn wf_reminders(m: StoreM) -> bool {
    &&& forall|q: int|
        0 <= q < m.reminders.len() ==> has_task(m.stacks, #[trigger] m.reminders[q].task_id)
    &&& forall|q: int| 0 <= q < m.reminders.len() ==> #[trigger] m.reminders[q].delay > 0
    &&& forall|p: int, q: int|
        0 <= p < m.reminders.len() && 0 <= q < m.reminders.len() && p != q ==> #[trigger] m.reminders[p].id
            != #[trigger] m.reminders[q].id
}

/// Well-formedness of the store.
pub open spec fn wf(m: StoreM) -> bool {
    wf_stacks(m) && wf_reminders(m)
}

/// The store with the tasks of the stack at position `si` replaced by `ts`.
pub open spec fn with_tasks(m: StoreM, si: int, ts: Seq<TaskM>) -> StoreM {
    StoreM { stacks: m.stacks.update(si, StackM { tasks: ts, ..m.stacks[si] }), ..m }
}

/// The reminders whose task is not among `ts`.
pub open spec fn reminders_outside(rs: Seq<ReminderM>, ts: Seq<TaskM>) -> Seq<ReminderM> {
    rs.filter(|r: ReminderM| !has_task_in(ts, r.task_id))
}

/// The reminders that do not point at task `id`.
pub open spec fn reminders_not_for(rs: Seq<ReminderM>, id: int) -> Seq<ReminderM> {
    rs.filter(|r: ReminderM| r.task_id != id)
}

pub open spec fn texts(ts: Seq<TaskM>) -> Seq<Seq<char>> {
    ts.map_values(|t: TaskM| t.text)
}

pub open spec fn stack_names(m: StoreM) -> Seq<Seq<char>> {
    m.stacks.map_values(|s: StackM| s.name)
}

// ---------------------------------------------------------------- sequencer

/// Key that `push` gives a new task on top of `ts`.
pub open spec fn top_key(ts: Seq<TaskM>) -> int {
    if ts.len() == 0 {
        1
    } else {
        ts.last().order + 1
    }
}

/// Key that `pushback` gives a new task below `ts`.
pub open spec fn bottom_key(ts: Seq<TaskM>) -> int {
    if ts.len() == 0 {
        1
    } else {
        ts[0].order - 1
    }
}

/// `push` runs out of keys or task identifiers.
pub open spec fn push_exhausted(m: StoreM) -> bool {
    !is_i64(top_key(cur_tasks(m))) || m.next_task_id == i64::MAX
}

/// `pushback` runs out of keys or task identifiers.
pub open spec fn pushback_exhausted(m: StoreM) -> bool {
    !is_i64(bottom_key(cur_tasks(m))) || m.next_task_id == i64::MAX
}

pub open spec fn new_task(m: StoreM, text: Seq<char>, order: int) -> TaskM {
    TaskM { id: m.next_task_id, text, order }
}

pub open spec fn fresh_id_used(m: StoreM) -> StoreM {
    StoreM { next_task_id: m.next_task_id + 1, ..m }
}

/// The store after a task `text` is pushed on top of the current stack.
pub open spec fn pushed(m: StoreM, text: Seq<char>) -> StoreM {
    let ts = cur_tasks(m);
    fresh_id_used(with_tasks(m, cur_idx(m), ts.push(new_task(m, text, top_key(ts)))))
}

/// The store after a task `text` is put at the bottom of the current stack.
pub open spec fn pushed_back(m: StoreM, text: Seq<char>) -> StoreM {
    let ts = cur_tasks(m);
    fresh_id_used(with_tasks(m, cur_idx(m), ts.insert(0, new_task(m, text, bottom_key(ts)))))
}

/// The position at which a task with key `k` goes in the sorted `ts`: every
/// task before it has a smaller key, every task from it on a key at least `k`.
pub open spec fn is_split(ts: Seq<TaskM>, k: int, p: int) -> bool {
    &&& 0 <= p <= ts.len()
    &&& forall|j: int| 0 <= j < p ==> #[trigger] ts[j].order < k
    &&& forall|j: int| p <= j < ts.len() ==> #[trigger] ts[j].order >= k
}

pub open spec fn split_at_key(ts: Seq<TaskM>, k: int) -> int {
    choose|p: int| is_split(ts, k, p)
}

/// `ts` with every key at least `k` raised by one.
pub open spec fn shift_from(ts: Seq<TaskM>, k: int) -> Seq<TaskM> {
    ts.map_values(
        |t: TaskM|
            if t.order >= k {
                TaskM { order: t.order + 1, ..t }
            } else {
                t
            },
    )
}

/// `insert_after` in the middle of the stack runs out of keys or identifiers.
pub open spec fn insert_exhausted(m: StoreM) -> bool {
    cur_tasks(m).last().order == i64::MAX || m.next_task_id == i64::MAX
}

/// The store after `text` is inserted right after the task at position `i` of
/// the current stack, where `0 < i < count - 1`.
pub open spec fn inserted_after(m: StoreM, i: int, text: Seq<char>) -> StoreM {
    let ts = cur_tasks(m);
    let k = ts[i].order + 1;
    fresh_id_used(
        with_tasks(
            m,
            cur_idx(m),
            shift_from(ts, k).insert(split_at_key(ts, k), new_task(m, text, k)),
        ),
    )
}

/// The store after the top task of the current stack is removed.
pub open spec fn popped(m: StoreM) -> StoreM {
    let ts = cur_tasks(m);
    StoreM {
        reminders: reminders_not_for(m.reminders, ts.last().id),
        ..with_tasks(m, cur_idx(m), ts.drop_last())
    }
}

/// The store after the task at position `i` of the current stack is removed.
pub open spec fn killed(m: StoreM, i: int) -> StoreM {
    let ts = cur_tasks(m);
    StoreM {
        reminders: reminders_not_for(m.reminders, ts[i].id),
        ..with_tasks(m, cur_idx(m), ts.remove(i))
    }
}

/// `ts` with the tasks at positions `i` and `j` exchanging their keys: each
/// position keeps its key and receives the other task's identifier and text.
pub open spec fn swapped(ts: Seq<TaskM>, i: int, j: int) -> Seq<TaskM> {
    ts.update(i, TaskM { order: ts[i].order, ..ts[j] }).update(
        j,
        TaskM { order: ts[j].order, ..ts[i] },
    )
}

/// The store after the current stack is emptied.
pub open spec fn cleared(m: StoreM) -> StoreM {
    let ts = cur_tasks(m);
    StoreM {
        reminders: reminders_outside(m.reminders, ts),
        ..with_tasks(m, cur_idx(m), Seq::empty())
    }
}

/// The store after every stack is emptied.
pub open spec fn cleared_all(m: StoreM) -> StoreM {
    StoreM {
        stacks: m.stacks.map_values(|s: StackM| StackM { tasks: Seq::empty(), ..s }),
        reminders: Seq::empty(),
        ..m
    }
}

/// The store after the top task of the current stack moves to the stack at
/// position `di`, keeping its key; it goes above every task there whose key is
/// not larger.
pub open spec fn moved_top(m: StoreM, di: int) -> StoreM {
    let ci = cur_idx(m);
    let ts = cur_tasks(m);
    let top = ts.last();
    let dts = m.stacks[di].tasks;
    if ts.len() == 0 || di == ci {
        m
    } else {
        with_tasks(
            with_tasks(m, ci, ts.drop_last()),
            di,
            dts.insert(split_at_key(dts, top.order + 1), top),
        )
    }
}

// ---------------------------------------------------------- stack directory

/// The store after a stack named `name` is created.
pub open spec fn stack_added(m: StoreM, name: Seq<char>) -> StoreM {
    StoreM {
        stacks: m.stacks.push(StackM { id: m.next_stack_id, name, tasks: Seq::empty() }),
        next_stack_id: m.next_stack_id + 1,
        ..m
    }
}

/// The store after the stack at position `si` and its tasks are deleted.
pub open spec fn stack_dropped(m: StoreM, si: int) -> StoreM {
    StoreM {
        stacks: m.stacks.remove(si),
        reminders: reminders_outside(m.reminders, m.stacks[si].tasks),
        ..m
    }
}

// ---------------------------------------------------------------- reminders

/// The store after a reminder `rid` for the task at position `i` of the
/// current stack is recorded.
pub open spec fn reminder_added(m: StoreM, i: int, delay: nat, rid: Seq<char>) -> StoreM {
    StoreM {
        reminders: m.reminders.push(ReminderM { id: rid, delay, task_id: cur_tasks(m)[i].id }),
        ..m
    }
}

/// Position of reminder `rid`.
pub open spec fn reminder_idx(m: StoreM, rid: Seq<char>) -> int {
    choose|q: int| 0 <= q < m.reminders.len() && #[trigger] m.reminders[q].id == rid
}

/// The store after reminder `rid` is consumed.
pub open spec fn reminder_fired(m: StoreM, rid: Seq<char>) -> StoreM {
    StoreM { reminders: m.reminders.remove(reminder_idx(m, rid)), ..m }
}

/// `text` is the text of the task with identifier `id` (identifiers are
/// unique in a well-formed store).
pub open spec fn is_text_of(m: StoreM, id: int, text: Seq<char>) -> bool {
    exists|s: int, k: int|
        0 <= s < m.stacks.len() && 0 <= k < m.stacks[s].tasks.len() && #[trigger] m.stacks[s].tasks[k].id
            == id && m.stacks[s].tasks[k].text == text
}

/// In a well-formed store a task identifier names one text.
pub proof fn lemma_text_of_unique(m: StoreM, id: int, t1: Seq<char>, t2: Seq<char>)
    requires
        wf(m),
        is_text_of(m, id, t1),
        is_text_of(m, id, t2),
    ensures
        t1 == t2,
{
    let (s1, k1) = choose|s: int, k: int|
        0 <= s < m.stacks.len() && 0 <= k < m.stacks[s].tasks.len() && #[trigger] m.stacks[s].tasks[k].id
            == id && m.stacks[s].tasks[k].text == t1;
    let (s2, k2) = choose|s: int, k: int|
        0 <= s < m.stacks.len() && 0 <= k < m.stacks[s].tasks.len() && #[trigger] m.stacks[s].tasks[k].id
            == id && m.stacks[s].tasks[k].text == t2;
    assert(m.stacks[s1].tasks[k1].id == m.stacks[s2].tasks[k2].id);
}

} // verus!

verus! {

pub open spec fn reminder_ids_distinct(rs: Seq<ReminderM>) -> bool {
    forall|p: int, q: int|
        0 <= p < rs.len() && 0 <= q < rs.len() && p != q ==> #[trigger] rs[p].id != #[trigger] rs[q].id
}

/// What a filter keeps of a sequence of reminders comes from it, meets the
/// predicate, and keeps identifiers distinct.
pub proof fn lemma_filter_reminders(rs: Seq<ReminderM>, pred: spec_fn(ReminderM) -> bool)
    ensures
        forall|q: int|
            0 <= q < rs.filter(pred).len() ==> rs.contains(#[trigger] rs.filter(pred)[q]) && pred(
                rs.filter(pred)[q],
            ),
        reminder_ids_distinct(rs) ==> reminder_ids_distinct(rs.filter(pred)),
    decreases rs.len(),
{
    broadcast use vstd::seq_lib::group_filter_ensures;

    let f = rs.filter(pred);
    assert forall|q: int| 0 <= q < f.len() implies rs.contains(#[trigger] f[q]) && pred(f[q]) by {
        assert(f.contains(f[q]));
        rs.lemma_filter_contains_rev(pred, f[q]);
    }
    if rs.len() > 0 {
        let rest = rs.drop_last();
        lemma_filter_reminders(rest, pred);
        assert(rest.push(rs.last()) =~= rs);
        rest.lemma_filter_push(rs.last(), pred);
        if reminder_ids_distinct(rs) {
            assert(reminder_ids_distinct(rest)) by {
                assert forall|p: int, q: int|
                    0 <= p < rest.len() && 0 <= q < rest.len() && p != q implies #[trigger] rest[p].id
                    != #[trigger] rest[q].id by {
                    assert(rest[p] == rs[p] && rest[q] == rs[q]);
                }
            }
            let fr = rest.filter(pred);
            if pred(rs.last()) {
                assert forall|p: int| 0 <= p < fr.len() implies #[trigger] fr[p].id != rs.last().id by {
                    assert(fr.contains(fr[p]));
                    rest.lemma_filter_contains_rev(pred, fr[p]);
                    let j = choose|j: int| 0 <= j < rest.len() && rest[j] == fr[p];
                    assert(rs[j] == rest[j]);
                    assert(rs[rs.len() - 1] == rs.last());
                }
                assert(f == fr.push(rs.last()));
                assert forall|p: int, q: int|
                    0 <= p < f.len() && 0 <= q < f.len() && p != q implies #[trigger] f[p].id
                    != #[trigger] f[q].id by {
                    if p < fr.len() && q < fr.len() {
                        assert(f[p] == fr[p] && f[q] == fr[q]);
                    } else if p < fr.len() {
                        assert(f[p] == fr[p]);
                    } else if q < fr.len() {
                        assert(f[q] == fr[q]);
                    }
                }
            }
        }
    } else {
        assert(rs.filter(pred).len() == 0);
    }
}

} // verus!

verus! {

pub proof fn lemma_not_for_push(rs: Seq<ReminderM>, r: ReminderM, id: int)
    ensures
        reminders_not_for(rs.push(r), id) == if r.task_id != id {
            reminders_not_for(rs, id).push(r)
        } else {
            reminders_not_for(rs, id)
        },
{
    rs.lemma_filter_push(r, |x: ReminderM| x.task_id != id);
}

pub proof fn lemma_outside_push(rs: Seq<ReminderM>, r: ReminderM, ts: Seq<TaskM>)
    ensures
        reminders_outside(rs.push(r), ts) == if !has_task_in(ts, r.task_id) {
            reminders_outside(rs, ts).push(r)
        } else {
            reminders_outside(rs, ts)
        },
{
    rs.lemma_filter_push(r, |x: ReminderM| !has_task_in(ts, x.task_id));
}

} // verus!

verus! {

/// The split position of a key is unique.
pub proof fn lemma_split_unique(ts: Seq<TaskM>, k: int, p: int)
    requires
        is_split(ts, k, p),
    ensures
        split_at_key(ts, k) == p,
{
    let q = split_at_key(ts, k);
    assert(is_split(ts, k, q));
    if q < p {
        assert(ts[q].order >= k);
    } else if p < q {
        assert(ts[p].order >= k);
    }
}

} // verus!

verus! {

/// Where no reminder points at task `id`, dropping its reminders keeps all.
pub proof fn lemma_not_for_absent(rs: Seq<ReminderM>, id: int)
    requires
        forall|q: int| 0 <= q < rs.len() ==> #[trigger] rs[q].task_id != id,
    ensures
        reminders_not_for(rs, id) == rs,
    decreases rs.len(),
{
    if rs.len() == 0 {
        rs.lemma_filter_len(|x: ReminderM| x.task_id != id);
        assert(reminders_not_for(rs, id) =~= rs);
    } else {
        let rest = rs.drop_last();
        assert forall|q: int| 0 <= q < rest.len() implies #[trigger] rest[q].task_id != id by {
            assert(rest[q] == rs[q]);
        }
        lemma_not_for_absent(rest, id);
        assert(rest.push(rs.last()) =~= rs);
        lemma_not_for_push(rest, rs.last(), id);
    }
}

} // verus!
