//! Building a store from stored rows, and listing its rows back: the
//! boundary between the store and its persisted tables.
use vstd::prelude::*;
use crate::commands::lemma_with_tasks_wf_same_reminders;
use crate::model::{
    ReminderM, StackM, StoreM, TaskM, has_reminder, has_stack, has_stack_named, has_task, has_task_in,
    sorted_by_order, stack_idx, wf, with_tasks,
};
use crate::store::{Reminder, Stack, Store, Task, reminders_view, stacks_view, tasks_view};

verus! {

/// A stack row: identifier and name.
pub type StackRow = (i64, String);

/// A task row: identifier, text, order key and stack identifier.
pub type TaskRow = (i64, String, i64, i64);

/// A reminder row: identifier, delay in seconds and task identifier.
pub type ReminderRow = (String, u32, i64);

pub open spec fn max_int(a: int, b: int) -> int {
    if a >= b {
        a
    } else {
        b
    }
}

/// A task row as plain values.
pub open spec fn task_row_view(row: TaskRow) -> (int, Seq<char>, int, int) {
    (row.0 as int, row.1@, row.2 as int, row.3 as int)
}

/// The rows of the tasks of `st`, by ascending key.
pub open spec fn stack_task_rows(st: StackM) -> Seq<(int, Seq<char>, int, int)> {
    st.tasks.map_values(|t: TaskM| (t.id, t.text, t.order, st.id))
}

/// The rows of all tasks, stack by stack.
pub open spec fn all_task_rows(ss: Seq<StackM>) -> Seq<(int, Seq<char>, int, int)>
    decreases ss.len(),
{
    if ss.len() == 0 {
        Seq::empty()
    } else {
        all_task_rows(ss.drop_last()) + stack_task_rows(ss.last())
    }
}

impl Store {
    /// Add a stored stack with no tasks. Refused (`false`, nothing changes)
    /// where its identifier or its name is taken, or its identifier is the
    /// largest `i64`.
    pub fn load_stack(&mut self, id: i64, name: String) -> (r: bool)
        requires
            old(self).wf(),
        ensures
            final(self).wf(),
            r == (!has_stack(old(self)@, id as int) && !has_stack_named(old(self)@, name@) && id
                < i64::MAX),
            r ==> final(self)@ == (StoreM {
                stacks: old(self)@.stacks.push(StackM { id: id as int, name: name@, tasks: Seq::empty() }),
                next_stack_id: max_int(old(self)@.next_stack_id, id + 1),
                ..old(self)@
            }),
            !r ==> final(self)@ == old(self)@,
    {
        let ghost m = self@;
        if self.find_stack(id).is_some() || self.find_stack_named(&name).is_some() || id == i64::MAX {
            return false;
        }
        let ghost nv = name@;
        self.stacks.push(Stack { id, name, tasks: Vec::new() });
        if id >= self.next_stack_id {
            self.next_stack_id = id + 1;
        }
        proof {
            let m2 = StoreM {
                stacks: m.stacks.push(StackM { id: id as int, name: nv, tasks: Seq::empty() }),
                next_stack_id: max_int(m.next_stack_id, id + 1),
                ..m
            };
            assert(self@.stacks[m.stacks.len() as int].tasks =~= Seq::<TaskM>::empty());
            assert(self@.stacks =~= m2.stacks);
            assert(self@ =~= m2);
            let n = m.stacks.len() as int;
            assert forall|i: int, j: int|
                0 <= i < m2.stacks.len() && 0 <= j < m2.stacks.len() && i != j implies #[trigger] m2.stacks[i].name
                != #[trigger] m2.stacks[j].name by {
                if i == n {
                    assert(m.stacks[j].name == m2.stacks[j].name);
                } else if j == n {
                    assert(m.stacks[i].name == m2.stacks[i].name);
                } else {
                    assert(m.stacks[i] == m2.stacks[i] && m.stacks[j] == m2.stacks[j]);
                }
            }
            assert forall|i: int, j: int|
                0 <= i < m2.stacks.len() && 0 <= j < m2.stacks.len() && i != j implies #[trigger] m2.stacks[i].id
                != #[trigger] m2.stacks[j].id by {
                if i == n {
                    assert(m.stacks[j].id == m2.stacks[j].id);
                } else if j == n {
                    assert(m.stacks[i].id == m2.stacks[i].id);
                } else {
                    assert(m.stacks[i] == m2.stacks[i] && m.stacks[j] == m2.stacks[j]);
                }
            }
            let d = stack_idx(m, 1);
            assert(m2.stacks[d].id == 1);
            let c = stack_idx(m, m.current);
            assert(m2.stacks[c].id == m.current);
            assert forall|i: int| 0 <= i < m2.stacks.len() implies #[trigger] m2.stacks[i].id
                < m2.next_stack_id by {
                if i < n {
                    assert(m2.stacks[i] == m.stacks[i]);
                }
            }
            assert forall|i: int| 0 <= i < m2.stacks.len() implies sorted_by_order(
                #[trigger] m2.stacks[i].tasks,
            ) by {
                if i < n {
                    assert(m2.stacks[i] == m.stacks[i]);
                }
            }
            assert forall|s: int, k: int|
                0 <= s < m2.stacks.len() && 0 <= k < m2.stacks[s].tasks.len() implies #[trigger] m2.stacks[s].tasks[k].id
                < m2.next_task_id by {
                assert(s < n);
                assert(m2.stacks[s] == m.stacks[s]);
            }
            assert forall|s: int, k: int|
                0 <= s < m.stacks.len() && 0 <= k < m.stacks[s].tasks.len() implies has_task(
                m2.stacks,
                #[trigger] m.stacks[s].tasks[k].id,
            ) by {
                assert(m2.stacks[s] == m.stacks[s]);
            }
            assert forall|s1: int, k1: int, s2: int, k2: int|
                0 <= s1 < m2.stacks.len() && 0 <= k1 < m2.stacks[s1].tasks.len() && 0 <= s2
                    < m2.stacks.len() && 0 <= k2 < m2.stacks[s2].tasks.len() && (s1 != s2 || k1
                    != k2) implies #[trigger] m2.stacks[s1].tasks[k1].id
                != #[trigger] m2.stacks[s2].tasks[k2].id by {
                assert(s1 < n && s2 < n);
                assert(m2.stacks[s1] == m.stacks[s1] && m2.stacks[s2] == m.stacks[s2]);
            }
            crate::commands::lemma_tasks_kept(m, m2);
        }
        true
    }

    /// Put a stored task on top of stack `stack_id`. Refused (`false`,
    /// nothing changes) where there is no such stack, where its key is below
    /// the top task's key there (rows come by ascending key), or where its
    /// identifier is the largest `i64`.
    pub fn load_task(&mut self, stack_id: i64, id: i64, text: String, order: i64) -> (r: bool)
        requires
            old(self).wf(),
        ensures
            final(self).wf(),
            ({
                let m = old(self)@;
                let si = stack_idx(m, stack_id as int);
                let ts = m.stacks[si].tasks;
                &&& r == (has_stack(m, stack_id as int) && (ts.len() == 0 || ts.last().order
                    <= order) && id < i64::MAX && !has_task(m.stacks, id as int))
                &&& r ==> final(self)@ == (StoreM {
                    next_task_id: max_int(m.next_task_id, id + 1),
                    ..with_tasks(
                        m,
                        si,
                        ts.push(TaskM { id: id as int, text: text@, order: order as int }),
                    )
                })
                &&& !r ==> final(self)@ == m
            }),
    {
        let ghost m = self@;
        let si = match self.find_stack(stack_id) {
            Some(i) => i,
            None => {
                return false;
            },
        };
        let n = self.stacks[si].tasks.len();
        if (n > 0 && self.stacks[si].tasks[n - 1].order > order) || id == i64::MAX
            || self.has_task_id(id) {
            return false;
        }
        let ghost tv = text@;
        self.stacks[si].tasks.push(Task { id, text, order });
        if id >= self.next_task_id {
            self.next_task_id = id + 1;
        }
        proof {
            let ts = m.stacks[si as int].tasks;
            let nt = TaskM { id: id as int, text: tv, order: order as int };
            let ts2 = ts.push(nt);
            let next = max_int(m.next_task_id, id + 1);
            assert(self@.stacks[si as int].tasks =~= ts2);
            assert(self@.stacks =~= with_tasks(m, si as int, ts2).stacks);
            assert(self@ =~= StoreM { next_task_id: next, ..with_tasks(m, si as int, ts2) });
            let m1 = with_tasks(m, si as int, ts2);
            assert forall|s: int, k: int|
                0 <= s < m.stacks.len() && 0 <= k < m.stacks[s].tasks.len() implies has_task(
                m1.stacks,
                #[trigger] m.stacks[s].tasks[k].id,
            ) by {
                assert(m1.stacks[s].tasks[k] == m.stacks[s].tasks[k]);
            }
            assert(sorted_by_order(ts));
            assert(!has_task(m.stacks, id as int));
            assert forall|a: int, b: int|
                0 <= a < ts2.len() && 0 <= b < ts2.len() && a != b implies #[trigger] ts2[a].id
                != #[trigger] ts2[b].id by {
                if a < n && b < n {
                    assert(m.stacks[si as int].tasks[a].id != m.stacks[si as int].tasks[b].id);
                } else if a < n {
                    assert(m.stacks[si as int].tasks[a].id != id);
                } else {
                    assert(m.stacks[si as int].tasks[b].id != id);
                }
            }
            assert forall|k: int| 0 <= k < ts2.len() implies has_task_in(
                m.stacks[si as int].tasks,
                #[trigger] ts2[k].id,
            ) || !has_task(m.stacks, ts2[k].id) by {
                if k < n {
                    assert(m.stacks[si as int].tasks[k] == ts2[k]);
                }
            }
            assert(sorted_by_order(ts2)) by {
                assert forall|a: int, b: int| 0 <= a < b < ts2.len() implies #[trigger] ts2[a].order
                    <= #[trigger] ts2[b].order by {
                    if b < n {
                        assert(ts2[a] == ts[a] && ts2[b] == ts[b]);
                    } else {
                        assert(ts2[a] == ts[a]);
                        assert(ts[a].order <= ts[n - 1].order);
                    }
                }
            }
            assert forall|k: int| 0 <= k < ts2.len() implies #[trigger] ts2[k].id < next by {
                if k < n {
                    assert(ts2[k] == ts[k]);
                    assert(m.stacks[si as int].tasks[k].id < m.next_task_id);
                }
            }
            lemma_with_tasks_wf_same_reminders(m, si as int, ts2, next);
        }
        true
    }

    /// Add a stored reminder. Refused (`false`, nothing changes) where its
    /// delay is zero, its task is missing or its identifier is taken.
    pub fn load_reminder(&mut self, id: String, delay: u32, task_id: i64) -> (r: bool)
        requires
            old(self).wf(),
        ensures
            final(self).wf(),
            r == (delay > 0 && has_task(old(self)@.stacks, task_id as int) && !has_reminder(
                old(self)@,
                id@,
            )),
            r ==> final(self)@ == (StoreM {
                reminders: old(self)@.reminders.push(
                    ReminderM { id: id@, delay: delay as nat, task_id: task_id as int },
                ),
                ..old(self)@
            }),
            !r ==> final(self)@ == old(self)@,
    {
        let ghost m = self@;
        if delay == 0 || !self.has_task_id(task_id) || self.find_reminder(&id).is_some() {
            return false;
        }
        let ghost iv = id@;
        self.reminders.push(Reminder { id, delay, task_id });
        proof {
            let m2 = StoreM {
                reminders: m.reminders.push(
                    ReminderM { id: iv, delay: delay as nat, task_id: task_id as int },
                ),
                ..m
            };
            assert(self@.reminders =~= m2.reminders);
            assert(self@ =~= m2);
            let d = stack_idx(m, 1);
            assert(m2.stacks[d].id == 1);
            let c = stack_idx(m, m.current);
            assert(m2.stacks[c].id == m.current);
            let nq = m.reminders.len() as int;
            assert forall|q: int| 0 <= q < m2.reminders.len() implies has_task(
                m2.stacks,
                #[trigger] m2.reminders[q].task_id,
            ) by {
                if q < nq {
                    assert(m2.reminders[q] == m.reminders[q]);
                }
            }
            assert forall|q: int| 0 <= q < m2.reminders.len() implies #[trigger] m2.reminders[q].delay
                > 0 by {
                if q < nq {
                    assert(m2.reminders[q] == m.reminders[q]);
                }
            }
            assert forall|p: int, q: int|
                0 <= p < m2.reminders.len() && 0 <= q < m2.reminders.len() && p != q implies #[trigger] m2.reminders[p].id
                != #[trigger] m2.reminders[q].id by {
                if p < nq && q < nq {
                    assert(m2.reminders[p] == m.reminders[p] && m2.reminders[q] == m.reminders[q]);
                } else if p < nq {
                    assert(m2.reminders[p] == m.reminders[p]);
                } else if q < nq {
                    assert(m2.reminders[q] == m.reminders[q]);
                }
            }
        }
        true
    }

    /// Make the stored stack `id` current. Refused (`false`, nothing
    /// changes) where there is no such stack.
    pub fn load_current(&mut self, id: i64) -> (r: bool)
        requires
            old(self).wf(),
        ensures
            final(self).wf(),
            r == has_stack(old(self)@, id as int),
            r ==> final(self)@ == (StoreM { current: id as int, ..old(self)@ }),
            !r ==> final(self)@ == old(self)@,
    {
        let ghost m = self@;
        let i = match self.find_stack(id) {
            Some(i) => i,
            None => {
                return false;
            },
        };
        self.current = id;
        proof {
            let m2 = StoreM { current: id as int, ..m };
            assert(self@ =~= m2);
            assert(m2.stacks[i as int].id == id);
            let d = stack_idx(m, 1);
            assert(m2.stacks[d].id == 1);
        }
        true
    }

    /// Whether some task has identifier `id`.
    fn has_task_id(&self, id: i64) -> (r: bool)
        requires
            self.wf(),
        ensures
            r == has_task(self@.stacks, id as int),
    {
        let mut s: usize = 0;
        while s < self.stacks.len()
            invariant
                0 <= s <= self.stacks.len(),
                forall|a: int, k: int|
                    0 <= a < s && 0 <= k < self@.stacks[a].tasks.len() ==> #[trigger] self@.stacks[a].tasks[k].id
                        != id,
            decreases self.stacks.len() - s,
        {
            let ts = &self.stacks[s].tasks;
            let mut k: usize = 0;
            while k < ts.len()
                invariant
                    0 <= k <= ts.len(),
                    s < self.stacks.len(),
                    ts == &self.stacks@[s as int].tasks,
                    forall|j: int| 0 <= j < k ==> #[trigger] self@.stacks[s as int].tasks[j].id != id,
                decreases ts.len() - k,
            {
                assert(self@.stacks[s as int].tasks[k as int] == ts@[k as int]@);
                if ts[k].id == id {
                    assert(self@.stacks[s as int].tasks[k as int].id == id);
                    return true;
                }
                k = k + 1;
            }
            s = s + 1;
        }
        false
    }

    /// Identifier of the current stack.
    pub fn current_stack_id(&self) -> (r: i64)
        ensures
            r == self@.current,
    {
        self.current
    }

    /// The stack rows, in the store's order.
    pub fn stack_rows(&self) -> (r: Vec<StackRow>)
        ensures
            r@.map_values(|row: StackRow| (row.0 as int, row.1@)) == self@.stacks.map_values(
                |st: StackM| (st.id, st.name),
            ),
    {
        let ghost want = self@.stacks.map_values(|st: StackM| (st.id, st.name));
        let mut out: Vec<StackRow> = Vec::new();
        let mut i: usize = 0;
        while i < self.stacks.len()
            invariant
                0 <= i <= self.stacks.len(),
                want == self@.stacks.map_values(|st: StackM| (st.id, st.name)),
                out@.map_values(|row: StackRow| (row.0 as int, row.1@)) =~= want.take(i as int),
            decreases self.stacks.len() - i,
        {
            let row: StackRow = (self.stacks[i].id, self.stacks[i].name.clone());
            let ghost before = out@;
            out.push(row);
            assert(want[i as int] == (row.0 as int, row.1@));
            assert(out@.map_values(|row: StackRow| (row.0 as int, row.1@)) =~= before.map_values(
                |row: StackRow| (row.0 as int, row.1@),
            ).push((row.0 as int, row.1@)));
            i = i + 1;
        }
        assert(want.take(i as int) =~= want);
        out
    }

    /// The task rows, stack by stack, each stack's tasks by ascending key.
    pub fn task_rows(&self) -> (r: Vec<TaskRow>)
        ensures
            r@.map_values(|row: TaskRow| task_row_view(row)) == all_task_rows(self@.stacks),
    {
        let ghost ss = self@.stacks;
        let mut out: Vec<TaskRow> = Vec::new();
        let mut s: usize = 0;
        assert(ss.take(0) =~= Seq::<StackM>::empty());
        assert(out@.map_values(|row: TaskRow| task_row_view(row)) =~= all_task_rows(ss.take(0)));
        while s < self.stacks.len()
            invariant
                0 <= s <= self.stacks.len(),
                ss == self@.stacks,
                out@.map_values(|row: TaskRow| task_row_view(row)) == all_task_rows(ss.take(s as int)),
            decreases self.stacks.len() - s,
        {
            let st = &self.stacks[s];
            let ghost base = all_task_rows(ss.take(s as int));
            let ghost these = stack_task_rows(ss[s as int]);
            assert(base + these.take(0) =~= base);
            let mut k: usize = 0;
            while k < st.tasks.len()
                invariant
                    0 <= k <= st.tasks.len(),
                    s < self.stacks.len(),
                    st == &self.stacks@[s as int],
                    ss == self@.stacks,
                    these == stack_task_rows(ss[s as int]),
                    out@.map_values(|row: TaskRow| task_row_view(row)) == base + these.take(k as int),
                decreases st.tasks.len() - k,
            {
                let t = &st.tasks[k];
                let row: TaskRow = (t.id, t.text.clone(), t.order, st.id);
                let ghost before = out@;
                out.push(row);
                proof {
                    assert(ss[s as int].tasks[k as int] == t@);
                    assert(these[k as int] == task_row_view(row));
                    assert(out@.map_values(|row: TaskRow| task_row_view(row)) =~= before.map_values(
                        |row: TaskRow| task_row_view(row),
                    ).push(task_row_view(row)));
                    assert(base + these.take(k + 1) =~= (base + these.take(k as int)).push(these[k as int]));
                }
                k = k + 1;
            }
            proof {
                assert(these.take(st.tasks.len() as int) =~= these);
                assert(ss.take(s + 1).drop_last() =~= ss.take(s as int));
                assert(ss.take(s + 1).last() == ss[s as int]);
            }
            s = s + 1;
        }
        assert(ss.take(s as int) =~= ss);
        assert(all_task_rows(ss.take(s as int)) == all_task_rows(ss));
        out
    }

    /// The reminder rows.
    pub fn reminder_rows(&self) -> (r: Vec<ReminderRow>)
        ensures
            r@.map_values(|row: ReminderRow| (row.0@, row.1 as nat, row.2 as int))
                == self@.reminders.map_values(|rm: ReminderM| (rm.id, rm.delay, rm.task_id)),
    {
        let ghost want = self@.reminders.map_values(|rm: ReminderM| (rm.id, rm.delay, rm.task_id));
        let mut out: Vec<ReminderRow> = Vec::new();
        let mut i: usize = 0;
        while i < self.reminders.len()
            invariant
                0 <= i <= self.reminders.len(),
                want == self@.reminders.map_values(|rm: ReminderM| (rm.id, rm.delay, rm.task_id)),
                out@.map_values(|row: ReminderRow| (row.0@, row.1 as nat, row.2 as int))
                    =~= want.take(i as int),
            decreases self.reminders.len() - i,
        {
            let row: ReminderRow = (
                self.reminders[i].id.clone(),
                self.reminders[i].delay,
                self.reminders[i].task_id,
            );
            let ghost before = out@;
            out.push(row);
            assert(want[i as int] == (row.0@, row.1 as nat, row.2 as int));
            assert(out@.map_values(|row: ReminderRow| (row.0@, row.1 as nat, row.2 as int))
                =~= before.map_values(|row: ReminderRow| (row.0@, row.1 as nat, row.2 as int)).push(
                (row.0@, row.1 as nat, row.2 as int),
            ));
            i = i + 1;
        }
        assert(want.take(i as int) =~= want);
        out
    }
}

} // verus!
