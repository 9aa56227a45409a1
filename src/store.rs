//! The executable task store and its view as a [`StoreM`].
use vstd::prelude::*;
use crate::model::{
    DEFAULT_STACK_ID, ReminderM, StackM, StoreM, TaskM, has_stack, stack_idx, stack_idx_named, wf,
};

verus! {

/// A task: its stable identifier, its text and its order key.
pub struct Task {
    pub id: i64,
    pub text: String,
    pub order: i64,
}

/// A stack and its tasks, bottom first.
pub struct Stack {
    pub id: i64,
    pub name: String,
    pub tasks: Vec<Task>,
}

/// A pending reminder for a task.
pub struct Reminder {
    pub id: String,
    pub delay: u32,
    pub task_id: i64,
}

/// The ordered multi-stack task store.
pub struct Store {
    pub(crate) stacks: Vec<Stack>,
    pub(crate) current: i64,
    pub(crate) reminders: Vec<Reminder>,
    pub(crate) next_task_id: i64,
    pub(crate) next_stack_id: i64,
}

impl View for Task {
    type V = TaskM;

    open spec fn view(&self) -> TaskM {
        TaskM { id: self.id as int, text: self.text@, order: self.order as int }
    }
}

pub open spec fn tasks_view(ts: Seq<Task>) -> Seq<TaskM> {
    ts.map_values(|t: Task| t@)
}

pub open spec fn reminders_view(rs: Seq<Reminder>) -> Seq<ReminderM> {
    rs.map_values(|r: Reminder| r@)
}

pub open spec fn stacks_view(ss: Seq<Stack>) -> Seq<StackM> {
    ss.map_values(|s: Stack| s@)
}

impl View for Stack {
    type V = StackM;

    open spec fn view(&self) -> StackM {
        StackM { id: self.id as int, name: self.name@, tasks: tasks_view(self.tasks@) }
    }
}

impl View for Reminder {
    type V = ReminderM;

    open spec fn view(&self) -> ReminderM {
        ReminderM { id: self.id@, delay: self.delay as nat, task_id: self.task_id as int }
    }
}

impl View for Store {
    type V = StoreM;

    open(crate) spec fn view(&self) -> StoreM {
        StoreM {
            stacks: stacks_view(self.stacks@),
            current: self.current as int,
            reminders: reminders_view(self.reminders@),
            next_task_id: self.next_task_id as int,
            next_stack_id: self.next_stack_id as int,
        }
    }
}

/// With distinct stack identifiers, the stack at `i` is the one that
/// `stack_idx` picks for its identifier.
pub proof fn lemma_stack_idx(m: StoreM, i: int)
    requires
        wf(m),
        0 <= i < m.stacks.len(),
    ensures
        stack_idx(m, m.stacks[i].id) == i,
{
    let j = stack_idx(m, m.stacks[i].id);
    assert(0 <= j < m.stacks.len() && m.stacks[j].id == m.stacks[i].id);
}

/// With distinct stack names, the stack at `i` is the one that
/// `stack_idx_named` picks for its name.
pub proof fn lemma_stack_idx_named(m: StoreM, i: int)
    requires
        wf(m),
        0 <= i < m.stacks.len(),
    ensures
        stack_idx_named(m, m.stacks[i].name) == i,
{
    let j = stack_idx_named(m, m.stacks[i].name);
    assert(0 <= j < m.stacks.len() && m.stacks[j].name == m.stacks[i].name);
}

impl Store {
    pub open spec fn wf(&self) -> bool {
        wf(self@)
    }

    /// A fresh store: the default stack alone, current, with no tasks.
    pub fn new() -> (r: Store)
        ensures
            r.wf(),
            r@.stacks.len() == 1,
            r@.stacks[0].id == DEFAULT_STACK_ID,
            r@.stacks[0].name == "default"@,
            r@.stacks[0].tasks.len() == 0,
            r@.current == DEFAULT_STACK_ID,
            r@.reminders.len() == 0,
            r@.next_task_id == 1,
            r@.next_stack_id == DEFAULT_STACK_ID + 1,
    {
        let mut stacks: Vec<Stack> = Vec::new();
        stacks.push(Stack { id: DEFAULT_STACK_ID, name: String::from_str("default"), tasks: Vec::new() });
        let r = Store {
            stacks,
            current: DEFAULT_STACK_ID,
            reminders: Vec::new(),
            next_task_id: 1,
            next_stack_id: DEFAULT_STACK_ID + 1,
        };
        assert(r@.stacks[0].id == DEFAULT_STACK_ID);
        assert(has_stack(r@, DEFAULT_STACK_ID as int));
        r
    }

    /// Position of the stack with identifier `id`.
    pub(crate) fn find_stack(&self, id: i64) -> (r: Option<usize>)
        requires
            self.wf(),
        ensures
            r is None <==> !has_stack(self@, id as int),
            r matches Some(i) ==> i < self@.stacks.len() && i == stack_idx(self@, id as int)
                && self@.stacks[i as int].id == id,
    {
        let mut i: usize = 0;
        while i < self.stacks.len()
            invariant
                0 <= i <= self.stacks.len(),
                self.wf(),
                forall|j: int| 0 <= j < i ==> #[trigger] self@.stacks[j].id != id,
            decreases self.stacks.len() - i,
        {
            if self.stacks[i].id == id {
                proof { lemma_stack_idx(self@, i as int); }
                return Some(i);
            }
            i = i + 1;
        }
        None
    }
}

} // verus!
