//! A multi-stack task tracker: named stacks of short text tasks kept in order
//! by order keys, a current-stack pointer, and delayed reminders for tasks.
//!
//! The store and every operation on it are verified against the model in
//! [`model`]; persistence, the command line, process spawning and desktop
//! notifications live outside this library.
pub mod cli;
pub mod commands;
pub mod delay;
pub mod errors;
pub mod laws;
pub mod model;
pub mod reminders;
pub mod rows;
pub mod store;

pub use cli::{is_task_index, parse_task_index, resolve_command};
pub use commands::{
    clear_all_tasks, clear_tasks, drop_stack, get_current_stack_id, get_current_stack_name,
    insert_after, kill_task, list_stacks, list_tasks, new_stack, pop_task, pop_to, push_task,
    pushback_task, stack_name_to_id, swap_tasks, switch_to_stack, task_index_to_task_id,
};
pub use delay::parse_delay_spec_into_seconds;
pub use errors::{AppError, CommandError, ReminderError, StackError, TaskError, TaskIndex};
pub use model::DEFAULT_STACK_ID;
pub use reminders::{remind_me, reminder_delay, schedule_reminder, trigger_reminder};
pub use rows::{ReminderRow, StackRow, TaskRow};
pub use store::{Reminder, Stack, Store, Task};
