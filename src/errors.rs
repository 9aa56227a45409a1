//! Error kinds of the store, the reminder scheduler and the command resolver.
use vstd::prelude::*;

verus! {

/// A 0-based position within a stack, counted from the bottom.
pub type TaskIndex = u32;

/// Errors related to stack management.
#[derive(Debug)]
pub enum StackError {
    NoSuchStack(String),
    StackAlreadyExists(String),
    CantDeleteDefaultStack,
    CantDeleteCurrentStack,
}

/// Errors related to task management.
#[derive(Debug)]
pub enum TaskError {
    NoTasks,
    NoSuchTask(TaskIndex),
    NoSuchTasks(TaskIndex, TaskIndex),
}

/// Errors of command-name resolution.
#[derive(Debug)]
pub enum CommandError {
    NoMatchingCommand(String),
    AmbiguousPrefix(String),
}

/// Errors related to reminders.
#[derive(Debug)]
pub enum ReminderError {
    InvalidReminderTime(String),
}

/// Every error that a store operation can report.
#[derive(Debug)]
pub enum AppError {
    Stack(StackError),
    Task(TaskError),
    Command(CommandError),
    Reminder(ReminderError),
    Environment(String),
    /// The operation would leave the store's integer range (an order key or an
    /// identifier) or reuse a reminder identifier.
    Constraint,
}

} // verus!
