//! A small task-tracking library: a manager for short textual tasks with
//! unique, monotonically assigned identifiers, together with the JSON text
//! format used to persist a task list between runs.
//!
//! The manager owns an ordered collection of [`todo::Todo`] values and is the
//! sole authority over identifier assignment; every query and mutation goes
//! through it. The [`storage`] module holds the durable text format: a
//! serializer and parser for the JSON array of task objects, with a proved
//! round-trip guarantee. Reading and writing actual files is left to callers.

use vstd::prelude::*;

pub mod storage;
pub mod todo;
pub mod todo_manager;

verus! {

/// Errors from the by-id operations of the task manager.
#[derive(Debug, Clone, Copy, PartialEq, Eq, Structural)]
pub enum TodoError {
    /// No task with the given id exists; carries the offending id.
    NotFound(usize),
}

} // verus!
