//! A verified task-list library.
//!
//! A [`todo::TodoList`] is an ordered sequence of task records. Tasks are
//! appended with count-based ids, looked up, removed, or toggled between done
//! and not done. The list is persisted as a JSON array; [`json`] holds the
//! verified encoder and decoder for that format, and [`commands`] the pure
//! part of the command handlers. File input and output stay with the caller:
//! the library works on strings and in-memory values only.

use vstd::prelude::*;

pub mod commands;
pub mod json;
pub mod todo;

verus! {

/// Failure of a load or save step, as a tagged union so that callers can
/// branch on the cause. An absent id is a normal outcome, never an error.
#[derive(Clone, Copy, Debug, PartialEq, Eq, Structural)]
pub enum TodoError {
    /// The backing file could not be read or written.
    IOError,
    /// The file's contents are not a JSON array of task records.
    ParseError,
}

} // verus!
