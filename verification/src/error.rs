//! The error taxonomy of the tracker.
//!
//! Every fallible core operation reports one of four classes: a validation
//! failure (bad input text, rejected before any mutation), a reference
//! failure (an unknown task identifier), a state failure (a transition or
//! query that the task's current status forbids), or a persistence failure
//! (stored bytes that cannot be decoded).

use vstd::prelude::*;

verus! {

/// Rejected input text; the store is left untouched.
#[derive(Debug, Clone, Copy, PartialEq, Eq, Structural)]
pub enum ValidationError {
    /// A short description must have at least one character.
    EmptyShortText,
    /// A short description must have at most fifty characters.
    OverlongShortText,
    /// A tag may hold only alphanumeric characters and hyphens.
    BadTagText,
    /// A date must be symbolic or in `day/month/year` form.
    BadDateText,
    /// A weekday name was expected.
    BadWeekdayText,
    /// A lookback interval must be `days/N`, `weeks/N` or `months/N`.
    BadIntervalText,
    /// A category name was expected.
    BadCategoryText,
    /// A priority name or level was expected.
    BadPriorityText,
    /// A sort key name was expected.
    BadSortText,
}

/// A task identifier that does not name a live task.
#[derive(Debug, Clone, Copy, PartialEq, Eq, Structural)]
pub enum ReferenceError {
    /// No task lives at this identifier.
    UnknownTaskId(usize),
}

/// An operation that the task's current status forbids.
#[derive(Debug, Clone, Copy, PartialEq, Eq, Structural)]
pub enum StateError {
    /// Only a task whose current status is not-started can be started.
    AlreadyStarted,
    /// Only a completed task has an outcome.
    NotCompleted,
}

/// Stored bytes that do not decode to a task store.
#[derive(Debug, Clone, Copy, PartialEq, Eq, Structural)]
pub enum PersistenceError {
    /// The stored bytes are not a valid encoding of a task store.
    CorruptState,
}

/// Any failure a core operation can report.
#[derive(Debug, Clone, Copy, PartialEq, Eq, Structural)]
pub enum TrackerError {
    Validation(ValidationError),
    Reference(ReferenceError),
    State(StateError),
    Persistence(PersistenceError),
}

} // verus!
