//! A personal task tracker: tasks with metadata (category, priority, tags,
//! deadline) and an append-only history of status transitions, kept in an
//! ordered store, queried, filtered, sorted and rendered for display.
//!
//! Every date-sensitive operation takes "today" as an explicit [`date::Date`]
//! parameter, so the core stays deterministic; reading the clock is the one
//! trusted call, in [`date`].

pub mod category;
pub mod codec;
pub mod command;
pub mod date;
pub mod date_specifier;
pub mod error;
pub mod interval;
pub mod outcome;
pub mod present;
pub mod priority;
pub mod query;
pub mod short_string;
pub mod status;
pub mod store;
pub mod tag;
pub mod task;
pub mod text;
