//! Task statuses: the tagged values of the append-only state machine.

use vstd::prelude::*;
use crate::date::{date_text, Date, MAX_DAY_NUMBER};
use crate::error::{ReferenceError, TrackerError};
use crate::outcome::{outcome_symbol, Outcome};
use crate::short_string::ShortString;
use crate::store::Tasks;
use crate::text::{decimal_digits, push_decimal};

verus! {

/// The spec-level value of a status: the date as a day number, the reason as
/// its characters.
pub enum StatusView {
    NotStarted,
    InProgress { date: int },
    BlockedByTask { date: int, id: int },
    BlockedByOther { date: int, reason: Seq<char> },
    Completed { date: int, outcome: Outcome },
    Discarded { date: int, reason: Seq<char> },
}

/// One step of a task's history. `NotStarted` is the initial state and
/// carries no date; every transition records the date it was made on.
#[derive(Debug)]
pub enum Status {
    NotStarted,
    InProgress { date: Date },
    BlockedByTask { date: Date, id: usize },
    BlockedByOther { date: Date, reason: ShortString },
    Completed { date: Date, outcome: Outcome },
    Discarded { date: Date, reason: ShortString },
}

impl View for Status {
    type V = StatusView;

    open spec fn view(&self) -> StatusView {
        match *self {
            Status::NotStarted => StatusView::NotStarted,
            Status::InProgress { date } => StatusView::InProgress { date: date@ },
            Status::BlockedByTask { date, id } => StatusView::BlockedByTask {
                date: date@,
                id: id as int,
            },
            Status::BlockedByOther { date, ref reason } => StatusView::BlockedByOther {
                date: date@,
                reason: reason@,
            },
            Status::Completed { date, outcome } => StatusView::Completed {
                date: date@,
                outcome,
            },
            Status::Discarded { date, ref reason } => StatusView::Discarded {
                date: date@,
                reason: reason@,
            },
        }
    }
}

impl DeepView for Status {
    type V = StatusView;

    open spec fn deep_view(&self) -> StatusView {
        self.view()
    }
}

/// A status value the tracker can hold: its date lies in the date range and
/// any reason is a valid short description.
pub open spec fn status_view_wf(s: StatusView) -> bool {
    match s {
        StatusView::NotStarted => true,
        StatusView::InProgress { date } => 1 <= date <= MAX_DAY_NUMBER,
        StatusView::BlockedByTask { date, id } => 1 <= date <= MAX_DAY_NUMBER && 0 <= id
            <= usize::MAX,
        StatusView::BlockedByOther { date, reason } => 1 <= date <= MAX_DAY_NUMBER && 1
            <= reason.len() <= 50,
        StatusView::Completed { date, .. } => 1 <= date <= MAX_DAY_NUMBER,
        StatusView::Discarded { date, reason } => 1 <= date <= MAX_DAY_NUMBER && 1 <= reason.len()
            <= 50,
    }
}

impl Status {
    /// A well-formed status.
    pub open spec fn wf(self) -> bool {
        status_view_wf(self@)
    }

    /// An in-progress step recorded today.
    pub fn in_progress(today: Date) -> (s: Status)
        requires
            today.in_range(),
        ensures
            s@ == (StatusView::InProgress { date: today@ }),
            s.wf(),
    {
        Status::InProgress { date: today }
    }

    /// A blocked-by-task step recorded today, referring to the task `id` of
    /// the given store; fails with a reference error when no task lives at
    /// `id`, as the blocking task must exist when the block is recorded.
    pub fn blocked_by_task(id: usize, tasks: &Tasks, today: Date) -> (r: Result<
        Status,
        TrackerError,
    >)
        requires
            today.in_range(),
        ensures
            r is Ok <==> id < tasks@.len(),
            r matches Ok(s) ==> s@ == (StatusView::BlockedByTask {
                date: today@,
                id: id as int,
            }) && s.wf(),
            r matches Err(e) ==> e == TrackerError::Reference(ReferenceError::UnknownTaskId(id)),
    {
        if !tasks.has_id(id) {
            Err(TrackerError::Reference(ReferenceError::UnknownTaskId(id)))
        } else {
            Ok(Status::BlockedByTask { date: today, id })
        }
    }

    /// A blocked-for-a-reason step recorded today; always succeeds.
    pub fn blocked_by_other(reason: ShortString, today: Date) -> (s: Status)
        requires
            today.in_range(),
            reason.wf(),
        ensures
            s@ == (StatusView::BlockedByOther { date: today@, reason: reason@ }),
            s.wf(),
    {
        Status::BlockedByOther { date: today, reason }
    }

    /// A completed step with the given outcome; the date is caller-supplied,
    /// which allows back-dating a completion.
    pub fn completed(outcome: Outcome, date: Date) -> (s: Status)
        requires
            date.in_range(),
        ensures
            s@ == (StatusView::Completed { date: date@, outcome }),
            s.wf(),
    {
        Status::Completed { date, outcome }
    }

    /// A discarded-for-a-reason step recorded today; always succeeds.
    pub fn discarded(reason: ShortString, today: Date) -> (s: Status)
        requires
            today.in_range(),
            reason.wf(),
        ensures
            s@ == (StatusView::Discarded { date: today@, reason: reason@ }),
            s.wf(),
    {
        Status::Discarded { date: today, reason }
    }

    /// Renders this status as its fixed human-readable line.
    pub fn render(&self) -> (r: String)
        requires
            self.wf(),
        ensures
            r@ == status_text(self@),
    {
        match self {
            Status::NotStarted => "NOT STARTED".to_owned(),
            Status::InProgress { date } => {
                let mut s = date.render();
                s.append(" :: IN PROGRESS");
                s
            },
            Status::BlockedByTask { date, id } => {
                let mut s = date.render();
                s.append(" :: BLOCKED ID=");
                push_decimal(&mut s, *id as u64);
                s
            },
            Status::BlockedByOther { date, reason } => {
                let mut s = date.render();
                s.append(" :: BLOCKED ");
                s.append(reason.as_str());
                s
            },
            Status::Completed { date, outcome } => {
                let mut s = date.render();
                s.append(" :: COMPLETED ");
                s.append(outcome.as_symbol());
                s
            },
            Status::Discarded { date, reason } => {
                let mut s = date.render();
                s.append(" :: DISCARDED ");
                s.append(reason.as_str());
                s
            },
        }
    }
}

impl Default for Status {
    /// A task starts its history as not started.
    fn default() -> (s: Status)
        ensures
            s@ == StatusView::NotStarted,
    {
        Status::NotStarted
    }
}

/// The rendered line of a status: the date it was recorded on and a
/// tag-specific message.
pub open spec fn status_text(s: StatusView) -> Seq<char> {
    match s {
        StatusView::NotStarted => "NOT STARTED"@,
        StatusView::InProgress { date } => date_text(date) + " :: IN PROGRESS"@,
        StatusView::BlockedByTask { date, id } => date_text(date) + " :: BLOCKED ID="@
            + decimal_digits(id),
        StatusView::BlockedByOther { date, reason } => date_text(date) + " :: BLOCKED "@ + reason,
        StatusView::Completed { date, outcome } => date_text(date) + " :: COMPLETED "@
            + outcome_symbol(outcome),
        StatusView::Discarded { date, reason } => date_text(date) + " :: DISCARDED "@ + reason,
    }
}

} // verus!
