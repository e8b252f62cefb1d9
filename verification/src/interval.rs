//! Lookback windows: a number of days, weeks or months ending at "today".

use vstd::prelude::*;
use crate::date::Date;
use crate::error::{TrackerError, ValidationError};
use crate::text::{has_prefix, parse_unsigned, parses_as_unsigned, try_strip_prefix, unsigned_value};

verus! {

/// A lookback window ending at "today": so many days, whole weeks, or
/// months of thirty days.
#[derive(Debug, Clone, Copy, PartialEq, Eq, Structural)]
pub enum TimeInterval {
    Days(usize),
    Weeks(usize),
    Months(usize),
}

/// Whether the day number `date` lies inside the window `iv` ending at the
/// day number `today`. A future date is always contained; otherwise `Days(n)`
/// admits a lag of at most `n` days, `Weeks(n)` a lag of at most `n` whole
/// weeks, and `Months(n)` a lag of at most `30 * n` days.
pub open spec fn interval_contains(iv: TimeInterval, today: int, date: int) -> bool {
    let delta = today - date;
    if delta < 0 {
        true
    } else {
        match iv {
            TimeInterval::Days(n) => delta <= n,
            TimeInterval::Weeks(n) => delta / 7 <= n,
            TimeInterval::Months(n) => delta <= 30 * (n as int),
        }
    }
}

/// The interval a `days/N`, `weeks/N` or `months/N` text denotes, if any.
pub open spec fn interval_of_text(s: Seq<char>) -> Option<TimeInterval> {
    if has_prefix(s, "days/"@) {
        let num = s.skip("days/"@.len() as int);
        if parses_as_unsigned(num) {
            Some(TimeInterval::Days(unsigned_value(num) as usize))
        } else {
            None
        }
    } else if has_prefix(s, "weeks/"@) {
        let num = s.skip("weeks/"@.len() as int);
        if parses_as_unsigned(num) {
            Some(TimeInterval::Weeks(unsigned_value(num) as usize))
        } else {
            None
        }
    } else if has_prefix(s, "months/"@) {
        let num = s.skip("months/"@.len() as int);
        if parses_as_unsigned(num) {
            Some(TimeInterval::Months(unsigned_value(num) as usize))
        } else {
            None
        }
    } else {
        None
    }
}

impl TimeInterval {
    /// Whether `date` lies inside this window ending at `today`.
    pub fn contains(&self, today: Date, date: Date) -> (r: bool)
        requires
            today.in_range(),
            date.in_range(),
        ensures
            r == interval_contains(*self, today@, date@),
    {
        if date.days > today.days {
            return true;
        }
        let delta = today.days - date.days;
        match self {
            TimeInterval::Days(n) => delta as usize <= *n,
            TimeInterval::Weeks(n) => (delta / 7) as usize <= *n,
            TimeInterval::Months(n) => {
                if *n >= 140_000 {
                    true
                } else {
                    delta <= 30 * (*n as u32)
                }
            },
        }
    }

    /// Parses a window given as `days/N`, `weeks/N` or `months/N`.
    pub fn from_str(s: &str) -> (r: Result<TimeInterval, TrackerError>)
        ensures
            r is Ok <==> interval_of_text(s@) is Some,
            r matches Ok(iv) ==> interval_of_text(s@) == Some(iv),
            r matches Err(e) ==> e == TrackerError::Validation(ValidationError::BadIntervalText),
    {
        if let Some(num) = try_strip_prefix(s, "days/") {
            match parse_unsigned(num) {
                Some(n) => Ok(TimeInterval::Days(n)),
                None => Err(TrackerError::Validation(ValidationError::BadIntervalText)),
            }
        } else if let Some(num) = try_strip_prefix(s, "weeks/") {
            match parse_unsigned(num) {
                Some(n) => Ok(TimeInterval::Weeks(n)),
                None => Err(TrackerError::Validation(ValidationError::BadIntervalText)),
            }
        } else if let Some(num) = try_strip_prefix(s, "months/") {
            match parse_unsigned(num) {
                Some(n) => Ok(TimeInterval::Months(n)),
                None => Err(TrackerError::Validation(ValidationError::BadIntervalText)),
            }
        } else {
            Err(TrackerError::Validation(ValidationError::BadIntervalText))
        }
    }
}

/// A zero-day window holds today and nothing before it, and every window
/// holds every future date.
pub proof fn lemma_window_edges(iv: TimeInterval, today: int, date: int)
    ensures
        interval_contains(TimeInterval::Days(0), today, today),
        !interval_contains(TimeInterval::Days(0), today, today - 1),
        today < date ==> interval_contains(iv, today, date),
{
}

} // verus!
