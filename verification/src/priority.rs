//! Task priorities: five ordered levels, each with a star glyph.

use vstd::prelude::*;
use crate::error::{TrackerError, ValidationError};
use crate::text::str_eq;

verus! {

/// How urgent a task is; `Normal` is the default. Sorting by priority puts
/// the highest level first.
#[derive(Debug, Clone, Copy, PartialEq, Eq, Structural)]
pub enum Priority {
    VeryLow,
    Low,
    Normal,
    High,
    VeryHigh,
}

/// The ordinal of a priority level, 1 through 5.
pub open spec fn priority_rank(p: Priority) -> int {
    match p {
        Priority::VeryLow => 1,
        Priority::Low => 2,
        Priority::Normal => 3,
        Priority::High => 4,
        Priority::VeryHigh => 5,
    }
}

/// The priority a name or level digit denotes, if any.
pub open spec fn priority_of_text(s: Seq<char>) -> Option<Priority> {
    if s == "very-low"@ || s == "1"@ {
        Some(Priority::VeryLow)
    } else if s == "low"@ || s == "2"@ {
        Some(Priority::Low)
    } else if s == "normal"@ || s == "3"@ {
        Some(Priority::Normal)
    } else if s == "high"@ || s == "4"@ {
        Some(Priority::High)
    } else if s == "very-high"@ || s == "5"@ {
        Some(Priority::VeryHigh)
    } else {
        None
    }
}

/// The star glyph of a priority level: one star per ordinal.
pub open spec fn priority_symbol(p: Priority) -> Seq<char> {
    match p {
        Priority::VeryLow => "★"@,
        Priority::Low => "★★"@,
        Priority::Normal => "★★★"@,
        Priority::High => "★★★★"@,
        Priority::VeryHigh => "★★★★★"@,
    }
}

impl Priority {
    /// The ordinal of this level, 1 through 5.
    pub fn rank(&self) -> (r: u64)
        ensures
            r == priority_rank(*self),
            1 <= r <= 5,
    {
        match self {
            Priority::VeryLow => 1,
            Priority::Low => 2,
            Priority::Normal => 3,
            Priority::High => 4,
            Priority::VeryHigh => 5,
        }
    }

    /// The star glyph of this level, one star per ordinal.
    pub fn as_symbol(&self) -> (r: &'static str)
        ensures
            r@ == priority_symbol(*self),
    {
        match self {
            Priority::VeryLow => "★",
            Priority::Low => "★★",
            Priority::Normal => "★★★",
            Priority::High => "★★★★",
            Priority::VeryHigh => "★★★★★",
        }
    }

    /// Parses a priority name or its level digit.
    pub fn from_str(s: &str) -> (r: Result<Priority, TrackerError>)
        ensures
            r is Ok <==> priority_of_text(s@) is Some,
            r matches Ok(p) ==> priority_of_text(s@) == Some(p),
            r matches Err(e) ==> e == TrackerError::Validation(ValidationError::BadPriorityText),
    {
        if str_eq(s, "very-low") || str_eq(s, "1") {
            Ok(Priority::VeryLow)
        } else if str_eq(s, "low") || str_eq(s, "2") {
            Ok(Priority::Low)
        } else if str_eq(s, "normal") || str_eq(s, "3") {
            Ok(Priority::Normal)
        } else if str_eq(s, "high") || str_eq(s, "4") {
            Ok(Priority::High)
        } else if str_eq(s, "very-high") || str_eq(s, "5") {
            Ok(Priority::VeryHigh)
        } else {
            Err(TrackerError::Validation(ValidationError::BadPriorityText))
        }
    }
}

impl Default for Priority {
    /// The default priority is `Normal`.
    fn default() -> (r: Priority)
        ensures
            r == Priority::Normal,
    {
        Priority::Normal
    }
}

} // verus!
