//! Completion outcomes: success or failure, recorded when a task completes.

use vstd::prelude::*;

verus! {

/// The result recorded when a task is completed.
#[derive(Debug, Clone, Copy, PartialEq, Eq, Structural)]
pub enum Outcome {
    Success,
    Failure,
}

/// The glyph of an outcome, as the reports show it.
pub open spec fn outcome_symbol(o: Outcome) -> Seq<char> {
    match o {
        Outcome::Success => "✓"@,
        Outcome::Failure => "x"@,
    }
}

impl Outcome {
    /// The glyph of this outcome, as the reports show it.
    pub fn as_symbol(&self) -> (r: &'static str)
        ensures
            r@ == outcome_symbol(*self),
    {
        match self {
            Outcome::Success => "✓",
            Outcome::Failure => "x",
        }
    }
}

} // verus!
