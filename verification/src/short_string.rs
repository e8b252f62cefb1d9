//! Validated short descriptions: 1 to 50 characters.

use vstd::prelude::*;
use crate::error::{TrackerError, ValidationError};

verus! {

/// Character budget of a short description, and of one wrapped report line.
pub const SHORT_STRING_THRESHOLD: usize = 50;

/// A short description, validated to hold 1 to 50 characters (counted as
/// characters, not bytes).
#[derive(Debug)]
pub struct ShortString {
    pub text: String,
}

impl View for ShortString {
    type V = Seq<char>;

    open spec fn view(&self) -> Seq<char> {
        self.text@
    }
}

impl ShortString {
    /// The validated length range.
    pub open spec fn wf(self) -> bool {
        1 <= self@.len() <= 50
    }

    /// Validates a short description: construction succeeds exactly when the
    /// text has 1 to 50 characters.
    pub fn from_str(s: &str) -> (r: Result<ShortString, TrackerError>)
        ensures
            r is Ok <==> 1 <= s@.len() <= 50,
            r matches Ok(t) ==> t@ == s@ && t.wf(),
            r matches Err(e) ==> e == TrackerError::Validation(
                if s@.len() == 0 {
                    ValidationError::EmptyShortText
                } else {
                    ValidationError::OverlongShortText
                },
            ),
    {
        let len = s.unicode_len();
        if len == 0 {
            Err(TrackerError::Validation(ValidationError::EmptyShortText))
        } else if len <= SHORT_STRING_THRESHOLD {
            Ok(ShortString { text: s.to_owned() })
        } else {
            Err(TrackerError::Validation(ValidationError::OverlongShortText))
        }
    }

    /// The text of the description.
    pub fn as_str(&self) -> (r: &str)
        ensures
            r@ == self@,
    {
        self.text.as_str()
    }
}

} // verus!
