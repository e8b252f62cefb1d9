//! Tags: labels of alphanumeric characters and hyphens, held by a task as a
//! set.

use vstd::prelude::*;
use crate::error::{TrackerError, ValidationError};
use crate::text::{sep_pieces, split_sep};

verus! {

/// Names the outcome of `char::is_alphanumeric`, which depends on the
/// character alone.
pub uninterp spec fn is_alphanumeric_char(c: char) -> bool;

/// Relies on `char::is_alphanumeric`: whether the character is in one of the
/// Unicode letter or number categories. The result depends on the character
/// alone.
#[verifier::external_body]
fn char_is_alphanumeric(c: char) -> (r: bool)
    ensures
        r == is_alphanumeric_char(c),
{
    c.is_alphanumeric()
}

/// A character a tag may hold: alphanumeric or a hyphen.
pub open spec fn valid_tag_char(c: char) -> bool {
    is_alphanumeric_char(c) || c == '-'
}

/// Text a tag may hold.
pub open spec fn valid_tag_text(s: Seq<char>) -> bool {
    forall|k: int| 0 <= k < s.len() ==> valid_tag_char(s[k])
}

/// A label for cross-cutting categorisation, restricted to alphanumeric
/// characters and hyphens.
#[derive(Debug)]
pub struct Tag {
    pub text: String,
}

impl View for Tag {
    type V = Seq<char>;

    open spec fn view(&self) -> Seq<char> {
        self.text@
    }
}

impl DeepView for Tag {
    type V = Seq<char>;

    open spec fn deep_view(&self) -> Seq<char> {
        self.text@
    }
}

impl Tag {
    /// The validated character restriction.
    pub open spec fn wf(self) -> bool {
        valid_tag_text(self@)
    }

    /// Validates a tag: construction succeeds exactly when every character
    /// is alphanumeric or a hyphen.
    pub fn from_str(s: &str) -> (r: Result<Tag, TrackerError>)
        ensures
            r is Ok <==> valid_tag_text(s@),
            r matches Ok(t) ==> t@ == s@ && t.wf(),
            r matches Err(e) ==> e == TrackerError::Validation(ValidationError::BadTagText),
    {
        let len = s.unicode_len();
        let mut i: usize = 0;
        while i < len
            invariant
                i <= len,
                len == s@.len(),
                forall|k: int| 0 <= k < i ==> valid_tag_char(s@[k]),
            decreases len - i,
        {
            let c = s.get_char(i);
            if !(char_is_alphanumeric(c) || c == '-') {
                assert(!valid_tag_char(s@[i as int]));
                return Err(TrackerError::Validation(ValidationError::BadTagText));
            }
            i = i + 1;
        }
        Ok(Tag { text: s.to_owned() })
    }

    /// The text of the tag.
    pub fn as_str(&self) -> (r: &str)
        ensures
            r@ == self@,
    {
        self.text.as_str()
    }

    /// Whether two tags hold the same text.
    pub fn same_as(&self, other: &Tag) -> (r: bool)
        ensures
            r == (self@ == other@),
    {
        self.text == other.text
    }
}

/// Validates each comma-separated piece of `s` as a tag. An empty text
/// yields one empty tag, as splitting does.
pub fn tags_from_comma_separated_string(s: String) -> (r: Result<Vec<Tag>, TrackerError>)
    ensures
        r is Ok <==> (forall|k: int|
            0 <= k < sep_pieces(s@, ',').len() ==> valid_tag_text(#[trigger] sep_pieces(s@, ',')[k])),
        r matches Ok(v) ==> v.deep_view() == sep_pieces(s@, ','),
        r matches Err(e) ==> e == TrackerError::Validation(ValidationError::BadTagText),
{
    let pieces = split_sep(s.as_str(), ',');
    let ghost ps = sep_pieces(s@, ',');
    let mut out: Vec<Tag> = Vec::new();
    let mut i: usize = 0;
    while i < pieces.len()
        invariant
            i <= pieces.len(),
            ps == sep_pieces(s@, ','),
            pieces.deep_view() == ps,
            ps.len() == pieces.len(),
            out.len() == i,
            forall|k: int| 0 <= k < i ==> (#[trigger] out@[k])@ == ps[k],
            forall|k: int| 0 <= k < i ==> valid_tag_text(#[trigger] ps[k]),
        decreases pieces.len() - i,
    {
        assert(pieces.deep_view()[i as int] == ps[i as int]);
        let tag = match Tag::from_str(pieces[i].as_str()) {
            Ok(t) => t,
            Err(e) => {
                return Err(e);
            },
        };
        let ghost prev = out@;
        out.push(tag);
        proof {
            assert forall|k: int| 0 <= k < i + 1 implies (#[trigger] out@[k])@ == ps[k] by {
                if k < i {
                    assert(out@[k] == prev[k]);
                } else {
                    assert(out@[k] == prev.push(tag)[k]);
                }
            }
        }
        i = i + 1;
    }
    assert(out.deep_view() =~= ps);
    Ok(out)
}

} // verus!
