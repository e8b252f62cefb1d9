//! Symbolic dates, resolved against "today" once, at input time.

use vstd::prelude::*;
use crate::date::{Date, day_number_of, valid_ymd, weekday_index_of_day};
use crate::error::{TrackerError, ValidationError};
use crate::text::{
    all_digits, digits_value, has_prefix, sep_pieces, split_sep, str_eq, try_strip_prefix,
};

verus! {

/// A day of the week.
#[derive(Debug, Clone, Copy, PartialEq, Eq, Structural)]
pub enum Weekday {
    Mon,
    Tue,
    Wed,
    Thu,
    Fri,
    Sat,
    Sun,
}

/// Days from Monday of a weekday: 0 through 6.
pub open spec fn days_from_monday(w: Weekday) -> int {
    match w {
        Weekday::Mon => 0,
        Weekday::Tue => 1,
        Weekday::Wed => 2,
        Weekday::Thu => 3,
        Weekday::Fri => 4,
        Weekday::Sat => 5,
        Weekday::Sun => 6,
    }
}

/// The weekday a lower-case English name denotes, if any.
pub open spec fn weekday_of_text(s: Seq<char>) -> Option<Weekday> {
    if s == "monday"@ {
        Some(Weekday::Mon)
    } else if s == "tuesday"@ {
        Some(Weekday::Tue)
    } else if s == "wednesday"@ {
        Some(Weekday::Wed)
    } else if s == "thursday"@ {
        Some(Weekday::Thu)
    } else if s == "friday"@ {
        Some(Weekday::Fri)
    } else if s == "saturday"@ {
        Some(Weekday::Sat)
    } else if s == "sunday"@ {
        Some(Weekday::Sun)
    } else {
        None
    }
}

/// Parses a lower-case English weekday name.
pub fn parse_weekday(s: &str) -> (r: Result<Weekday, TrackerError>)
    ensures
        r is Ok <==> weekday_of_text(s@) is Some,
        r matches Ok(w) ==> weekday_of_text(s@) == Some(w),
        r matches Err(e) ==> e == TrackerError::Validation(ValidationError::BadWeekdayText),
{
    if str_eq(s, "monday") {
        Ok(Weekday::Mon)
    } else if str_eq(s, "tuesday") {
        Ok(Weekday::Tue)
    } else if str_eq(s, "wednesday") {
        Ok(Weekday::Wed)
    } else if str_eq(s, "thursday") {
        Ok(Weekday::Thu)
    } else if str_eq(s, "friday") {
        Ok(Weekday::Fri)
    } else if str_eq(s, "saturday") {
        Ok(Weekday::Sat)
    } else if str_eq(s, "sunday") {
        Ok(Weekday::Sun)
    } else {
        Err(TrackerError::Validation(ValidationError::BadWeekdayText))
    }
}

/// A date given symbolically or literally, resolved once against "today".
#[derive(Debug, Clone, Copy, PartialEq, Eq, Structural)]
pub enum DateSpecifier {
    Today,
    Tomorrow,
    This(Weekday),
    Next(Weekday),
    Date(Date),
}

/// A piece of an explicit `day/month/year` date: one to four digits.
pub open spec fn good_date_piece(p: Seq<char>) -> bool {
    1 <= p.len() <= 4 && all_digits(p)
}

/// The date an explicit `day/month/year` text denotes, if any: three pieces
/// of one to four digits each, naming a calendar day in years 1 through
/// 9999.
pub open spec fn explicit_date_of_text(s: Seq<char>) -> Option<Date> {
    let ps = sep_pieces(s, '/');
    if ps.len() == 3 && good_date_piece(ps[0]) && good_date_piece(ps[1]) && good_date_piece(ps[2]) {
        let d = digits_value(ps[0]);
        let m = digits_value(ps[1]);
        let y = digits_value(ps[2]);
        if valid_ymd(y, m, d) {
            Some(Date { days: day_number_of(y, m, d) as u32 })
        } else {
            None
        }
    } else {
        None
    }
}

/// The specifier a text denotes, if any: `today`, `tomorrow`,
/// `this/<weekday>`, `next/<weekday>`, or an explicit `day/month/year` date.
pub open spec fn date_specifier_of_text(s: Seq<char>) -> Option<DateSpecifier> {
    if s == "today"@ {
        Some(DateSpecifier::Today)
    } else if s == "tomorrow"@ {
        Some(DateSpecifier::Tomorrow)
    } else if has_prefix(s, "this/"@) {
        match weekday_of_text(s.skip("this/"@.len() as int)) {
            Some(w) => Some(DateSpecifier::This(w)),
            None => None,
        }
    } else if has_prefix(s, "next/"@) {
        match weekday_of_text(s.skip("next/"@.len() as int)) {
            Some(w) => Some(DateSpecifier::Next(w)),
            None => None,
        }
    } else {
        match explicit_date_of_text(s) {
            Some(d) => Some(DateSpecifier::Date(d)),
            None => None,
        }
    }
}

/// The day number a specifier resolves to against the day number `today`:
/// `today` itself, the day after, the same ISO week's occurrence of a
/// weekday (which may lie before today), that occurrence a week later, or a
/// literal date. A backward shift never goes past the first day of the
/// calendar.
pub open spec fn resolved_day(ds: DateSpecifier, today: int) -> int {
    let n = match ds {
        DateSpecifier::Today => today,
        DateSpecifier::Tomorrow => today + 1,
        DateSpecifier::This(w) => today + days_from_monday(w) - weekday_index_of_day(today),
        DateSpecifier::Next(w) => today + days_from_monday(w) - weekday_index_of_day(today) + 7,
        DateSpecifier::Date(d) => d@,
    };
    if n < 1 {
        1
    } else {
        n
    }
}

impl DateSpecifier {
    /// Any date carried literally lies in the tracker's date range.
    pub open spec fn wf(self) -> bool {
        match self {
            DateSpecifier::Date(d) => d.in_range(),
            _ => true,
        }
    }

    fn parse_piece(p: &str) -> (r: Option<u32>)
        ensures
            r is Some <==> good_date_piece(p@),
            r matches Some(v) ==> v == digits_value(p@) && v <= 9999,
    {
        let len = p.unicode_len();
        if len < 1 || len > 4 {
            return None;
        }
        match crate::text::parse_unsigned(p) {
            Some(v) => {
                if p.get_char(0) == '+' {
                    assert(!all_digits(p@));
                    return None;
                }
                proof {
                    assert(crate::text::unsigned_digits(p@) == p@);
                    lemma_small_digits(p@);
                }
                Some(v as u32)
            },
            None => {
                assert(!good_date_piece(p@)) by {
                    if all_digits(p@) {
                        assert(crate::text::unsigned_digits(p@) == p@);
                        lemma_small_digits(p@);
                    }
                }
                None
            },
        }
    }

    /// Parses a date specifier: `today`, `tomorrow`, `this/<weekday>`,
    /// `next/<weekday>`, or an explicit `day/month/year` date.
    pub fn from_str(s: &str) -> (r: Result<DateSpecifier, TrackerError>)
        ensures
            r is Ok <==> date_specifier_of_text(s@) is Some,
            r matches Ok(ds) ==> date_specifier_of_text(s@) == Some(ds) && ds.wf(),
            r matches Err(e) ==> e == TrackerError::Validation(
                if (has_prefix(s@, "this/"@) || has_prefix(s@, "next/"@)) && s@ != "today"@ && s@
                    != "tomorrow"@ {
                    ValidationError::BadWeekdayText
                } else {
                    ValidationError::BadDateText
                },
            ),
    {
        if str_eq(s, "today") {
            Ok(DateSpecifier::Today)
        } else if str_eq(s, "tomorrow") {
            Ok(DateSpecifier::Tomorrow)
        } else if let Some(rest) = try_strip_prefix(s, "this/") {
            match parse_weekday(rest) {
                Ok(w) => Ok(DateSpecifier::This(w)),
                Err(_) => Err(TrackerError::Validation(ValidationError::BadWeekdayText)),
            }
        } else if let Some(rest) = try_strip_prefix(s, "next/") {
            match parse_weekday(rest) {
                Ok(w) => Ok(DateSpecifier::Next(w)),
                Err(_) => Err(TrackerError::Validation(ValidationError::BadWeekdayText)),
            }
        } else {
            let pieces = split_sep(s, '/');
            let ghost ps = sep_pieces(s@, '/');
            if pieces.len() != 3 {
                return Err(TrackerError::Validation(ValidationError::BadDateText));
            }
            assert(pieces.deep_view()[0] == ps[0]);
            assert(pieces.deep_view()[1] == ps[1]);
            assert(pieces.deep_view()[2] == ps[2]);
            let d = Self::parse_piece(pieces[0].as_str());
            let m = Self::parse_piece(pieces[1].as_str());
            let y = Self::parse_piece(pieces[2].as_str());
            match (d, m, y) {
                (Some(d), Some(m), Some(y)) => {
                    match Date::from_ymd(y, m, d) {
                        Some(date) => Ok(DateSpecifier::Date(date)),
                        None => Err(TrackerError::Validation(ValidationError::BadDateText)),
                    }
                },
                _ => Err(TrackerError::Validation(ValidationError::BadDateText)),
            }
        }
    }

    fn days_from_monday_exec(w: Weekday) -> (r: u32)
        ensures
            r == days_from_monday(w),
            r <= 6,
    {
        match w {
            Weekday::Mon => 0,
            Weekday::Tue => 1,
            Weekday::Wed => 2,
            Weekday::Thu => 3,
            Weekday::Fri => 4,
            Weekday::Sat => 5,
            Weekday::Sun => 6,
        }
    }

    /// Resolves this specifier against `today`.
    pub fn resolve(self, today: Date) -> (r: Date)
        requires
            today.in_start_range(),
            self.wf(),
        ensures
            r@ == resolved_day(self, today@),
            r.in_range(),
    {
        match self {
            DateSpecifier::Today => today,
            DateSpecifier::Tomorrow => Date { days: today.days + 1 },
            DateSpecifier::This(w) => {
                let target = Self::days_from_monday_exec(w);
                let index = today.weekday_index();
                let shifted: u32 = today.days + target;
                if shifted < index + 1 {
                    Date { days: 1 }
                } else {
                    Date { days: shifted - index }
                }
            },
            DateSpecifier::Next(w) => {
                let target = Self::days_from_monday_exec(w);
                let index = today.weekday_index();
                Date { days: today.days + target + 7 - index }
            },
            DateSpecifier::Date(d) => d,
        }
    }
}

/// A text of at most four digits has a value below ten thousand.
proof fn lemma_small_digits(p: Seq<char>)
    requires
        all_digits(p),
    ensures
        0 <= digits_value(p),
        p.len() <= 1 ==> digits_value(p) <= 9,
        p.len() <= 2 ==> digits_value(p) <= 99,
        p.len() <= 3 ==> digits_value(p) <= 999,
        p.len() <= 4 ==> digits_value(p) <= 9999,
    decreases p.len(),
{
    if p.len() > 0 {
        assert(all_digits(p.drop_last()));
        lemma_small_digits(p.drop_last());
    }
}

} // verus!
