//! Calendar dates as plain day numbers.
//!
//! A [`Date`] holds the number of days since the start of the proleptic
//! Gregorian calendar, counting 1 January of year 1 as day 1. The calendar
//! itself is stated once, recursively, by [`year_start_day`] and
//! [`month_start_day`]; conversion in both directions, weekday computation
//! and rendering are verified against those definitions. The only trusted
//! call is the one that reads the local clock.

use vstd::prelude::*;
use crate::text::{zero_padded_decimal, push_zero_padded};
use chrono::Datelike;

verus! {

/// No day number handled by the tracker exceeds this bound.
pub const MAX_DAY_NUMBER: u32 = 4_000_000;

/// Day numbers up to this bound (late in year 10000) leave room for the
/// small forward shifts that symbolic date resolution adds.
pub const MAX_START_DAY: u32 = 3_660_000;

/// A year with an extra leap day.
pub open spec fn is_leap_year(y: int) -> bool {
    y % 4 == 0 && (y % 100 != 0 || y % 400 == 0)
}

/// Days in the given calendar year.
pub open spec fn days_in_year(y: int) -> int {
    if is_leap_year(y) {
        366
    } else {
        365
    }
}

/// Days in month `m` (1 through 12) of year `y`.
pub open spec fn days_in_month(y: int, m: int) -> int {
    if m == 2 {
        if is_leap_year(y) {
            29
        } else {
            28
        }
    } else if m == 4 || m == 6 || m == 9 || m == 11 {
        30
    } else {
        31
    }
}

/// Day number of 1 January of year `y`; day number 1 is 1 January of year 1.
pub open spec fn year_start_day(y: int) -> int
    decreases y,
{
    if y <= 1 {
        1
    } else {
        year_start_day(y - 1) + days_in_year(y - 1)
    }
}

/// Day number of the first day of month `m` of year `y`.
pub open spec fn month_start_day(y: int, m: int) -> int
    decreases m,
{
    if m <= 1 {
        year_start_day(y)
    } else {
        month_start_day(y, m - 1) + days_in_month(y, m - 1)
    }
}

/// Day number of the calendar date `y`-`m`-`d`.
pub open spec fn day_number_of(y: int, m: int, d: int) -> int {
    month_start_day(y, m) + d - 1
}

/// A calendar date the tracker accepts in `day/month/year` text form.
pub open spec fn valid_ymd(y: int, m: int, d: int) -> bool {
    1 <= y <= 9999 && 1 <= m <= 12 && 1 <= d <= days_in_month(y, m)
}

/// The year whose days contain day number `n`, found by scanning up from
/// year `y`.
pub open spec fn year_scan(n: int, y: int) -> int
    decreases n - year_start_day(y) when 1 <= y && year_start_day(y) <= n
{
    if year_start_day(y + 1) <= n {
        year_scan(n, y + 1)
    } else {
        y
    }
}

/// The month of year `y` whose days contain day number `n`, found by
/// scanning up from month `m`.
pub open spec fn month_scan(n: int, y: int, m: int) -> int
    decreases 12 - m when 1 <= m <= 12
{
    if m < 12 && month_start_day(y, m + 1) <= n {
        month_scan(n, y, m + 1)
    } else {
        m
    }
}

/// The calendar year of day number `n` (for `n >= 1`).
pub open spec fn year_of_day(n: int) -> int {
    year_scan(n, 1)
}

/// The calendar month of day number `n` (for `n >= 1`).
pub open spec fn month_of_day(n: int) -> int {
    month_scan(n, year_of_day(n), 1)
}

/// The day of the month of day number `n` (for `n >= 1`).
pub open spec fn day_of_month_of_day(n: int) -> int {
    n - month_start_day(year_of_day(n), month_of_day(n)) + 1
}

/// Days from Monday of the weekday of day number `n`: 0 is Monday, 6 is
/// Sunday. Day number 1, 1 January of year 1, was a Monday.
pub open spec fn weekday_index_of_day(n: int) -> int {
    (n + 6) % 7
}

/// `year_start_day` grows by at least one day per year.
proof fn lemma_year_start_at_least(y: int)
    requires
        1 <= y,
    ensures
        year_start_day(y) >= y,
    decreases y,
{
    if y > 1 {
        lemma_year_start_at_least(y - 1);
    }
}

/// A linear upper bound on `year_start_day`.
proof fn lemma_year_start_at_most(y: int)
    requires
        1 <= y,
    ensures
        year_start_day(y) <= 366 * y - 365,
    decreases y,
{
    if y > 1 {
        lemma_year_start_at_most(y - 1);
    }
}

/// A linear upper bound on `month_start_day`.
proof fn lemma_month_start_at_most(y: int, m: int)
    requires
        1 <= m,
    ensures
        month_start_day(y, m) <= year_start_day(y) + 31 * (m - 1),
    decreases m,
{
    if m > 1 {
        lemma_month_start_at_most(y, m - 1);
    }
}

/// A date: a day number in the proleptic Gregorian calendar, with 1 January
/// of year 1 as day 1.
#[derive(Debug, Clone, Copy, PartialEq, Eq, Structural)]
pub struct Date {
    pub days: u32,
}

impl View for Date {
    type V = int;

    open spec fn view(&self) -> int {
        self.days as int
    }
}

impl Date {
    /// Every date the tracker handles lies in this range.
    pub open spec fn in_range(self) -> bool {
        1 <= self.days <= MAX_DAY_NUMBER
    }

    /// Dates in this range leave room for the forward shifts of symbolic
    /// date resolution.
    pub open spec fn in_start_range(self) -> bool {
        1 <= self.days <= MAX_START_DAY
    }

    /// Days in the given year, as executable code.
    fn days_in_year_exec(y: u32) -> (d: u32)
        ensures
            d == days_in_year(y as int),
    {
        if y % 4 == 0 && (y % 100 != 0 || y % 400 == 0) {
            366
        } else {
            365
        }
    }

    /// Days in the given month, as executable code.
    fn days_in_month_exec(y: u32, m: u32) -> (d: u32)
        ensures
            d == days_in_month(y as int, m as int),
    {
        if m == 2 {
            if y % 4 == 0 && (y % 100 != 0 || y % 400 == 0) {
                29
            } else {
                28
            }
        } else if m == 4 || m == 6 || m == 9 || m == 11 {
            30
        } else {
            31
        }
    }

    /// The date of the calendar day `year`-`month`-`day`, or `None` when no
    /// such calendar day exists (years 1 through 9999 are accepted).
    pub fn from_ymd(year: u32, month: u32, day: u32) -> (r: Option<Date>)
        ensures
            r is Some <==> valid_ymd(year as int, month as int, day as int),
            r matches Some(d) ==> {
                &&& d@ == day_number_of(year as int, month as int, day as int)
                &&& d.in_range()
                &&& d.in_start_range()
            },
    {
        if !(1 <= year && year <= 9999 && 1 <= month && month <= 12) {
            return None;
        }
        if !(1 <= day && day <= Self::days_in_month_exec(year, month)) {
            return None;
        }
        let mut y: u32 = 1;
        let mut start: u32 = 1;
        proof {
            lemma_year_start_at_most(year as int);
        }
        while y < year
            invariant
                1 <= y <= year <= 9999,
                start == year_start_day(y as int),
                1 <= start <= 366 * y - 365,
            decreases year - y,
        {
            proof {
                lemma_year_start_at_most(y as int + 1);
            }
            start = start + Self::days_in_year_exec(y);
            y = y + 1;
        }
        let mut m: u32 = 1;
        let mut mstart: u32 = start;
        proof {
            lemma_month_start_at_most(year as int, month as int);
        }
        while m < month
            invariant
                1 <= m <= month <= 12,
                y == year,
                start == year_start_day(year as int),
                start <= 366 * year - 365 <= 366 * 9999 - 365,
                mstart == month_start_day(year as int, m as int),
                start <= mstart <= start + 31 * (m - 1),
            decreases month - m,
        {
            proof {
                lemma_month_start_at_most(year as int, m as int + 1);
            }
            mstart = mstart + Self::days_in_month_exec(year, m);
            m = m + 1;
        }
        Some(Date { days: mstart + day - 1 })
    }

    /// The calendar triple (year, month, day of month) of this date.
    pub fn to_ymd(&self) -> (r: (u32, u32, u32))
        requires
            self.in_range(),
        ensures
            r.0 == year_of_day(self@),
            r.1 == month_of_day(self@),
            r.2 == day_of_month_of_day(self@),
    {
        let n = self.days;
        let mut y: u32 = 1;
        let mut start: u32 = 1;
        let mut next: u32 = 1 + Self::days_in_year_exec(1);
        while next <= n
            invariant
                1 <= y <= start,
                start == year_start_day(y as int),
                start <= n <= MAX_DAY_NUMBER,
                next == start + days_in_year(y as int),
                year_of_day(n as int) == year_scan(n as int, y as int),
            decreases n - start,
        {
            start = next;
            y = y + 1;
            next = start + Self::days_in_year_exec(y);
        }
        assert(year_of_day(n as int) == y as int);
        let mut m: u32 = 1;
        let mut mstart: u32 = start;
        let mut mnext: u32 = mstart + Self::days_in_month_exec(y, 1);
        while m < 12 && mnext <= n
            invariant
                1 <= m <= 12,
                y == year_of_day(n as int),
                mstart == month_start_day(y as int, m as int),
                mstart <= n <= MAX_DAY_NUMBER,
                mnext == mstart + days_in_month(y as int, m as int),
                month_of_day(n as int) == month_scan(n as int, y as int, m as int),
            decreases 12 - m,
        {
            mstart = mnext;
            m = m + 1;
            mnext = mstart + Self::days_in_month_exec(y, m);
        }
        assert(month_of_day(n as int) == m as int);
        (y, m, n - mstart + 1)
    }

    /// The date with the given day number, clamped into the range that every
    /// tracker date lies in.
    pub fn from_day_number(n: i32) -> (d: Date)
        ensures
            d@ == if n < 1 {
                1
            } else if n > MAX_START_DAY as int {
                MAX_START_DAY as int
            } else {
                n as int
            },
            d.in_range(),
            d.in_start_range(),
    {
        if n < 1 {
            Date { days: 1 }
        } else if n > MAX_START_DAY as i32 {
            Date { days: MAX_START_DAY }
        } else {
            Date { days: n as u32 }
        }
    }

    /// Days from Monday of this date's weekday: 0 is Monday, 6 is Sunday.
    pub fn weekday_index(&self) -> (w: u32)
        requires
            self.in_range(),
        ensures
            w == weekday_index_of_day(self@),
            w <= 6,
    {
        (self.days + 6) % 7
    }

    /// Renders this date as its weekday abbreviation, zero-padded day of
    /// month, month abbreviation and zero-padded year, in the fixed form
    /// `Wed, 05-Jan-2022`.
    pub fn render(&self) -> (s: String)
        requires
            self.in_range(),
        ensures
            s@ == date_text(self@),
    {
        let (y, m, d) = self.to_ymd();
        let mut s = String::new();
        s.append(weekday_abbrev_exec(self.weekday_index()));
        s.append(", ");
        push_zero_padded(&mut s, d as u64, 2);
        s.append("-");
        s.append(month_abbrev_exec(m));
        s.append("-");
        push_zero_padded(&mut s, y as u64, 4);
        assert(s@ =~= date_text(self@));
        s
    }
}

/// The three-letter abbreviation of the weekday with the given days-from-
/// Monday index.
pub open spec fn weekday_abbrev(w: int) -> Seq<char> {
    if w == 0 {
        "Mon"@
    } else if w == 1 {
        "Tue"@
    } else if w == 2 {
        "Wed"@
    } else if w == 3 {
        "Thu"@
    } else if w == 4 {
        "Fri"@
    } else if w == 5 {
        "Sat"@
    } else {
        "Sun"@
    }
}

fn weekday_abbrev_exec(w: u32) -> (s: &'static str)
    ensures
        s@ == weekday_abbrev(w as int),
{
    if w == 0 {
        "Mon"
    } else if w == 1 {
        "Tue"
    } else if w == 2 {
        "Wed"
    } else if w == 3 {
        "Thu"
    } else if w == 4 {
        "Fri"
    } else if w == 5 {
        "Sat"
    } else {
        "Sun"
    }
}

/// The three-letter abbreviation of the month with the given number, 1
/// through 12.
pub open spec fn month_abbrev(m: int) -> Seq<char> {
    if m == 1 {
        "Jan"@
    } else if m == 2 {
        "Feb"@
    } else if m == 3 {
        "Mar"@
    } else if m == 4 {
        "Apr"@
    } else if m == 5 {
        "May"@
    } else if m == 6 {
        "Jun"@
    } else if m == 7 {
        "Jul"@
    } else if m == 8 {
        "Aug"@
    } else if m == 9 {
        "Sep"@
    } else if m == 10 {
        "Oct"@
    } else if m == 11 {
        "Nov"@
    } else {
        "Dec"@
    }
}

fn month_abbrev_exec(m: u32) -> (s: &'static str)
    ensures
        s@ == month_abbrev(m as int),
{
    if m == 1 {
        "Jan"
    } else if m == 2 {
        "Feb"
    } else if m == 3 {
        "Mar"
    } else if m == 4 {
        "Apr"
    } else if m == 5 {
        "May"
    } else if m == 6 {
        "Jun"
    } else if m == 7 {
        "Jul"
    } else if m == 8 {
        "Aug"
    } else if m == 9 {
        "Sep"
    } else if m == 10 {
        "Oct"
    } else if m == 11 {
        "Nov"
    } else {
        "Dec"
    }
}

/// The rendered text of the date with day number `n`.
pub open spec fn date_text(n: int) -> Seq<char> {
    weekday_abbrev(weekday_index_of_day(n)) + ", "@ + zero_padded_decimal(
        day_of_month_of_day(n),
        2,
    ) + "-"@ + month_abbrev(month_of_day(n)) + "-"@ + zero_padded_decimal(year_of_day(n), 4)
}

/// Relies on `chrono::Local::now`, `DateTime::date_naive` and
/// `Datelike::num_days_from_ce`: reads the local clock and counts the days
/// of the current local calendar date in the proleptic Gregorian calendar,
/// with 1 January of year 1 as day 1. The result depends on the clock, so
/// nothing is promised of it. On a system whose clock reads before 1970
/// this chrono call does not return — a failure of the environment at the
/// clock boundary, not an input the tracker admits.
#[verifier::external_body]
fn clock_day_number() -> i32 {
    chrono::Local::now().date_naive().num_days_from_ce()
}

/// Today's date, read from the local clock and clamped into the tracker's
/// date range.
pub fn today() -> (d: Date)
    ensures
        d.in_range(),
        d.in_start_range(),
{
    Date::from_day_number(clock_day_number())
}

} // verus!
