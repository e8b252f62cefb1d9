//! The persistence codec: the store laid out as a flat byte encoding, and a
//! decoder that re-checks every invariant. Decoding an encoding returns the
//! very store that was encoded; decoding anything else fails with a
//! corrupt-state error.
//!
//! Layout: numbers are eight little-endian bytes; text is its byte length
//! followed by its UTF-8 bytes; options are a presence byte; lists are a
//! count followed by the elements; enumerations are one byte.

use vstd::prelude::*;
use vstd::utf8::{decode_utf8, encode_utf8, valid_utf8};
use crate::category::{category_rank, Category};
use crate::date::MAX_DAY_NUMBER;
use crate::error::{PersistenceError, TrackerError};
use crate::outcome::Outcome;
use crate::priority::{priority_rank, Priority};
use crate::status::{status_view_wf, Status, StatusView};
use crate::store::Tasks;
use crate::tag::{valid_tag_text, Tag};
use crate::task::{task_view_wf, Task, TaskView};

verus! {

/// The little-endian bytes of `n`, `k` of them.
pub open spec fn le_bytes(n: int, k: nat) -> Seq<u8>
    decreases k,
{
    if k == 0 {
        Seq::empty()
    } else {
        seq![(n % 256) as u8] + le_bytes(n / 256, (k - 1) as nat)
    }
}

/// The value of little-endian bytes.
pub open spec fn le_val(b: Seq<u8>) -> int
    decreases b.len(),
{
    if b.len() == 0 {
        0
    } else {
        b[0] + 256 * le_val(b.drop_first())
    }
}

/// Powers of 256.
pub open spec fn p256(k: nat) -> int
    decreases k,
{
    if k == 0 {
        1
    } else {
        256 * p256((k - 1) as nat)
    }
}

proof fn lemma_le_bytes_len(n: int, k: nat)
    ensures
        le_bytes(n, k).len() == k,
    decreases k,
{
    if k > 0 {
        lemma_le_bytes_len(n / 256, (k - 1) as nat);
    }
}

proof fn lemma_le_roundtrip(n: int, k: nat)
    requires
        0 <= n < p256(k),
    ensures
        le_val(le_bytes(n, k)) == n,
    decreases k,
{
    if k > 0 {
        assert(n / 256 < p256((k - 1) as nat)) by {
            assert(n < 256 * p256((k - 1) as nat));
            assert(256 * (n / 256) <= n);
        }
        lemma_le_roundtrip(n / 256, (k - 1) as nat);
        assert(le_bytes(n, k).drop_first() =~= le_bytes(n / 256, (k - 1) as nat));
    }
}

/// 256 to the eighth: one beyond the largest encodable number.
pub open spec fn word_limit() -> int {
    p256(8)
}

proof fn lemma_word_limit()
    ensures
        word_limit() == 0x1_0000_0000_0000_0000,
        p256(0) == 1,
        p256(1) == 256,
        p256(2) == 0x1_0000,
        p256(3) == 0x100_0000,
        p256(4) == 0x1_0000_0000,
        p256(5) == 0x100_0000_0000,
        p256(6) == 0x1_0000_0000_0000,
        p256(7) == 0x100_0000_0000_0000,
{
    assert(p256(0) == 1);
    assert(p256(1) == 256);
    assert(p256(2) == 0x1_0000);
    assert(p256(3) == 0x100_0000);
    assert(p256(4) == 0x1_0000_0000);
    assert(p256(5) == 0x100_0000_0000);
    assert(p256(6) == 0x1_0000_0000_0000);
    assert(p256(7) == 0x100_0000_0000_0000);
    assert(p256(8) == 0x1_0000_0000_0000_0000);
}

/// An eight-byte little-endian number.
pub open spec fn enc_u64(n: int) -> Seq<u8> {
    le_bytes(n, 8)
}

/// Reads an eight-byte little-endian number.
pub open spec fn parse_u64(b: Seq<u8>) -> Option<(int, Seq<u8>)> {
    if b.len() < 8 {
        None
    } else {
        Some((le_val(b.take(8)), b.skip(8)))
    }
}

proof fn lemma_u64_roundtrip(n: int, rest: Seq<u8>)
    requires
        0 <= n < word_limit(),
    ensures
        parse_u64(enc_u64(n) + rest) == Some((n, rest)),
{
    lemma_le_bytes_len(n, 8);
    lemma_le_roundtrip(n, 8);
    assert((enc_u64(n) + rest).take(8) =~= enc_u64(n));
    assert((enc_u64(n) + rest).skip(8) =~= rest);
}

/// Text: its UTF-8 byte length, then its UTF-8 bytes.
pub open spec fn enc_str(s: Seq<char>) -> Seq<u8> {
    enc_u64(encode_utf8(s).len() as int) + encode_utf8(s)
}

/// Reads text: a byte length, then that many bytes, which must be valid
/// UTF-8.
pub open spec fn parse_str(b: Seq<u8>) -> Option<(Seq<char>, Seq<u8>)> {
    match parse_u64(b) {
        None => None,
        Some((n, rest)) => if rest.len() < n {
            None
        } else if valid_utf8(rest.take(n)) {
            Some((decode_utf8(rest.take(n)), rest.skip(n)))
        } else {
            None
        },
    }
}

/// Text whose UTF-8 byte length the encoding can carry.
pub open spec fn str_encodable(s: Seq<char>) -> bool {
    encode_utf8(s).len() < word_limit()
}

proof fn lemma_str_roundtrip(s: Seq<char>, rest: Seq<u8>)
    requires
        str_encodable(s),
    ensures
        parse_str(enc_str(s) + rest) == Some((s, rest)),
{
    let bytes = encode_utf8(s);
    let n = bytes.len() as int;
    assert(enc_str(s) + rest =~= enc_u64(n) + (bytes + rest));
    lemma_u64_roundtrip(n, bytes + rest);
    assert((bytes + rest).take(n) =~= bytes);
    assert((bytes + rest).skip(n) =~= rest);
    broadcast use vstd::utf8::encode_utf8_valid_utf8, vstd::utf8::encode_utf8_decode_utf8;

    assert(decode_utf8(bytes) == s);
}

/// The byte of an outcome.
pub open spec fn outcome_byte(o: Outcome) -> u8 {
    match o {
        Outcome::Success => 0,
        Outcome::Failure => 1,
    }
}

/// The outcome a byte denotes, if any.
pub open spec fn outcome_of_byte(b: u8) -> Option<Outcome> {
    if b == 0 {
        Some(Outcome::Success)
    } else if b == 1 {
        Some(Outcome::Failure)
    } else {
        None
    }
}

/// The category a byte denotes, if any: its declaration rank.
pub open spec fn category_of_byte(b: u8) -> Option<Category> {
    if b == 0 {
        Some(Category::Task)
    } else if b == 1 {
        Some(Category::Feature)
    } else if b == 2 {
        Some(Category::Bug)
    } else if b == 3 {
        Some(Category::Maintenance)
    } else if b == 4 {
        Some(Category::Documentation)
    } else if b == 5 {
        Some(Category::Other)
    } else if b == 6 {
        Some(Category::Message)
    } else {
        None
    }
}

/// The priority a byte denotes, if any: its ordinal.
pub open spec fn priority_of_byte(b: u8) -> Option<Priority> {
    if b == 1 {
        Some(Priority::VeryLow)
    } else if b == 2 {
        Some(Priority::Low)
    } else if b == 3 {
        Some(Priority::Normal)
    } else if b == 4 {
        Some(Priority::High)
    } else if b == 5 {
        Some(Priority::VeryHigh)
    } else {
        None
    }
}

/// A status: a variant byte, then its fields.
pub open spec fn enc_status(s: StatusView) -> Seq<u8> {
    match s {
        StatusView::NotStarted => seq![0u8],
        StatusView::InProgress { date } => seq![1u8] + enc_u64(date),
        StatusView::BlockedByTask { date, id } => seq![2u8] + enc_u64(date) + enc_u64(id),
        StatusView::BlockedByOther { date, reason } => seq![3u8] + enc_u64(date) + enc_str(reason),
        StatusView::Completed { date, outcome } => seq![4u8] + enc_u64(date) + seq![
            outcome_byte(outcome),
        ],
        StatusView::Discarded { date, reason } => seq![5u8] + enc_u64(date) + enc_str(reason),
    }
}

/// A date in the tracker's range.
pub open spec fn good_date(d: int) -> bool {
    1 <= d <= MAX_DAY_NUMBER
}

/// A reason of valid short-description length.
pub open spec fn good_reason(r: Seq<char>) -> bool {
    1 <= r.len() <= 50
}

/// Reads a status, refusing any the tracker could not hold.
pub open spec fn parse_status(b: Seq<u8>) -> Option<(StatusView, Seq<u8>)> {
    if b.len() < 1 {
        None
    } else {
        let tag = b[0];
        let b0 = b.drop_first();
        if tag == 0 {
            Some((StatusView::NotStarted, b0))
        } else if tag == 1 {
            match parse_u64(b0) {
                Some((date, r)) => if good_date(date) {
                    Some((StatusView::InProgress { date }, r))
                } else {
                    None
                },
                None => None,
            }
        } else if tag == 2 {
            match parse_u64(b0) {
                Some((date, r)) => match parse_u64(r) {
                    Some((id, r2)) => if good_date(date) && 0 <= id <= usize::MAX {
                        Some((StatusView::BlockedByTask { date, id }, r2))
                    } else {
                        None
                    },
                    None => None,
                },
                None => None,
            }
        } else if tag == 3 {
            match parse_u64(b0) {
                Some((date, r)) => match parse_str(r) {
                    Some((reason, r2)) => if good_date(date) && good_reason(reason) {
                        Some((StatusView::BlockedByOther { date, reason }, r2))
                    } else {
                        None
                    },
                    None => None,
                },
                None => None,
            }
        } else if tag == 4 {
            match parse_u64(b0) {
                Some((date, r)) => if r.len() < 1 {
                    None
                } else {
                    match outcome_of_byte(r[0]) {
                        Some(outcome) => if good_date(date) {
                            Some((StatusView::Completed { date, outcome }, r.drop_first()))
                        } else {
                            None
                        },
                        None => None,
                    }
                },
                None => None,
            }
        } else if tag == 5 {
            match parse_u64(b0) {
                Some((date, r)) => match parse_str(r) {
                    Some((reason, r2)) => if good_date(date) && good_reason(reason) {
                        Some((StatusView::Discarded { date, reason }, r2))
                    } else {
                        None
                    },
                    None => None,
                },
                None => None,
            }
        } else {
            None
        }
    }
}

/// A status the encoding can carry back unchanged.
pub open spec fn status_encodable(s: StatusView) -> bool {
    status_view_wf(s) && (match s {
        StatusView::BlockedByOther { reason, .. } => str_encodable(reason),
        StatusView::Discarded { reason, .. } => str_encodable(reason),
        _ => true,
    })
}

proof fn lemma_status_roundtrip(s: StatusView, rest: Seq<u8>)
    requires
        status_encodable(s),
    ensures
        parse_status(enc_status(s) + rest) == Some((s, rest)),
{
    lemma_word_limit();
    match s {
        StatusView::NotStarted => {
            assert((enc_status(s) + rest).drop_first() =~= rest);
        },
        StatusView::InProgress { date } => {
            assert((enc_status(s) + rest).drop_first() =~= enc_u64(date) + rest);
            lemma_u64_roundtrip(date, rest);
        },
        StatusView::BlockedByTask { date, id } => {
            assert((enc_status(s) + rest).drop_first() =~= enc_u64(date) + (enc_u64(id) + rest));
            lemma_u64_roundtrip(date, enc_u64(id) + rest);
            lemma_u64_roundtrip(id, rest);
        },
        StatusView::BlockedByOther { date, reason } => {
            assert((enc_status(s) + rest).drop_first() =~= enc_u64(date) + (enc_str(reason)
                + rest));
            lemma_u64_roundtrip(date, enc_str(reason) + rest);
            lemma_str_roundtrip(reason, rest);
        },
        StatusView::Completed { date, outcome } => {
            assert((enc_status(s) + rest).drop_first() =~= enc_u64(date) + (seq![
                outcome_byte(outcome),
            ] + rest));
            lemma_u64_roundtrip(date, seq![outcome_byte(outcome)] + rest);
            assert((seq![outcome_byte(outcome)] + rest).drop_first() =~= rest);
        },
        StatusView::Discarded { date, reason } => {
            assert((enc_status(s) + rest).drop_first() =~= enc_u64(date) + (enc_str(reason)
                + rest));
            lemma_u64_roundtrip(date, enc_str(reason) + rest);
            lemma_str_roundtrip(reason, rest);
        },
    }
}

/// A list of statuses, first to last.
pub open spec fn enc_statuses(ss: Seq<StatusView>) -> Seq<u8>
    decreases ss.len(),
{
    if ss.len() == 0 {
        Seq::empty()
    } else {
        enc_statuses(ss.drop_last()) + enc_status(ss.last())
    }
}

proof fn lemma_enc_statuses_front(ss: Seq<StatusView>)
    requires
        ss.len() > 0,
    ensures
        enc_statuses(ss) == enc_status(ss[0]) + enc_statuses(ss.drop_first()),
    decreases ss.len(),
{
    if ss.len() == 1 {
        assert(enc_statuses(ss.drop_last()) =~= Seq::<u8>::empty());
        assert(enc_statuses(ss.drop_first()) =~= Seq::<u8>::empty());
        assert(enc_statuses(ss) =~= enc_status(ss[0]) + enc_statuses(ss.drop_first()));
    } else {
        lemma_enc_statuses_front(ss.drop_last());
        assert(ss.drop_last()[0] == ss[0]);
        assert(ss.drop_last().drop_first() =~= ss.drop_first().drop_last());
        assert(ss.drop_first().last() == ss.last());
        assert(enc_statuses(ss) =~= enc_status(ss[0]) + enc_statuses(ss.drop_first()));
    }
}

/// Reads `n` statuses.
pub open spec fn parse_statuses(b: Seq<u8>, n: int) -> Option<(Seq<StatusView>, Seq<u8>)>
    decreases n,
{
    if n <= 0 {
        Some((Seq::empty(), b))
    } else {
        match parse_status(b) {
            None => None,
            Some((s, r)) => match parse_statuses(r, n - 1) {
                None => None,
                Some((ss, r2)) => Some((seq![s] + ss, r2)),
            },
        }
    }
}

proof fn lemma_statuses_roundtrip(ss: Seq<StatusView>, rest: Seq<u8>)
    requires
        forall|i: int| 0 <= i < ss.len() ==> status_encodable(#[trigger] ss[i]),
    ensures
        parse_statuses(enc_statuses(ss) + rest, ss.len() as int) == Some((ss, rest)),
    decreases ss.len(),
{
    if ss.len() == 0 {
        assert(enc_statuses(ss) + rest =~= rest);
    } else {
        lemma_enc_statuses_front(ss);
        assert(enc_statuses(ss) + rest =~= enc_status(ss[0]) + (enc_statuses(ss.drop_first())
            + rest));
        lemma_status_roundtrip(ss[0], enc_statuses(ss.drop_first()) + rest);
        assert(forall|i: int|
            0 <= i < ss.drop_first().len() ==> status_encodable(#[trigger] ss.drop_first()[i]));
        lemma_statuses_roundtrip(ss.drop_first(), rest);
        assert(seq![ss[0]] + ss.drop_first() =~= ss);
    }
}

/// A list of texts, first to last.
pub open spec fn enc_strs(ts: Seq<Seq<char>>) -> Seq<u8>
    decreases ts.len(),
{
    if ts.len() == 0 {
        Seq::empty()
    } else {
        enc_strs(ts.drop_last()) + enc_str(ts.last())
    }
}

proof fn lemma_enc_strs_front(ts: Seq<Seq<char>>)
    requires
        ts.len() > 0,
    ensures
        enc_strs(ts) == enc_str(ts[0]) + enc_strs(ts.drop_first()),
    decreases ts.len(),
{
    if ts.len() == 1 {
        assert(enc_strs(ts.drop_last()) =~= Seq::<u8>::empty());
        assert(enc_strs(ts.drop_first()) =~= Seq::<u8>::empty());
        assert(enc_strs(ts) =~= enc_str(ts[0]) + enc_strs(ts.drop_first()));
    } else {
        lemma_enc_strs_front(ts.drop_last());
        assert(ts.drop_last()[0] == ts[0]);
        assert(ts.drop_last().drop_first() =~= ts.drop_first().drop_last());
        assert(ts.drop_first().last() == ts.last());
        assert(enc_strs(ts) =~= enc_str(ts[0]) + enc_strs(ts.drop_first()));
    }
}

/// Reads `n` texts.
pub open spec fn parse_strs(b: Seq<u8>, n: int) -> Option<(Seq<Seq<char>>, Seq<u8>)>
    decreases n,
{
    if n <= 0 {
        Some((Seq::empty(), b))
    } else {
        match parse_str(b) {
            None => None,
            Some((t, r)) => match parse_strs(r, n - 1) {
                None => None,
                Some((ts, r2)) => Some((seq![t] + ts, r2)),
            },
        }
    }
}

proof fn lemma_strs_roundtrip(ts: Seq<Seq<char>>, rest: Seq<u8>)
    requires
        forall|i: int| 0 <= i < ts.len() ==> str_encodable(#[trigger] ts[i]),
    ensures
        parse_strs(enc_strs(ts) + rest, ts.len() as int) == Some((ts, rest)),
    decreases ts.len(),
{
    if ts.len() == 0 {
        assert(enc_strs(ts) + rest =~= rest);
    } else {
        lemma_enc_strs_front(ts);
        assert(enc_strs(ts) + rest =~= enc_str(ts[0]) + (enc_strs(ts.drop_first()) + rest));
        lemma_str_roundtrip(ts[0], enc_strs(ts.drop_first()) + rest);
        assert(forall|i: int|
            0 <= i < ts.drop_first().len() ==> str_encodable(#[trigger] ts.drop_first()[i]));
        lemma_strs_roundtrip(ts.drop_first(), rest);
        assert(seq![ts[0]] + ts.drop_first() =~= ts);
    }
}

/// The tail of a task's encoding: its optional deadline, priority and tag
/// list.
pub open spec fn enc_task_tail(t: TaskView) -> Seq<u8> {
    (match t.deadline {
        None => seq![0u8],
        Some(d) => seq![1u8] + enc_u64(d),
    }) + seq![(priority_rank(t.priority)) as u8] + enc_u64(t.tags.len() as int) + enc_strs(t.tags)
}

/// A task: its short text, optional long text, status list, category, and
/// then the tail.
pub open spec fn enc_task(t: TaskView) -> Seq<u8> {
    enc_str(t.short) + (match t.long {
        None => seq![0u8],
        Some(l) => seq![1u8] + enc_str(l),
    }) + enc_u64(t.statuses.len() as int) + enc_statuses(t.statuses) + seq![
        (category_rank(t.category)) as u8,
    ] + enc_task_tail(t)
}

/// Distinct texts.
pub open spec fn distinct_texts(ts: Seq<Seq<char>>) -> bool {
    forall|i: int, j: int| 0 <= i < j < ts.len() ==> ts[i] != ts[j]
}

/// Texts a task's tag set may hold: each a valid tag, no two alike.
pub open spec fn good_tag_texts(ts: Seq<Seq<char>>) -> bool {
    (forall|i: int| 0 <= i < ts.len() ==> valid_tag_text(#[trigger] ts[i])) && distinct_texts(ts)
}

/// Reads a task, refusing any the tracker could not hold.
pub open spec fn parse_task(b: Seq<u8>) -> Option<(TaskView, Seq<u8>)> {
    match parse_str(b) {
        None => None,
        Some((short, b1)) => if !(1 <= short.len() <= 50) {
            None
        } else if b1.len() < 1 {
            None
        } else {
            let has_long = b1[0];
            let b2 = b1.drop_first();
            let long_parsed: Option<(Option<Seq<char>>, Seq<u8>)> = if has_long == 0 {
                Some((None, b2))
            } else if has_long == 1 {
                match parse_str(b2) {
                    Some((l, r)) => Some((Some(l), r)),
                    None => None,
                }
            } else {
                None
            };
            match long_parsed {
                None => None,
                Some((long, b3)) => match parse_u64(b3) {
                    None => None,
                    Some((count, b4)) => if count < 1 {
                        None
                    } else {
                        match parse_statuses(b4, count) {
                            None => None,
                            Some((statuses, b5)) => if !(statuses[0] is NotStarted) {
                                None
                            } else if b5.len() < 1 {
                                None
                            } else {
                                match category_of_byte(b5[0]) {
                                    None => None,
                                    Some(category) => parse_task_tail(
                                        b5.drop_first(),
                                        short,
                                        long,
                                        statuses,
                                        category,
                                    ),
                                }
                            },
                        }
                    },
                },
            }
        },
    }
}

/// Reads the deadline, priority and tags of a task and assembles it.
pub open spec fn parse_task_tail(
    b: Seq<u8>,
    short: Seq<char>,
    long: Option<Seq<char>>,
    statuses: Seq<StatusView>,
    category: Category,
) -> Option<(TaskView, Seq<u8>)> {
    if b.len() < 1 {
        None
    } else {
        let has_deadline = b[0];
        let b1 = b.drop_first();
        let deadline_parsed: Option<(Option<int>, Seq<u8>)> = if has_deadline == 0 {
            Some((None, b1))
        } else if has_deadline == 1 {
            match parse_u64(b1) {
                Some((d, r)) => if good_date(d) {
                    Some((Some(d), r))
                } else {
                    None
                },
                None => None,
            }
        } else {
            None
        };
        match deadline_parsed {
            None => None,
            Some((deadline, b2)) => if b2.len() < 1 {
                None
            } else {
                match priority_of_byte(b2[0]) {
                    None => None,
                    Some(priority) => match parse_u64(b2.drop_first()) {
                        None => None,
                        Some((tag_count, b3)) => match parse_strs(b3, tag_count) {
                            None => None,
                            Some((tags, b4)) => if good_tag_texts(tags) {
                                Some(
                                    (
                                        TaskView {
                                            short,
                                            long,
                                            statuses,
                                            category,
                                            deadline,
                                            priority,
                                            tags,
                                        },
                                        b4,
                                    ),
                                )
                            } else {
                                None
                            },
                        },
                    },
                }
            },
        }
    }
}

/// A task the encoding can carry back unchanged: well-formed, with every
/// text and list short enough for its length field.
pub open spec fn task_encodable(t: TaskView) -> bool {
    &&& task_view_wf(t)
    &&& str_encodable(t.short)
    &&& (match t.long {
        Some(l) => str_encodable(l),
        None => true,
    })
    &&& t.statuses.len() < word_limit()
    &&& (forall|i: int| 0 <= i < t.statuses.len() ==> str_encodable_status(#[trigger] t.statuses[i]))
    &&& t.tags.len() < word_limit()
    &&& (forall|i: int| 0 <= i < t.tags.len() ==> str_encodable(#[trigger] t.tags[i]))
}

/// The texts a status carries are short enough for their length fields.
pub open spec fn str_encodable_status(s: StatusView) -> bool {
    match s {
        StatusView::BlockedByOther { reason, .. } => str_encodable(reason),
        StatusView::Discarded { reason, .. } => str_encodable(reason),
        _ => true,
    }
}

#[verifier::rlimit(100)]
proof fn lemma_task_tail_roundtrip(t: TaskView, rest: Seq<u8>)
    requires
        task_encodable(t),
    ensures
        parse_task_tail(enc_task_tail(t) + rest, t.short, t.long, t.statuses, t.category) == Some(
            (t, rest),
        ),
{
    lemma_word_limit();
    let pri = seq![(priority_rank(t.priority)) as u8];
    let tag_part = enc_u64(t.tags.len() as int) + enc_strs(t.tags);
    let after_deadline = pri + tag_part + rest;
    match t.deadline {
        None => {
            assert((enc_task_tail(t) + rest)[0] == 0);
            assert((enc_task_tail(t) + rest).drop_first() =~= after_deadline);
        },
        Some(d) => {
            assert((enc_task_tail(t) + rest)[0] == 1);
            assert((enc_task_tail(t) + rest).drop_first() =~= enc_u64(d) + after_deadline);
            lemma_u64_roundtrip(d, after_deadline);
        },
    }
    assert(after_deadline[0] == (priority_rank(t.priority)) as u8);
    assert(priority_of_byte((priority_rank(t.priority)) as u8) == Some(t.priority));
    let after_pri = enc_u64(t.tags.len() as int) + (enc_strs(t.tags) + rest);
    assert(after_deadline.drop_first() =~= after_pri);
    lemma_u64_roundtrip(t.tags.len() as int, enc_strs(t.tags) + rest);
    lemma_strs_roundtrip(t.tags, rest);
    assert(t == (TaskView {
        short: t.short,
        long: t.long,
        statuses: t.statuses,
        category: t.category,
        deadline: t.deadline,
        priority: t.priority,
        tags: t.tags,
    }));
}

#[verifier::rlimit(100)]
proof fn lemma_task_roundtrip(t: TaskView, rest: Seq<u8>)
    requires
        task_encodable(t),
    ensures
        parse_task(enc_task(t) + rest) == Some((t, rest)),
{
    lemma_word_limit();
    let long_part: Seq<u8> = match t.long {
        None => seq![0u8],
        Some(l) => seq![1u8] + enc_str(l),
    };
    let cat = seq![(category_rank(t.category)) as u8];
    let count_part = enc_u64(t.statuses.len() as int);
    let st_part = enc_statuses(t.statuses);
    let tail = enc_task_tail(t);
    let after_short = long_part + (count_part + (st_part + (cat + (tail + rest))));
    assert(enc_task(t) + rest =~= enc_str(t.short) + after_short);
    lemma_str_roundtrip(t.short, after_short);
    let after_long = count_part + (st_part + (cat + (tail + rest)));
    match t.long {
        None => {
            assert(after_short[0] == 0);
            assert(after_short.drop_first() =~= after_long);
        },
        Some(l) => {
            assert(after_short[0] == 1);
            assert(after_short.drop_first() =~= enc_str(l) + after_long);
            lemma_str_roundtrip(l, after_long);
        },
    }
    lemma_u64_roundtrip(t.statuses.len() as int, st_part + (cat + (tail + rest)));
    assert(forall|i: int|
        0 <= i < t.statuses.len() ==> status_encodable(#[trigger] t.statuses[i]));
    lemma_statuses_roundtrip(t.statuses, cat + (tail + rest));
    assert((cat + (tail + rest))[0] == (category_rank(t.category)) as u8);
    assert(category_of_byte((category_rank(t.category)) as u8) == Some(t.category));
    assert((cat + (tail + rest)).drop_first() =~= tail + rest);
    lemma_task_tail_roundtrip(t, rest);
}

/// A list of tasks, first to last.
pub open spec fn enc_tasks(ts: Seq<TaskView>) -> Seq<u8>
    decreases ts.len(),
{
    if ts.len() == 0 {
        Seq::empty()
    } else {
        enc_tasks(ts.drop_last()) + enc_task(ts.last())
    }
}

proof fn lemma_enc_tasks_front(ts: Seq<TaskView>)
    requires
        ts.len() > 0,
    ensures
        enc_tasks(ts) == enc_task(ts[0]) + enc_tasks(ts.drop_first()),
    decreases ts.len(),
{
    if ts.len() == 1 {
        assert(enc_tasks(ts.drop_last()) =~= Seq::<u8>::empty());
        assert(enc_tasks(ts.drop_first()) =~= Seq::<u8>::empty());
        assert(enc_tasks(ts) =~= enc_task(ts[0]) + enc_tasks(ts.drop_first()));
    } else {
        lemma_enc_tasks_front(ts.drop_last());
        assert(ts.drop_last()[0] == ts[0]);
        assert(ts.drop_last().drop_first() =~= ts.drop_first().drop_last());
        assert(ts.drop_first().last() == ts.last());
        assert(enc_tasks(ts) =~= enc_task(ts[0]) + enc_tasks(ts.drop_first()));
    }
}

/// Reads `n` tasks.
pub open spec fn parse_tasks(b: Seq<u8>, n: int) -> Option<(Seq<TaskView>, Seq<u8>)>
    decreases n,
{
    if n <= 0 {
        Some((Seq::empty(), b))
    } else {
        match parse_task(b) {
            None => None,
            Some((t, r)) => match parse_tasks(r, n - 1) {
                None => None,
                Some((ts, r2)) => Some((seq![t] + ts, r2)),
            },
        }
    }
}

proof fn lemma_tasks_roundtrip(ts: Seq<TaskView>, rest: Seq<u8>)
    requires
        forall|i: int| 0 <= i < ts.len() ==> task_encodable(#[trigger] ts[i]),
    ensures
        parse_tasks(enc_tasks(ts) + rest, ts.len() as int) == Some((ts, rest)),
    decreases ts.len(),
{
    if ts.len() == 0 {
        assert(enc_tasks(ts) + rest =~= rest);
    } else {
        lemma_enc_tasks_front(ts);
        assert(enc_tasks(ts) + rest =~= enc_task(ts[0]) + (enc_tasks(ts.drop_first()) + rest));
        lemma_task_roundtrip(ts[0], enc_tasks(ts.drop_first()) + rest);
        assert(forall|i: int|
            0 <= i < ts.drop_first().len() ==> task_encodable(#[trigger] ts.drop_first()[i]));
        lemma_tasks_roundtrip(ts.drop_first(), rest);
        assert(seq![ts[0]] + ts.drop_first() =~= ts);
    }
}

/// The whole store: the task count, then the tasks.
pub open spec fn enc_store(ts: Seq<TaskView>) -> Seq<u8> {
    enc_u64(ts.len() as int) + enc_tasks(ts)
}

/// Reads a whole store; every byte must be consumed.
pub open spec fn parse_store(b: Seq<u8>) -> Option<Seq<TaskView>> {
    match parse_u64(b) {
        None => None,
        Some((n, rest)) => if 0 <= n <= usize::MAX {
            match parse_tasks(rest, n) {
                Some((ts, r)) => if r.len() == 0 {
                    Some(ts)
                } else {
                    None
                },
                None => None,
            }
        } else {
            None
        },
    }
}

/// A store the encoding can carry back unchanged: every task well-formed
/// and short enough for its length fields. Every store the tracker actually
/// builds in memory satisfies this, since its lists and texts live in
/// machine-sized vectors.
pub open spec fn store_encodable(ts: Seq<TaskView>) -> bool {
    ts.len() <= usize::MAX && (forall|i: int| 0 <= i < ts.len() ==> task_encodable(#[trigger] ts[i]))
}

/// Decoding an encoded store returns it unchanged: the round trip preserves
/// every task field for field.
pub proof fn lemma_store_roundtrip(ts: Seq<TaskView>)
    requires
        store_encodable(ts),
    ensures
        parse_store(enc_store(ts)) == Some(ts),
{
    lemma_word_limit();
    assert(enc_store(ts) =~= enc_u64(ts.len() as int) + (enc_tasks(ts) + Seq::<u8>::empty()));
    lemma_u64_roundtrip(ts.len() as int, enc_tasks(ts) + Seq::<u8>::empty());
    lemma_tasks_roundtrip(ts, Seq::empty());
    assert(enc_tasks(ts) + Seq::<u8>::empty() =~= enc_tasks(ts));
}

/// A corrupt-state failure.
fn corrupt() -> (e: TrackerError)
    ensures
        e == TrackerError::Persistence(PersistenceError::CorruptState),
{
    TrackerError::Persistence(PersistenceError::CorruptState)
}

/// Relies on `String::from_utf8`: returns the string of the given bytes
/// exactly when they are valid UTF-8, and that string's UTF-8 bytes are the
/// input bytes.
#[verifier::external_body]
fn string_from_utf8(bytes: Vec<u8>) -> (r: Option<String>)
    ensures
        r is Some <==> valid_utf8(bytes@),
        r matches Some(s) ==> encode_utf8(s@) == bytes@,
{
    String::from_utf8(bytes).ok()
}

/// Appends the eight little-endian bytes of `n`.
fn push_u64(out: &mut Vec<u8>, n: u64)
    ensures
        final(out)@ == old(out)@ + enc_u64(n as int),
{
    let mut m = n;
    let mut i: usize = 0;
    proof {
        assert(out@ + le_bytes(n as int, 8) =~= old(out)@ + enc_u64(n as int));
    }
    while i < 8
        invariant
            i <= 8,
            out@ + le_bytes(m as int, (8 - i) as nat) == old(out)@ + enc_u64(n as int),
        decreases 8 - i,
    {
        let ghost pm = m as int;
        out.push((m % 256) as u8);
        m = m / 256;
        i = i + 1;
        proof {
            assert(le_bytes(pm, (8 - i + 1) as nat) =~= seq![(pm % 256) as u8] + le_bytes(
                pm / 256,
                (8 - i) as nat,
            ));
            assert(out@ + le_bytes(m as int, (8 - i) as nat) =~= old(out)@ + enc_u64(n as int));
        }
    }
    proof {
        assert(out@ + le_bytes(m as int, 0) =~= out@);
    }
}

/// Appends the encoding of a text: its UTF-8 byte length, then its bytes.
fn push_str_enc(out: &mut Vec<u8>, s: &str)
    ensures
        final(out)@ == old(out)@ + enc_str(s@),
{
    let bytes = s.as_bytes_vec();
    push_u64(out, bytes.len() as u64);
    let mut tail = bytes;
    out.append(&mut tail);
    proof {
        assert(out@ =~= old(out)@ + enc_str(s@));
    }
}

/// Appends the encoding of a status.
fn push_status(out: &mut Vec<u8>, s: &Status)
    ensures
        final(out)@ == old(out)@ + enc_status(s@),
{
    match s {
        Status::NotStarted => {
            out.push(0u8);
            proof {
                assert(out@ =~= old(out)@ + enc_status(s@));
            }
        },
        Status::InProgress { date } => {
            out.push(1u8);
            push_u64(out, date.days as u64);
            proof {
                assert(out@ =~= old(out)@ + enc_status(s@));
            }
        },
        Status::BlockedByTask { date, id } => {
            out.push(2u8);
            push_u64(out, date.days as u64);
            push_u64(out, *id as u64);
            proof {
                assert(out@ =~= old(out)@ + enc_status(s@));
            }
        },
        Status::BlockedByOther { date, reason } => {
            out.push(3u8);
            push_u64(out, date.days as u64);
            push_str_enc(out, reason.as_str());
            proof {
                assert(out@ =~= old(out)@ + enc_status(s@));
            }
        },
        Status::Completed { date, outcome } => {
            out.push(4u8);
            push_u64(out, date.days as u64);
            match outcome {
                Outcome::Success => out.push(0u8),
                Outcome::Failure => out.push(1u8),
            }
            proof {
                assert(out@ =~= old(out)@ + enc_status(s@));
            }
        },
        Status::Discarded { date, reason } => {
            out.push(5u8);
            push_u64(out, date.days as u64);
            push_str_enc(out, reason.as_str());
            proof {
                assert(out@ =~= old(out)@ + enc_status(s@));
            }
        },
    }
}

/// Appends the encoding of a task.
#[verifier::rlimit(100)]
fn push_task(out: &mut Vec<u8>, t: &Task)
    ensures
        final(out)@ == old(out)@ + enc_task(t@),
{
    push_str_enc(out, t.short.as_str());
    match &t.long {
        None => out.push(0u8),
        Some(l) => {
            out.push(1u8);
            push_str_enc(out, l.as_str());
        },
    }
    push_u64(out, t.statuses.len() as u64);
    let ghost pre_statuses = out@;
    let mut i: usize = 0;
    proof {
        assert(t@.statuses.take(0) =~= Seq::<StatusView>::empty());
        assert(pre_statuses + enc_statuses(t@.statuses.take(0)) =~= pre_statuses);
    }
    while i < t.statuses.len()
        invariant
            i <= t.statuses@.len(),
            t@ == t.view(),
            out@ == pre_statuses + enc_statuses(t@.statuses.take(i as int)),
        decreases t.statuses@.len() - i,
    {
        proof {
            assert(t@.statuses.take(i + 1).drop_last() =~= t@.statuses.take(i as int));
            assert(t@.statuses.take(i + 1).last() == t@.statuses[i as int]);
            assert(t.statuses.deep_view()[i as int] == t.statuses@[i as int]@);
        }
        push_status(out, &t.statuses[i]);
        proof {
            assert(out@ =~= pre_statuses + enc_statuses(t@.statuses.take(i + 1)));
        }
        i = i + 1;
    }
    proof {
        assert(t@.statuses.take(t.statuses@.len() as int) =~= t@.statuses);
    }
    out.push(t.category.rank() as u8);
    proof {
        assert(out@ =~= old(out)@ + (enc_str(t@.short) + (match t@.long {
            None => seq![0u8],
            Some(l) => seq![1u8] + enc_str(l),
        }) + enc_u64(t@.statuses.len() as int) + enc_statuses(t@.statuses) + seq![
            (category_rank(t@.category)) as u8,
        ]));
    }
    let ghost head_done = out@;
    match t.deadline {
        None => out.push(0u8),
        Some(d) => {
            out.push(1u8);
            push_u64(out, d.days as u64);
        },
    }
    out.push(t.priority.rank() as u8);
    push_u64(out, t.tags.len() as u64);
    let ghost pre_tags = out@;
    let mut j: usize = 0;
    proof {
        assert(t@.tags.take(0) =~= Seq::<Seq<char>>::empty());
        assert(pre_tags + enc_strs(t@.tags.take(0)) =~= pre_tags);
    }
    while j < t.tags.len()
        invariant
            j <= t.tags@.len(),
            t@ == t.view(),
            out@ == pre_tags + enc_strs(t@.tags.take(j as int)),
        decreases t.tags@.len() - j,
    {
        proof {
            assert(t@.tags.take(j + 1).drop_last() =~= t@.tags.take(j as int));
            assert(t@.tags.take(j + 1).last() == t@.tags[j as int]);
            assert(t.tags.deep_view()[j as int] == t.tags@[j as int]@);
        }
        push_str_enc(out, t.tags[j].as_str());
        proof {
            assert(out@ =~= pre_tags + enc_strs(t@.tags.take(j + 1)));
        }
        j = j + 1;
    }
    proof {
        assert(t@.tags.take(t.tags@.len() as int) =~= t@.tags);
        assert(out@ =~= head_done + enc_task_tail(t@));
        assert(out@ =~= old(out)@ + enc_task(t@));
    }
}

impl Tasks {
    /// Encodes the whole store for saving.
    pub fn to_bytes(&self) -> (r: Vec<u8>)
        ensures
            r@ == enc_store(self@),
    {
        let mut out: Vec<u8> = Vec::new();
        push_u64(&mut out, self.tasks.len() as u64);
        let ghost pre = out@;
        let mut i: usize = 0;
        proof {
            assert(self@.take(0) =~= Seq::<TaskView>::empty());
            assert(pre + enc_tasks(self@.take(0)) =~= pre);
        }
        while i < self.tasks.len()
            invariant
                i <= self.tasks@.len(),
                self@ == self.view(),
                out@ == pre + enc_tasks(self@.take(i as int)),
            decreases self.tasks@.len() - i,
        {
            proof {
                assert(self@.take(i + 1).drop_last() =~= self@.take(i as int));
                assert(self@.take(i + 1).last() == self@[i as int]);
                assert(self.tasks.deep_view()[i as int] == self.tasks@[i as int]@);
            }
            push_task(&mut out, &self.tasks[i]);
            proof {
                assert(out@ =~= pre + enc_tasks(self@.take(i + 1)));
            }
            i = i + 1;
        }
        proof {
            assert(self@.take(self.tasks@.len() as int) =~= self@);
            assert(out@ =~= enc_store(self@));
        }
        out
    }
}

/// Reads an eight-byte little-endian number.
fn read_u64(b: &Vec<u8>, pos: &mut usize) -> (r: Result<u64, TrackerError>)
    requires
        *old(pos) <= b@.len(),
    ensures
        r matches Ok(v) ==> {
            &&& *old(pos) <= *final(pos) <= b@.len()
            &&& parse_u64(b@.skip(*old(pos) as int)) == Some(
                (v as int, b@.skip(*final(pos) as int)),
            )
        },
        r is Err ==> parse_u64(b@.skip(*old(pos) as int)) is None && r == Err::<u64, TrackerError>(
            TrackerError::Persistence(PersistenceError::CorruptState),
        ) && *final(pos) == *old(pos),
{
    let ghost p0 = *pos as int;
    if b.len() - *pos < 8 {
        assert(b@.skip(p0).len() < 8);
        return Err(corrupt());
    }
    let start = *pos;
    let mut v: u64 = 0;
    let mut i: usize = 8;
    proof {
        lemma_word_limit();
        assert(b@.subrange(p0 + 8, p0 + 8) =~= Seq::<u8>::empty());
        assert(p256(0) == 1);
    }
    while i > 0
        invariant
            i <= 8,
            start == p0,
            p0 + 8 <= b@.len(),
            b@.len() <= usize::MAX,
            v as int == le_val(b@.subrange(p0 + i, p0 + 8)),
            v < p256((8 - i) as nat),
        decreases i,
    {
        i = i - 1;
        let byte = b[start + i];
        proof {
            assert(b@.subrange(p0 + i, p0 + 8).drop_first() =~= b@.subrange(p0 + i + 1, p0 + 8));
            assert(b@.subrange(p0 + i, p0 + 8)[0] == b@[p0 + i]);
            assert(p256((8 - i) as nat) == 256 * p256((8 - i - 1) as nat));
            lemma_word_limit();
        }
        v = v * 256 + byte as u64;
    }
    *pos = *pos + 8;
    proof {
        assert(b@.subrange(p0, p0 + 8) =~= b@.skip(p0).take(8));
        assert(b@.skip(p0).skip(8) =~= b@.skip(p0 + 8));
    }
    Ok(v)
}

/// Reads one byte.
fn read_byte(b: &Vec<u8>, pos: &mut usize) -> (r: Result<u8, TrackerError>)
    requires
        *old(pos) <= b@.len(),
    ensures
        r matches Ok(v) ==> {
            &&& *old(pos) < *final(pos) <= b@.len()
            &&& *final(pos) == *old(pos) + 1
            &&& b@.skip(*old(pos) as int).len() >= 1
            &&& v == b@.skip(*old(pos) as int)[0]
            &&& b@.skip(*old(pos) as int).drop_first() == b@.skip(*final(pos) as int)
        },
        r is Err ==> b@.skip(*old(pos) as int).len() == 0 && r == Err::<u8, TrackerError>(
            TrackerError::Persistence(PersistenceError::CorruptState),
        ) && *final(pos) == *old(pos),
{
    if *pos >= b.len() {
        return Err(corrupt());
    }
    let v = b[*pos];
    *pos = *pos + 1;
    proof {
        assert(b@.skip(*pos as int - 1).drop_first() =~= b@.skip(*pos as int));
    }
    Ok(v)
}

/// Reads a length-prefixed UTF-8 text.
fn read_string(b: &Vec<u8>, pos: &mut usize) -> (r: Result<String, TrackerError>)
    requires
        *old(pos) <= b@.len(),
    ensures
        r matches Ok(s) ==> {
            &&& *old(pos) <= *final(pos) <= b@.len()
            &&& parse_str(b@.skip(*old(pos) as int)) == Some((s@, b@.skip(*final(pos) as int)))
        },
        r is Err ==> parse_str(b@.skip(*old(pos) as int)) is None && r == Err::<
            String,
            TrackerError,
        >(TrackerError::Persistence(PersistenceError::CorruptState)),
{
    let ghost p0 = *pos as int;
    let n = match read_u64(b, pos) {
        Ok(v) => v,
        Err(e) => {
            return Err(e);
        },
    };
    let ghost p1 = *pos as int;
    if n > (b.len() - *pos) as u64 {
        assert(b@.skip(p1).len() < n);
        return Err(corrupt());
    }
    let count = n as usize;
    let mut bytes: Vec<u8> = Vec::new();
    let mut i: usize = 0;
    while i < count
        invariant
            i <= count,
            p1 == *pos,
            p1 + count <= b@.len(),
            b@.len() <= usize::MAX,
            bytes@ =~= b@.subrange(p1, p1 + i),
        decreases count - i,
    {
        bytes.push(b[*pos + i]);
        proof {
            assert(bytes@ =~= b@.subrange(p1, p1 + i + 1));
        }
        i = i + 1;
    }
    proof {
        assert(bytes@ =~= b@.skip(p1).take(n as int));
    }
    *pos = *pos + count;
    let ghost target = b@.skip(p1).take(n as int);
    match string_from_utf8(bytes) {
        Some(s) => {
            proof {
                broadcast use vstd::utf8::encode_utf8_decode_utf8;

                assert(decode_utf8(encode_utf8(s@)) == s@);
                assert(decode_utf8(target) == s@);
                assert(b@.skip(p1).skip(n as int) =~= b@.skip(*pos as int));
            }
            Ok(s)
        },
        None => {
            assert(!valid_utf8(target));
            Err(corrupt())
        },
    }
}

/// Reads `count` statuses.
fn read_statuses(b: &Vec<u8>, pos: &mut usize, count: u64) -> (r: Result<Vec<Status>, TrackerError>)
    requires
        *old(pos) <= b@.len(),
    ensures
        r matches Ok(v) ==> {
            &&& *old(pos) <= *final(pos) <= b@.len()
            &&& parse_statuses(b@.skip(*old(pos) as int), count as int) == Some(
                (v.deep_view(), b@.skip(*final(pos) as int)),
            )
            &&& v@.len() == count
            &&& forall|i: int| 0 <= i < v@.len() ==> (#[trigger] v@[i]).wf()
        },
        r is Err ==> parse_statuses(b@.skip(*old(pos) as int), count as int) is None && r == Err::<
            Vec<Status>,
            TrackerError,
        >(TrackerError::Persistence(PersistenceError::CorruptState)),
{
    let ghost p0 = *pos as int;
    let mut acc: Vec<Status> = Vec::new();
    let mut k: u64 = 0;
    proof {
        assert(acc.deep_view() =~= Seq::<StatusView>::empty());
    }
    while k < count
        invariant
            k <= count,
            *pos <= b@.len(),
            acc@.len() == k,
            forall|i: int| 0 <= i < acc@.len() ==> (#[trigger] acc@[i]).wf(),
            p0 == *old(pos) as int,
            p0 <= *pos,
            match parse_statuses(b@.skip(*pos as int), (count - k) as int) {
                Some((ss, rest)) => parse_statuses(b@.skip(p0), count as int) == Some(
                    (acc.deep_view() + ss, rest),
                ),
                None => parse_statuses(b@.skip(p0), count as int) is None,
            },
        decreases count - k,
    {
        let ghost pin = *pos as int;
        let st = match read_status(b, pos) {
            Ok(s) => s,
            Err(e) => {
                proof {
                    assert(parse_statuses(b@.skip(pin), (count - k) as int) is None);
                }
                return Err(e);
            },
        };
        let ghost prev = acc.deep_view();
        acc.push(st);
        proof {
            assert(acc.deep_view() =~= prev.push(st@));
            match parse_statuses(b@.skip(*pos as int), (count - k - 1) as int) {
                Some((ss2, rest2)) => {
                    assert(prev + (seq![st@] + ss2) =~= acc.deep_view() + ss2);
                },
                None => {},
            }
        }
        k = k + 1;
    }
    proof {
        assert(parse_statuses(b@.skip(*pos as int), 0) == Some(
            (Seq::<StatusView>::empty(), b@.skip(*pos as int)),
        ));
        assert(acc.deep_view() + Seq::<StatusView>::empty() =~= acc.deep_view());
    }
    Ok(acc)
}

/// Reads one status, refusing any the tracker could not hold.
fn read_status(b: &Vec<u8>, pos: &mut usize) -> (r: Result<Status, TrackerError>)
    requires
        *old(pos) <= b@.len(),
    ensures
        r matches Ok(s) ==> {
            &&& *old(pos) <= *final(pos) <= b@.len()
            &&& parse_status(b@.skip(*old(pos) as int)) == Some((s@, b@.skip(*final(pos) as int)))
            &&& s.wf()
        },
        r is Err ==> parse_status(b@.skip(*old(pos) as int)) is None && r == Err::<
            Status,
            TrackerError,
        >(TrackerError::Persistence(PersistenceError::CorruptState)),
{
    let tag = match read_byte(b, pos) {
        Ok(v) => v,
        Err(e) => {
            return Err(e);
        },
    };
    if tag == 0 {
        return Ok(Status::NotStarted);
    }
    if tag > 5 {
        return Err(corrupt());
    }
    let date_raw = match read_u64(b, pos) {
        Ok(v) => v,
        Err(e) => {
            return Err(e);
        },
    };
    if !(1 <= date_raw && date_raw <= MAX_DAY_NUMBER as u64) {
        return Err(corrupt());
    }
    let date = crate::date::Date { days: date_raw as u32 };
    if tag == 1 {
        Ok(Status::InProgress { date })
    } else if tag == 2 {
        let id_raw = match read_u64(b, pos) {
            Ok(v) => v,
            Err(e) => {
                return Err(e);
            },
        };
        if id_raw > usize::MAX as u64 {
            return Err(corrupt());
        }
        Ok(Status::BlockedByTask { date, id: id_raw as usize })
    } else if tag == 3 {
        let text = match read_string(b, pos) {
            Ok(s) => s,
            Err(e) => {
                return Err(e);
            },
        };
        let reason = match crate::short_string::ShortString::from_str(text.as_str()) {
            Ok(r) => r,
            Err(_) => {
                return Err(corrupt());
            },
        };
        Ok(Status::BlockedByOther { date, reason })
    } else if tag == 4 {
        let ob = match read_byte(b, pos) {
            Ok(v) => v,
            Err(e) => {
                return Err(e);
            },
        };
        let outcome = if ob == 0 {
            Outcome::Success
        } else if ob == 1 {
            Outcome::Failure
        } else {
            return Err(corrupt());
        };
        Ok(Status::Completed { date, outcome })
    } else {
        let text = match read_string(b, pos) {
            Ok(s) => s,
            Err(e) => {
                return Err(e);
            },
        };
        let reason = match crate::short_string::ShortString::from_str(text.as_str()) {
            Ok(r) => r,
            Err(_) => {
                return Err(corrupt());
            },
        };
        Ok(Status::Discarded { date, reason })
    }
}

/// Reads `count` length-prefixed texts.
fn read_strs(b: &Vec<u8>, pos: &mut usize, count: u64) -> (r: Result<Vec<String>, TrackerError>)
    requires
        *old(pos) <= b@.len(),
    ensures
        r matches Ok(v) ==> {
            &&& *old(pos) <= *final(pos) <= b@.len()
            &&& parse_strs(b@.skip(*old(pos) as int), count as int) == Some(
                (v.deep_view(), b@.skip(*final(pos) as int)),
            )
        },
        r is Err ==> parse_strs(b@.skip(*old(pos) as int), count as int) is None && r == Err::<
            Vec<String>,
            TrackerError,
        >(TrackerError::Persistence(PersistenceError::CorruptState)),
{
    let ghost p0 = *pos as int;
    let mut acc: Vec<String> = Vec::new();
    let mut k: u64 = 0;
    proof {
        assert(acc.deep_view() =~= Seq::<Seq<char>>::empty());
    }
    while k < count
        invariant
            k <= count,
            *pos <= b@.len(),
            acc@.len() == k,
            p0 == *old(pos) as int,
            p0 <= *pos,
            match parse_strs(b@.skip(*pos as int), (count - k) as int) {
                Some((ts, rest)) => parse_strs(b@.skip(p0), count as int) == Some(
                    (acc.deep_view() + ts, rest),
                ),
                None => parse_strs(b@.skip(p0), count as int) is None,
            },
        decreases count - k,
    {
        let ghost pin = *pos as int;
        let t = match read_string(b, pos) {
            Ok(s) => s,
            Err(e) => {
                proof {
                    assert(parse_strs(b@.skip(pin), (count - k) as int) is None);
                }
                return Err(e);
            },
        };
        let ghost prev = acc.deep_view();
        acc.push(t);
        proof {
            assert(acc.deep_view() =~= prev.push(acc@.last()@));
            match parse_strs(b@.skip(*pos as int), (count - k - 1) as int) {
                Some((ts2, rest2)) => {
                    assert(prev + (seq![acc@.last()@] + ts2) =~= acc.deep_view() + ts2);
                },
                None => {},
            }
        }
        k = k + 1;
    }
    proof {
        assert(parse_strs(b@.skip(*pos as int), 0) == Some(
            (Seq::<Seq<char>>::empty(), b@.skip(*pos as int)),
        ));
        assert(acc.deep_view() + Seq::<Seq<char>>::empty() =~= acc.deep_view());
    }
    Ok(acc)
}

/// Validates decoded tag texts: every one a valid tag, no two alike.
fn tags_from_texts(texts: Vec<String>) -> (r: Result<Vec<Tag>, TrackerError>)
    ensures
        r matches Ok(v) ==> v.deep_view() == texts.deep_view() && good_tag_texts(
            texts.deep_view(),
        ),
        r is Err ==> !good_tag_texts(texts.deep_view()) && r == Err::<Vec<Tag>, TrackerError>(
            TrackerError::Persistence(PersistenceError::CorruptState),
        ),
{
    let ghost ts = texts.deep_view();
    let mut acc: Vec<Tag> = Vec::new();
    let mut i: usize = 0;
    while i < texts.len()
        invariant
            i <= texts@.len(),
            ts == texts.deep_view(),
            ts.len() == texts@.len(),
            acc@.len() == i,
            forall|k: int| 0 <= k < i ==> (#[trigger] acc@[k])@ == ts[k],
            forall|k: int| 0 <= k < i ==> valid_tag_text(#[trigger] ts[k]),
            forall|k: int, j: int| 0 <= k < j < i ==> ts[k] != ts[j],
        decreases texts@.len() - i,
    {
        assert(texts.deep_view()[i as int] == texts@[i as int]@);
        let tag = match Tag::from_str(texts[i].as_str()) {
            Ok(t) => t,
            Err(_) => {
                assert(!valid_tag_text(ts[i as int]));
                assert(!good_tag_texts(ts));
                return Err(corrupt());
            },
        };
        let ghost prevdv = acc.deep_view();
        if crate::task::tags_contain(&acc, &tag) {
            proof {
                let w = choose|w: int| 0 <= w < acc.deep_view().len() && acc.deep_view()[w]
                    == tag@;
                assert(acc.deep_view()[w] == acc@[w]@);
                assert(ts[w] == ts[i as int]);
                assert(!distinct_texts(ts));
                assert(!good_tag_texts(ts));
            }
            return Err(corrupt());
        }
        let ghost prev = acc@;
        acc.push(tag);
        proof {
            assert forall|k: int| 0 <= k < i + 1 implies (#[trigger] acc@[k])@ == ts[k] by {
                if k < i {
                    assert(acc@[k] == prev[k]);
                } else {
                    assert(acc@[k] == prev.push(acc@.last())[k]);
                }
            }
            assert forall|k: int, j: int| 0 <= k < j < i + 1 implies ts[k] != ts[j] by {
                if j == i {
                    if ts[k] == ts[i as int] {
                        assert(prevdv[k] == prev[k]@);
                        assert(prevdv.contains(ts[i as int])) by {
                            assert(prevdv[k] == ts[i as int]);
                        }
                    }
                }
            }
        }
        i = i + 1;
    }
    proof {
        assert(acc.deep_view() =~= ts);
    }
    Ok(acc)
}

/// Reads one task, refusing any the tracker could not hold.
#[verifier::rlimit(100)]
fn read_task(b: &Vec<u8>, pos: &mut usize) -> (r: Result<Task, TrackerError>)
    requires
        *old(pos) <= b@.len(),
    ensures
        r matches Ok(t) ==> {
            &&& *old(pos) <= *final(pos) <= b@.len()
            &&& parse_task(b@.skip(*old(pos) as int)) == Some((t@, b@.skip(*final(pos) as int)))
            &&& t.wf()
        },
        r is Err ==> parse_task(b@.skip(*old(pos) as int)) is None && r == Err::<
            Task,
            TrackerError,
        >(TrackerError::Persistence(PersistenceError::CorruptState)),
{
    let short_text = match read_string(b, pos) {
        Ok(s) => s,
        Err(e) => {
            return Err(e);
        },
    };
    let short = match crate::short_string::ShortString::from_str(short_text.as_str()) {
        Ok(s) => s,
        Err(_) => {
            return Err(corrupt());
        },
    };
    let has_long = match read_byte(b, pos) {
        Ok(v) => v,
        Err(e) => {
            return Err(e);
        },
    };
    let long: Option<String> = if has_long == 0 {
        None
    } else if has_long == 1 {
        match read_string(b, pos) {
            Ok(s) => Some(s),
            Err(e) => {
                return Err(e);
            },
        }
    } else {
        return Err(corrupt());
    };
    let count = match read_u64(b, pos) {
        Ok(v) => v,
        Err(e) => {
            return Err(e);
        },
    };
    if count < 1 {
        return Err(corrupt());
    }
    let statuses = match read_statuses(b, pos, count) {
        Ok(v) => v,
        Err(e) => {
            return Err(e);
        },
    };
    proof {
        assert(statuses.deep_view()[0] == statuses@[0]@);
    }
    let first_not_started = match statuses[0] {
        Status::NotStarted => true,
        _ => false,
    };
    if !first_not_started {
        return Err(corrupt());
    }
    let cat_b = match read_byte(b, pos) {
        Ok(v) => v,
        Err(e) => {
            return Err(e);
        },
    };
    let category = if cat_b == 0 {
        Category::Task
    } else if cat_b == 1 {
        Category::Feature
    } else if cat_b == 2 {
        Category::Bug
    } else if cat_b == 3 {
        Category::Maintenance
    } else if cat_b == 4 {
        Category::Documentation
    } else if cat_b == 5 {
        Category::Other
    } else if cat_b == 6 {
        Category::Message
    } else {
        return Err(corrupt());
    };
    let has_dl = match read_byte(b, pos) {
        Ok(v) => v,
        Err(e) => {
            return Err(e);
        },
    };
    let deadline: Option<crate::date::Date> = if has_dl == 0 {
        None
    } else if has_dl == 1 {
        let d_raw = match read_u64(b, pos) {
            Ok(v) => v,
            Err(e) => {
                return Err(e);
            },
        };
        if !(1 <= d_raw && d_raw <= MAX_DAY_NUMBER as u64) {
            return Err(corrupt());
        }
        Some(crate::date::Date { days: d_raw as u32 })
    } else {
        return Err(corrupt());
    };
    let pri_b = match read_byte(b, pos) {
        Ok(v) => v,
        Err(e) => {
            return Err(e);
        },
    };
    let priority = if pri_b == 1 {
        Priority::VeryLow
    } else if pri_b == 2 {
        Priority::Low
    } else if pri_b == 3 {
        Priority::Normal
    } else if pri_b == 4 {
        Priority::High
    } else if pri_b == 5 {
        Priority::VeryHigh
    } else {
        return Err(corrupt());
    };
    let tag_count = match read_u64(b, pos) {
        Ok(v) => v,
        Err(e) => {
            return Err(e);
        },
    };
    let texts = match read_strs(b, pos, tag_count) {
        Ok(v) => v,
        Err(e) => {
            return Err(e);
        },
    };
    let tags = match tags_from_texts(texts) {
        Ok(v) => v,
        Err(e) => {
            proof {
                assert(parse_task(b@.skip(*old(pos) as int)) is None);
            }
            return Err(e);
        },
    };
    let t = Task { short, long, statuses, category, deadline, priority, tags };
    proof {
        assert(task_view_wf(t@));
        assert(parse_task(b@.skip(*old(pos) as int)) == Some((t@, b@.skip(*pos as int))));
    }
    Ok(t)
}

/// Reads `count` tasks.
fn read_tasks(b: &Vec<u8>, pos: &mut usize, count: u64) -> (r: Result<Vec<Task>, TrackerError>)
    requires
        *old(pos) <= b@.len(),
    ensures
        r matches Ok(v) ==> {
            &&& *old(pos) <= *final(pos) <= b@.len()
            &&& parse_tasks(b@.skip(*old(pos) as int), count as int) == Some(
                (v.deep_view(), b@.skip(*final(pos) as int)),
            )
            &&& forall|i: int| 0 <= i < v@.len() ==> (#[trigger] v@[i]).wf()
        },
        r is Err ==> parse_tasks(b@.skip(*old(pos) as int), count as int) is None && r == Err::<
            Vec<Task>,
            TrackerError,
        >(TrackerError::Persistence(PersistenceError::CorruptState)),
{
    let ghost p0 = *pos as int;
    let mut acc: Vec<Task> = Vec::new();
    let mut k: u64 = 0;
    proof {
        assert(acc.deep_view() =~= Seq::<TaskView>::empty());
    }
    while k < count
        invariant
            k <= count,
            *pos <= b@.len(),
            acc@.len() == k,
            forall|i: int| 0 <= i < acc@.len() ==> (#[trigger] acc@[i]).wf(),
            p0 == *old(pos) as int,
            p0 <= *pos,
            match parse_tasks(b@.skip(*pos as int), (count - k) as int) {
                Some((ts, rest)) => parse_tasks(b@.skip(p0), count as int) == Some(
                    (acc.deep_view() + ts, rest),
                ),
                None => parse_tasks(b@.skip(p0), count as int) is None,
            },
        decreases count - k,
    {
        let ghost pin = *pos as int;
        let t = match read_task(b, pos) {
            Ok(t) => t,
            Err(e) => {
                proof {
                    assert(parse_tasks(b@.skip(pin), (count - k) as int) is None);
                }
                return Err(e);
            },
        };
        let ghost prev = acc.deep_view();
        acc.push(t);
        proof {
            assert(acc.deep_view() =~= prev.push(acc@.last()@));
            match parse_tasks(b@.skip(*pos as int), (count - k - 1) as int) {
                Some((ts2, rest2)) => {
                    assert(prev + (seq![acc@.last()@] + ts2) =~= acc.deep_view() + ts2);
                },
                None => {},
            }
        }
        k = k + 1;
    }
    proof {
        assert(parse_tasks(b@.skip(*pos as int), 0) == Some(
            (Seq::<TaskView>::empty(), b@.skip(*pos as int)),
        ));
        assert(acc.deep_view() + Seq::<TaskView>::empty() =~= acc.deep_view());
    }
    Ok(acc)
}

impl Tasks {
    /// Decodes a saved store, re-checking every invariant; fails with a
    /// corrupt-state error on any bytes that are not an encoding.
    pub fn from_bytes(bytes: &Vec<u8>) -> (r: Result<Tasks, TrackerError>)
        ensures
            r matches Ok(t) ==> parse_store(bytes@) == Some(t@) && t.wf(),
            r is Err ==> parse_store(bytes@) is None && r == Err::<Tasks, TrackerError>(
                TrackerError::Persistence(PersistenceError::CorruptState),
            ),
    {
        let mut pos: usize = 0;
        proof {
            assert(bytes@.skip(0) =~= bytes@);
        }
        let count = match read_u64(bytes, &mut pos) {
            Ok(v) => v,
            Err(e) => {
                return Err(e);
            },
        };
        if count > usize::MAX as u64 {
            return Err(corrupt());
        }
        let tasks = match read_tasks(bytes, &mut pos, count) {
            Ok(v) => v,
            Err(e) => {
                return Err(e);
            },
        };
        if pos != bytes.len() {
            return Err(corrupt());
        }
        let store = Tasks { tasks };
        proof {
            assert(bytes@.skip(pos as int).len() == 0);
            assert(parse_store(bytes@) == Some(store@));
        }
        Ok(store)
    }
}

} // verus!
