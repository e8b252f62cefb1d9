//! The query engine: filters the store by tag set, completion state and
//! time window, then sorts the surviving identifiers by a key.
//!
//! The sort is stable: tasks are selected in identifier order, and ties in
//! the key keep that order, because the sorted sequence is ordered by the
//! pair (key, identifier).

use vstd::prelude::*;
use crate::category::category_rank;
use crate::date::Date;
use crate::error::{TrackerError, ValidationError};
use crate::interval::TimeInterval;
use crate::outcome::Outcome;
use crate::priority::priority_rank;
use crate::store::Tasks;
use crate::tag::Tag;
use crate::status::StatusView;
use crate::task::{completed_in_past, current_status, task_is_completed, Task, TaskView};
use crate::text::str_eq;

verus! {

broadcast use vstd::seq_lib::group_seq_properties;

/// Which tasks a summary shows: the pending ones, or those completed inside
/// a lookback window, optionally with a given outcome.
#[derive(Debug, Clone, Copy, PartialEq, Eq, Structural)]
pub enum Summary {
    Pending,
    Completed { interval: TimeInterval, outcome: Option<Outcome> },
}

/// The key a summary is sorted by.
#[derive(Debug, Clone, Copy, PartialEq, Eq, Structural)]
pub enum SortBy {
    Id,
    Category,
    Priority,
    Deadline,
}

/// The sort key a name denotes, if any.
pub open spec fn sort_by_of_text(s: Seq<char>) -> Option<SortBy> {
    if s == "id"@ {
        Some(SortBy::Id)
    } else if s == "category"@ {
        Some(SortBy::Category)
    } else if s == "priority"@ {
        Some(SortBy::Priority)
    } else if s == "deadline"@ {
        Some(SortBy::Deadline)
    } else {
        None
    }
}

impl SortBy {
    /// Parses a sort key name.
    pub fn from_str(s: &str) -> (r: Result<SortBy, TrackerError>)
        ensures
            r is Ok <==> sort_by_of_text(s@) is Some,
            r matches Ok(k) ==> sort_by_of_text(s@) == Some(k),
            r matches Err(e) ==> e == TrackerError::Validation(ValidationError::BadSortText),
    {
        if str_eq(s, "id") {
            Ok(SortBy::Id)
        } else if str_eq(s, "category") {
            Ok(SortBy::Category)
        } else if str_eq(s, "priority") {
            Ok(SortBy::Priority)
        } else if str_eq(s, "deadline") {
            Ok(SortBy::Deadline)
        } else {
            Err(TrackerError::Validation(ValidationError::BadSortText))
        }
    }
}

impl Default for SortBy {
    /// Summaries sort by priority unless asked otherwise.
    fn default() -> (r: SortBy)
        ensures
            r == SortBy::Priority,
    {
        SortBy::Priority
    }
}

/// Whether two tag sets share a tag.
pub open spec fn tags_intersect(a: Seq<Seq<char>>, b: Seq<Seq<char>>) -> bool {
    exists|i: int, j: int| 0 <= i < a.len() && 0 <= j < b.len() && a[i] == b[j]
}

/// The spec-level value of an optional tag filter.
pub open spec fn filter_view(f: Option<Vec<Tag>>) -> Option<Seq<Seq<char>>> {
    match f {
        Some(v) => Some(v.deep_view()),
        None => None,
    }
}

/// Whether a task passes the tag filter: there is none, or the task shares a
/// tag with it. A present filter, even an empty one, excludes every task
/// with no tag in common — in particular every task without tags.
pub open spec fn passes_tag_filter(t: TaskView, filter: Option<Seq<Seq<char>>>) -> bool {
    match filter {
        None => true,
        Some(f) => tags_intersect(t.tags, f),
    }
}

/// Whether a task passes the summary: pending shows the not-completed ones;
/// completed shows those completed inside the window, with the asked-for
/// outcome where one is given.
pub open spec fn passes_summary(t: TaskView, s: Summary, today: int) -> bool {
    match s {
        Summary::Pending => !task_is_completed(t),
        Summary::Completed { interval, outcome } => completed_in_past(t, interval, today)
            && (match outcome {
            None => true,
            Some(o) => current_status(t) matches StatusView::Completed { outcome: oc, .. }
                && oc == o,
        }),
    }
}

/// Whether a task passes both the tag filter and the summary.
pub open spec fn passes_query(
    t: TaskView,
    s: Summary,
    f: Option<Seq<Seq<char>>>,
    today: int,
) -> bool {
    passes_tag_filter(t, f) && passes_summary(t, s, today)
}

/// The sort key of a task: zero for identifier order (the selection is
/// already in that order), declaration rank for category, inverted rank for
/// priority (highest first), and the day number for deadline, with an absent
/// deadline sorting first.
pub open spec fn sort_key(sort: SortBy, t: TaskView) -> int {
    match sort {
        SortBy::Id => 0,
        SortBy::Category => category_rank(t.category),
        SortBy::Priority => 5 - priority_rank(t.priority),
        SortBy::Deadline => match t.deadline {
            None => 0,
            Some(d) => d + 1,
        },
    }
}

/// The (key, identifier) pairs of the tasks among the first `n` that pass
/// the query, in identifier order.
pub open spec fn selected_pairs_upto(
    store: Seq<TaskView>,
    s: Summary,
    f: Option<Seq<Seq<char>>>,
    sort: SortBy,
    today: int,
    n: int,
) -> Seq<(int, int)>
    decreases n,
{
    if n <= 0 {
        Seq::empty()
    } else {
        let rest = selected_pairs_upto(store, s, f, sort, today, n - 1);
        if passes_query(store[n - 1], s, f, today) {
            rest.push((sort_key(sort, store[n - 1]), n - 1))
        } else {
            rest
        }
    }
}

/// Pair order: by key, then by identifier. Distinct identifiers make this a
/// total order without ties, so the sorted sequence is unique and stable.
pub open spec fn pair_le(a: (int, int), b: (int, int)) -> bool {
    a.0 < b.0 || (a.0 == b.0 && a.1 <= b.1)
}

/// `x`, inserted in front of the first element of `s` it does not follow.
pub open spec fn insert_pair(x: (int, int), s: Seq<(int, int)>) -> Seq<(int, int)>
    decreases s.len(),
{
    if s.len() == 0 {
        seq![x]
    } else if pair_le(x, s[0]) {
        seq![x] + s
    } else {
        seq![s[0]] + insert_pair(x, s.drop_first())
    }
}

/// Insertion sort of the pairs, in `pair_le` order.
pub open spec fn sort_pairs(s: Seq<(int, int)>) -> Seq<(int, int)>
    decreases s.len(),
{
    if s.len() == 0 {
        Seq::empty()
    } else {
        insert_pair(s.last(), sort_pairs(s.drop_last()))
    }
}

/// Pairwise ordered under `pair_le`.
pub open spec fn pairs_sorted(s: Seq<(int, int)>) -> bool {
    forall|i: int, j: int| 0 <= i < j < s.len() ==> pair_le(s[i], s[j])
}

proof fn lemma_insert_pair_sorted(x: (int, int), s: Seq<(int, int)>)
    requires
        pairs_sorted(s),
    ensures
        pairs_sorted(insert_pair(x, s)),
        insert_pair(x, s).len() == s.len() + 1,
        forall|y: (int, int)| #[trigger] insert_pair(x, s).contains(y) ==> (y == x || s.contains(
            y,
        )),
        insert_pair(x, s).contains(x),
        forall|y: (int, int)| #[trigger] s.contains(y) ==> insert_pair(x, s).contains(y),
    decreases s.len(),
{
    let r = insert_pair(x, s);
    if s.len() == 0 {
        assert(r == seq![x]);
        assert(r[0] == x);
        assert forall|y: (int, int)| #[trigger] r.contains(y) implies (y == x || s.contains(
            y,
        )) by {
            let i = choose|i: int| 0 <= i < r.len() && r[i] == y;
        }
    } else if pair_le(x, s[0]) {
        assert(r == seq![x] + s);
        assert(r[0] == x);
        assert forall|i: int, j: int| 0 <= i < j < r.len() implies pair_le(r[i], r[j]) by {
            if i == 0 {
                assert(r[j] == s[j - 1]);
                if j > 1 {
                    assert(pair_le(s[0], s[j - 1]));
                }
            } else {
                assert(r[i] == s[i - 1] && r[j] == s[j - 1]);
            }
        }
        assert forall|y: (int, int)| #[trigger] r.contains(y) implies (y == x || s.contains(
            y,
        )) by {
            let i = choose|i: int| 0 <= i < r.len() && r[i] == y;
            if i > 0 {
                assert(s[i - 1] == y);
            }
        }
        assert forall|y: (int, int)| #[trigger] s.contains(y) implies r.contains(y) by {
            let i = choose|i: int| 0 <= i < s.len() && s[i] == y;
            assert(r[i + 1] == y);
        }
    } else {
        assert(pairs_sorted(s.drop_first())) by {
            assert(forall|i: int, j: int|
                0 <= i < j < s.drop_first().len() ==> pair_le(
                    #[trigger] s.drop_first()[i],
                    #[trigger] s.drop_first()[j],
                ));
        }
        lemma_insert_pair_sorted(x, s.drop_first());
        let tail = insert_pair(x, s.drop_first());
        assert(r == seq![s[0]] + tail);
        assert forall|i: int, j: int| 0 <= i < j < r.len() implies pair_le(r[i], r[j]) by {
            if i == 0 {
                assert(r[j] == tail[j - 1]);
                assert(tail.contains(tail[j - 1])) by {
                    assert(tail[j - 1] == tail[j - 1]);
                }
                let y = tail[j - 1];
                if y == x {
                    assert(pair_le(s[0], x));
                } else {
                    assert(s.drop_first().contains(y));
                    let w = choose|w: int| 0 <= w < s.drop_first().len() && s.drop_first()[w] == y;
                    assert(s[w + 1] == y);
                    assert(pair_le(s[0], s[w + 1]));
                }
            } else {
                assert(r[i] == tail[i - 1] && r[j] == tail[j - 1]);
            }
        }
        assert forall|y: (int, int)| #[trigger] r.contains(y) implies (y == x || s.contains(
            y,
        )) by {
            let i = choose|i: int| 0 <= i < r.len() && r[i] == y;
            if i == 0 {
                assert(s[0] == y);
                assert(s.contains(y));
            } else {
                assert(tail[i - 1] == y);
                assert(tail.contains(y));
                if y != x {
                    assert(s.drop_first().contains(y));
                    let w = choose|w: int| 0 <= w < s.drop_first().len() && s.drop_first()[w] == y;
                    assert(s[w + 1] == y);
                    assert(s.contains(y));
                }
            }
        }
        assert(r.contains(x)) by {
            assert(tail.contains(x));
            let w = choose|w: int| 0 <= w < tail.len() && tail[w] == x;
            assert(r[w + 1] == x);
        }
        assert forall|y: (int, int)| #[trigger] s.contains(y) implies r.contains(y) by {
            let i = choose|i: int| 0 <= i < s.len() && s[i] == y;
            if i == 0 {
                assert(r[0] == y);
            } else {
                assert(s.drop_first()[i - 1] == y);
                assert(s.drop_first().contains(y));
                assert(tail.contains(y));
                let w = choose|w: int| 0 <= w < tail.len() && tail[w] == y;
                assert(r[w + 1] == y);
            }
        }
    }
}

/// The sorted pairs are ordered, and hold exactly the elements of the input,
/// as many of them.
pub proof fn lemma_sort_pairs_properties(s: Seq<(int, int)>)
    ensures
        pairs_sorted(sort_pairs(s)),
        sort_pairs(s).len() == s.len(),
        forall|y: (int, int)| #[trigger] sort_pairs(s).contains(y) ==> s.contains(y),
        forall|y: (int, int)| #[trigger] s.contains(y) ==> sort_pairs(s).contains(y),
    decreases s.len(),
{
    if s.len() > 0 {
        lemma_sort_pairs_properties(s.drop_last());
        lemma_insert_pair_sorted(s.last(), sort_pairs(s.drop_last()));
        assert forall|y: (int, int)| #[trigger] sort_pairs(s).contains(y) implies s.contains(
            y,
        ) by {
            if y == s.last() {
                assert(s[s.len() - 1] == y);
            } else {
                assert(sort_pairs(s.drop_last()).contains(y));
                assert(s.drop_last().contains(y));
                let w = choose|w: int| 0 <= w < s.drop_last().len() && s.drop_last()[w] == y;
                assert(s[w] == y);
            }
        }
        assert forall|y: (int, int)| #[trigger] s.contains(y) implies sort_pairs(s).contains(
            y,
        ) by {
            let i = choose|i: int| 0 <= i < s.len() && s[i] == y;
            if i < s.len() - 1 {
                assert(s.drop_last()[i] == y);
                assert(s.drop_last().contains(y));
                assert(sort_pairs(s.drop_last()).contains(y));
            } else {
                assert(y == s.last());
            }
        }
    }
}

/// The identifiers a summary shows, in display order: the passing tasks'
/// (key, identifier) pairs, sorted.
pub open spec fn query_ids(
    store: Seq<TaskView>,
    s: Summary,
    f: Option<Seq<Seq<char>>>,
    sort: SortBy,
    today: int,
) -> Seq<int> {
    sort_pairs(selected_pairs_upto(store, s, f, sort, today, store.len() as int)).map_values(
        |p: (int, int)| p.1,
    )
}

/// The spec-level pairs of an executable pair vector.
pub open spec fn pair_views(s: Seq<(u64, usize)>) -> Seq<(int, int)> {
    s.map_values(|p: (u64, usize)| (p.0 as int, p.1 as int))
}

/// Whether the tag vectors share a tag.
fn tags_intersect_exec(a: &Vec<Tag>, b: &Vec<Tag>) -> (r: bool)
    ensures
        r == tags_intersect(a.deep_view(), b.deep_view()),
{
    let mut i: usize = 0;
    while i < a.len()
        invariant
            i <= a.len(),
            forall|k: int| 0 <= k < i ==> !b.deep_view().contains(#[trigger] a.deep_view()[k]),
        decreases a.len() - i,
    {
        assert(a.deep_view()[i as int] == a@[i as int]@);
        if crate::task::tags_contain(b, &a[i]) {
            let ghost j = choose|j: int|
                0 <= j < b.deep_view().len() && b.deep_view()[j] == a@[i as int]@;
            assert(a.deep_view()[i as int] == b.deep_view()[j]);
            return true;
        }
        i = i + 1;
    }
    assert forall|ii: int, jj: int|
        0 <= ii < a.deep_view().len() && 0 <= jj < b.deep_view().len() implies a.deep_view()[ii]
        != b.deep_view()[jj] by {
        assert(!b.deep_view().contains(a.deep_view()[ii]));
    }
    false
}

/// Whether a task passes the tag filter and the summary.
fn passes_query_exec(t: &Task, summary: &Summary, filter: &Option<Vec<Tag>>, today: Date) -> (r:
    bool)
    requires
        t.wf(),
        today.in_range(),
    ensures
        r == passes_query(t@, *summary, filter_view(*filter), today@),
{
    let tag_ok = match filter {
        None => true,
        Some(f) => tags_intersect_exec(&t.tags, f),
    };
    if !tag_ok {
        return false;
    }
    match summary {
        Summary::Pending => !t.is_completed(),
        Summary::Completed { interval, outcome } => {
            if !t.is_completed_in_past(interval, today) {
                false
            } else {
                match outcome {
                    None => true,
                    Some(o) => {
                        match t.outcome() {
                            Ok(oc) => oc == *o,
                            Err(_) => false,
                        }
                    },
                }
            }
        },
    }
}

/// The sort key of a task, as executable code.
fn sort_key_exec(sort: SortBy, t: &Task) -> (k: u64)
    requires
        t.wf(),
    ensures
        k == sort_key(sort, t@),
{
    match sort {
        SortBy::Id => 0,
        SortBy::Category => t.category.rank(),
        SortBy::Priority => 5 - t.priority.rank(),
        SortBy::Deadline => match t.deadline {
            None => 0,
            Some(d) => d.days as u64 + 1,
        },
    }
}

/// `insert_pair` splits the sequence at the first element `x` goes before.
proof fn lemma_insert_pair_at(x: (int, int), s: Seq<(int, int)>, k: int)
    requires
        0 <= k <= s.len(),
        forall|j: int| 0 <= j < k ==> !pair_le(x, #[trigger] s[j]),
        k < s.len() ==> pair_le(x, s[k]),
    ensures
        insert_pair(x, s) =~= s.take(k) + seq![x] + s.skip(k),
    decreases k,
{
    if s.len() == 0 {
        assert(insert_pair(x, s) =~= s.take(k) + seq![x] + s.skip(k));
    } else if k == 0 {
        assert(insert_pair(x, s) =~= s.take(0) + seq![x] + s.skip(0));
    } else {
        assert(!pair_le(x, s[0]));
        lemma_insert_pair_at(x, s.drop_first(), k - 1);
        assert(insert_pair(x, s) == seq![s[0]] + insert_pair(x, s.drop_first()));
        assert(insert_pair(x, s) =~= s.take(k) + seq![x] + s.skip(k));
    }
}

/// Sorts the pairs by key, then identifier.
fn sort_pairs_exec(v: Vec<(u64, usize)>) -> (out: Vec<(u64, usize)>)
    ensures
        pair_views(out@) == sort_pairs(pair_views(v@)),
{
    let mut out: Vec<(u64, usize)> = Vec::new();
    let mut i: usize = 0;
    proof {
        assert(pair_views(v@.take(0)) =~= Seq::<(int, int)>::empty());
        assert(pair_views(out@) =~= Seq::<(int, int)>::empty());
    }
    while i < v.len()
        invariant
            i <= v.len(),
            pair_views(out@) == sort_pairs(pair_views(v@.take(i as int))),
            out@.len() == i,
        decreases v.len() - i,
    {
        let x = v[i];
        let ghost xs = (x.0 as int, x.1 as int);
        let mut pos: usize = 0;
        while pos < out.len() && !(x.0 < out[pos].0 || (x.0 == out[pos].0 && x.1 <= out[pos].1))
            invariant
                pos <= out@.len(),
                xs == (x.0 as int, x.1 as int),
                forall|j: int| 0 <= j < pos ==> !pair_le(xs, #[trigger] pair_views(out@)[j]),
            decreases out@.len() - pos,
        {
            assert(pair_views(out@)[pos as int] == (out@[pos as int].0 as int,
                out@[pos as int].1 as int));
            pos = pos + 1;
        }
        proof {
            if pos < out@.len() {
                assert(pair_views(out@)[pos as int] == (out@[pos as int].0 as int,
                    out@[pos as int].1 as int));
                assert(pair_le(xs, pair_views(out@)[pos as int]));
            }
            lemma_insert_pair_at(xs, pair_views(out@), pos as int);
        }
        let ghost prev = out@;
        out.insert(pos, x);
        proof {
            assert(pair_views(v@.take(i + 1)).drop_last() =~= pair_views(v@.take(i as int)));
            assert(pair_views(v@.take(i + 1)).last() == xs);
            assert(pair_views(out@) =~= pair_views(prev).take(pos as int) + seq![xs] + pair_views(
                prev,
            ).skip(pos as int));
            assert(pair_views(out@) =~= sort_pairs(pair_views(v@.take(i + 1))));
        }
        i = i + 1;
    }
    proof {
        assert(v@.take(v@.len() as int) =~= v@);
    }
    out
}

/// Runs a query: the identifiers of the tasks that pass the tag filter and
/// the summary, sorted by the sort key with ties in identifier order. Every
/// returned identifier is live.
pub fn run_query(
    tasks: &Tasks,
    summary: &Summary,
    filter: &Option<Vec<Tag>>,
    sort: SortBy,
    today: Date,
) -> (ids: Vec<usize>)
    requires
        tasks.wf(),
        today.in_range(),
    ensures
        ids@.map_values(|u: usize| u as int) == query_ids(
            tasks@,
            *summary,
            filter_view(*filter),
            sort,
            today@,
        ),
        forall|k: int| 0 <= k < ids@.len() ==> (#[trigger] ids@[k]) < tasks@.len(),
{
    let ghost fv = filter_view(*filter);
    let n = tasks.num_tasks();
    let mut sel: Vec<(u64, usize)> = Vec::new();
    let mut i: usize = 0;
    proof {
        assert(pair_views(sel@) =~= selected_pairs_upto(tasks@, *summary, fv, sort, today@, 0));
    }
    while i < n
        invariant
            i <= n,
            n == tasks@.len(),
            tasks.wf(),
            today.in_range(),
            fv == filter_view(*filter),
            pair_views(sel@) == selected_pairs_upto(tasks@, *summary, fv, sort, today@, i as int),
            forall|k: int| 0 <= k < sel@.len() ==> (#[trigger] sel@[k]).1 < n,
        decreases n - i,
    {
        let t = tasks.get_task(i);
        let ghost prev = sel@;
        if passes_query_exec(t, summary, filter, today) {
            let key = sort_key_exec(sort, t);
            sel.push((key, i));
            proof {
                assert(pair_views(sel@) =~= pair_views(prev).push(
                    (key as int, i as int),
                ));
            }
        }
        i = i + 1;
    }
    let sorted = sort_pairs_exec(sel);
    let mut ids: Vec<usize> = Vec::new();
    let mut k: usize = 0;
    while k < sorted.len()
        invariant
            k <= sorted@.len(),
            ids@.len() == k,
            forall|j: int| 0 <= j < k ==> (#[trigger] ids@[j]) == sorted@[j].1,
        decreases sorted@.len() - k,
    {
        let p = sorted[k];
        ids.push(p.1);
        k = k + 1;
    }
    proof {
        assert(ids@.map_values(|u: usize| u as int) =~= pair_views(sorted@).map_values(
            |p: (int, int)| p.1,
        ));
        lemma_sort_pairs_properties(
            selected_pairs_upto(tasks@, *summary, fv, sort, today@, n as int),
        );
        assert forall|j: int| 0 <= j < ids@.len() implies (#[trigger] ids@[j]) < tasks@.len() by {
            assert(pair_views(sorted@).contains(pair_views(sorted@)[j]));
            lemma_selected_pairs_bounded(tasks@, *summary, fv, sort, today@, n as int);
            assert(sorted@[j].1 == pair_views(sorted@)[j].1);
        }
    }
    ids
}

/// Every selected pair's identifier is below `n`.
proof fn lemma_selected_pairs_bounded(
    store: Seq<TaskView>,
    s: Summary,
    f: Option<Seq<Seq<char>>>,
    sort: SortBy,
    today: int,
    n: int,
)
    ensures
        forall|y: (int, int)|
            #[trigger] selected_pairs_upto(store, s, f, sort, today, n).contains(y) ==> 0 <= y.1
                < n,
    decreases n,
{
    if n > 0 {
        lemma_selected_pairs_bounded(store, s, f, sort, today, n - 1);
        let rest = selected_pairs_upto(store, s, f, sort, today, n - 1);
        assert forall|y: (int, int)|
            #[trigger] selected_pairs_upto(store, s, f, sort, today, n).contains(y) implies 0
            <= y.1 < n by {
            if passes_query(store[n - 1], s, f, today) {
                let cur = selected_pairs_upto(store, s, f, sort, today, n);
                let w = choose|w: int| 0 <= w < cur.len() && cur[w] == y;
                if w < rest.len() {
                    assert(rest[w] == y);
                    assert(rest.contains(y));
                } else {
                    assert(y == (sort_key(sort, store[n - 1]), n - 1));
                }
            }
        }
    }
}

} // verus!
