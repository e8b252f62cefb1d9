//! Tasks: the aggregate of a short description, optional long text, an
//! append-only status history, category, deadline, priority and tag set.

use vstd::prelude::*;
use crate::category::{category_of_text, Category};
use crate::date::{Date, MAX_DAY_NUMBER};
use crate::date_specifier::{date_specifier_of_text, resolved_day, DateSpecifier};
use crate::error::{StateError, TrackerError, ValidationError};
use crate::interval::{interval_contains, TimeInterval};
use crate::outcome::Outcome;
use crate::priority::{priority_of_text, Priority};
use crate::short_string::ShortString;
use crate::status::{status_view_wf, Status, StatusView};
use crate::tag::{valid_tag_text, Tag};
use crate::text::has_prefix;

verus! {

/// The spec-level value of a task.
pub struct TaskView {
    pub short: Seq<char>,
    pub long: Option<Seq<char>>,
    pub statuses: Seq<StatusView>,
    pub category: Category,
    pub deadline: Option<int>,
    pub priority: Priority,
    pub tags: Seq<Seq<char>>,
}

/// A task the tracker can hold: a valid short description, a non-empty
/// history opening with `NotStarted`, well-formed statuses, a deadline in
/// the date range, and distinct valid tags.
pub open spec fn task_view_wf(t: TaskView) -> bool {
    &&& 1 <= t.short.len() <= 50
    &&& t.statuses.len() >= 1
    &&& t.statuses[0] is NotStarted
    &&& (forall|i: int| 0 <= i < t.statuses.len() ==> status_view_wf(#[trigger] t.statuses[i]))
    &&& (match t.deadline {
        Some(d) => 1 <= d <= MAX_DAY_NUMBER,
        None => true,
    })
    &&& (forall|i: int| 0 <= i < t.tags.len() ==> valid_tag_text(#[trigger] t.tags[i]))
    &&& (forall|i: int, j: int| 0 <= i < j < t.tags.len() ==> t.tags[i] != t.tags[j])
}

/// The current status of a task: the last of its history.
pub open spec fn current_status(t: TaskView) -> StatusView {
    t.statuses.last()
}

/// Whether a task's current status is completed.
pub open spec fn task_is_completed(t: TaskView) -> bool {
    current_status(t) is Completed
}

/// Whether a task may be started: only one whose current status is the
/// initial not-started state.
pub open spec fn can_start(t: TaskView) -> bool {
    current_status(t) is NotStarted
}

/// The view of a task after a status is appended; nothing else changes.
pub open spec fn with_status(t: TaskView, s: StatusView) -> TaskView {
    TaskView { statuses: t.statuses.push(s), ..t }
}

/// Distinct tags in first-appearance order: each tag is kept only where it
/// has not appeared before.
pub open spec fn dedup_tags(ts: Seq<Seq<char>>) -> Seq<Seq<char>>
    decreases ts.len(),
{
    if ts.len() == 0 {
        Seq::empty()
    } else {
        let rest = dedup_tags(ts.drop_last());
        if rest.contains(ts.last()) {
            rest
        } else {
            rest.push(ts.last())
        }
    }
}

/// Every tag that deduplication keeps comes from the input.
pub proof fn lemma_dedup_tags_from_input(ts: Seq<Seq<char>>)
    ensures
        forall|x: Seq<char>| #[trigger] dedup_tags(ts).contains(x) ==> ts.contains(x),
    decreases ts.len(),
{
    if ts.len() > 0 {
        lemma_dedup_tags_from_input(ts.drop_last());
        assert forall|x: Seq<char>| #[trigger] dedup_tags(ts).contains(x) implies ts.contains(
            x,
        ) by {
            if dedup_tags(ts.drop_last()).contains(x) {
                assert(ts.drop_last().contains(x));
                let i = choose|i: int| 0 <= i < ts.drop_last().len() && ts.drop_last()[i] == x;
                assert(ts[i] == x);
            } else {
                assert(x == ts.last());
            }
        }
    }
}

/// Deduplicated tags are pairwise distinct.
pub proof fn lemma_dedup_tags_distinct(ts: Seq<Seq<char>>)
    ensures
        forall|i: int, j: int|
            0 <= i < j < dedup_tags(ts).len() ==> dedup_tags(ts)[i] != dedup_tags(ts)[j],
    decreases ts.len(),
{
    if ts.len() > 0 {
        lemma_dedup_tags_distinct(ts.drop_last());
        let rest = dedup_tags(ts.drop_last());
        if !rest.contains(ts.last()) {
            assert forall|i: int, j: int|
                0 <= i < j < dedup_tags(ts).len() implies dedup_tags(ts)[i] != dedup_tags(
                ts,
            )[j] by {
                if j < rest.len() {
                } else {
                    assert(dedup_tags(ts)[j] == ts.last());
                    assert(dedup_tags(ts)[i] == rest[i]);
                    assert(!rest.contains(ts.last()));
                }
            }
        }
    }
}

/// Deduplication leaves a sequence of distinct tags as it is.
pub proof fn lemma_dedup_tags_of_distinct(ts: Seq<Seq<char>>)
    requires
        forall|i: int, j: int| 0 <= i < j < ts.len() ==> ts[i] != ts[j],
    ensures
        dedup_tags(ts) == ts,
    decreases ts.len(),
{
    if ts.len() > 0 {
        lemma_dedup_tags_of_distinct(ts.drop_last());
        if ts.drop_last().contains(ts.last()) {
            let i = choose|i: int|
                0 <= i < ts.drop_last().len() && ts.drop_last()[i] == ts.last();
            assert(ts[i] == ts[ts.len() - 1]);
            assert(false);
        }
        assert(dedup_tags(ts) =~= ts);
    }
}

/// The tags of `ts` that are not in `rem`, in order.
pub open spec fn tags_removed(ts: Seq<Seq<char>>, rem: Seq<Seq<char>>) -> Seq<Seq<char>>
    decreases ts.len(),
{
    if ts.len() == 0 {
        Seq::empty()
    } else {
        let rest = tags_removed(ts.drop_last(), rem);
        if rem.contains(ts.last()) {
            rest
        } else {
            rest.push(ts.last())
        }
    }
}

/// Removal keeps a subsequence: every kept tag comes from the input, and
/// distinctness survives.
pub proof fn lemma_tags_removed_from_input(ts: Seq<Seq<char>>, rem: Seq<Seq<char>>)
    ensures
        forall|x: Seq<char>| #[trigger] tags_removed(ts, rem).contains(x) ==> ts.contains(x),
    decreases ts.len(),
{
    if ts.len() > 0 {
        lemma_tags_removed_from_input(ts.drop_last(), rem);
        assert forall|x: Seq<char>| #[trigger] tags_removed(ts, rem).contains(x) implies ts.contains(
            x,
        ) by {
            if tags_removed(ts.drop_last(), rem).contains(x) {
                assert(ts.drop_last().contains(x));
                let i = choose|i: int| 0 <= i < ts.drop_last().len() && ts.drop_last()[i] == x;
                assert(ts[i] == x);
            } else {
                assert(x == ts.last());
            }
        }
    }
}

proof fn lemma_tags_removed_distinct(ts: Seq<Seq<char>>, rem: Seq<Seq<char>>)
    requires
        forall|i: int, j: int| 0 <= i < j < ts.len() ==> ts[i] != ts[j],
    ensures
        forall|i: int, j: int|
            0 <= i < j < tags_removed(ts, rem).len() ==> tags_removed(ts, rem)[i] != tags_removed(
                ts,
                rem,
            )[j],
    decreases ts.len(),
{
    if ts.len() > 0 {
        lemma_tags_removed_distinct(ts.drop_last(), rem);
        lemma_tags_removed_from_input(ts.drop_last(), rem);
        let rest = tags_removed(ts.drop_last(), rem);
        if !rem.contains(ts.last()) {
            assert forall|i: int, j: int|
                0 <= i < j < tags_removed(ts, rem).len() implies tags_removed(ts, rem)[i]
                != tags_removed(ts, rem)[j] by {
                if j == rest.len() {
                    assert(tags_removed(ts, rem)[j] == ts.last());
                    assert(tags_removed(ts, rem)[i] == rest[i]);
                    if rest[i] == ts.last() {
                        assert(rest.contains(rest[i]));
                        assert(ts.drop_last().contains(ts.last()));
                        let w = choose|w: int|
                            0 <= w < ts.drop_last().len() && ts.drop_last()[w] == ts.last();
                        assert(ts[w] == ts[ts.len() - 1]);
                    }
                }
            }
        }
    }
}

/// Tags drawn from a source of valid tags are themselves valid.
proof fn lemma_tags_valid_transfer(out: Seq<Seq<char>>, src: Seq<Seq<char>>)
    requires
        forall|x: Seq<char>| #[trigger] out.contains(x) ==> src.contains(x),
        forall|i: int| 0 <= i < src.len() ==> valid_tag_text(#[trigger] src[i]),
    ensures
        forall|i: int| 0 <= i < out.len() ==> valid_tag_text(#[trigger] out[i]),
{
    assert forall|i: int| 0 <= i < out.len() implies valid_tag_text(#[trigger] out[i]) by {
        assert(out.contains(out[i]));
        let j = choose|j: int| 0 <= j < src.len() && src[j] == out[i];
    }
}

/// A trackable unit of work: descriptive metadata and an append-only status
/// history whose last element is the current state.
#[derive(Debug)]
pub struct Task {
    pub short: ShortString,
    pub long: Option<String>,
    pub statuses: Vec<Status>,
    pub category: Category,
    pub deadline: Option<Date>,
    pub priority: Priority,
    pub tags: Vec<Tag>,
}

impl View for Task {
    type V = TaskView;

    open spec fn view(&self) -> TaskView {
        TaskView {
            short: self.short@,
            long: match self.long {
                Some(ref l) => Some(l@),
                None => None,
            },
            statuses: self.statuses.deep_view(),
            category: self.category,
            deadline: match self.deadline {
                Some(d) => Some(d@),
                None => None,
            },
            priority: self.priority,
            tags: self.tags.deep_view(),
        }
    }
}

impl DeepView for Task {
    type V = TaskView;

    open spec fn deep_view(&self) -> TaskView {
        self.view()
    }
}

/// Whether the tags of `v` hold one with the text of `t`.
pub fn tags_contain(v: &Vec<Tag>, t: &Tag) -> (r: bool)
    ensures
        r == v.deep_view().contains(t@),
{
    let mut i: usize = 0;
    while i < v.len()
        invariant
            i <= v.len(),
            forall|k: int| 0 <= k < i ==> v.deep_view()[k] != t@,
        decreases v.len() - i,
    {
        assert(v.deep_view()[i as int] == v@[i as int]@);
        if v[i].same_as(t) {
            assert(v.deep_view().contains(t@));
            return true;
        }
        i = i + 1;
    }
    assert(forall|k: int| 0 <= k < v.deep_view().len() ==> v.deep_view()[k] != t@);
    false
}

impl Task {
    /// A well-formed task.
    pub open spec fn wf(self) -> bool {
        task_view_wf(self@)
    }

    /// A new task: the given metadata, a history of exactly one not-started
    /// status, and the tags with duplicates dropped. A deadline given
    /// symbolically is resolved against `today`.
    pub fn new(
        short: ShortString,
        category: Category,
        long: Option<String>,
        deadline: Option<DateSpecifier>,
        priority: Priority,
        tags: Vec<Tag>,
        today: Date,
    ) -> (t: Task)
        requires
            short.wf(),
            today.in_start_range(),
            deadline matches Some(ds) ==> ds.wf(),
            forall|i: int| 0 <= i < tags@.len() ==> (#[trigger] tags@[i]).wf(),
        ensures
            t@.short == short@,
            t@.long == (match long {
                Some(l) => Some(l@),
                None => None::<Seq<char>>,
            }),
            t@.statuses == seq![StatusView::NotStarted],
            t@.category == category,
            t@.deadline == (match deadline {
                Some(ds) => Some(resolved_day(ds, today@)),
                None => None::<int>,
            }),
            t@.priority == priority,
            t@.tags == dedup_tags(tags.deep_view()),
            t.wf(),
    {
        let resolved = match deadline {
            Some(ds) => Some(ds.resolve(today)),
            None => None,
        };
        let mut kept: Vec<Tag> = Vec::new();
        let mut i: usize = 0;
        while i < tags.len()
            invariant
                i <= tags.len(),
                kept.deep_view() == dedup_tags(tags.deep_view().take(i as int)),
                forall|k: int|
                    0 <= k < kept@.len() ==> tags.deep_view().contains(#[trigger] kept@[k]@),
            decreases tags.len() - i,
        {
            let ghost tsv = tags.deep_view();
            assert(tsv.take(i + 1).drop_last() =~= tsv.take(i as int));
            assert(tsv.take(i + 1).last() == tsv[i as int]);
            assert(tags.deep_view()[i as int] == tags@[i as int]@);
            let tag = Tag { text: tags[i].as_str().to_owned() };
            let ghost prev = kept@;
            if !tags_contain(&kept, &tag) {
                kept.push(tag);
                proof {
                    assert(kept@ =~= prev.push(kept@[prev.len() as int]));
                    assert(kept.deep_view() =~= dedup_tags(tsv.take(i + 1)));
                }
            } else {
                proof {
                    assert(kept.deep_view() =~= dedup_tags(tsv.take(i + 1)));
                }
            }
            i = i + 1;
        }
        assert(tags.deep_view().take(tags@.len() as int) =~= tags.deep_view());
        let mut statuses: Vec<Status> = Vec::new();
        statuses.push(Status::NotStarted);
        let t = Task { short, long, statuses, category, deadline: resolved, priority, tags: kept };
        proof {
            assert(t@.statuses =~= seq![StatusView::NotStarted]);
            lemma_dedup_tags_distinct(tags.deep_view());
            lemma_dedup_tags_from_input(tags.deep_view());
            assert(forall|i: int|
                0 <= i < tags.deep_view().len() ==> valid_tag_text(
                    #[trigger] tags.deep_view()[i],
                ));
            lemma_tags_valid_transfer(dedup_tags(tags.deep_view()), tags.deep_view());
            assert(task_view_wf(t@));
        }
        t
    }


    /// Builds a task from plain text parts: the short description, and
    /// optional category, long text, deadline, priority and tags, each
    /// parsed by its own validator; absent parts take their defaults.
    /// Construction succeeds exactly when every given part parses.
    pub fn from_strings(
        short: &str,
        category: Option<&str>,
        long: Option<&str>,
        deadline: Option<&str>,
        priority: Option<&str>,
        tags: Vec<&str>,
        today: Date,
    ) -> (r: Result<Task, TrackerError>)
        requires
            today.in_start_range(),
        ensures
            r is Ok <==> {
                &&& 1 <= short@.len() <= 50
                &&& (match category {
                    Some(c) => category_of_text(c@) is Some,
                    None => true,
                })
                &&& (match deadline {
                    Some(d) => date_specifier_of_text(d@) is Some,
                    None => true,
                })
                &&& (match priority {
                    Some(p) => priority_of_text(p@) is Some,
                    None => true,
                })
                &&& (forall|i: int| 0 <= i < tags@.len() ==> valid_tag_text((#[trigger] tags@[i])@))
            },
            r matches Ok(t) ==> {
                &&& t@.short == short@
                &&& t@.long == (match long {
                    Some(l) => Some(l@),
                    None => None::<Seq<char>>,
                })
                &&& t@.statuses == seq![StatusView::NotStarted]
                &&& (match category {
                    Some(c) => category_of_text(c@) == Some(t@.category),
                    None => t@.category == Category::Task,
                })
                &&& (match deadline {
                    Some(d) => (match date_specifier_of_text(d@) {
                        Some(ds) => t@.deadline == Some(resolved_day(ds, today@)),
                        None => false,
                    }),
                    None => t@.deadline is None,
                })
                &&& (match priority {
                    Some(p) => priority_of_text(p@) == Some(t@.priority),
                    None => t@.priority == Priority::Normal,
                })
                &&& t@.tags == dedup_tags(Seq::new(tags@.len() as nat, |i: int| tags@[i]@))
                &&& t.wf()
            },
            r matches Err(e) ==> e == TrackerError::Validation(
                if short@.len() == 0 {
                    ValidationError::EmptyShortText
                } else if short@.len() > 50 {
                    ValidationError::OverlongShortText
                } else if (match category {
                    Some(c) => category_of_text(c@) is None,
                    None => false,
                }) {
                    ValidationError::BadCategoryText
                } else if (match deadline {
                    Some(d) => date_specifier_of_text(d@) is None,
                    None => false,
                }) {
                    (match deadline {
                        Some(d) => if (has_prefix(d@, "this/"@) || has_prefix(d@, "next/"@)) && d@
                            != "today"@ && d@ != "tomorrow"@ {
                            ValidationError::BadWeekdayText
                        } else {
                            ValidationError::BadDateText
                        },
                        None => ValidationError::BadDateText,
                    })
                } else if (match priority {
                    Some(p) => priority_of_text(p@) is None,
                    None => false,
                }) {
                    ValidationError::BadPriorityText
                } else {
                    ValidationError::BadTagText
                },
            ),
    {
        let short_v = match ShortString::from_str(short) {
            Ok(s) => s,
            Err(e) => {
                return Err(e);
            },
        };
        let category_v = match category {
            Some(c) => match Category::from_str(c) {
                Ok(v) => v,
                Err(e) => {
                    return Err(e);
                },
            },
            None => Category::Task,
        };
        let long_v = match long {
            Some(l) => Some(l.to_owned()),
            None => None,
        };
        let deadline_v = match deadline {
            Some(d) => match DateSpecifier::from_str(d) {
                Ok(v) => Some(v),
                Err(e) => {
                    return Err(e);
                },
            },
            None => None,
        };
        let priority_v = match priority {
            Some(p) => match Priority::from_str(p) {
                Ok(v) => v,
                Err(e) => {
                    return Err(e);
                },
            },
            None => Priority::Normal,
        };
        let mut tag_vec: Vec<Tag> = Vec::new();
        let mut i: usize = 0;
        while i < tags.len()
            invariant
                i <= tags@.len(),
                tag_vec@.len() == i,
                forall|k: int| 0 <= k < i ==> (#[trigger] tag_vec@[k])@ == tags@[k]@,
                forall|k: int| 0 <= k < i ==> valid_tag_text((#[trigger] tags@[k])@),
                1 <= short@.len() <= 50,
                (match category {
                    Some(c) => category_of_text(c@) is Some,
                    None => true,
                }),
                (match deadline {
                    Some(d) => date_specifier_of_text(d@) is Some,
                    None => true,
                }),
                (match priority {
                    Some(p) => priority_of_text(p@) is Some,
                    None => true,
                }),
            decreases tags@.len() - i,
        {
            let tag = match Tag::from_str(tags[i]) {
                Ok(t) => t,
                Err(e) => {
                    assert(!valid_tag_text(tags@[i as int]@));
                    return Err(e);
                },
            };
            let ghost prev = tag_vec@;
            tag_vec.push(tag);
            proof {
                assert forall|k: int| 0 <= k < i + 1 implies (#[trigger] tag_vec@[k])@
                    == tags@[k]@ by {
                    if k < i {
                        assert(tag_vec@[k] == prev[k]);
                    } else {
                        assert(tag_vec@[k] == prev.push(tag_vec@.last())[k]);
                    }
                }
            }
            i = i + 1;
        }
        proof {
            assert(tag_vec.deep_view() =~= Seq::new(tags@.len() as nat, |k: int| tags@[k]@));
        }
        let t = Task::new(short_v, category_v, long_v, deadline_v, priority_v, tag_vec, today);
        Ok(t)
    }

    /// Replaces the short description.
    pub fn set_short(&mut self, short: ShortString)
        requires
            old(self).wf(),
            short.wf(),
        ensures
            final(self)@ == (TaskView { short: short@, ..old(self)@ }),
            final(self).wf(),
    {
        self.short = short;
    }

    /// Replaces the long description.
    pub fn set_long(&mut self, long: String)
        requires
            old(self).wf(),
        ensures
            final(self)@ == (TaskView { long: Some(long@), ..old(self)@ }),
            final(self).wf(),
    {
        self.long = Some(long);
    }

    /// Drops the long description.
    pub fn unset_long(&mut self)
        requires
            old(self).wf(),
        ensures
            final(self)@ == (TaskView { long: None, ..old(self)@ }),
            final(self).wf(),
    {
        self.long = None;
    }

    /// Drops the deadline.
    pub fn unset_deadline(&mut self)
        requires
            old(self).wf(),
        ensures
            final(self)@ == (TaskView { deadline: None, ..old(self)@ }),
            final(self).wf(),
    {
        self.deadline = None;
    }

    /// Appends a status to the history; the append-only discipline never
    /// removes or reorders earlier entries.
    pub fn set_status(&mut self, status: Status)
        requires
            old(self).wf(),
            status.wf(),
        ensures
            final(self)@ == with_status(old(self)@, status@),
            final(self).wf(),
    {
        self.statuses.push(status);
        proof {
            assert(self@.statuses =~= old(self)@.statuses.push(status@));
            assert(task_view_wf(self@));
        }
    }

    /// Replaces the category.
    pub fn set_category(&mut self, category: Category)
        requires
            old(self).wf(),
        ensures
            final(self)@ == (TaskView { category, ..old(self)@ }),
            final(self).wf(),
    {
        self.category = category;
    }

    /// Replaces the priority.
    pub fn set_priority(&mut self, priority: Priority)
        requires
            old(self).wf(),
        ensures
            final(self)@ == (TaskView { priority, ..old(self)@ }),
            final(self).wf(),
    {
        self.priority = priority;
    }

    /// Replaces the deadline with an already resolved date.
    pub fn set_deadline(&mut self, deadline: Date)
        requires
            old(self).wf(),
            deadline.in_range(),
        ensures
            final(self)@ == (TaskView { deadline: Some(deadline@), ..old(self)@ }),
            final(self).wf(),
    {
        self.deadline = Some(deadline);
    }

    /// Adds tags, keeping the tag set free of duplicates.
    pub fn add_tags(&mut self, tags: Vec<Tag>)
        requires
            old(self).wf(),
            forall|i: int| 0 <= i < tags@.len() ==> (#[trigger] tags@[i]).wf(),
        ensures
            final(self)@ == (TaskView {
                tags: dedup_tags(old(self)@.tags + tags.deep_view()),
                ..old(self)@
            }),
            final(self).wf(),
    {
        let ghost orig = self@.tags;
        let ghost added = tags.deep_view();
        proof {
            assert(orig + added.take(0) =~= orig);
            lemma_dedup_tags_of_distinct(orig);
        }
        let mut i: usize = 0;
        while i < tags.len()
            invariant
                i <= tags.len(),
                added == tags.deep_view(),
                self@ == (TaskView {
                    tags: dedup_tags(orig + added.take(i as int)),
                    ..old(self)@
                }),
            decreases tags.len() - i,
        {
            assert((orig + added.take(i + 1)).drop_last() =~= orig + added.take(i as int));
            assert((orig + added.take(i + 1)).last() == added[i as int]);
            assert(tags.deep_view()[i as int] == tags@[i as int]@);
            let tag = Tag { text: tags[i].as_str().to_owned() };
            let ghost prev = self.tags@;
            if !tags_contain(&self.tags, &tag) {
                self.tags.push(tag);
                proof {
                    assert(self.tags.deep_view() =~= dedup_tags(orig + added.take(i + 1)));
                }
            } else {
                proof {
                    assert(self.tags.deep_view() =~= dedup_tags(orig + added.take(i + 1)));
                }
            }
            i = i + 1;
        }
        proof {
            assert(added.take(tags@.len() as int) =~= added);
            lemma_dedup_tags_distinct(orig + added);
            lemma_dedup_tags_from_input(orig + added);
            assert(forall|i: int|
                0 <= i < added.len() ==> valid_tag_text(#[trigger] added[i]));
            assert(forall|i: int|
                0 <= i < (orig + added).len() ==> valid_tag_text(#[trigger] (orig + added)[i]));
            lemma_tags_valid_transfer(dedup_tags(orig + added), orig + added);
            assert(task_view_wf(self@));
        }
    }

    /// Removes every tag whose text appears in `tags`.
    pub fn remove_tags(&mut self, tags: &Vec<Tag>)
        requires
            old(self).wf(),
        ensures
            final(self)@ == (TaskView {
                tags: tags_removed(old(self)@.tags, tags.deep_view()),
                ..old(self)@
            }),
            final(self).wf(),
    {
        let ghost orig = self@.tags;
        let ghost rem = tags.deep_view();
        let mut kept: Vec<Tag> = Vec::new();
        let mut i: usize = 0;
        while i < self.tags.len()
            invariant
                i <= self.tags.len(),
                orig == self.tags.deep_view(),
                rem == tags.deep_view(),
                self@ == old(self)@,
                kept.deep_view() == tags_removed(orig.take(i as int), rem),
            decreases self.tags.len() - i,
        {
            assert(orig.take(i + 1).drop_last() =~= orig.take(i as int));
            assert(orig.take(i + 1).last() == orig[i as int]);
            assert(self.tags.deep_view()[i as int] == self.tags@[i as int]@);
            let tag = Tag { text: self.tags[i].as_str().to_owned() };
            if !tags_contain(tags, &tag) {
                kept.push(tag);
                proof {
                    assert(kept.deep_view() =~= tags_removed(orig.take(i + 1), rem));
                }
            } else {
                proof {
                    assert(kept.deep_view() =~= tags_removed(orig.take(i + 1), rem));
                }
            }
            i = i + 1;
        }
        proof {
            assert(orig.take(self.tags@.len() as int) =~= orig);
            lemma_tags_removed_distinct(orig, rem);
            lemma_tags_removed_from_input(orig, rem);
            lemma_tags_valid_transfer(tags_removed(orig, rem), orig);
        }
        self.tags = kept;
        proof {
            assert(task_view_wf(self@));
        }
    }

    /// The current status: the last of the history.
    pub fn last_status(&self) -> (r: &Status)
        requires
            self@.statuses.len() >= 1,
        ensures
            r@ == current_status(self@),
    {
        let n = self.statuses.len();
        assert(self.statuses.deep_view()[n - 1] == self.statuses@[n - 1]@);
        &self.statuses[n - 1]
    }

    /// Starts the task: appends an in-progress status dated today, legal
    /// exactly when the current status is the initial not-started state;
    /// otherwise fails with a state error and changes nothing.
    pub fn start(&mut self, today: Date) -> (r: Result<(), TrackerError>)
        requires
            old(self).wf(),
            today.in_range(),
        ensures
            r is Ok <==> can_start(old(self)@),
            r is Ok ==> final(self)@ == with_status(
                old(self)@,
                StatusView::InProgress { date: today@ },
            ),
            r matches Err(e) ==> final(self)@ == old(self)@ && e == TrackerError::State(
                StateError::AlreadyStarted,
            ),
            final(self).wf(),
    {
        let is_not_started = match self.last_status() {
            Status::NotStarted => true,
            _ => false,
        };
        if is_not_started {
            self.set_status(Status::in_progress(today));
            Ok(())
        } else {
            Err(TrackerError::State(StateError::AlreadyStarted))
        }
    }

    /// Whether the current status is completed.
    pub fn is_completed(&self) -> (r: bool)
        requires
            self@.statuses.len() >= 1,
        ensures
            r == task_is_completed(self@),
    {
        match self.last_status() {
            Status::Completed { .. } => true,
            _ => false,
        }
    }

    /// Whether the task is completed and its completion date lies inside the
    /// lookback window ending today.
    pub fn is_completed_in_past(&self, throwback: &TimeInterval, today: Date) -> (r: bool)
        requires
            self.wf(),
            today.in_range(),
        ensures
            r == completed_in_past(self@, *throwback, today@),
    {
        match self.last_status() {
            Status::Completed { date, .. } => {
                let d = *date;
                assert(status_view_wf(current_status(self@)));
                throwback.contains(today, d)
            },
            _ => false,
        }
    }

    /// The outcome of a completed task; fails with a state error when the
    /// current status is not completed.
    pub fn outcome(&self) -> (r: Result<Outcome, TrackerError>)
        requires
            self@.statuses.len() >= 1,
        ensures
            r is Ok <==> task_is_completed(self@),
            r matches Ok(o) ==> (current_status(self@) matches StatusView::Completed {
                outcome: oc, .. } && oc == o),
            r matches Err(e) ==> e == TrackerError::State(StateError::NotCompleted),
    {
        match self.last_status() {
            Status::Completed { outcome, .. } => Ok(*outcome),
            _ => Err(TrackerError::State(StateError::NotCompleted)),
        }
    }
}

/// Whether a task is completed with its completion date inside the window
/// `iv` ending at the day number `today`.
pub open spec fn completed_in_past(t: TaskView, iv: TimeInterval, today: int) -> bool {
    match current_status(t) {
        StatusView::Completed { date, .. } => interval_contains(iv, today, date),
        _ => false,
    }
}

/// Starting can succeed at most once: a task that was just started can never
/// be started again, whatever date the second attempt is made on.
pub proof fn lemma_start_once(t: TaskView, d: int)
    requires
        can_start(t),
    ensures
        !can_start(with_status(t, StatusView::InProgress { date: d })),
{
}

} // verus!
