//! Commands: the validated operations the tracker processes, each applied
//! to the store transactionally — an operation either fully succeeds or
//! leaves the store exactly as it was.

use vstd::prelude::*;
use crate::category::Category;
use crate::date::Date;
use crate::date_specifier::{resolved_day, DateSpecifier};
use crate::error::{ReferenceError, TrackerError, ValidationError};
use crate::outcome::Outcome;
use crate::present::{push_joined_tags, joined_tags, report_text, TaskListFormatter};
use crate::priority::Priority;
use crate::query::{filter_view, query_ids, run_query, SortBy, Summary};
use crate::short_string::ShortString;
use crate::status::{Status, StatusView};
use crate::store::{lemma_store_wf_update, Tasks};
use crate::tag::{tags_from_comma_separated_string, valid_tag_text, Tag};
use crate::task::{
    can_start, dedup_tags, tags_removed, task_view_wf, with_status, Task, TaskView,
};
use crate::text::{lemma_insert_text_at, sep_pieces, sort_texts, str_le};

verus! {

/// What a processed command hands back.
#[derive(Debug)]
pub enum CommandOutput {
    /// Nothing to report.
    Quiet,
    /// The identifier of a newly created task.
    Added(usize),
    /// A rendered summary or tag listing.
    Report(String),
    /// How many tasks a clear removed.
    Cleared(usize),
}

/// A status transition asked for on one task.
#[derive(Debug)]
pub enum StatusUpdate {
    InProgress,
    BlockedByTask { id: usize },
    BlockedByOther { reason: ShortString },
    Completed { outcome: Outcome, date: DateSpecifier },
    Discarded { reason: ShortString },
}

impl StatusUpdate {
    /// Any reason is a valid short description and any date specifier is
    /// well-formed.
    pub open spec fn wf(self) -> bool {
        match self {
            StatusUpdate::BlockedByOther { reason } => reason.wf(),
            StatusUpdate::Completed { date, .. } => date.wf(),
            StatusUpdate::Discarded { reason } => reason.wf(),
            _ => true,
        }
    }
}

/// What a status transition appends, or why it is refused: blocking on a
/// task requires the blocking identifier to be live.
pub open spec fn status_update_spec(
    s: StatusUpdate,
    store: Seq<TaskView>,
    today: int,
) -> Result<StatusView, TrackerError> {
    match s {
        StatusUpdate::InProgress => Ok(StatusView::InProgress { date: today }),
        StatusUpdate::BlockedByTask { id } => if id < store.len() {
            Ok(StatusView::BlockedByTask { date: today, id: id as int })
        } else {
            Err(TrackerError::Reference(ReferenceError::UnknownTaskId(id)))
        },
        StatusUpdate::BlockedByOther { reason } => Ok(
            StatusView::BlockedByOther { date: today, reason: reason@ },
        ),
        StatusUpdate::Completed { outcome, date } => Ok(
            StatusView::Completed { date: resolved_day(date, today), outcome },
        ),
        StatusUpdate::Discarded { reason } => Ok(
            StatusView::Discarded { date: today, reason: reason@ },
        ),
    }
}

/// A change asked for on one task.
#[derive(Debug)]
pub enum Update {
    Short { short: ShortString },
    Long { long: String },
    DiscardLong,
    Category { category: Category },
    Status { status: StatusUpdate },
    Deadline { deadline: DateSpecifier },
    DiscardDeadline,
    Priority { priority: Priority },
    AddTags { tags: String },
    RemoveTags { tags: String },
}

impl Update {
    /// The carried values are well-formed.
    pub open spec fn wf(self) -> bool {
        match self {
            Update::Short { short } => short.wf(),
            Update::Status { status } => status.wf(),
            Update::Deadline { deadline } => deadline.wf(),
            _ => true,
        }
    }
}

/// Whether every comma-separated piece of a tag listing is a valid tag.
pub open spec fn tags_text_ok(s: Seq<char>) -> bool {
    forall|k: int|
        0 <= k < sep_pieces(s, ',').len() ==> valid_tag_text(#[trigger] sep_pieces(s, ',')[k])
}

/// The task view an update produces, or why the update is refused.
pub open spec fn apply_update(u: Update, t: TaskView, store: Seq<TaskView>, today: int) -> Result<
    TaskView,
    TrackerError,
> {
    match u {
        Update::Short { short } => Ok(TaskView { short: short@, ..t }),
        Update::Long { long } => Ok(TaskView { long: Some(long@), ..t }),
        Update::DiscardLong => Ok(TaskView { long: None, ..t }),
        Update::Category { category } => Ok(TaskView { category, ..t }),
        Update::Status { status } => match status_update_spec(status, store, today) {
            Ok(sv) => Ok(with_status(t, sv)),
            Err(e) => Err(e),
        },
        Update::Deadline { deadline } => Ok(
            TaskView { deadline: Some(resolved_day(deadline, today)), ..t },
        ),
        Update::DiscardDeadline => Ok(TaskView { deadline: None, ..t }),
        Update::Priority { priority } => Ok(TaskView { priority, ..t }),
        Update::AddTags { tags } => if tags_text_ok(tags@) {
            Ok(TaskView { tags: dedup_tags(t.tags + sep_pieces(tags@, ',')), ..t })
        } else {
            Err(TrackerError::Validation(ValidationError::BadTagText))
        },
        Update::RemoveTags { tags } => if tags_text_ok(tags@) {
            Ok(TaskView { tags: tags_removed(t.tags, sep_pieces(tags@, ',')), ..t })
        } else {
            Err(TrackerError::Validation(ValidationError::BadTagText))
        },
    }
}

/// The view of a task freshly created from validated inputs: a single
/// not-started status, the deadline resolved against today, and the tags
/// with duplicates dropped.
pub open spec fn created_task(
    short: Seq<char>,
    long: Option<Seq<char>>,
    category: Category,
    deadline: Option<DateSpecifier>,
    priority: Priority,
    tags: Seq<Seq<char>>,
    today: int,
) -> TaskView {
    TaskView {
        short,
        long,
        statuses: seq![StatusView::NotStarted],
        category,
        deadline: match deadline {
            Some(ds) => Some(resolved_day(ds, today)),
            None => None,
        },
        priority,
        tags: dedup_tags(tags),
    }
}

/// The tags of the first `n` tasks, in store order, with repeats.
pub open spec fn all_tags_upto(store: Seq<TaskView>, n: int) -> Seq<Seq<char>>
    decreases n,
{
    if n <= 0 {
        Seq::empty()
    } else {
        all_tags_upto(store, n - 1) + store[n - 1].tags
    }
}

/// The distinct tags in use across the store, in ascending text order.
pub open spec fn all_tags(store: Seq<TaskView>) -> Seq<Seq<char>> {
    sort_texts(dedup_tags(all_tags_upto(store, store.len() as int)))
}

/// A validated operation on the store.
#[derive(Debug)]
pub enum Command {
    /// Creates a task; the tag listing is comma-separated text.
    Add {
        short: ShortString,
        long: Option<String>,
        category: Category,
        deadline: Option<DateSpecifier>,
        priority: Priority,
        tags: String,
    },
    /// Starts the task at `id`.
    Start { id: usize },
    /// Applies one change to the task at `id`.
    Update { id: usize, update: Update },
    /// Renders a summary; the filter is comma-separated tag text.
    Print { format: TaskListFormatter, filter: Option<String>, summary: Summary, sort: SortBy },
    /// Removes every task.
    Clear,
    /// Lists every tag in use.
    Tags,
}


impl StatusUpdate {
    /// Applies this status transition to the task at the live identifier
    /// `id`: appends the corresponding status dated today, or fails with a
    /// reference error when it blocks on a dead identifier, changing
    /// nothing.
    pub fn run(self, id: usize, tasks: &mut Tasks, today: Date) -> (r: Result<(), TrackerError>)
        requires
            old(tasks).wf(),
            today.in_start_range(),
            self.wf(),
            id < old(tasks)@.len(),
        ensures
            final(tasks).wf(),
            match status_update_spec(self, old(tasks)@, today@) {
                Ok(sv) => r is Ok && final(tasks)@ == old(tasks)@.update(
                    id as int,
                    with_status(old(tasks)@[id as int], sv),
                ),
                Err(e) => r == Err::<(), TrackerError>(e) && final(tasks)@ == old(tasks)@,
            },
    {
        proof {
            assert(old(tasks)@[id as int] == old(tasks).tasks@[id as int]@);
        }
        let st = match self {
            StatusUpdate::InProgress => Status::in_progress(today),
            StatusUpdate::BlockedByTask { id: bid } => {
                match Status::blocked_by_task(bid, tasks, today) {
                    Ok(s) => s,
                    Err(e) => {
                        return Err(e);
                    },
                }
            },
            StatusUpdate::BlockedByOther { reason } => Status::blocked_by_other(reason, today),
            StatusUpdate::Completed { outcome, date } => Status::completed(
                outcome,
                date.resolve(today),
            ),
            StatusUpdate::Discarded { reason } => Status::discarded(reason, today),
        };
        let t = tasks.task_mut(id);
        t.set_status(st);
        proof {
            lemma_store_wf_update(old(tasks)@, id as int, final(t)@);
        }
        Ok(())
    }
}

impl Update {
    /// Applies this change to the task at the live identifier `id`; a
    /// refused change reports its error and changes nothing.
    pub fn run(self, id: usize, tasks: &mut Tasks, today: Date) -> (r: Result<(), TrackerError>)
        requires
            old(tasks).wf(),
            today.in_start_range(),
            self.wf(),
            id < old(tasks)@.len(),
        ensures
            final(tasks).wf(),
            match apply_update(self, old(tasks)@[id as int], old(tasks)@, today@) {
                Ok(tv) => r is Ok && final(tasks)@ == old(tasks)@.update(id as int, tv),
                Err(e) => r == Err::<(), TrackerError>(e) && final(tasks)@ == old(tasks)@,
            },
    {
        proof {
            assert(old(tasks)@[id as int] == old(tasks).tasks@[id as int]@);
        }
        match self {
            Update::Short { short } => {
                let t = tasks.task_mut(id);
                t.set_short(short);
                proof {
                    lemma_store_wf_update(old(tasks)@, id as int, final(t)@);
                }
                Ok(())
            },
            Update::Long { long } => {
                let t = tasks.task_mut(id);
                t.set_long(long);
                proof {
                    lemma_store_wf_update(old(tasks)@, id as int, final(t)@);
                }
                Ok(())
            },
            Update::DiscardLong => {
                let t = tasks.task_mut(id);
                t.unset_long();
                proof {
                    lemma_store_wf_update(old(tasks)@, id as int, final(t)@);
                }
                Ok(())
            },
            Update::Category { category } => {
                let t = tasks.task_mut(id);
                t.set_category(category);
                proof {
                    lemma_store_wf_update(old(tasks)@, id as int, final(t)@);
                }
                Ok(())
            },
            Update::Status { status } => status.run(id, tasks, today),
            Update::Deadline { deadline } => {
                let resolved = deadline.resolve(today);
                let t = tasks.task_mut(id);
                t.set_deadline(resolved);
                proof {
                    lemma_store_wf_update(old(tasks)@, id as int, final(t)@);
                }
                Ok(())
            },
            Update::DiscardDeadline => {
                let t = tasks.task_mut(id);
                t.unset_deadline();
                proof {
                    lemma_store_wf_update(old(tasks)@, id as int, final(t)@);
                }
                Ok(())
            },
            Update::Priority { priority } => {
                let t = tasks.task_mut(id);
                t.set_priority(priority);
                proof {
                    lemma_store_wf_update(old(tasks)@, id as int, final(t)@);
                }
                Ok(())
            },
            Update::AddTags { tags } => {
                let parsed = match tags_from_comma_separated_string(tags) {
                    Ok(v) => v,
                    Err(e) => {
                        return Err(e);
                    },
                };
                proof {
                    assert(forall|i: int|
                        0 <= i < parsed@.len() ==> (#[trigger] parsed@[i])@
                            == parsed.deep_view()[i]);
                }
                let t = tasks.task_mut(id);
                t.add_tags(parsed);
                proof {
                    lemma_store_wf_update(old(tasks)@, id as int, final(t)@);
                }
                Ok(())
            },
            Update::RemoveTags { tags } => {
                let parsed = match tags_from_comma_separated_string(tags) {
                    Ok(v) => v,
                    Err(e) => {
                        return Err(e);
                    },
                };
                let t = tasks.task_mut(id);
                t.remove_tags(&parsed);
                proof {
                    lemma_store_wf_update(old(tasks)@, id as int, final(t)@);
                }
                Ok(())
            },
        }
    }
}

impl Command {
    /// The carried values are well-formed.
    pub open spec fn wf(self) -> bool {
        match self {
            Command::Add { short, deadline, .. } => short.wf() && (match deadline {
                Some(ds) => ds.wf(),
                None => true,
            }),
            Command::Update { update, .. } => update.wf(),
            _ => true,
        }
    }

    /// Processes this command against the store, with `today` the resolved
    /// current date. An error leaves the store exactly as it was.
    pub fn run(self, tasks: &mut Tasks, today: Date) -> (r: Result<CommandOutput, TrackerError>)
        requires
            old(tasks).wf(),
            today.in_start_range(),
            self.wf(),
        ensures
            final(tasks).wf(),
            r is Err ==> final(tasks)@ == old(tasks)@,
            self matches Command::Add { short, long, category, deadline, priority, tags } ==> (
            if tags_text_ok(tags@) {
                &&& r matches Ok(o) && o == CommandOutput::Added(old(tasks)@.len() as usize)
                &&& final(tasks)@ == old(tasks)@.push(
                    created_task(
                        short@,
                        match long {
                            Some(l) => Some(l@),
                            None => None,
                        },
                        category,
                        deadline,
                        priority,
                        sep_pieces(tags@, ','),
                        today@,
                    ),
                )
            } else {
                r == Err::<CommandOutput, TrackerError>(
                    TrackerError::Validation(ValidationError::BadTagText),
                )
            }),
            self matches Command::Start { id } ==> (if id < old(tasks)@.len() {
                if can_start(old(tasks)@[id as int]) {
                    &&& r matches Ok(o) && o == CommandOutput::Quiet
                    &&& final(tasks)@ == old(tasks)@.update(
                        id as int,
                        with_status(
                            old(tasks)@[id as int],
                            StatusView::InProgress { date: today@ },
                        ),
                    )
                } else {
                    r == Err::<CommandOutput, TrackerError>(
                        TrackerError::State(crate::error::StateError::AlreadyStarted),
                    )
                }
            } else {
                r == Err::<CommandOutput, TrackerError>(
                    TrackerError::Reference(ReferenceError::UnknownTaskId(id)),
                )
            }),
            self matches Command::Update { id, update } ==> (if id < old(tasks)@.len() {
                match apply_update(update, old(tasks)@[id as int], old(tasks)@, today@) {
                    Ok(tv) => {
                        &&& r matches Ok(o) && o == CommandOutput::Quiet
                        &&& final(tasks)@ == old(tasks)@.update(id as int, tv)
                    },
                    Err(e) => r == Err::<CommandOutput, TrackerError>(e),
                }
            } else {
                r == Err::<CommandOutput, TrackerError>(
                    TrackerError::Reference(ReferenceError::UnknownTaskId(id)),
                )
            }),
            self matches Command::Print { format, filter, summary, sort } ==> (match filter {
                Some(ftext) => (if tags_text_ok(ftext@) {
                    &&& r matches Ok(o) && o matches CommandOutput::Report(text) && text@
                        == report_text(
                        format,
                        old(tasks)@,
                        query_ids(
                            old(tasks)@,
                            summary,
                            Some(sep_pieces(ftext@, ',')),
                            sort,
                            today@,
                        ),
                    )
                    &&& final(tasks)@ == old(tasks)@
                } else {
                    r == Err::<CommandOutput, TrackerError>(
                        TrackerError::Validation(ValidationError::BadTagText),
                    )
                }),
                None => {
                    &&& r matches Ok(o) && o matches CommandOutput::Report(text) && text@
                        == report_text(
                        format,
                        old(tasks)@,
                        query_ids(old(tasks)@, summary, None, sort, today@),
                    )
                    &&& final(tasks)@ == old(tasks)@
                },
            }),
            self matches Command::Clear ==> {
                &&& r matches Ok(o) && o == CommandOutput::Cleared(old(tasks)@.len() as usize)
                &&& final(tasks)@ == Seq::<TaskView>::empty()
            },
            self matches Command::Tags ==> {
                &&& r matches Ok(o) && o matches CommandOutput::Report(text) && text@
                    == joined_tags(all_tags(old(tasks)@))
                &&& final(tasks)@ == old(tasks)@
            },
    {
        match self {
            Command::Add { short, long, category, deadline, priority, tags } => {
                let parsed = match tags_from_comma_separated_string(tags) {
                    Ok(v) => v,
                    Err(e) => {
                        return Err(e);
                    },
                };
                proof {
                    assert(forall|i: int|
                        0 <= i < parsed@.len() ==> (#[trigger] parsed@[i])@ == parsed.deep_view()[i]);
                }
                let id = tasks.num_tasks();
                let task = Task::new(short, category, long, deadline, priority, parsed, today);
                tasks.add_task(task);
                proof {
                    assert forall|i: int| 0 <= i < final(tasks)@.len() implies task_view_wf(
                        #[trigger] final(tasks)@[i],
                    ) by {
                        if i < old(tasks)@.len() {
                            assert(final(tasks)@[i] == old(tasks)@[i]);
                        }
                    }
                }
                Ok(CommandOutput::Added(id))
            },
            Command::Start { id } => {
                if !tasks.has_id(id) {
                    return Err(TrackerError::Reference(ReferenceError::UnknownTaskId(id)));
                }
                proof {
                    assert(old(tasks)@[id as int] == old(tasks).tasks@[id as int]@);
                }
                let t = tasks.task_mut(id);
                let res = t.start(today);
                proof {
                    lemma_store_wf_update(old(tasks)@, id as int, final(t)@);
                    if !can_start(old(tasks)@[id as int]) {
                        assert(final(tasks)@ =~= old(tasks)@);
                    }
                }
                match res {
                    Ok(()) => Ok(CommandOutput::Quiet),
                    Err(e) => Err(e),
                }
            },
            Command::Update { id, update } => {
                if !tasks.has_id(id) {
                    return Err(TrackerError::Reference(ReferenceError::UnknownTaskId(id)));
                }
                match update.run(id, tasks, today) {
                    Ok(()) => Ok(CommandOutput::Quiet),
                    Err(e) => Err(e),
                }
            },
            Command::Print { format, filter, summary, sort } => {
                let fvec: Option<Vec<Tag>> = match filter {
                    Some(ftext) => {
                        match tags_from_comma_separated_string(ftext) {
                            Ok(v) => Some(v),
                            Err(e) => {
                                return Err(e);
                            },
                        }
                    },
                    None => None,
                };
                let ids = run_query(tasks, &summary, &fvec, sort, today);
                let text = format.render(tasks, &ids);
                proof {
                    match fvec {
                        Some(v) => {
                            assert(filter_view(fvec) == Some(v.deep_view()));
                        },
                        None => {
                            assert(filter_view(fvec) is None);
                        },
                    }
                }
                Ok(CommandOutput::Report(text))
            },
            Command::Clear => {
                let n = tasks.num_tasks();
                tasks.clear();
                Ok(CommandOutput::Cleared(n))
            },
            Command::Tags => {
                let text = render_all_tags(tasks);
                Ok(CommandOutput::Report(text))
            },
        }
    }
}

/// Renders the comma-joined listing of every tag in use, each tag once, in
/// ascending text order.
fn render_all_tags(tasks: &Tasks) -> (r: String)
    ensures
        r@ == joined_tags(all_tags(tasks@)),
{
    let mut acc: Vec<Tag> = Vec::new();
    let mut k: usize = 0;
    proof {
        assert(all_tags_upto(tasks@, 0) =~= Seq::<Seq<char>>::empty());
        assert(acc.deep_view() =~= dedup_tags(all_tags_upto(tasks@, 0)));
    }
    while k < tasks.num_tasks()
        invariant
            k <= tasks@.len(),
            acc.deep_view() == dedup_tags(all_tags_upto(tasks@, k as int)),
        decreases tasks@.len() - k,
    {
        let t = tasks.get_task(k);
        let ghost base = all_tags_upto(tasks@, k as int);
        let mut j: usize = 0;
        proof {
            assert(base + t@.tags.take(0) =~= base);
        }
        while j < t.tags.len()
            invariant
                j <= t@.tags.len(),
                t@ == tasks@[k as int],
                k < tasks@.len(),
                base == all_tags_upto(tasks@, k as int),
                t@.tags == t.tags.deep_view(),
                acc.deep_view() == dedup_tags(base + t@.tags.take(j as int)),
            decreases t@.tags.len() - j,
        {
            proof {
                assert((base + t@.tags.take(j + 1)).drop_last() =~= base + t@.tags.take(j as int));
                assert((base + t@.tags.take(j + 1)).last() == t@.tags[j as int]);
                assert(t.tags.deep_view()[j as int] == t.tags@[j as int]@);
            }
            let tag = Tag { text: t.tags[j].as_str().to_owned() };
            if !crate::task::tags_contain(&acc, &tag) {
                acc.push(tag);
                proof {
                    assert(acc.deep_view() =~= dedup_tags(base + t@.tags.take(j + 1)));
                }
            } else {
                proof {
                    assert(acc.deep_view() =~= dedup_tags(base + t@.tags.take(j + 1)));
                }
            }
            j = j + 1;
        }
        proof {
            assert(t@.tags.take(t@.tags.len() as int) =~= t@.tags);
            assert(all_tags_upto(tasks@, k as int + 1) == base + tasks@[k as int].tags);
        }
        k = k + 1;
    }
    let sorted = sort_tags(acc);
    let mut out = String::new();
    push_joined_tags(&mut out, &sorted);
    proof {
        assert(out@ =~= joined_tags(all_tags(tasks@)));
    }
    out
}

/// Sorts tags into ascending text order.
fn sort_tags(v: Vec<Tag>) -> (out: Vec<Tag>)
    ensures
        out.deep_view() == sort_texts(v.deep_view()),
{
    let mut out: Vec<Tag> = Vec::new();
    let mut i: usize = 0;
    proof {
        assert(v.deep_view().take(0) =~= Seq::<Seq<char>>::empty());
        assert(out.deep_view() =~= sort_texts(v.deep_view().take(0)));
    }
    while i < v.len()
        invariant
            i <= v@.len(),
            out.deep_view() == sort_texts(v.deep_view().take(i as int)),
            out@.len() == i,
        decreases v@.len() - i,
    {
        proof {
            assert(v.deep_view()[i as int] == v@[i as int]@);
        }
        let x = Tag { text: v[i].as_str().to_owned() };
        let ghost xs = x@;
        let mut pos: usize = 0;
        while pos < out.len() && !str_le(x.as_str(), out[pos].as_str())
            invariant
                pos <= out@.len(),
                xs == x@,
                forall|j: int| 0 <= j < pos ==> !crate::text::lex_le(
                    xs,
                    #[trigger] out.deep_view()[j],
                ),
            decreases out@.len() - pos,
        {
            proof {
                assert(out.deep_view()[pos as int] == out@[pos as int]@);
            }
            pos = pos + 1;
        }
        proof {
            if pos < out@.len() {
                assert(out.deep_view()[pos as int] == out@[pos as int]@);
            }
            lemma_insert_text_at(xs, out.deep_view(), pos as int);
        }
        let ghost prev = out.deep_view();
        out.insert(pos, x);
        proof {
            assert(v.deep_view().take(i + 1).drop_last() =~= v.deep_view().take(i as int));
            assert(v.deep_view().take(i + 1).last() == xs);
            assert(out.deep_view() =~= prev.take(pos as int) + seq![xs] + prev.skip(pos as int));
            assert(out.deep_view() =~= sort_texts(v.deep_view().take(i + 1)));
        }
        i = i + 1;
    }
    proof {
        assert(v.deep_view().take(v@.len() as int) =~= v.deep_view());
    }
    out
}

} // verus!
