//! The presenter: renders an ordered sequence of tasks as a one-line-per-
//! task table or as detailed blocks, preserving the order the query engine
//! chose.

use vstd::prelude::*;
use crate::category::category_label;
use crate::date::date_text;
use crate::priority::priority_symbol;
use crate::short_string::SHORT_STRING_THRESHOLD;
use crate::status::status_text;
use crate::store::Tasks;
use crate::task::{current_status, TaskView};
use crate::text::{
    decimal_digits, pad_centered, pad_left_aligned, push_decimal, push_pad_centered,
    push_pad_left_aligned, push_repeat, push_wrapped, repeat_char, wrapped_block,
};

verus! {

/// The display form of a summary: one line per task, or a detailed block per
/// task.
#[derive(Debug, Clone, Copy, PartialEq, Eq, Structural)]
pub enum TaskListFormatter {
    Short,
    Long,
}

impl Default for TaskListFormatter {
    /// Summaries use the short form unless asked otherwise.
    fn default() -> (r: TaskListFormatter)
        ensures
            r == TaskListFormatter::Short,
    {
        TaskListFormatter::Short
    }
}

/// The deadline cell of a short line: the due date, or a centred no-deadline
/// marker.
pub open spec fn deadline_cell(d: Option<int>) -> Seq<char> {
    match d {
        Some(day) => " [ DUE "@ + date_text(day) + " ]"@,
        None => " [ "@ + pad_centered("NO DEADLINE"@, 20) + " ]"@,
    }
}

/// The head of a short line: the identifier centred in brackets and the
/// short description padded with a fill character that alternates per line.
pub open spec fn short_line_head(id: int, t: TaskView, tick: bool) -> Seq<char> {
    "[ "@ + pad_centered(decimal_digits(id), 7) + " ] "@ + pad_left_aligned(
        t.short + " "@,
        52,
        if tick {
            '─'
        } else {
            '╌'
        },
    )
}

/// The close of a short line: the priority glyph and the current status
/// centred.
pub open spec fn short_line_close(t: TaskView) -> Seq<char> {
    "[ "@ + pad_left_aligned(priority_symbol(t.priority), 5, ' ') + " ]"@ + "[ "@ + pad_centered(
        status_text(current_status(t)),
        50,
    ) + " ]"@ + "\n"@
}

/// The tail of a short line: the deadline cell, then the close.
pub open spec fn short_line_tail(t: TaskView) -> Seq<char> {
    deadline_cell(t.deadline) + short_line_close(t)
}

/// One line of the short form.
pub open spec fn short_line(id: int, t: TaskView, tick: bool) -> Seq<char> {
    short_line_head(id, t, tick) + short_line_tail(t)
}

/// The short report from the `k`-th listed task on; the fill alternates,
/// starting each report with a tick.
pub open spec fn short_report_from(store: Seq<TaskView>, ids: Seq<int>, k: int) -> Seq<char>
    decreases ids.len() - k when 0 <= k <= ids.len()
{
    if k == ids.len() {
        Seq::empty()
    } else {
        short_line(ids[k], store[ids[k]], k % 2 == 0) + short_report_from(store, ids, k + 1)
    }
}

/// The short report: one line per listed task, in order.
pub open spec fn short_report(store: Seq<TaskView>, ids: Seq<int>) -> Seq<char> {
    short_report_from(store, ids, 0)
}

/// The tags joined with commas.
pub open spec fn joined_tags(ts: Seq<Seq<char>>) -> Seq<char>
    decreases ts.len(),
{
    if ts.len() == 0 {
        Seq::empty()
    } else if ts.len() == 1 {
        ts[0]
    } else {
        joined_tags(ts.drop_last()) + ", "@ + ts.last()
    }
}

/// The header of a long block: the identifier line and its underline.
pub open spec fn long_block_header(id: int) -> Seq<char> {
    let id_text = "ID "@ + decimal_digits(id);
    " "@ + id_text + "\n"@ + "┌"@ + repeat_char('─', (id_text.len() + 1) as nat) + "\n"@
}

/// The descriptive lines of a long block: the short text, the wrapped long
/// text where present, the category, and the deadline where present.
pub open spec fn long_block_descr(t: TaskView) -> Seq<char> {
    "│ SHORT    :: "@ + t.short + "\n"@ + (match t.long {
        Some(l) => wrapped_block("│ LONG     :: "@, l, 50),
        None => Seq::empty(),
    }) + "│ CATEGORY :: "@ + category_label(t.category) + "\n"@ + (match t.deadline {
        Some(d) => "│ DEADLINE :: "@ + date_text(d) + "\n"@,
        None => Seq::empty(),
    })
}

/// The closing lines of a long block: the current status, the priority
/// glyph, the wrapped tag list where the task has tags, and an empty line.
pub open spec fn long_block_close(t: TaskView) -> Seq<char> {
    "│ STATUS   :: "@ + status_text(current_status(t)) + "\n"@ + "│ PRIORITY :: "@
        + priority_symbol(t.priority) + "\n"@ + (if t.tags.len() > 0 {
        wrapped_block("│ TAGS     :: "@, joined_tags(t.tags), 50)
    } else {
        Seq::empty()
    }) + "\n"@
}

/// One block of the long form: a header with the identifier, then one
/// labelled line per present field; the long text and the tag list are
/// wrapped at the short-text budget; an empty line ends the block.
pub open spec fn long_block(id: int, t: TaskView) -> Seq<char> {
    long_block_header(id) + long_block_descr(t) + long_block_close(t)
}

/// The long report from the `k`-th listed task on.
pub open spec fn long_report_from(store: Seq<TaskView>, ids: Seq<int>, k: int) -> Seq<char>
    decreases ids.len() - k when 0 <= k <= ids.len()
{
    if k == ids.len() {
        Seq::empty()
    } else {
        long_block(ids[k], store[ids[k]]) + long_report_from(store, ids, k + 1)
    }
}

/// The long report: one detailed block per listed task, in order.
pub open spec fn long_report(store: Seq<TaskView>, ids: Seq<int>) -> Seq<char> {
    long_report_from(store, ids, 0)
}

/// The report a format renders for the listed tasks.
pub open spec fn report_text(
    f: TaskListFormatter,
    store: Seq<TaskView>,
    ids: Seq<int>,
) -> Seq<char> {
    match f {
        TaskListFormatter::Short => short_report(store, ids),
        TaskListFormatter::Long => long_report(store, ids),
    }
}

/// Appends the comma-joined tag texts to `out`.
pub fn push_joined_tags(out: &mut String, tags: &Vec<crate::tag::Tag>)
    ensures
        final(out)@ == old(out)@ + joined_tags(tags.deep_view()),
{
    let ghost ts = tags.deep_view();
    let mut i: usize = 0;
    while i < tags.len()
        invariant
            i <= tags@.len(),
            ts == tags.deep_view(),
            out@ == old(out)@ + joined_tags(ts.take(i as int)),
        decreases tags@.len() - i,
    {
        proof {
            assert(ts.take(i + 1).drop_last() =~= ts.take(i as int));
            assert(ts.take(i + 1).last() == ts[i as int]);
            assert(ts[i as int] == tags@[i as int]@);
            if i + 1 == 1 {
                assert(joined_tags(ts.take(1)) == ts.take(1)[0]);
            }
        }
        if i > 0 {
            out.append(", ");
        }
        out.append(tags[i].as_str());
        proof {
            assert(out@ =~= old(out)@ + joined_tags(ts.take(i + 1)));
        }
        i = i + 1;
    }
    proof {
        assert(ts.take(tags@.len() as int) =~= ts);
    }
}

impl TaskListFormatter {
    /// Renders the listed tasks in this format. The identifiers name live
    /// tasks and are rendered in the order given.
    pub fn render(&self, tasks: &Tasks, ids: &Vec<usize>) -> (r: String)
        requires
            tasks.wf(),
            forall|k: int| 0 <= k < ids@.len() ==> (#[trigger] ids@[k]) < tasks@.len(),
        ensures
            r@ == report_text(*self, tasks@, ids@.map_values(|u: usize| u as int)),
    {
        let ghost idv = ids@.map_values(|u: usize| u as int);
        let mut out = String::new();
        proof {
            assert(out@ + short_report_from(tasks@, idv, 0) =~= short_report(tasks@, idv));
            assert(out@ + long_report_from(tasks@, idv, 0) =~= long_report(tasks@, idv));
        }
        let mut k: usize = 0;
        match self {
            TaskListFormatter::Short => {
                while k < ids.len()
                    invariant
                        k <= ids@.len(),
                        idv == ids@.map_values(|u: usize| u as int),
                        tasks.wf(),
                        forall|j: int| 0 <= j < ids@.len() ==> (#[trigger] ids@[j]) < tasks@.len(),
                        out@ + short_report_from(tasks@, idv, k as int) == short_report(
                            tasks@,
                            idv,
                        ),
                    decreases ids@.len() - k,
                {
                    let id = ids[k];
                    let t = tasks.get_task(id);
                    let tick = k % 2 == 0;
                    push_short_line(&mut out, id, t, tick);
                    proof {
                        assert(idv[k as int] == id as int);
                        assert(out@ + short_report_from(tasks@, idv, k as int + 1)
                            =~= short_report(tasks@, idv));
                    }
                    k = k + 1;
                }
                proof {
                    assert(out@ + short_report_from(tasks@, idv, idv.len() as int) =~= out@);
                }
            },
            TaskListFormatter::Long => {
                while k < ids.len()
                    invariant
                        k <= ids@.len(),
                        idv == ids@.map_values(|u: usize| u as int),
                        tasks.wf(),
                        forall|j: int| 0 <= j < ids@.len() ==> (#[trigger] ids@[j]) < tasks@.len(),
                        out@ + long_report_from(tasks@, idv, k as int) == long_report(tasks@, idv),
                    decreases ids@.len() - k,
                {
                    let id = ids[k];
                    let t = tasks.get_task(id);
                    push_long_block(&mut out, id, t);
                    proof {
                        assert(idv[k as int] == id as int);
                        assert(out@ + long_report_from(tasks@, idv, k as int + 1) =~= long_report(
                            tasks@,
                            idv,
                        ));
                    }
                    k = k + 1;
                }
                proof {
                    assert(out@ + long_report_from(tasks@, idv, idv.len() as int) =~= out@);
                }
            },
        }
        out
    }
}

/// Appends one short-form line for the task.
#[verifier::rlimit(100)]
#[verifier::spinoff_prover]
fn push_short_line(out: &mut String, id: usize, t: &crate::task::Task, tick: bool)
    requires
        t.wf(),
    ensures
        final(out)@ == old(out)@ + short_line(id as int, t@, tick),
{
    proof {
        assert(t@.statuses.last() == t@.statuses[t@.statuses.len() - 1]);
        assert(crate::status::status_view_wf(current_status(t@)));
    }
    out.append("[ ");
    let mut id_text = String::new();
    push_decimal(&mut id_text, id as u64);
    proof {
        assert(id_text@ =~= decimal_digits(id as int));
    }
    push_pad_centered(out, id_text.as_str(), 7);
    out.append(" ] ");
    let mut short_sp = String::new();
    short_sp.append(t.short.as_str());
    short_sp.push(' ');
    proof {
        reveal_strlit(" ");
        assert(short_sp@ =~= t@.short + " "@);
    }
    push_pad_left_aligned(out, short_sp.as_str(), 52, if tick { '─' } else { '╌' });
    proof {
        assert(out@ =~= old(out)@ + short_line_head(id as int, t@, tick));
    }
    let ghost head_done = out@;
    match t.deadline {
        Some(d) => {
            out.append(" [ DUE ");
            let rendered = d.render();
            out.append(rendered.as_str());
            out.append(" ]");
        },
        None => {
            out.append(" [ ");
            push_pad_centered(out, "NO DEADLINE", 20);
            out.append(" ]");
        },
    }
    proof {
        assert(out@ =~= head_done + deadline_cell(t@.deadline));
    }
    let ghost dl_done = out@;
    out.append("[ ");
    push_pad_left_aligned(out, t.priority.as_symbol(), 5, ' ');
    out.append(" ]");
    out.append("[ ");
    let status = t.last_status().render();
    push_pad_centered(out, status.as_str(), 50);
    out.append(" ]");
    out.push('\n');
    proof {
        reveal_strlit("\n");
        assert(out@ =~= dl_done + short_line_close(t@));
        assert(out@ =~= head_done + short_line_tail(t@));
        assert(out@ =~= old(out)@ + short_line(id as int, t@, tick));
    }
}

/// Appends one long-form block for the task.
#[verifier::rlimit(100)]
#[verifier::spinoff_prover]
fn push_long_block(out: &mut String, id: usize, t: &crate::task::Task)
    requires
        t.wf(),
    ensures
        final(out)@ == old(out)@ + long_block(id as int, t@),
{
    proof {
        reveal_strlit(" ");
        reveal_strlit("\n");
        assert(t@.statuses.last() == t@.statuses[t@.statuses.len() - 1]);
        assert(crate::status::status_view_wf(current_status(t@)));
    }
    let mut id_text = String::new();
    id_text.append("ID ");
    push_decimal(&mut id_text, id as u64);
    proof {
        assert(id_text@ =~= "ID "@ + decimal_digits(id as int));
    }
    out.append(" ");
    out.append(id_text.as_str());
    out.push('\n');
    out.append("┌");
    let idlen = id_text.as_str().unicode_len();
    push_repeat(out, '─', idlen);
    out.push('─');
    out.push('\n');
    proof {
        assert(repeat_char('─', (idlen + 1) as nat) =~= repeat_char('─', idlen as nat).push('─'));
        assert(out@ =~= old(out)@ + long_block_header(id as int));
    }
    let ghost header_done = out@;
    out.append("│ SHORT    :: ");
    out.append(t.short.as_str());
    out.push('\n');
    match &t.long {
        Some(l) => {
            proof {
                reveal_strlit("│ LONG     :: ");
            }
            push_wrapped(out, "│ LONG     :: ", l.as_str(), SHORT_STRING_THRESHOLD);
        },
        None => {},
    }
    out.append("│ CATEGORY :: ");
    out.append(t.category.label());
    out.push('\n');
    match t.deadline {
        Some(d) => {
            out.append("│ DEADLINE :: ");
            let rendered = d.render();
            out.append(rendered.as_str());
            out.push('\n');
        },
        None => {},
    }
    proof {
        assert(out@ =~= header_done + long_block_descr(t@));
    }
    let ghost descr_done = out@;
    out.append("│ STATUS   :: ");
    let status = t.last_status().render();
    out.append(status.as_str());
    out.push('\n');
    out.append("│ PRIORITY :: ");
    out.append(t.priority.as_symbol());
    out.push('\n');
    if t.tags.len() > 0 {
        let mut joined = String::new();
        push_joined_tags(&mut joined, &t.tags);
        proof {
            reveal_strlit("│ TAGS     :: ");
            assert(joined@ =~= joined_tags(t@.tags));
        }
        push_wrapped(out, "│ TAGS     :: ", joined.as_str(), SHORT_STRING_THRESHOLD);
    }
    out.push('\n');
    proof {
        assert(out@ =~= descr_done + long_block_close(t@));
        assert(out@ =~= old(out)@ + long_block(id as int, t@));
    }
}

} // verus!
