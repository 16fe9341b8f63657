//! The archive engine. Completed tasks leave the live collection and
//! are appended, under the day they were completed, to a month-keyed
//! archive file; the stats counters and the streak are updated in the
//! same step. The engine computes every outcome from plain values:
//! what to append, what remains, and the new stats. Reading archive
//! text back and listing the archived months are also here.

use vstd::prelude::*;
use vstd::multiset::Multiset;

use crate::dates::Date;
use crate::dates::date_valid;
use crate::dates::date_key_chars;
use crate::dates::is_date10;
use crate::dates::is_month7;
use crate::dates::spec_date_key;
use crate::dates::spec_month_val;
use crate::dates::month_val;
use crate::dates::date_shape;
use crate::stats::Tally;
use crate::stats::TodoStats;
use crate::stats::compute_streak;
use crate::stats::day_code_of;
use crate::stats::day_key;
use crate::stats::month_code_of;
use crate::stats::month_key_num;
use crate::stats::spec_streak;
use crate::stats::tally_get;
use crate::text::chars_to_string;
use crate::text::push_chars;
use crate::text::push_str_chars;
use crate::text::skip_chars;
use crate::text::spec_trim;
use crate::text::str_to_chars;
use crate::text::trim_chars;
use crate::todos::Subtask;
use crate::todos::SubtaskModel;
use crate::todos::TodoItem;
use crate::todos::TodoModel;
use crate::todos::build_subtask_line;
use crate::todos::is_subtask_line;
use crate::todos::is_subtask_line_exec;
use crate::todos::lemma_unlines_concat;
use crate::todos::parse_subtask_line;
use crate::todos::parse_subtask_model;
use crate::todos::ser_subtask_line;
use crate::todos::spec_lines;
use crate::todos::split_lines;
use crate::todos::unlines;

verus! {

/// A task moved out of the live file, with its completion day.
#[derive(Clone, Debug, PartialEq)]
pub struct ArchivedTodo {
    pub title: String,
    pub date: String,
    pub subtasks: Vec<Subtask>,
}

/// The mathematical value of an archived task.
#[verifier::ext_equal]
pub struct ArchivedModel {
    pub title: Seq<char>,
    pub date: Seq<char>,
    pub subtasks: Seq<SubtaskModel>,
}

impl View for ArchivedTodo {
    type V = ArchivedModel;

    open spec fn view(&self) -> ArchivedModel {
        ArchivedModel {
            title: self.title@,
            date: self.date@,
            subtasks: self.subtasks.deep_view(),
        }
    }
}

impl DeepView for ArchivedTodo {
    type V = ArchivedModel;

    open spec fn deep_view(&self) -> ArchivedModel {
        self.view()
    }
}

// ---------------------------------------------------------------------
// Partitioning the live collection.
// ---------------------------------------------------------------------
/// The completed tasks, in order.
pub open spec fn completed_of(items: Seq<TodoModel>) -> Seq<TodoModel>
    decreases items.len(),
{
    if items.len() == 0 {
        Seq::empty()
    } else if items[0].completed {
        seq![items[0]] + completed_of(items.drop_first())
    } else {
        completed_of(items.drop_first())
    }
}

/// The incomplete tasks, in order.
pub open spec fn incomplete_of(items: Seq<TodoModel>) -> Seq<TodoModel>
    decreases items.len(),
{
    if items.len() == 0 {
        Seq::empty()
    } else if items[0].completed {
        incomplete_of(items.drop_first())
    } else {
        seq![items[0]] + incomplete_of(items.drop_first())
    }
}

/// How many tasks are completed.
pub open spec fn completed_count(items: Seq<TodoModel>) -> nat
    decreases items.len(),
{
    if items.len() == 0 {
        0
    } else {
        (if items[0].completed {
            1nat
        } else {
            0nat
        }) + completed_count(items.drop_first())
    }
}

proof fn lemma_partition_push(items: Seq<TodoModel>, t: TodoModel)
    ensures
        completed_of(items.push(t)) =~= if t.completed {
            completed_of(items).push(t)
        } else {
            completed_of(items)
        },
        incomplete_of(items.push(t)) =~= if t.completed {
            incomplete_of(items)
        } else {
            incomplete_of(items).push(t)
        },
        completed_count(items.push(t)) == completed_count(items) + (if t.completed {
            1nat
        } else {
            0nat
        }),
    decreases items.len(),
{
    if items.len() == 0 {
        assert(items.push(t)[0] == t);
        assert(items.push(t).drop_first() =~= Seq::<TodoModel>::empty());
        assert(completed_of(Seq::<TodoModel>::empty()) =~= Seq::<TodoModel>::empty());
        assert(incomplete_of(Seq::<TodoModel>::empty()) =~= Seq::<TodoModel>::empty());
        assert(completed_count(Seq::<TodoModel>::empty()) == 0);
    } else {
        assert(items.push(t)[0] == items[0]);
        assert(items.push(t).drop_first() =~= items.drop_first().push(t));
        lemma_partition_push(items.drop_first(), t);
    }
}

proof fn lemma_completed_count_len(items: Seq<TodoModel>)
    ensures
        completed_count(items) <= items.len(),
        completed_of(items).len() == completed_count(items),
    decreases items.len(),
{
    if items.len() > 0 {
        lemma_completed_count_len(items.drop_first());
    }
}

// ---------------------------------------------------------------------
// The archive text.
// ---------------------------------------------------------------------
/// The `[date] title` line an archived task opens with.
pub open spec fn arch_item_line(t: TodoModel, d: Date) -> Seq<char> {
    seq!['['] + spec_date_key(d) + seq![']', ' '] + t.title
}

/// The lines one archived task appends: its own line, then its
/// subtasks' indented lines.
pub open spec fn arch_item_lines(t: TodoModel, d: Date) -> Seq<Seq<char>> {
    seq![arch_item_line(t, d)] + t.subtasks.map_values(|s: SubtaskModel| ser_subtask_line(s))
}

/// The lines a run of archived tasks appends.
pub open spec fn arch_lines(ts: Seq<TodoModel>, d: Date) -> Seq<Seq<char>>
    decreases ts.len(),
{
    if ts.len() == 0 {
        Seq::empty()
    } else {
        arch_item_lines(ts[0], d) + arch_lines(ts.drop_first(), d)
    }
}

/// The text appended to the month's archive file.
pub open spec fn spec_archive_text(ts: Seq<TodoModel>, d: Date) -> Seq<char> {
    unlines(arch_lines(ts, d))
}

proof fn lemma_arch_lines_push(ts: Seq<TodoModel>, t: TodoModel, d: Date)
    ensures
        arch_lines(ts.push(t), d) =~= arch_lines(ts, d) + arch_item_lines(t, d),
    decreases ts.len(),
{
    if ts.len() == 0 {
        assert(ts.push(t)[0] == t);
        assert(ts.push(t).drop_first() =~= Seq::<TodoModel>::empty());
        assert(arch_lines(Seq::<TodoModel>::empty(), d) =~= Seq::<Seq<char>>::empty());
        assert(arch_lines(ts.push(t), d) =~= arch_item_lines(t, d) + arch_lines(
            Seq::<TodoModel>::empty(),
            d,
        ));
    } else {
        assert(ts.push(t)[0] == ts[0]);
        assert(ts.push(t).drop_first() =~= ts.drop_first().push(t));
        lemma_arch_lines_push(ts.drop_first(), t, d);
    }
}

/// Builds the `[date] title` line of one archived task.
fn build_arch_line(item: &TodoItem, d: &Date) -> (r: Vec<char>)
    requires
        date_valid(*d),
    ensures
        r@ == arch_item_line(item@, *d),
{
    let mut out: Vec<char> = Vec::new();
    out.push('[');
    let dk = date_key_chars(d);
    push_chars(&mut out, dk.as_slice());
    out.push(']');
    out.push(' ');
    push_str_chars(&mut out, item.title.as_str());
    proof {
        assert(out@ =~= arch_item_line(item@, *d));
    }
    out
}

// ---------------------------------------------------------------------
// Verified cloning, field by field.
// ---------------------------------------------------------------------
fn clone_string_vec(v: &Vec<String>) -> (r: Vec<String>)
    ensures
        r.deep_view() == v.deep_view(),
{
    let mut r: Vec<String> = Vec::new();
    let mut i: usize = 0;
    while i < v.len()
        invariant
            0 <= i <= v@.len(),
            r@.len() == i,
            forall|j: int| 0 <= j < i ==> r@[j].deep_view() == #[trigger] v@[j].deep_view(),
        decreases v@.len() - i,
    {
        r.push(v[i].clone());
        i += 1;
    }
    proof {
        assert(r.deep_view() =~= v.deep_view());
    }
    r
}

fn clone_opt_string(v: &Option<String>) -> (r: Option<String>)
    ensures
        r.deep_view() == v.deep_view(),
{
    match v {
        Some(s) => Some(s.clone()),
        None => None,
    }
}

pub fn clone_subtask(s: &Subtask) -> (r: Subtask)
    ensures
        r@ == s@,
{
    Subtask { title: s.title.clone(), completed: s.completed }
}

fn clone_subtask_vec(v: &Vec<Subtask>) -> (r: Vec<Subtask>)
    ensures
        r.deep_view() == v.deep_view(),
{
    let mut r: Vec<Subtask> = Vec::new();
    let mut i: usize = 0;
    while i < v.len()
        invariant
            0 <= i <= v@.len(),
            r@.len() == i,
            forall|j: int| 0 <= j < i ==> r@[j].deep_view() == #[trigger] v@[j].deep_view(),
        decreases v@.len() - i,
    {
        r.push(clone_subtask(&v[i]));
        i += 1;
    }
    proof {
        assert(r.deep_view() =~= v.deep_view());
    }
    r
}

/// A field-for-field copy of a task, equal in value.
pub fn clone_item(t: &TodoItem) -> (r: TodoItem)
    ensures
        r@ == t@,
{
    let r = TodoItem {
        id: t.id,
        title: t.title.clone(),
        completed: t.completed,
        priority: t.priority,
        created_date: clone_opt_string(&t.created_date),
        projects: clone_string_vec(&t.projects),
        contexts: clone_string_vec(&t.contexts),
        due_date: clone_opt_string(&t.due_date),
        subtasks: clone_subtask_vec(&t.subtasks),
    };
    proof {
        assert(r@ =~= t@);
    }
    r
}

fn clone_entries(v: &Vec<(u32, u64)>) -> (r: Vec<(u32, u64)>)
    ensures
        r@ == v@,
{
    let mut r: Vec<(u32, u64)> = Vec::new();
    let mut i: usize = 0;
    while i < v.len()
        invariant
            0 <= i <= v@.len(),
            r@ =~= v@.take(i as int),
        decreases v@.len() - i,
    {
        r.push(v[i]);
        i += 1;
    }
    proof {
        assert(v@.take(v@.len() as int) =~= v@);
    }
    r
}

// ---------------------------------------------------------------------
// The archiving step itself.
// ---------------------------------------------------------------------
/// Everything one archiving step decides: how many tasks left the
/// collection, what remains, the text to append to this month's
/// archive file, and the new stats. The caller performs the three
/// writes in this order — archive append, stats write, live-file
/// rewrite — and a failure between them is surfaced, not hidden.
pub struct ArchiveOutcome {
    pub archived_count: usize,
    pub remaining: Vec<TodoItem>,
    pub archive_text: String,
    pub stats: TodoStats,
}

/// Partitions the collection, renders the archive entries under
/// today's date, and bumps the counters and streaks. With nothing
/// completed the text is empty and the stats are returned unchanged,
/// so the caller has nothing to write.
pub fn archive_completed(items: &Vec<TodoItem>, stats: &TodoStats, today: &Date) -> (r:
    ArchiveOutcome)
    requires
        date_valid(*today),
        stats.well_formed(),
        stats@.total_completed + completed_count(items.deep_view()) <= u64::MAX,
        tally_get(stats@.days, day_key(*today)) + completed_count(items.deep_view()) <= u64::MAX,
        tally_get(stats@.months, month_key_num(*today)) + completed_count(items.deep_view())
            <= u64::MAX,
    ensures
        r.archived_count == completed_count(items.deep_view()),
        r.remaining.deep_view() == incomplete_of(items.deep_view()),
        r.archive_text@ == spec_archive_text(completed_of(items.deep_view()), *today),
        r.stats.well_formed(),
        completed_count(items.deep_view()) == 0 ==> r.stats@ == stats@ && r.archive_text@
            == Seq::<char>::empty(),
        completed_count(items.deep_view()) > 0 ==> ({
            let count = completed_count(items.deep_view());
            let m = stats@;
            let n = r.stats@;
            &&& n.total_completed == m.total_completed + count
            &&& tally_get(n.days, day_key(*today)) == tally_get(m.days, day_key(*today)) + count
            &&& (forall|k: u32|
                k != day_key(*today) ==> tally_get(n.days, k) == tally_get(m.days, k))
            &&& tally_get(n.months, month_key_num(*today)) == tally_get(
                m.months,
                month_key_num(*today),
            ) + count
            &&& (forall|k: u32|
                k != month_key_num(*today) ==> tally_get(n.months, k) == tally_get(m.months, k))
            &&& n.current_streak == spec_streak(n.days, *today)
            &&& n.longest_streak == (if n.current_streak > m.longest_streak {
                n.current_streak
            } else {
                m.longest_streak
            })
        }),
{
    let ghost m = items.deep_view();
    let mut completed: Vec<TodoItem> = Vec::new();
    let mut remaining: Vec<TodoItem> = Vec::new();
    let mut i: usize = 0;
    proof {
        lemma_completed_count_len(m);
        assert(m.take(0) =~= Seq::<TodoModel>::empty());
        assert(completed.deep_view() =~= Seq::<TodoModel>::empty());
        assert(remaining.deep_view() =~= Seq::<TodoModel>::empty());
        assert(completed_of(Seq::<TodoModel>::empty()) =~= Seq::<TodoModel>::empty());
        assert(incomplete_of(Seq::<TodoModel>::empty()) =~= Seq::<TodoModel>::empty());
    }
    while i < items.len()
        invariant
            0 <= i <= items@.len(),
            m == items.deep_view(),
            m.len() == items@.len(),
            completed.deep_view() =~= completed_of(m.take(i as int)),
            remaining.deep_view() =~= incomplete_of(m.take(i as int)),
            completed@.len() == completed_count(m.take(i as int)),
        decreases items@.len() - i,
    {
        let it = clone_item(&items[i]);
        let ghost itm = it@;
        proof {
            assert(m[i as int] == items@[i as int].deep_view());
            assert(itm == m[i as int]);
            assert(m.take(i as int).push(m[i as int]) =~= m.take(i as int + 1));
            lemma_partition_push(m.take(i as int), m[i as int]);
        }
        if it.completed {
            let ghost pre = completed.deep_view();
            completed.push(it);
            proof {
                lemma_deep_view_items_arch(pre, completed@, itm);
                assert(completed.deep_view() =~= pre.push(itm));
            }
        } else {
            let ghost pre = remaining.deep_view();
            remaining.push(it);
            proof {
                lemma_deep_view_items_arch(pre, remaining@, itm);
                assert(remaining.deep_view() =~= pre.push(itm));
            }
        }
        i += 1;
    }
    proof {
        assert(m.take(m.len() as int) =~= m);
    }
    let count = completed.len();
    // Render the archive entries.
    let mut out: Vec<char> = Vec::new();
    let ghost cm = completed.deep_view();
    let mut j: usize = 0;
    proof {
        assert(cm.take(0) =~= Seq::<TodoModel>::empty());
        assert(arch_lines(Seq::<TodoModel>::empty(), *today) =~= Seq::<Seq<char>>::empty());
    }
    while j < completed.len()
        invariant
            0 <= j <= completed@.len(),
            cm == completed.deep_view(),
            cm.len() == completed@.len(),
            date_valid(*today),
            out@ =~= unlines(arch_lines(cm.take(j as int), *today)),
        decreases completed@.len() - j,
    {
        let t = &completed[j];
        let ghost tm = cm[j as int];
        proof {
            assert(tm == completed@[j as int].deep_view());
        }
        let ghost pre = out@;
        let line = build_arch_line(t, today);
        push_chars(&mut out, line.as_slice());
        out.push('\n');
        let ghost subl = tm.subtasks.map_values(|s: SubtaskModel| ser_subtask_line(s));
        let ghost base = pre + arch_item_line(tm, *today) + seq!['\n'];
        proof {
            assert(out@ =~= base);
            assert(subl.take(0) =~= Seq::<Seq<char>>::empty());
        }
        let mut k: usize = 0;
        while k < t.subtasks.len()
            invariant
                0 <= k <= t.subtasks@.len(),
                subl.len() == t.subtasks@.len(),
                subl == tm.subtasks.map_values(|s: SubtaskModel| ser_subtask_line(s)),
                tm.subtasks == t.subtasks.deep_view(),
                out@ =~= base + unlines(subl.take(k as int)),
            decreases t.subtasks@.len() - k,
        {
            let sline = build_subtask_line(&t.subtasks[k]);
            push_chars(&mut out, sline.as_slice());
            out.push('\n');
            proof {
                assert(t.subtasks@[k as int]@ == tm.subtasks[k as int]);
                assert(sline@ == subl[k as int]);
                crate::todos::lemma_unlines_push(subl.take(k as int), subl[k as int]);
                assert(subl.take(k as int).push(subl[k as int]) =~= subl.take(k as int + 1));
            }
            k += 1;
        }
        proof {
            assert(subl.take(subl.len() as int) =~= subl);
            assert(out@ =~= base + unlines(subl));
            lemma_arch_lines_push(cm.take(j as int), tm, *today);
            assert(cm.take(j as int).push(tm) =~= cm.take(j as int + 1));
            lemma_unlines_concat(arch_lines(cm.take(j as int), *today), arch_item_lines(tm, *today));
            assert(arch_item_lines(tm, *today)[0] == arch_item_line(tm, *today));
            assert(arch_item_lines(tm, *today).drop_first() =~= subl);
            assert(unlines(arch_item_lines(tm, *today)) =~= arch_item_line(tm, *today)
                + seq!['\n'] + unlines(subl));
        }
        j += 1;
    }
    proof {
        assert(cm.take(cm.len() as int) =~= cm);
        assert(cm =~= completed_of(m));
    }
    let archive_text = chars_to_string(&out);
    // The new stats.
    let mut new_stats = TodoStats {
        total_completed: stats.total_completed,
        current_streak: stats.current_streak,
        longest_streak: stats.longest_streak,
        completions_by_month: Tally { entries: clone_entries(&stats.completions_by_month.entries) },
        completions_by_day: Tally { entries: clone_entries(&stats.completions_by_day.entries) },
    };
    proof {
        assert(new_stats@ =~= stats@);
    }
    if count > 0 {
        let count64: u64 = count as u64;
        proof {
            assert(count64 == completed_count(m));
        }
        new_stats.total_completed = new_stats.total_completed + count64;
        new_stats.completions_by_day.add(day_code_of(today), count64);
        new_stats.completions_by_month.add(month_code_of(today), count64);
        let cur = compute_streak(&new_stats.completions_by_day, today);
        new_stats.current_streak = cur;
        if cur > new_stats.longest_streak {
            new_stats.longest_streak = cur;
        }
    }
    ArchiveOutcome { archived_count: count, remaining, archive_text, stats: new_stats }
}

// ---------------------------------------------------------------------
// Reading archive text back.
// ---------------------------------------------------------------------
/// Whether a line has the `[YYYY-MM-DD] title` shape.
pub open spec fn is_arch_line(l: Seq<char>) -> bool {
    l.len() >= 12 && l[0] == '[' && is_date10(l.subrange(1, 11)) && l[11] == ']'
}

/// The archived task a `[date] title` line parses to.
pub open spec fn parse_arch_line(l: Seq<char>) -> ArchivedModel {
    ArchivedModel { title: spec_trim(l.skip(12)), date: l.subrange(1, 11), subtasks: Seq::empty() }
}

/// Attaches a subtask to the most recently parsed archived task.
pub open spec fn push_arch_subtask_last(acc: Seq<ArchivedModel>, st: SubtaskModel) -> Seq<
    ArchivedModel,
>
    recommends
        acc.len() > 0,
{
    acc.update(
        acc.len() - 1,
        ArchivedModel { subtasks: acc.last().subtasks.push(st), ..acc.last() },
    )
}

/// Folds archive lines into archived tasks. A subtask line before any
/// `[date]` line is dropped; any other unrecognized line is skipped.
pub open spec fn parse_arch_lines(ls: Seq<Seq<char>>, acc: Seq<ArchivedModel>) -> Seq<
    ArchivedModel,
>
    decreases ls.len(),
{
    if ls.len() == 0 {
        acc
    } else {
        let l = ls[0];
        let acc2 = if is_subtask_line(l) {
            if acc.len() > 0 {
                push_arch_subtask_last(acc, parse_subtask_model(l))
            } else {
                acc
            }
        } else if is_arch_line(l) {
            acc.push(parse_arch_line(l))
        } else {
            acc
        };
        parse_arch_lines(ls.drop_first(), acc2)
    }
}

/// The archived tasks an archive text parses to.
pub open spec fn spec_parse_archive(s: Seq<char>) -> Seq<ArchivedModel> {
    parse_arch_lines(spec_lines(s), Seq::empty())
}

fn is_arch_line_exec(l: &[char]) -> (r: bool)
    ensures
        r == is_arch_line(l@),
{
    l.len() >= 12 && l[0] == '[' && date_shape(l, 1) && l[11] == ']'
}

/// Parses one month's archive text back into archived tasks.
pub fn parse_archive(content: &str) -> (r: Vec<ArchivedTodo>)
    ensures
        r.deep_view() == spec_parse_archive(content@),
{
    let chars = str_to_chars(content);
    let lines = split_lines(chars.as_slice());
    let ghost lsm = lines.deep_view();
    let mut items: Vec<ArchivedTodo> = Vec::new();
    let mut i: usize = 0;
    proof {
        assert(lsm.skip(0) =~= lsm);
        assert(items.deep_view() =~= Seq::<ArchivedModel>::empty());
    }
    while i < lines.len()
        invariant
            0 <= i <= lines@.len(),
            lsm == lines.deep_view(),
            lsm.len() == lines@.len(),
            parse_arch_lines(lsm, Seq::empty()) == parse_arch_lines(
                lsm.skip(i as int),
                items.deep_view(),
            ),
        decreases lines@.len() - i,
    {
        let ghost pre = items.deep_view();
        let ghost tsuf = lsm.skip(i as int);
        let line = &lines[i];
        proof {
            assert(lsm[i as int] == lines@[i as int].deep_view());
            assert(tsuf[0] == lsm[i as int]);
            assert(tsuf.drop_first() =~= lsm.skip(i as int + 1));
        }
        let ghost lm = line.deep_view();
        proof {
            assert(lm =~= line@);
        }
        if is_subtask_line_exec(line.as_slice()) {
            if items.len() > 0 {
                let ls = chars_to_string(line);
                match parse_subtask_line(ls.as_str()) {
                    Ok(st) => {
                        let ghost stm = st@;
                        let mut last_item = items.pop().unwrap();
                        let ghost before_subs = last_item.subtasks.deep_view();
                        let ghost before_item = last_item@;
                        last_item.subtasks.push(st);
                        proof {
                            lemma_deep_view_subs_arch(before_subs, last_item.subtasks@, stm);
                            assert(last_item.subtasks.deep_view() =~= before_subs.push(stm));
                        }
                        let ghost lastm = last_item@;
                        items.push(last_item);
                        proof {
                            assert(before_item == pre.last());
                            assert(lastm =~= ArchivedModel {
                                subtasks: pre.last().subtasks.push(stm),
                                ..pre.last()
                            });
                            lemma_deep_view_arch_update(pre, items@, lastm);
                            assert(items.deep_view() =~= push_arch_subtask_last(pre, stm));
                        }
                    },
                    Err(_) => {
                        proof {
                            assert(false);
                        }
                    },
                }
            }
        } else if is_arch_line_exec(line.as_slice()) {
            let title_vec = trim_chars(skip_chars(line.as_slice(), 12).as_slice());
            let date_vec = crate::text::copy_range(line.as_slice(), 1, 11);
            let at = ArchivedTodo {
                title: chars_to_string(&title_vec),
                date: chars_to_string(&date_vec),
                subtasks: Vec::new(),
            };
            let ghost atm = at@;
            proof {
                assert(at.subtasks.deep_view() =~= Seq::<SubtaskModel>::empty());
                assert(atm =~= parse_arch_line(lm));
            }
            items.push(at);
            proof {
                lemma_deep_view_arch_push(pre, items@, atm);
                assert(items.deep_view() =~= pre.push(parse_arch_line(lm)));
            }
        }
        proof {
            let post = items.deep_view();
            assert(parse_arch_lines(tsuf, pre) == parse_arch_lines(tsuf.drop_first(), post));
        }
        i += 1;
    }
    proof {
        assert(lsm.skip(lsm.len() as int) =~= Seq::<Seq<char>>::empty());
    }
    items
}

proof fn lemma_deep_view_subs_arch(pre: Seq<SubtaskModel>, post: Seq<Subtask>, x: SubtaskModel)
    requires
        pre.len() + 1 == post.len(),
        forall|k: int| 0 <= k < pre.len() ==> pre[k] == #[trigger] post[k].deep_view(),
        post.last().deep_view() == x,
    ensures
        Seq::new(post.len(), |i: int| post[i].deep_view()) =~= pre.push(x),
{
}

proof fn lemma_deep_view_arch_push(pre: Seq<ArchivedModel>, post: Seq<ArchivedTodo>, x: ArchivedModel)
    requires
        pre.len() + 1 == post.len(),
        forall|k: int| 0 <= k < pre.len() ==> pre[k] == #[trigger] post[k].deep_view(),
        post.last().deep_view() == x,
    ensures
        Seq::new(post.len(), |i: int| post[i].deep_view()) =~= pre.push(x),
{
}

proof fn lemma_deep_view_arch_update(pre: Seq<ArchivedModel>, post: Seq<ArchivedTodo>, x: ArchivedModel)
    requires
        pre.len() > 0,
        pre.len() == post.len(),
        forall|k: int| 0 <= k < pre.len() - 1 ==> pre[k] == #[trigger] post[k].deep_view(),
        post.last().deep_view() == x,
    ensures
        Seq::new(post.len(), |i: int| post[i].deep_view()) =~= pre.update(pre.len() - 1, x),
{
}

// ---------------------------------------------------------------------
// Listing the archived months.
// ---------------------------------------------------------------------
/// Whether a filename is a month archive's: `YYYY-MM.txt`.
pub open spec fn is_archive_name(n: Seq<char>) -> bool {
    n.len() == 11 && is_month7(n.subrange(0, 7)) && n[7] == '.' && n[8] == 't' && n[9] == 'x'
        && n[10] == 't'
}

/// The month keys of the archive filenames, in the given order.
pub open spec fn month_keys_of(names: Seq<Seq<char>>) -> Seq<Seq<char>>
    decreases names.len(),
{
    if names.len() == 0 {
        Seq::empty()
    } else if is_archive_name(names[0]) {
        seq![names[0].subrange(0, 7)] + month_keys_of(names.drop_first())
    } else {
        month_keys_of(names.drop_first())
    }
}

proof fn lemma_month_keys_push(names: Seq<Seq<char>>, n: Seq<char>)
    ensures
        month_keys_of(names.push(n)) =~= if is_archive_name(n) {
            month_keys_of(names).push(n.subrange(0, 7))
        } else {
            month_keys_of(names)
        },
    decreases names.len(),
{
    if names.len() == 0 {
        assert(names.push(n)[0] == n);
        assert(names.push(n).drop_first() =~= Seq::<Seq<char>>::empty());
        assert(month_keys_of(Seq::<Seq<char>>::empty()) =~= Seq::<Seq<char>>::empty());
    } else {
        assert(names.push(n)[0] == names[0]);
        assert(names.push(n).drop_first() =~= names.drop_first().push(n));
        lemma_month_keys_push(names.drop_first(), n);
    }
}

fn is_archive_name_exec(n: &[char]) -> (r: bool)
    ensures
        r == is_archive_name(n@),
{
    let r = n.len() == 11 && crate::dates::month_shape(n, 0) && n[7] == '.' && n[8] == 't' && n[9]
        == 'x' && n[10] == 't';
    proof {
        if n@.len() == 11 {
            assert(n@.subrange(0, 7).len() == 7);
        }
    }
    r
}

/// The month keys of the archive filenames, sorted newest first.
/// Exactly the keys of the matching names come back, as a multiset.
pub fn list_archive_months(names: &Vec<String>) -> (r: Vec<String>)
    ensures
        forall|i: int, j: int|
            0 <= i < j < r.deep_view().len() ==> spec_month_val(#[trigger] r.deep_view()[i])
                >= spec_month_val(#[trigger] r.deep_view()[j]),
        r.deep_view().to_multiset() == month_keys_of(names.deep_view()).to_multiset(),
        forall|i: int| 0 <= i < r.deep_view().len() ==> is_month7(#[trigger] r.deep_view()[i]),
{
    broadcast use vstd::seq_lib::group_to_multiset_ensures;

    let ghost nm = names.deep_view();
    // Collect the matching names' keys with their numeric month.
    let mut keys: Vec<(u32, String)> = Vec::new();
    let mut i: usize = 0;
    proof {
        assert(nm.take(0) =~= Seq::<Seq<char>>::empty());
        assert(month_keys_of(Seq::<Seq<char>>::empty()) =~= Seq::<Seq<char>>::empty());
        assert(keys_strings(keys@) =~= Seq::<Seq<char>>::empty());
    }
    while i < names.len()
        invariant
            0 <= i <= names@.len(),
            nm == names.deep_view(),
            nm.len() == names@.len(),
            keys_strings(keys@) =~= month_keys_of(nm.take(i as int)),
            forall|k: int|
                0 <= k < keys@.len() ==> is_month7((#[trigger] keys@[k]).1@) && keys@[k].0
                    == spec_month_val(keys@[k].1@),
        decreases names@.len() - i,
    {
        let n = &names[i];
        let nv = str_to_chars(n.as_str());
        proof {
            assert(nm[i as int] == names@[i as int].deep_view());
            assert(nm[i as int] == n@);
            assert(nm.take(i as int).push(nm[i as int]) =~= nm.take(i as int + 1));
            lemma_month_keys_push(nm.take(i as int), nm[i as int]);
        }
        if is_archive_name_exec(nv.as_slice()) {
            let keyv = crate::text::copy_range(nv.as_slice(), 0, 7);
            let code = month_val(keyv.as_slice());
            let ks = chars_to_string(&keyv);
            let ghost pre = keys@;
            keys.push((code, ks));
            proof {
                assert(keys@.last().1@ =~= nm[i as int].subrange(0, 7));
                lemma_keys_strings_push(pre, keys@);
                assert(keys_strings(keys@) =~= keys_strings(pre).push(keys@.last().1@));
            }
        }
        i += 1;
    }
    proof {
        assert(nm.take(nm.len() as int) =~= nm);
    }
    // Selection sort, newest month first.
    let mut src = keys;
    let mut out: Vec<String> = Vec::new();
    let ghost target = month_keys_of(nm).to_multiset();
    proof {
        lemma_keys_strings_multiset(src@, out.deep_view(), target);
    }
    while src.len() > 0
        invariant
            out.deep_view().to_multiset().add(keys_strings(src@).to_multiset()) =~= target,
            forall|a: int, b: int|
                0 <= a < b < out.deep_view().len() ==> spec_month_val(
                    #[trigger] out.deep_view()[a],
                ) >= spec_month_val(#[trigger] out.deep_view()[b]),
            forall|a: int, b: int|
                0 <= a < out.deep_view().len() && 0 <= b < src@.len() ==> spec_month_val(
                    #[trigger] out.deep_view()[a],
                ) >= (#[trigger] src@[b]).0,
            forall|k: int|
                0 <= k < src@.len() ==> is_month7((#[trigger] src@[k]).1@) && src@[k].0
                    == spec_month_val(src@[k].1@),
            forall|k: int|
                0 <= k < out.deep_view().len() ==> is_month7(#[trigger] out.deep_view()[k]),
        decreases src@.len(),
    {
        let mut mi: usize = 0;
        let mut mv: u32 = src[0].0;
        let mut j: usize = 1;
        while j < src.len()
            invariant
                0 <= mi < src@.len(),
                1 <= j <= src@.len(),
                mv == src@[mi as int].0,
                forall|k: int| 0 <= k < j ==> (#[trigger] src@[k]).0 <= mv,
            decreases src@.len() - j,
        {
            if src[j].0 > mv {
                mi = j;
                mv = src[j].0;
            }
            j += 1;
        }
        let ghost pre_src = src@;
        let ghost pre_out = out.deep_view();
        let picked = src.remove(mi);
        let ghost pickedv = picked.1@;
        out.push(picked.1);
        proof {
            keys_strings(pre_src).to_multiset_ensures();
            pre_out.to_multiset_ensures();
            assert(out.deep_view() =~= pre_out.push(pickedv)) by {
                lemma_deep_view_strings_arch(pre_out, out@, pickedv);
            }
            lemma_keys_strings_remove(pre_src, mi as int);
            assert(keys_strings(src@) =~= keys_strings(pre_src).remove(mi as int));
            assert(keys_strings(pre_src)[mi as int] == pickedv);
            assert(keys_strings(pre_src).remove(mi as int).to_multiset() =~= keys_strings(
                pre_src,
            ).to_multiset().remove(pickedv));
            assert(pre_out.push(pickedv).to_multiset() =~= pre_out.to_multiset().insert(pickedv));
            assert(keys_strings(pre_src).to_multiset().count(pickedv) > 0) by {
                assert(keys_strings(pre_src).contains(pickedv));
            }
            assert(pre_out.push(pickedv).to_multiset().add(
                keys_strings(pre_src).remove(mi as int).to_multiset(),
            ) =~= target);
            assert(spec_month_val(pickedv) == pre_src[mi as int].0);
            assert forall|b: int| 0 <= b < src@.len() implies spec_month_val(pickedv) >= (
            #[trigger] src@[b]).0 by {
                if b < mi {
                    assert(src@[b] == pre_src[b]);
                } else {
                    assert(src@[b] == pre_src[b + 1]);
                }
            }
        }
    }
    proof {
        assert(keys_strings(src@) =~= Seq::<Seq<char>>::empty());
        assert(keys_strings(src@).to_multiset() =~= Multiset::<Seq<char>>::empty());
        assert(out.deep_view().to_multiset() =~= target);
    }
    out
}

/// The key strings of a sequence of keyed names.
pub open spec fn keys_strings(s: Seq<(u32, String)>) -> Seq<Seq<char>> {
    s.map_values(|p: (u32, String)| p.1@)
}

proof fn lemma_keys_strings_push(pre: Seq<(u32, String)>, post: Seq<(u32, String)>)
    requires
        post.len() == pre.len() + 1,
        forall|k: int| 0 <= k < pre.len() ==> pre[k] == #[trigger] post[k],
    ensures
        keys_strings(post) =~= keys_strings(pre).push(post.last().1@),
{
}

proof fn lemma_keys_strings_remove(s: Seq<(u32, String)>, i: int)
    requires
        0 <= i < s.len(),
    ensures
        keys_strings(s.remove(i)) =~= keys_strings(s).remove(i),
{
}

proof fn lemma_keys_strings_multiset(
    src: Seq<(u32, String)>,
    out: Seq<Seq<char>>,
    target: Multiset<Seq<char>>,
)
    requires
        out.len() == 0,
        keys_strings(src).to_multiset() == target,
    ensures
        out.to_multiset().add(keys_strings(src).to_multiset()) =~= target,
{
    broadcast use vstd::seq_lib::group_to_multiset_ensures;

    assert(out.to_multiset() =~= Multiset::<Seq<char>>::empty());
}

proof fn lemma_deep_view_strings_arch(pre: Seq<Seq<char>>, post: Seq<String>, x: Seq<char>)
    requires
        pre.len() + 1 == post.len(),
        forall|k: int| 0 <= k < pre.len() ==> pre[k] == #[trigger] post[k].deep_view(),
        post.last().deep_view() == x,
    ensures
        Seq::new(post.len(), |i: int| post[i].deep_view()) =~= pre.push(x),
{
}

proof fn lemma_deep_view_items_arch(pre: Seq<TodoModel>, post: Seq<TodoItem>, x: TodoModel)
    requires
        pre.len() + 1 == post.len(),
        forall|k: int| 0 <= k < pre.len() ==> pre[k] == #[trigger] post[k].deep_view(),
        post.last().deep_view() == x,
    ensures
        Seq::new(post.len(), |i: int| post[i].deep_view()) =~= pre.push(x),
{
}

} // verus!
