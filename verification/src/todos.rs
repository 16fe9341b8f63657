//! The todo codec: a line-oriented text format for task collections.
//!
//! Every non-blank line is one task unless it is an indented subtask
//! line, which belongs to the task above it. A task line carries, in
//! this order: an `x ` completion marker, a `(A)` priority, a creation
//! date, the title, `+project` tags, `@context` tags and a `due:` tag.
//! `parse_todos` and `serialize_todos` are each specified against spec
//! functions over character sequences, and the round-trip law relating
//! the two is proved in `codec_laws`.

use vstd::prelude::*;

use crate::dates::is_date10;
use crate::text::chars_to_string;
use crate::text::is_upper;
use crate::text::join_words;
use crate::text::remove_range;
use crate::text::skip_chars;
use crate::text::spec_join;
use crate::text::spec_trim;
use crate::text::spec_words;
use crate::text::split_words;
use crate::text::str_to_chars;
use crate::text::trim_chars;
use crate::text::trim_start_chars;
use crate::text::trim_start_rec;
use crate::text::upper_char;

verus! {

/// One indented child line of a task.
#[derive(Clone, Debug, PartialEq)]
pub struct Subtask {
    pub title: String,
    pub completed: bool,
}

/// One task of the collection. `id` is the line number the task was
/// read from, starting at 1; it is renumbered on every parse.
#[derive(Clone, Debug, PartialEq)]
pub struct TodoItem {
    pub id: usize,
    pub title: String,
    pub completed: bool,
    pub priority: Option<char>,
    pub created_date: Option<String>,
    pub projects: Vec<String>,
    pub contexts: Vec<String>,
    pub due_date: Option<String>,
    pub subtasks: Vec<Subtask>,
}

/// The mathematical value of a subtask.
#[verifier::ext_equal]
pub struct SubtaskModel {
    pub title: Seq<char>,
    pub completed: bool,
}

/// The mathematical value of a task.
#[verifier::ext_equal]
pub struct TodoModel {
    pub id: int,
    pub title: Seq<char>,
    pub completed: bool,
    pub priority: Option<char>,
    pub created: Option<Seq<char>>,
    pub projects: Seq<Seq<char>>,
    pub contexts: Seq<Seq<char>>,
    pub due: Option<Seq<char>>,
    pub subtasks: Seq<SubtaskModel>,
}

impl View for Subtask {
    type V = SubtaskModel;

    open spec fn view(&self) -> SubtaskModel {
        SubtaskModel { title: self.title@, completed: self.completed }
    }
}

impl DeepView for Subtask {
    type V = SubtaskModel;

    open spec fn deep_view(&self) -> SubtaskModel {
        self.view()
    }
}

impl View for TodoItem {
    type V = TodoModel;

    open spec fn view(&self) -> TodoModel {
        TodoModel {
            id: self.id as int,
            title: self.title@,
            completed: self.completed,
            priority: self.priority,
            created: self.created_date.deep_view(),
            projects: self.projects.deep_view(),
            contexts: self.contexts.deep_view(),
            due: self.due_date.deep_view(),
            subtasks: self.subtasks.deep_view(),
        }
    }
}

impl DeepView for TodoItem {
    type V = TodoModel;

    open spec fn deep_view(&self) -> TodoModel {
        self.view()
    }
}

// ---------------------------------------------------------------------
// The serialized form, as spec functions.
// ---------------------------------------------------------------------
/// `x ` for a completed entry, nothing otherwise.
pub open spec fn marker_chars(completed: bool) -> Seq<char> {
    if completed {
        seq!['x', ' ']
    } else {
        Seq::empty()
    }
}

/// `(A) ` for a priority, nothing otherwise.
pub open spec fn priority_chars(p: Option<char>) -> Seq<char> {
    match p {
        Some(c) => seq!['(', c, ')', ' '],
        None => Seq::empty(),
    }
}

/// The creation date followed by one space, nothing otherwise.
pub open spec fn created_chars(c: Option<Seq<char>>) -> Seq<char> {
    match c {
        Some(d) => d + seq![' '],
        None => Seq::empty(),
    }
}

/// ` +tag` or ` @tag` for each tag, in order.
pub open spec fn tags_chars(prefix: char, ws: Seq<Seq<char>>) -> Seq<char>
    decreases ws.len(),
{
    if ws.len() == 0 {
        Seq::empty()
    } else {
        seq![' ', prefix] + ws[0] + tags_chars(prefix, ws.drop_first())
    }
}

/// ` due:value` for a due date, nothing otherwise.
pub open spec fn due_chars(d: Option<Seq<char>>) -> Seq<char> {
    match d {
        Some(v) => seq![' ', 'd', 'u', 'e', ':'] + v,
        None => Seq::empty(),
    }
}

/// The single line a task serializes to, without its subtasks.
pub open spec fn ser_item_line(t: TodoModel) -> Seq<char> {
    marker_chars(t.completed) + priority_chars(t.priority) + created_chars(t.created) + t.title
        + tags_chars('+', t.projects) + tags_chars('@', t.contexts) + due_chars(t.due)
}

/// The indented line a subtask serializes to.
pub open spec fn ser_subtask_line(s: SubtaskModel) -> Seq<char> {
    seq![' ', ' '] + marker_chars(s.completed) + seq!['-', ' '] + s.title
}

/// The lines a task serializes to: its own line, then its subtasks'.
pub open spec fn item_lines(t: TodoModel) -> Seq<Seq<char>> {
    seq![ser_item_line(t)] + t.subtasks.map_values(|s: SubtaskModel| ser_subtask_line(s))
}

/// The lines a collection serializes to.
pub open spec fn all_lines(items: Seq<TodoModel>) -> Seq<Seq<char>>
    decreases items.len(),
{
    if items.len() == 0 {
        Seq::empty()
    } else {
        item_lines(items[0]) + all_lines(items.drop_first())
    }
}

/// Lines joined back into a text, each terminated by a newline.
pub open spec fn unlines(ls: Seq<Seq<char>>) -> Seq<char>
    decreases ls.len(),
{
    if ls.len() == 0 {
        Seq::empty()
    } else {
        ls[0] + seq!['\n'] + unlines(ls.drop_first())
    }
}

/// The text a collection serializes to.
pub open spec fn spec_serialize(items: Seq<TodoModel>) -> Seq<char> {
    unlines(all_lines(items))
}

// ---------------------------------------------------------------------
// The parsed form, as spec functions.
// ---------------------------------------------------------------------
/// The position of the first newline at or after `i`, or the length.
pub open spec fn find_newline(s: Seq<char>, i: int) -> int
    decreases s.len() - i,
{
    if i < 0 || i >= s.len() {
        s.len() as int
    } else if s[i] == '\n' {
        i
    } else {
        find_newline(s, i + 1)
    }
}

/// The lines of a text. A final newline closes the last line; it does
/// not open an empty one.
pub open spec fn spec_lines(s: Seq<char>) -> Seq<Seq<char>>
    decreases s.len(),
    via spec_lines_decreases
{
    if s.len() == 0 {
        Seq::empty()
    } else {
        let j = find_newline(s, 0);
        if j == s.len() {
            seq![s]
        } else {
            seq![s.take(j)] + spec_lines(s.skip(j + 1))
        }
    }
}

pub proof fn lemma_find_newline_bounds(s: Seq<char>, i: int)
    requires
        0 <= i <= s.len(),
    ensures
        i <= find_newline(s, i) <= s.len(),
        find_newline(s, i) < s.len() ==> s[find_newline(s, i)] == '\n',
        forall|j: int| i <= j < find_newline(s, i) ==> s[j] != '\n',
    decreases s.len() - i,
{
    if i < s.len() && s[i] != '\n' {
        lemma_find_newline_bounds(s, i + 1);
    }
}

#[via_fn]
proof fn spec_lines_decreases(s: Seq<char>) {
    if s.len() > 0 {
        lemma_find_newline_bounds(s, 0);
    }
}

/// Whether a word starts with the `due:` tag.
pub open spec fn has_due_prefix(w: Seq<char>) -> bool {
    w.len() >= 4 && w[0] == 'd' && w[1] == 'u' && w[2] == 'e' && w[3] == ':'
}

/// Whether an ISO date starts at position `i`.
pub open spec fn date_at(s: Seq<char>, i: int) -> bool {
    0 <= i && i + 10 <= s.len() && is_date10(s.subrange(i, i + 10))
}

/// The position of the first ISO date at or after `i`, if any.
pub open spec fn find_date_from(s: Seq<char>, i: int) -> Option<int>
    decreases s.len() - i,
{
    if i < 0 || i + 10 > s.len() {
        None
    } else if date_at(s, i) {
        Some(i)
    } else {
        find_date_from(s, i + 1)
    }
}

/// What token extraction has gathered from the words of a line.
#[verifier::ext_equal]
pub struct LineAcc {
    pub due: Option<Seq<char>>,
    pub created: Option<Seq<char>>,
    pub projects: Seq<Seq<char>>,
    pub contexts: Seq<Seq<char>>,
    pub title_words: Seq<Seq<char>>,
}

pub open spec fn empty_acc() -> LineAcc {
    LineAcc {
        due: None,
        created: None,
        projects: Seq::empty(),
        contexts: Seq::empty(),
        title_words: Seq::empty(),
    }
}

/// Classifies one word. The first `due:` word is the due date; a word
/// opening with `+` or `@` is a project or context tag; while no
/// creation date has been seen, the first ISO date substring becomes
/// the creation date and the rest of its word, if any, stays in the
/// title; every other word is a title word.
pub open spec fn step_word(acc: LineAcc, w: Seq<char>) -> LineAcc {
    if has_due_prefix(w) && acc.due is None {
        LineAcc { due: Some(w.skip(4)), ..acc }
    } else if w.len() > 0 && w[0] == '+' {
        LineAcc { projects: acc.projects.push(w.drop_first()), ..acc }
    } else if w.len() > 0 && w[0] == '@' {
        LineAcc { contexts: acc.contexts.push(w.drop_first()), ..acc }
    } else if acc.created is None && find_date_from(w, 0) is Some {
        let i = find_date_from(w, 0)->0;
        let rem = w.take(i) + w.skip(i + 10);
        LineAcc {
            created: Some(w.subrange(i, i + 10)),
            title_words: if rem.len() > 0 {
                acc.title_words.push(rem)
            } else {
                acc.title_words
            },
            ..acc
        }
    } else {
        LineAcc { title_words: acc.title_words.push(w), ..acc }
    }
}

pub open spec fn fold_words(acc: LineAcc, ws: Seq<Seq<char>>) -> LineAcc
    decreases ws.len(),
{
    if ws.len() == 0 {
        acc
    } else {
        fold_words(step_word(acc, ws[0]), ws.drop_first())
    }
}

/// Whether a sequence opens with a `(A)` priority token.
pub open spec fn pri_pattern(s: Seq<char>) -> bool {
    s.len() >= 3 && s[0] == '(' && is_upper(s[1]) && s[2] == ')'
}

/// The task a line parses to: trim, take the completion marker, take
/// the priority token, then classify the remaining words.
pub open spec fn parse_line_model(line: Seq<char>, ln: int) -> TodoModel {
    let t = spec_trim(line);
    let completed = t.len() > 0 && t[0] == 'x';
    let r0 = if completed {
        trim_start_rec(t.drop_first())
    } else {
        t
    };
    let pri = pri_pattern(r0);
    let r1 = if pri {
        trim_start_rec(r0.skip(3))
    } else {
        r0
    };
    let acc = fold_words(empty_acc(), spec_words(r1));
    TodoModel {
        id: ln,
        title: spec_join(acc.title_words),
        completed,
        priority: if pri {
            Some(r0[1])
        } else {
            None
        },
        created: acc.created,
        projects: acc.projects,
        contexts: acc.contexts,
        due: acc.due,
        subtasks: Seq::empty(),
    }
}

/// Whether a raw line is an indented subtask line: two spaces, then
/// `- ` or `x `.
pub open spec fn is_subtask_line(line: Seq<char>) -> bool {
    line.len() >= 4 && line[0] == ' ' && line[1] == ' ' && (line[2] == '-' || line[2] == 'x')
        && line[3] == ' '
}

/// The subtask a line parses to.
pub open spec fn parse_subtask_model(line: Seq<char>) -> SubtaskModel {
    let t = spec_trim(line);
    let completed = t.len() > 0 && t[0] == 'x';
    let c = if completed {
        trim_start_rec(t.drop_first())
    } else {
        t
    };
    let title = if c.len() >= 2 && c[0] == '-' && c[1] == ' ' {
        c.skip(2)
    } else {
        c
    };
    SubtaskModel { title, completed }
}

/// Attaches a subtask to the most recently parsed task.
pub open spec fn push_subtask_last(acc: Seq<TodoModel>, st: SubtaskModel) -> Seq<TodoModel>
    recommends
        acc.len() > 0,
{
    acc.update(
        acc.len() - 1,
        TodoModel { subtasks: acc.last().subtasks.push(st), ..acc.last() },
    )
}

/// Folds the lines of a file into tasks. Blank lines are skipped; a
/// subtask line before any task is dropped; line numbers count every
/// line.
pub open spec fn parse_lines_model(ls: Seq<Seq<char>>, ln: int, acc: Seq<TodoModel>) -> Seq<
    TodoModel,
>
    decreases ls.len(),
{
    if ls.len() == 0 {
        acc
    } else {
        let l = ls[0];
        let acc2 = if spec_trim(l).len() == 0 {
            acc
        } else if is_subtask_line(l) {
            if acc.len() > 0 {
                push_subtask_last(acc, parse_subtask_model(l))
            } else {
                acc
            }
        } else {
            acc.push(parse_line_model(l, ln))
        };
        parse_lines_model(ls.drop_first(), ln + 1, acc2)
    }
}

/// The tasks a text parses to.
pub open spec fn spec_parse(s: Seq<char>) -> Seq<TodoModel> {
    parse_lines_model(spec_lines(s), 1, Seq::empty())
}

// ---------------------------------------------------------------------
// Executable parsing.
// ---------------------------------------------------------------------
fn has_due_prefix_exec(w: &[char]) -> (r: bool)
    ensures
        r == has_due_prefix(w@),
{
    w.len() >= 4 && w[0] == 'd' && w[1] == 'u' && w[2] == 'e' && w[3] == ':'
}

fn date_at_exec(w: &[char], i: usize) -> (r: bool)
    requires
        i + 10 <= w@.len(),
    ensures
        r == date_at(w@, i as int),
{
    let r = crate::dates::date_shape(w, i);
    proof {
        assert(w@.subrange(i as int, i as int + 10).len() == 10);
    }
    r
}

fn find_date_exec(w: &[char]) -> (r: Option<usize>)
    ensures
        match r {
            Some(i) => find_date_from(w@, 0) == Some(i as int),
            None => find_date_from(w@, 0) is None,
        },
{
    let mut i: usize = 0;
    if w.len() < 10 {
        return None;
    }
    while i <= w.len() - 10
        invariant
            w@.len() >= 10,
            0 <= i <= w@.len() - 10 + 1,
            find_date_from(w@, 0) == find_date_from(w@, i as int),
        decreases w@.len() - i,
    {
        if date_at_exec(w, i) {
            return Some(i);
        }
        i += 1;
    }
    None
}

/// The due date a fold ends with depends only on the due date the
/// accumulator starts with.
pub proof fn lemma_fold_due_pair(a: LineAcc, b: LineAcc, ws: Seq<Seq<char>>)
    requires
        a.due == b.due,
    ensures
        fold_words(a, ws).due == fold_words(b, ws).due,
    decreases ws.len(),
{
    if ws.len() > 0 {
        assert(step_word(a, ws[0]).due == step_word(b, ws[0]).due);
        lemma_fold_due_pair(step_word(a, ws[0]), step_word(b, ws[0]), ws.drop_first());
    }
}

/// Once set, the due date never changes.
pub proof fn lemma_fold_due_stays(acc: LineAcc, ws: Seq<Seq<char>>)
    requires
        acc.due is Some,
    ensures
        fold_words(acc, ws).due == acc.due,
    decreases ws.len(),
{
    if ws.len() > 0 {
        lemma_fold_due_stays(step_word(acc, ws[0]), ws.drop_first());
    }
}

/// Reads the first `due:` tag among the words of the text, as the
/// token classification does.
pub fn extract_due_date(content: &str) -> (r: Option<String>)
    ensures
        r.deep_view() == fold_words(empty_acc(), spec_words(content@)).due,
{
    let chars = str_to_chars(content);
    let ws = split_words(chars.as_slice());
    let ghost wsm = ws.deep_view();
    let mut k: usize = 0;
    proof {
        assert(wsm.skip(0) =~= wsm);
    }
    while k < ws.len()
        invariant
            0 <= k <= ws@.len(),
            wsm == ws.deep_view(),
            wsm.len() == ws@.len(),
            wsm == spec_words(content@),
            fold_words(empty_acc(), wsm).due == fold_words(empty_acc(), wsm.skip(k as int)).due,
        decreases ws@.len() - k,
    {
        let w = &ws[k];
        proof {
            assert(wsm[k as int] == ws@[k as int].deep_view());
        }
        let ghost t = wsm.skip(k as int);
        proof {
            assert(t[0] == wsm[k as int]);
            assert(t.drop_first() =~= wsm.skip(k as int + 1));
        }
        if has_due_prefix_exec(w.as_slice()) {
            let v = skip_chars(w.as_slice(), 4);
            let s = chars_to_string(&v);
            proof {
                let acc1 = step_word(empty_acc(), t[0]);
                assert(acc1.due == Some(wsm[k as int].skip(4)));
                lemma_fold_due_stays(acc1, t.drop_first());
            }
            return Some(s);
        }
        proof {
            let acc1 = step_word(empty_acc(), t[0]);
            assert(acc1.due is None);
            lemma_fold_due_pair(acc1, empty_acc(), t.drop_first());
        }
        k += 1;
    }
    proof {
        assert(wsm.skip(wsm.len() as int) =~= Seq::<Seq<char>>::empty());
    }
    None
}

/// The accumulator value described by the executable fold state.
pub open spec fn acc_of(
    due: Option<Seq<char>>,
    created: Option<Seq<char>>,
    projects: Seq<Seq<char>>,
    contexts: Seq<Seq<char>>,
    title_words: Seq<Seq<char>>,
) -> LineAcc {
    LineAcc { due, created, projects, contexts, title_words }
}

/// Parses one task line. Parsing is total: every line yields a task,
/// so the per-line result is always `Ok`; the aggregate parser still
/// discards a hypothetical failure explicitly.
pub fn parse_todo_line(line: &str, line_num: usize) -> (r: Result<TodoItem, String>)
    ensures
        r matches Ok(item) && item@ == parse_line_model(line@, line_num as int),
{
    let chars = str_to_chars(line);
    let t = trim_chars(chars.as_slice());
    let ghost tm = spec_trim(line@);
    let completed = t.len() > 0 && t[0] == 'x';
    let r0: Vec<char> = if completed {
        let rest = skip_chars(t.as_slice(), 1);
        proof {
            assert(tm.skip(1) =~= tm.drop_first());
        }
        trim_start_chars(rest.as_slice())
    } else {
        t
    };
    let ghost r0m = r0@;
    let pri = r0.len() >= 3 && r0[0] == '(' && upper_char(r0[1]) && r0[2] == ')';
    let priority: Option<char> = if pri {
        Some(r0[1])
    } else {
        None
    };
    let r1: Vec<char> = if pri {
        let rest = skip_chars(r0.as_slice(), 3);
        trim_start_chars(rest.as_slice())
    } else {
        r0
    };
    proof {
        assert(pri == pri_pattern(r0m));
    }
    let ws = split_words(r1.as_slice());
    let ghost wsm = ws.deep_view();
    let mut due: Option<Vec<char>> = None;
    let mut created: Option<Vec<char>> = None;
    let mut projects: Vec<String> = Vec::new();
    let mut contexts: Vec<String> = Vec::new();
    let mut title_words: Vec<Vec<char>> = Vec::new();
    let mut k: usize = 0;
    proof {
        assert(wsm.skip(0) =~= wsm);
        assert(acc_of(
            due.deep_view(),
            created.deep_view(),
            projects.deep_view(),
            contexts.deep_view(),
            title_words.deep_view(),
        ) == empty_acc());
    }
    while k < ws.len()
        invariant
            0 <= k <= ws@.len(),
            wsm == ws.deep_view(),
            wsm.len() == ws@.len(),
            fold_words(empty_acc(), wsm) == fold_words(
                acc_of(
                    due.deep_view(),
                    created.deep_view(),
                    projects.deep_view(),
                    contexts.deep_view(),
                    title_words.deep_view(),
                ),
                wsm.skip(k as int),
            ),
        decreases ws@.len() - k,
    {
        let ghost pre = acc_of(
            due.deep_view(),
            created.deep_view(),
            projects.deep_view(),
            contexts.deep_view(),
            title_words.deep_view(),
        );
        let ghost tsuf = wsm.skip(k as int);
        let w = &ws[k];
        proof {
            assert(wsm[k as int] == ws@[k as int].deep_view());
            assert(tsuf[0] == wsm[k as int]);
            assert(tsuf.drop_first() =~= wsm.skip(k as int + 1));
        }
        let ghost wm = w.deep_view();
        proof {
            assert(wm =~= w@);
        }
        if has_due_prefix_exec(w.as_slice()) && due.is_none() {
            let v = skip_chars(w.as_slice(), 4);
            proof {
                assert(v.deep_view() =~= v@);
            }
            due = Some(v);
            proof {
                assert(due.deep_view() == Some(wm.skip(4)));
            }
        } else if w.len() > 0 && w[0] == '+' {
            let ghost prep = projects.deep_view();
            let v = skip_chars(w.as_slice(), 1);
            let s = chars_to_string(&v);
            let ghost sv = s@;
            projects.push(s);
            proof {
                assert(sv =~= wm.drop_first());
                lemma_deep_view_strings(prep, projects@, wm.drop_first());
                assert(projects.deep_view() =~= prep.push(wm.drop_first()));
            }
        } else if w.len() > 0 && w[0] == '@' {
            let ghost prec = contexts.deep_view();
            let v = skip_chars(w.as_slice(), 1);
            let s = chars_to_string(&v);
            let ghost sv = s@;
            contexts.push(s);
            proof {
                assert(sv =~= wm.drop_first());
                lemma_deep_view_strings(prec, contexts@, wm.drop_first());
                assert(contexts.deep_view() =~= prec.push(wm.drop_first()));
            }
        } else if created.is_none() {
            match find_date_exec(w.as_slice()) {
                Some(i) => {
                    proof {
                        lemma_find_date_some(w@, 0);
                    }
                    let dv = crate::text::copy_range(w.as_slice(), i, i + 10);
                    proof {
                        assert(dv.deep_view() =~= dv@);
                    }
                    created = Some(dv);
                    proof {
                        assert(created.deep_view() == Some(wm.subrange(i as int, i as int + 10)));
                    }
                    let rem = remove_range(w.as_slice(), i, i + 10);
                    if rem.len() > 0 {
                        let ghost pret = title_words.deep_view();
                        let ghost remv = rem@;
                        proof {
                            assert(rem.deep_view() =~= remv);
                        }
                        title_words.push(rem);
                        proof {
                            lemma_deep_view_push_lines(pret, title_words@, remv);
                            assert(title_words.deep_view() =~= pret.push(remv));
                        }
                    }
                },
                None => {
                    let ghost pret = title_words.deep_view();
                    let cw = skip_chars(w.as_slice(), 0);
                    proof {
                        assert(cw@ =~= wm);
                        assert(cw.deep_view() =~= wm);
                    }
                    title_words.push(cw);
                    proof {
                        lemma_deep_view_push_lines(pret, title_words@, wm);
                        assert(title_words.deep_view() =~= pret.push(wm));
                    }
                },
            }
        } else {
            let ghost pret = title_words.deep_view();
            let cw = skip_chars(w.as_slice(), 0);
            proof {
                assert(cw@ =~= wm);
                assert(cw.deep_view() =~= wm);
            }
            title_words.push(cw);
            proof {
                lemma_deep_view_push_lines(pret, title_words@, wm);
                assert(title_words.deep_view() =~= pret.push(wm));
            }
        }
        proof {
            let post = acc_of(
                due.deep_view(),
                created.deep_view(),
                projects.deep_view(),
                contexts.deep_view(),
                title_words.deep_view(),
            );
            assert(post =~= step_word(pre, tsuf[0]));
            assert(fold_words(pre, tsuf) == fold_words(post, tsuf.drop_first()));
        }
        k += 1;
    }
    let ghost accf = fold_words(empty_acc(), wsm);
    proof {
        assert(wsm.skip(wsm.len() as int) =~= Seq::<Seq<char>>::empty());
        assert(acc_of(
            due.deep_view(),
            created.deep_view(),
            projects.deep_view(),
            contexts.deep_view(),
            title_words.deep_view(),
        ) == accf);
        assert(due.deep_view() == accf.due);
        assert(created.deep_view() == accf.created);
        assert(projects.deep_view() == accf.projects);
        assert(contexts.deep_view() == accf.contexts);
        assert(title_words.deep_view() == accf.title_words);
    }
    let title_vec = join_words(&title_words);
    let title = chars_to_string(&title_vec);
    let created_date: Option<String> = opt_chars_to_string(created);
    let due_date: Option<String> = opt_chars_to_string(due);
    proof {
        assert(created_date.deep_view() == accf.created);
        assert(due_date.deep_view() == accf.due);
    }
    let item = TodoItem {
        id: line_num,
        title,
        completed,
        priority,
        created_date,
        projects,
        contexts,
        due_date,
        subtasks: Vec::new(),
    };
    proof {
        let m = parse_line_model(line@, line_num as int);
        assert(item.subtasks.deep_view() =~= Seq::<SubtaskModel>::empty());
        assert(item@.title == spec_join(accf.title_words));
        assert(item@ =~= m);
    }
    Ok(item)
}

/// Turns an optional character vector into the same optional string.
fn opt_chars_to_string(v: Option<Vec<char>>) -> (r: Option<String>)
    ensures
        r.deep_view() == v.deep_view(),
{
    match v {
        Some(x) => {
            let s = chars_to_string(&x);
            proof {
                assert(s@ =~= x.deep_view());
            }
            Some(s)
        },
        None => None,
    }
}

proof fn lemma_deep_view_strings(pre: Seq<Seq<char>>, post: Seq<String>, x: Seq<char>)
    requires
        pre.len() + 1 == post.len(),
        forall|k: int| 0 <= k < pre.len() ==> pre[k] == #[trigger] post[k].deep_view(),
        post.last().deep_view() == x,
    ensures
        Seq::new(post.len(), |i: int| post[i].deep_view()) =~= pre.push(x),
{
}

proof fn lemma_find_date_some(s: Seq<char>, j: int)
    ensures
        find_date_from(s, j) matches Some(i) ==> j <= i && date_at(s, i),
    decreases s.len() - j,
{
    if !(j < 0 || j + 10 > s.len()) && !date_at(s, j) {
        lemma_find_date_some(s, j + 1);
    }
}

/// Parses one indented subtask line. Total, as task lines are.
pub fn parse_subtask_line(line: &str) -> (r: Result<Subtask, String>)
    ensures
        r matches Ok(st) && st@ == parse_subtask_model(line@),
{
    let chars = str_to_chars(line);
    let t = trim_chars(chars.as_slice());
    let ghost tm = spec_trim(line@);
    let completed = t.len() > 0 && t[0] == 'x';
    let c: Vec<char> = if completed {
        let rest = skip_chars(t.as_slice(), 1);
        proof {
            assert(tm.skip(1) =~= tm.drop_first());
        }
        trim_start_chars(rest.as_slice())
    } else {
        t
    };
    let title_vec: Vec<char> = if c.len() >= 2 && c[0] == '-' && c[1] == ' ' {
        skip_chars(c.as_slice(), 2)
    } else {
        c
    };
    let st = Subtask { title: chars_to_string(&title_vec), completed };
    proof {
        assert(st@ =~= parse_subtask_model(line@));
    }
    Ok(st)
}

/// Splits a slice into its lines, as `spec_lines` does.
pub fn split_lines(s: &[char]) -> (r: Vec<Vec<char>>)
    ensures
        r.deep_view() == spec_lines(s@),
{
    let mut r: Vec<Vec<char>> = Vec::new();
    let mut i: usize = 0;
    proof {
        assert(s@.skip(0) =~= s@);
        assert(r.deep_view() =~= Seq::<Seq<char>>::empty());
    }
    while i < s.len()
        invariant
            0 <= i <= s@.len(),
            spec_lines(s@) =~= r.deep_view() + spec_lines(s@.skip(i as int)),
        decreases s@.len() - i,
    {
        let mut j: usize = i;
        while j < s.len() && s[j] != '\n'
            invariant
                i <= j <= s@.len(),
                forall|m: int| i <= m < j ==> s@[m] != '\n',
            decreases s@.len() - j,
        {
            j += 1;
        }
        let line = crate::text::copy_range(s, i, j);
        let ghost old_deep = r.deep_view();
        let ghost lv = line@;
        proof {
            assert(line.deep_view() =~= lv);
        }
        r.push(line);
        proof {
            let t = s@.skip(i as int);
            lemma_find_newline_is(t, 0, j - i);
            assert(find_newline(t, 0) == j - i);
            assert(t.take(j - i) =~= s@.subrange(i as int, j as int));
            lemma_deep_view_push_lines(old_deep, r@, lv);
            assert(r.deep_view() =~= old_deep.push(lv));
            if j < s@.len() {
                assert(t.skip(j - i + 1) =~= s@.skip(j + 1));
                assert(spec_lines(t) =~= seq![lv] + spec_lines(s@.skip(j + 1)));
            } else {
                assert(j - i == t.len());
                assert(t.take(j - i) =~= t);
                assert(spec_lines(t) =~= seq![lv]);
                assert(s@.skip(s@.len() as int).len() == 0);
            }
        }
        if j < s.len() {
            i = j + 1;
        } else {
            i = j;
        }
    }
    proof {
        assert(s@.skip(i as int).len() == 0);
        assert(spec_lines(s@.skip(i as int)) =~= Seq::<Seq<char>>::empty());
        assert(r.deep_view() =~= spec_lines(s@));
    }
    r
}

proof fn lemma_deep_view_push_lines(pre: Seq<Seq<char>>, post: Seq<Vec<char>>, x: Seq<char>)
    requires
        pre.len() + 1 == post.len(),
        forall|k: int| 0 <= k < pre.len() ==> pre[k] == #[trigger] post[k].deep_view(),
        post.last().deep_view() == x,
    ensures
        Seq::new(post.len(), |i: int| post[i].deep_view()) =~= pre.push(x),
{
}

pub proof fn lemma_find_newline_is(s: Seq<char>, i: int, j: int)
    requires
        0 <= i <= j <= s.len(),
        forall|m: int| i <= m < j ==> s[m] != '\n',
        j == s.len() || s[j] == '\n',
    ensures
        find_newline(s, i) == j,
    decreases j - i,
{
    if i < j {
        lemma_find_newline_is(s, i + 1, j);
    }
}

/// Checks the indented subtask-line shape on a raw line.
pub fn is_subtask_line_exec(line: &[char]) -> (r: bool)
    ensures
        r == is_subtask_line(line@),
{
    line.len() >= 4 && line[0] == ' ' && line[1] == ' ' && (line[2] == '-' || line[2] == 'x')
        && line[3] == ' '
}

/// Parses a whole file. Blank lines are skipped, subtask lines attach
/// to the task above them, and a per-line failure would be discarded
/// rather than aborting the collection.
pub fn parse_todos(content: &str) -> (r: Result<Vec<TodoItem>, String>)
    ensures
        r matches Ok(v) && v.deep_view() == spec_parse(content@),
{
    let chars = str_to_chars(content);
    let lines = split_lines(chars.as_slice());
    let ghost lsm = lines.deep_view();
    let mut items: Vec<TodoItem> = Vec::new();
    let mut i: usize = 0;
    proof {
        assert(lsm.skip(0) =~= lsm);
        assert(items.deep_view() =~= Seq::<TodoModel>::empty());
    }
    while i < lines.len()
        invariant
            0 <= i <= lines@.len(),
            lsm == lines.deep_view(),
            lsm.len() == lines@.len(),
            parse_lines_model(lsm, 1, Seq::empty()) == parse_lines_model(
                lsm.skip(i as int),
                i + 1,
                items.deep_view(),
            ),
        decreases lines@.len() - i,
    {
        let ghost pre = items.deep_view();
        let ghost tsuf = lsm.skip(i as int);
        let line = &lines[i];
        proof {
            assert(lsm[i as int] == lines@[i as int].deep_view());
            assert(tsuf[0] == lsm[i as int]);
            assert(tsuf.drop_first() =~= lsm.skip(i as int + 1));
        }
        let ghost lm = line.deep_view();
        proof {
            assert(lm =~= line@);
        }
        let tr = trim_chars(line.as_slice());
        if tr.len() == 0 {
            proof {
                assert(spec_trim(lm).len() == 0);
            }
        } else if is_subtask_line_exec(line.as_slice()) {
            if items.len() > 0 {
                let ls = chars_to_string(line);
                match parse_subtask_line(ls.as_str()) {
                    Ok(st) => {
                        let ghost stm = st@;
                        let mut last_item = items.pop().unwrap();
                        let ghost before_subs = last_item.subtasks.deep_view();
                        let ghost before_item = last_item@;
                        last_item.subtasks.push(st);
                        proof {
                            lemma_deep_view_subtasks(before_subs, last_item.subtasks@, stm);
                            assert(last_item.subtasks.deep_view() =~= before_subs.push(stm));
                        }
                        let ghost lastm = last_item@;
                        items.push(last_item);
                        proof {
                            assert(before_item == pre.last());
                            assert(lastm =~= TodoModel {
                                subtasks: pre.last().subtasks.push(stm),
                                ..pre.last()
                            });
                            lemma_deep_view_items(pre, items@, lastm);
                            assert(items.deep_view() =~= push_subtask_last(pre, stm));
                        }
                    },
                    Err(_) => {
                        proof {
                            assert(false);
                        }
                    },
                }
            }
        } else {
            let ls = chars_to_string(&tr);
            match parse_todo_line(ls.as_str(), i + 1) {
                Ok(item) => {
                    let ghost im = item@;
                    items.push(item);
                    proof {
                        crate::text::lemma_trim_props(lm);
                        assert(parse_line_model(spec_trim(lm), i + 1) == parse_line_model(
                            lm,
                            i + 1,
                        ));
                        lemma_deep_view_items_push(pre, items@, im);
                        assert(items.deep_view() =~= pre.push(im));
                    }
                },
                Err(_) => {
                    proof {
                        assert(false);
                    }
                },
            }
        }
        proof {
            let post = items.deep_view();
            assert(parse_lines_model(tsuf, i + 1, pre) == parse_lines_model(
                tsuf.drop_first(),
                i + 2,
                post,
            ));
        }
        i += 1;
    }
    proof {
        assert(lsm.skip(lsm.len() as int) =~= Seq::<Seq<char>>::empty());
    }
    Ok(items)
}

/// Appending a tag extends the tag run at its end.
pub proof fn lemma_tags_push(prefix: char, ws: Seq<Seq<char>>, w: Seq<char>)
    ensures
        tags_chars(prefix, ws.push(w)) =~= tags_chars(prefix, ws) + seq![' ', prefix] + w,
    decreases ws.len(),
{
    if ws.len() == 0 {
        assert(ws.push(w)[0] == w);
        assert(ws.push(w).drop_first() =~= Seq::<Seq<char>>::empty());
        assert(tags_chars(prefix, Seq::<Seq<char>>::empty()) == Seq::<char>::empty());
        assert(tags_chars(prefix, ws.push(w)) == seq![' ', prefix] + w + tags_chars(
            prefix,
            Seq::<Seq<char>>::empty(),
        ));
    } else {
        lemma_tags_push(prefix, ws.drop_first(), w);
        assert(ws.push(w)[0] == ws[0]);
        assert(ws.push(w).drop_first() =~= ws.drop_first().push(w));
        assert(ws.push(w).len() > 0);
        assert(tags_chars(prefix, ws.push(w)) == seq![' ', prefix] + ws[0] + tags_chars(
            prefix,
            ws.drop_first().push(w),
        ));
        assert(tags_chars(prefix, ws) == seq![' ', prefix] + ws[0] + tags_chars(
            prefix,
            ws.drop_first(),
        ));
    }
}

/// Appending a line extends the text by the line and its newline.
pub proof fn lemma_unlines_push(ls: Seq<Seq<char>>, l: Seq<char>)
    ensures
        unlines(ls.push(l)) =~= unlines(ls) + l + seq!['\n'],
    decreases ls.len(),
{
    if ls.len() == 0 {
        assert(ls.push(l)[0] == l);
        assert(ls.push(l).drop_first() =~= Seq::<Seq<char>>::empty());
        assert(unlines(Seq::<Seq<char>>::empty()) == Seq::<char>::empty());
        assert(unlines(ls.push(l)) == l + seq!['\n'] + unlines(Seq::<Seq<char>>::empty()));
    } else {
        lemma_unlines_push(ls.drop_first(), l);
        assert(ls.push(l)[0] == ls[0]);
        assert(ls.push(l).drop_first() =~= ls.drop_first().push(l));
        assert(unlines(ls.push(l)) == ls[0] + seq!['\n'] + unlines(ls.drop_first().push(l)));
        assert(unlines(ls) == ls[0] + seq!['\n'] + unlines(ls.drop_first()));
    }
}

/// Unlining distributes over concatenation of line lists.
pub proof fn lemma_unlines_concat(a: Seq<Seq<char>>, b: Seq<Seq<char>>)
    ensures
        unlines(a + b) =~= unlines(a) + unlines(b),
    decreases a.len(),
{
    if a.len() == 0 {
        assert(a + b =~= b);
    } else {
        lemma_unlines_concat(a.drop_first(), b);
        assert((a + b)[0] == a[0]);
        assert((a + b).drop_first() =~= a.drop_first() + b);
    }
}

/// Builds the single line a task serializes to.
pub fn build_item_line(item: &TodoItem) -> (r: Vec<char>)
    ensures
        r@ == ser_item_line(item@),
{
    let mut out: Vec<char> = Vec::new();
    if item.completed {
        out.push('x');
        out.push(' ');
    }
    let ghost p1 = marker_chars(item@.completed);
    proof {
        assert(out@ =~= p1);
    }
    if let Some(c) = item.priority {
        out.push('(');
        out.push(c);
        out.push(')');
        out.push(' ');
    }
    let ghost p2 = p1 + priority_chars(item@.priority);
    proof {
        assert(out@ =~= p2);
    }
    match &item.created_date {
        Some(d) => {
            crate::text::push_str_chars(&mut out, d.as_str());
            out.push(' ');
        },
        None => {},
    }
    let ghost p3 = p2 + created_chars(item@.created);
    proof {
        assert(out@ =~= p3);
    }
    crate::text::push_str_chars(&mut out, item.title.as_str());
    let ghost p4 = p3 + item@.title;
    proof {
        assert(out@ =~= p4);
    }
    let ghost pdv = item.projects.deep_view();
    let mut j: usize = 0;
    proof {
        assert(pdv.take(0) =~= Seq::<Seq<char>>::empty());
    }
    while j < item.projects.len()
        invariant
            0 <= j <= item.projects@.len(),
            pdv == item.projects.deep_view(),
            pdv.len() == item.projects@.len(),
            out@ =~= p4 + tags_chars('+', pdv.take(j as int)),
        decreases item.projects@.len() - j,
    {
        out.push(' ');
        out.push('+');
        let p = &item.projects[j];
        crate::text::push_str_chars(&mut out, p.as_str());
        proof {
            assert(p@ == pdv[j as int]);
            lemma_tags_push('+', pdv.take(j as int), pdv[j as int]);
            assert(pdv.take(j as int).push(pdv[j as int]) =~= pdv.take(j as int + 1));
        }
        j += 1;
    }
    let ghost p5 = p4 + tags_chars('+', item@.projects);
    proof {
        assert(pdv.take(pdv.len() as int) =~= pdv);
        assert(out@ =~= p5);
    }
    let ghost cdv = item.contexts.deep_view();
    let mut j2: usize = 0;
    proof {
        assert(cdv.take(0) =~= Seq::<Seq<char>>::empty());
    }
    while j2 < item.contexts.len()
        invariant
            0 <= j2 <= item.contexts@.len(),
            cdv == item.contexts.deep_view(),
            cdv.len() == item.contexts@.len(),
            out@ =~= p5 + tags_chars('@', cdv.take(j2 as int)),
        decreases item.contexts@.len() - j2,
    {
        out.push(' ');
        out.push('@');
        let c = &item.contexts[j2];
        crate::text::push_str_chars(&mut out, c.as_str());
        proof {
            assert(c@ == cdv[j2 as int]);
            lemma_tags_push('@', cdv.take(j2 as int), cdv[j2 as int]);
            assert(cdv.take(j2 as int).push(cdv[j2 as int]) =~= cdv.take(j2 as int + 1));
        }
        j2 += 1;
    }
    let ghost p6 = p5 + tags_chars('@', item@.contexts);
    proof {
        assert(cdv.take(cdv.len() as int) =~= cdv);
        assert(out@ =~= p6);
    }
    match &item.due_date {
        Some(d) => {
            out.push(' ');
            out.push('d');
            out.push('u');
            out.push('e');
            out.push(':');
            crate::text::push_str_chars(&mut out, d.as_str());
        },
        None => {},
    }
    proof {
        assert(out@ =~= p6 + due_chars(item@.due));
        assert(out@ =~= ser_item_line(item@));
    }
    out
}

/// Builds the indented line a subtask serializes to.
pub fn build_subtask_line(st: &Subtask) -> (r: Vec<char>)
    ensures
        r@ == ser_subtask_line(st@),
{
    let mut out: Vec<char> = Vec::new();
    out.push(' ');
    out.push(' ');
    if st.completed {
        out.push('x');
        out.push(' ');
    }
    out.push('-');
    out.push(' ');
    crate::text::push_str_chars(&mut out, st.title.as_str());
    proof {
        assert(out@ =~= ser_subtask_line(st@));
    }
    out
}

/// Serializes a collection back to its text: one line per task in the
/// fixed token order, each followed by its subtasks' indented lines.
pub fn serialize_todos(todos: &[TodoItem]) -> (r: String)
    ensures
        r@ == spec_serialize(todos.deep_view()),
{
    let ghost m = todos.deep_view();
    let mut out: Vec<char> = Vec::new();
    let mut i: usize = 0;
    proof {
        assert(m.skip(0) =~= m);
    }
    while i < todos.len()
        invariant
            0 <= i <= todos@.len(),
            m == todos.deep_view(),
            m.len() == todos@.len(),
            spec_serialize(m) =~= out@ + unlines(all_lines(m.skip(i as int))),
        decreases todos@.len() - i,
    {
        let t = &todos[i];
        let ghost tm = m[i as int];
        proof {
            assert(tm == todos@[i as int].deep_view());
        }
        let ghost pre = out@;
        let line = build_item_line(t);
        crate::text::push_chars(&mut out, line.as_slice());
        out.push('\n');
        let ghost subl = tm.subtasks.map_values(|s: SubtaskModel| ser_subtask_line(s));
        let ghost base = pre + ser_item_line(tm) + seq!['\n'];
        proof {
            assert(out@ =~= base);
            assert(subl.take(0) =~= Seq::<Seq<char>>::empty());
        }
        let mut j: usize = 0;
        while j < t.subtasks.len()
            invariant
                0 <= j <= t.subtasks@.len(),
                subl.len() == t.subtasks@.len(),
                subl == tm.subtasks.map_values(|s: SubtaskModel| ser_subtask_line(s)),
                tm.subtasks == t.subtasks.deep_view(),
                out@ =~= base + unlines(subl.take(j as int)),
            decreases t.subtasks@.len() - j,
        {
            let sline = build_subtask_line(&t.subtasks[j]);
            crate::text::push_chars(&mut out, sline.as_slice());
            out.push('\n');
            proof {
                assert(t.subtasks@[j as int]@ == tm.subtasks[j as int]);
                assert(sline@ == subl[j as int]);
                lemma_unlines_push(subl.take(j as int), subl[j as int]);
                assert(subl.take(j as int).push(subl[j as int]) =~= subl.take(j as int + 1));
            }
            j += 1;
        }
        proof {
            assert(subl.take(subl.len() as int) =~= subl);
            assert(out@ =~= base + unlines(subl));
            let suff = m.skip(i as int);
            assert(suff[0] == tm);
            assert(suff.drop_first() =~= m.skip(i as int + 1));
            assert(all_lines(suff) =~= item_lines(tm) + all_lines(m.skip(i as int + 1)));
            lemma_unlines_concat(item_lines(tm), all_lines(m.skip(i as int + 1)));
            assert(item_lines(tm)[0] == ser_item_line(tm));
            assert(item_lines(tm).drop_first() =~= subl);
            assert(unlines(item_lines(tm)) =~= ser_item_line(tm) + seq!['\n'] + unlines(subl));
            assert(spec_serialize(m) =~= out@ + unlines(all_lines(m.skip(i as int + 1))));
        }
        i += 1;
    }
    proof {
        assert(m.skip(m.len() as int) =~= Seq::<TodoModel>::empty());
        assert(out@ =~= spec_serialize(m));
    }
    chars_to_string(&out)
}

/// The position of the first task with the given id, usable to update
/// it in place.
pub fn find_todo_mut(todos: &Vec<TodoItem>, id: usize) -> (r: Option<usize>)
    ensures
        match r {
            Some(i) => i < todos@.len() && todos@[i as int].id == id && forall|j: int|
                0 <= j < i ==> todos@[j].id != id,
            None => forall|j: int| 0 <= j < todos@.len() ==> todos@[j].id != id,
        },
{
    let mut i: usize = 0;
    while i < todos.len()
        invariant
            0 <= i <= todos@.len(),
            forall|j: int| 0 <= j < i ==> todos@[j].id != id,
        decreases todos@.len() - i,
    {
        if todos[i].id == id {
            return Some(i);
        }
        i += 1;
    }
    None
}

/// The collection without the tasks of the given id.
pub open spec fn spec_remove_todo(items: Seq<TodoModel>, id: int) -> Seq<TodoModel>
    decreases items.len(),
{
    if items.len() == 0 {
        Seq::empty()
    } else if items[0].id == id {
        spec_remove_todo(items.drop_first(), id)
    } else {
        seq![items[0]] + spec_remove_todo(items.drop_first(), id)
    }
}

/// Drops every task with the given id, keeping the rest in order.
pub fn remove_todo(todos: Vec<TodoItem>, id: usize) -> (r: Vec<TodoItem>)
    ensures
        r.deep_view() == spec_remove_todo(todos.deep_view(), id as int),
{
    let ghost m = todos.deep_view();
    let mut src = todos;
    let mut out: Vec<TodoItem> = Vec::new();
    proof {
        assert(out.deep_view() =~= Seq::<TodoModel>::empty());
        assert(spec_remove_todo(Seq::<TodoModel>::empty(), id as int) == Seq::<
            TodoModel,
        >::empty());
    }
    while src.len() > 0
        invariant
            spec_remove_todo(m, id as int) =~= out.deep_view() + spec_remove_todo(
                src.deep_view(),
                id as int,
            ),
        decreases src@.len(),
    {
        let ghost sdv = src.deep_view();
        let t = src.remove(0);
        let ghost tm = t@;
        proof {
            assert(sdv[0] == tm);
            lemma_deep_view_items_remove0(sdv, src@);
            assert(src.deep_view() =~= sdv.drop_first());
        }
        if t.id != id {
            let ghost pre = out.deep_view();
            out.push(t);
            proof {
                lemma_deep_view_items_push(pre, out@, tm);
                assert(out.deep_view() =~= pre.push(tm));
                assert(pre.push(tm) + spec_remove_todo(sdv.drop_first(), id as int) =~= pre + (
                seq![tm] + spec_remove_todo(sdv.drop_first(), id as int)));
            }
        }
    }
    proof {
        assert(src.deep_view() =~= Seq::<TodoModel>::empty());
        assert(spec_remove_todo(m, id as int) =~= out.deep_view());
    }
    out
}

proof fn lemma_deep_view_items_remove0(pre: Seq<TodoModel>, post: Seq<TodoItem>)
    requires
        pre.len() == post.len() + 1,
        forall|k: int| 0 <= k < post.len() ==> #[trigger] post[k].deep_view() == pre[k + 1],
    ensures
        Seq::new(post.len(), |i: int| post[i].deep_view()) =~= pre.drop_first(),
{
}

/// The position of the given subtask, usable to update it in place.
pub fn find_subtask_mut(todo: &TodoItem, index: usize) -> (r: Option<usize>)
    ensures
        match r {
            Some(i) => i == index && index < todo.subtasks@.len(),
            None => index >= todo.subtasks@.len(),
        },
{
    if index < todo.subtasks.len() {
        Some(index)
    } else {
        None
    }
}

proof fn lemma_deep_view_subtasks(pre: Seq<SubtaskModel>, post: Seq<Subtask>, x: SubtaskModel)
    requires
        pre.len() + 1 == post.len(),
        forall|k: int| 0 <= k < pre.len() ==> pre[k] == #[trigger] post[k].deep_view(),
        post.last().deep_view() == x,
    ensures
        Seq::new(post.len(), |i: int| post[i].deep_view()) =~= pre.push(x),
{
}

proof fn lemma_deep_view_items_push(pre: Seq<TodoModel>, post: Seq<TodoItem>, x: TodoModel)
    requires
        pre.len() + 1 == post.len(),
        forall|k: int| 0 <= k < pre.len() ==> pre[k] == #[trigger] post[k].deep_view(),
        post.last().deep_view() == x,
    ensures
        Seq::new(post.len(), |i: int| post[i].deep_view()) =~= pre.push(x),
{
}

proof fn lemma_deep_view_items(pre: Seq<TodoModel>, post: Seq<TodoItem>, x: TodoModel)
    requires
        pre.len() > 0,
        pre.len() == post.len(),
        forall|k: int| 0 <= k < pre.len() - 1 ==> pre[k] == #[trigger] post[k].deep_view(),
        post.last().deep_view() == x,
    ensures
        Seq::new(post.len(), |i: int| post[i].deep_view()) =~= pre.update(pre.len() - 1, x),
{
}

} // verus!
