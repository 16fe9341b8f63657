//! The codec's round-trip laws.
//!
//! For any collection built from valid parts, parsing the serialized
//! text yields the same tasks again, with ids renumbered by position;
//! and serializing once more reproduces the text byte for byte. The
//! validity predicates below state what a legally constructed task is:
//! essentially, titles and tags that do not collide with the format's
//! own markers.

use vstd::prelude::*;

use crate::dates::is_date10;
use crate::text::is_digit;
use crate::text::good_word;
use crate::text::is_space;
use crate::text::is_upper;
use crate::text::lemma_join_concat;
use crate::text::lemma_join_ends;
use crate::text::lemma_join_push;
use crate::text::lemma_trim_fixed;
use crate::text::lemma_trim_id;
use crate::text::lemma_words_good;
use crate::text::lemma_words_join;
use crate::text::spec_join;
use crate::text::spec_trim;
use crate::text::spec_words;
use crate::text::trim_start_rec;
use crate::todos::LineAcc;
use crate::todos::SubtaskModel;
use crate::todos::TodoModel;
use crate::todos::all_lines;
use crate::todos::created_chars;
use crate::todos::date_at;
use crate::todos::due_chars;
use crate::todos::empty_acc;
use crate::todos::find_date_from;
use crate::todos::find_newline;
use crate::todos::fold_words;
use crate::todos::has_due_prefix;
use crate::todos::is_subtask_line;
use crate::todos::item_lines;
use crate::todos::marker_chars;
use crate::todos::parse_line_model;
use crate::todos::parse_lines_model;
use crate::todos::parse_subtask_model;
use crate::todos::pri_pattern;
use crate::todos::priority_chars;
use crate::todos::push_subtask_last;
use crate::todos::ser_item_line;
use crate::todos::ser_subtask_line;
use crate::todos::spec_lines;
use crate::todos::spec_parse;
use crate::todos::spec_serialize;
use crate::todos::step_word;
use crate::todos::tags_chars;
use crate::todos::unlines;

verus! {

/// A tag value: non-empty and free of whitespace.
pub open spec fn good_tag_word(w: Seq<char>) -> bool {
    w.len() > 0 && forall|i: int| 0 <= i < w.len() ==> !is_space(w[i])
}

/// No ISO date substring occurs in the word.
pub open spec fn date_free(w: Seq<char>) -> bool {
    find_date_from(w, 0) is None
}

/// A word that parsing would leave in the title: no `due:` prefix, no
/// tag sigil, and, while no creation date has been seen, no date
/// substring that extraction would steal.
pub open spec fn good_title_word(w: Seq<char>, created_some: bool) -> bool {
    &&& w.len() > 0
    &&& !has_due_prefix(w)
    &&& w[0] != '+'
    &&& w[0] != '@'
    &&& (created_some || date_free(w))
}

/// A legally constructed subtask: a non-empty title that is its own
/// trim and holds no line break.
pub open spec fn valid_subtask(s: SubtaskModel) -> bool {
    &&& s.title.len() > 0
    &&& spec_trim(s.title) == s.title
    &&& forall|i: int| 0 <= i < s.title.len() ==> s.title[i] != '\n'
}

/// A legally constructed task: a title in canonical spacing whose
/// words carry no marker of their own, a priority that is an upper
/// case letter, a creation date in ISO shape, whitespace-free tags,
/// and valid subtasks. The two clauses on the title's opening guard
/// the completion marker and the priority token from being re-read.
pub open spec fn valid_item(t: TodoModel) -> bool {
    &&& t.title.len() > 0
    &&& t.title == spec_join(spec_words(t.title))
    &&& forall|i: int|
        0 <= i < spec_words(t.title).len() ==> good_title_word(
            #[trigger] spec_words(t.title)[i],
            t.created is Some,
        )
    &&& (t.completed || t.priority is Some || t.created is Some || t.title[0] != 'x')
    &&& (t.priority is None && t.created is None ==> !pri_pattern(t.title))
    &&& (t.priority matches Some(c) ==> is_upper(c))
    &&& (t.created matches Some(d) ==> is_date10(d))
    &&& (t.due matches Some(d) ==> good_tag_word(d))
    &&& forall|i: int| 0 <= i < t.projects.len() ==> good_tag_word(#[trigger] t.projects[i])
    &&& forall|i: int| 0 <= i < t.contexts.len() ==> good_tag_word(#[trigger] t.contexts[i])
    &&& forall|i: int| 0 <= i < t.subtasks.len() ==> valid_subtask(#[trigger] t.subtasks[i])
}

/// A task of the subtask-free, tag-based schema variant.
pub open spec fn tag_free(t: TodoModel) -> bool {
    t.priority is None && t.created is None && t.projects.len() == 0 && t.contexts.len() == 0
}

/// A legally constructed collection: valid tasks, all of one schema
/// variant — subtask-nested or tag-based, never mixed.
pub open spec fn valid_items(items: Seq<TodoModel>) -> bool {
    &&& forall|i: int| 0 <= i < items.len() ==> valid_item(#[trigger] items[i])
    &&& ((forall|i: int| 0 <= i < items.len() ==> (#[trigger] items[i]).subtasks.len() == 0)
        || (forall|i: int| 0 <= i < items.len() ==> tag_free(#[trigger] items[i])))
}

/// The creation-date word of a serialized line, if any.
pub open spec fn created_words(c: Option<Seq<char>>) -> Seq<Seq<char>> {
    match c {
        Some(d) => seq![d],
        None => Seq::empty(),
    }
}

/// The `due:` word of a serialized line, if any.
pub open spec fn due_words(d: Option<Seq<char>>) -> Seq<Seq<char>> {
    match d {
        Some(v) => seq![seq!['d', 'u', 'e', ':'] + v],
        None => Seq::empty(),
    }
}

pub open spec fn plus_word(p: Seq<char>) -> Seq<char> {
    seq!['+'] + p
}

pub open spec fn at_word(c: Seq<char>) -> Seq<char> {
    seq!['@'] + c
}

/// The words of a serialized task line after marker and priority:
/// creation date, title words, tag words, due word, in order.
pub open spec fn item_words(t: TodoModel) -> Seq<Seq<char>> {
    created_words(t.created) + spec_words(t.title) + t.projects.map_values(|p: Seq<char>|
        plus_word(p)) + t.contexts.map_values(|c: Seq<char>| at_word(c)) + due_words(t.due)
}

/// The remainder of a serialized task line after marker and priority.
pub open spec fn item_remainder(t: TodoModel) -> Seq<char> {
    created_chars(t.created) + t.title + tags_chars('+', t.projects) + tags_chars('@', t.contexts)
        + due_chars(t.due)
}

/// Appending prefixed tag words to a join appends the serialized tag
/// run.
proof fn lemma_join_append_tags(a: Seq<Seq<char>>, prefix: char, ws: Seq<Seq<char>>)
    requires
        a.len() > 0,
    ensures
        spec_join(a + ws.map_values(|w: Seq<char>| seq![prefix] + w)) =~= spec_join(a)
            + tags_chars(prefix, ws),
    decreases ws.len(),
{
    let m = ws.map_values(|w: Seq<char>| seq![prefix] + w);
    if ws.len() == 0 {
        assert(a + m =~= a);
        assert(tags_chars(prefix, ws) == Seq::<char>::empty());
    } else {
        let a2 = a.push(seq![prefix] + ws[0]);
        assert(a + m =~= a2 + ws.drop_first().map_values(|w: Seq<char>| seq![prefix] + w));
        lemma_join_append_tags(a2, prefix, ws.drop_first());
        lemma_join_push(a, seq![prefix] + ws[0]);
        assert(tags_chars(prefix, ws) == seq![' ', prefix] + ws[0] + tags_chars(
            prefix,
            ws.drop_first(),
        ));
        assert(spec_join(a2) =~= spec_join(a) + seq![' '] + (seq![prefix] + ws[0]));
    }
}

/// The remainder of a serialized line is the join of its words.
proof fn lemma_item_remainder_join(t: TodoModel)
    requires
        valid_item(t),
    ensures
        item_remainder(t) =~= spec_join(item_words(t)),
        item_words(t).len() > 0,
        forall|i: int| 0 <= i < item_words(t).len() ==> good_word(#[trigger] item_words(t)[i]),
{
    let tws = spec_words(t.title);
    lemma_words_good(t.title);
    assert(tws.len() > 0) by {
        if tws.len() == 0 {
            assert(spec_join(tws) == Seq::<char>::empty());
        }
    }
    // Step 1: title + project tags.
    let b1 = tws + t.projects.map_values(|p: Seq<char>| plus_word(p));
    lemma_join_append_tags(tws, '+', t.projects);
    assert(t.projects.map_values(|p: Seq<char>| plus_word(p)) =~= t.projects.map_values(
        |w: Seq<char>| seq!['+'] + w,
    ));
    assert(spec_join(b1) =~= t.title + tags_chars('+', t.projects));
    // Step 2: context tags.
    let b2 = b1 + t.contexts.map_values(|c: Seq<char>| at_word(c));
    lemma_join_append_tags(b1, '@', t.contexts);
    assert(t.contexts.map_values(|c: Seq<char>| at_word(c)) =~= t.contexts.map_values(
        |w: Seq<char>| seq!['@'] + w,
    ));
    assert(spec_join(b2) =~= t.title + tags_chars('+', t.projects) + tags_chars('@', t.contexts));
    // Step 3: due word.
    let b3 = b2 + due_words(t.due);
    match t.due {
        Some(v) => {
            lemma_join_push(b2, seq!['d', 'u', 'e', ':'] + v);
            assert(b2.push(seq!['d', 'u', 'e', ':'] + v) =~= b3);
            assert(due_chars(t.due) =~= seq![' ', 'd', 'u', 'e', ':'] + v);
            assert(spec_join(b3) =~= spec_join(b2) + due_chars(t.due));
        },
        None => {
            assert(b3 =~= b2);
            assert(due_chars(t.due) == Seq::<char>::empty());
            assert(spec_join(b3) =~= spec_join(b2) + due_chars(t.due));
        },
    }
    // Step 4: creation date in front.
    let b4 = created_words(t.created) + b3;
    match t.created {
        Some(d) => {
            lemma_join_concat(seq![d], b3);
            assert(seq![d] + b3 =~= b4);
            assert(spec_join(seq![d]) == d);
            assert(created_chars(t.created) =~= d + seq![' ']);
            assert(spec_join(b4) =~= created_chars(t.created) + spec_join(b3));
        },
        None => {
            assert(b4 =~= b3);
            assert(created_chars(t.created) == Seq::<char>::empty());
            assert(spec_join(b4) =~= created_chars(t.created) + spec_join(b3));
        },
    }
    assert(b4 =~= item_words(t));
    assert(item_remainder(t) =~= spec_join(item_words(t)));
    // Goodness of every word.
    assert forall|i: int| 0 <= i < item_words(t).len() implies good_word(
        #[trigger] item_words(t)[i],
    ) by {
        lemma_item_word_good(t, i);
    }
}

/// Each word of a serialized line is non-empty and whitespace-free.
proof fn lemma_item_word_good(t: TodoModel, i: int)
    requires
        valid_item(t),
        0 <= i < item_words(t).len(),
    ensures
        good_word(item_words(t)[i]),
{
    let cn = created_words(t.created).len();
    let tws = spec_words(t.title);
    lemma_words_good(t.title);
    let pn = t.projects.len() as int;
    let xn = t.contexts.len() as int;
    let w = item_words(t)[i];
    if i < cn {
        let d = t.created->0;
        assert(w == d);
        assert forall|j: int| 0 <= j < w.len() implies !is_space(w[j]) by {
            assert(is_digit(d[j]) || d[j] == '-');
        }
    } else if i < cn + tws.len() {
        assert(w == tws[i - cn]);
        assert(good_word(tws[i - cn]));
    } else if i < cn + tws.len() + pn {
        let p = t.projects[i - cn - tws.len()];
        assert(w == plus_word(p));
        assert(good_tag_word(p));
        assert forall|j: int| 0 <= j < w.len() implies !is_space(w[j]) by {
            if j > 0 {
                assert(w[j] == p[j - 1]);
            }
        }
    } else if i < cn + tws.len() + pn + xn {
        let c = t.contexts[i - cn - tws.len() - pn];
        assert(w == at_word(c));
        assert(good_tag_word(c));
        assert forall|j: int| 0 <= j < w.len() implies !is_space(w[j]) by {
            if j > 0 {
                assert(w[j] == c[j - 1]);
            }
        }
    } else {
        let v = t.due->0;
        assert(w == seq!['d', 'u', 'e', ':'] + v);
        assert(good_tag_word(v));
        assert forall|j: int| 0 <= j < w.len() implies !is_space(w[j]) by {
            if j >= 4 {
                assert(w[j] == v[j - 4]);
            }
        }
    }
}

// ---------------------------------------------------------------------
// How token classification walks the serialized word list.
// ---------------------------------------------------------------------
/// A leading ISO-date word becomes the creation date.
proof fn lemma_fold_created_word(acc: LineAcc, d: Seq<char>, rest: Seq<Seq<char>>)
    requires
        acc.created is None,
        is_date10(d),
    ensures
        fold_words(acc, seq![d] + rest) == fold_words(
            LineAcc { created: Some(d), ..acc },
            rest,
        ),
{
    let w = (seq![d] + rest)[0];
    assert(w == d);
    assert(!has_due_prefix(d)) by {
        assert(is_digit(d[0]));
    }
    assert(d[0] != '+' && d[0] != '@') by {
        assert(is_digit(d[0]));
    }
    assert(d.subrange(0, 10) =~= d);
    assert(date_at(d, 0));
    assert(find_date_from(d, 0) == Some(0int));
    let i = find_date_from(d, 0)->0;
    assert(i == 0);
    assert(d.take(0) + d.skip(10) =~= Seq::<char>::empty());
    assert(step_word(acc, d) =~= LineAcc { created: Some(d), ..acc });
    assert((seq![d] + rest).drop_first() =~= rest);
}

/// Title words accumulate in order and touch nothing else.
proof fn lemma_fold_title_words(acc: LineAcc, tws: Seq<Seq<char>>, rest: Seq<Seq<char>>)
    requires
        forall|i: int|
            0 <= i < tws.len() ==> good_word(#[trigger] tws[i]) && good_title_word(
                tws[i],
                acc.created is Some,
            ),
    ensures
        fold_words(acc, tws + rest) == fold_words(
            LineAcc { title_words: acc.title_words + tws, ..acc },
            rest,
        ),
    decreases tws.len(),
{
    if tws.len() == 0 {
        assert(tws + rest =~= rest);
        assert(acc.title_words + tws =~= acc.title_words);
        assert(LineAcc { title_words: acc.title_words + tws, ..acc } =~= acc);
    } else {
        let w = tws[0];
        assert((tws + rest)[0] == w);
        assert(good_title_word(w, acc.created is Some));
        let acc2 = LineAcc { title_words: acc.title_words.push(w), ..acc };
        assert(step_word(acc, w) =~= acc2) by {
            if acc.created is None {
                assert(date_free(w));
            }
        }
        assert((tws + rest).drop_first() =~= tws.drop_first() + rest);
        lemma_fold_title_words(acc2, tws.drop_first(), rest);
        assert(acc2.title_words + tws.drop_first() =~= acc.title_words + tws);
        assert(LineAcc { title_words: acc2.title_words + tws.drop_first(), ..acc2 } =~= LineAcc {
            title_words: acc.title_words + tws,
            ..acc
        });
    }
}

/// `+` words accumulate as project tags, in order.
proof fn lemma_fold_projects(acc: LineAcc, ps: Seq<Seq<char>>, rest: Seq<Seq<char>>)
    requires
        forall|i: int| 0 <= i < ps.len() ==> good_tag_word(#[trigger] ps[i]),
    ensures
        fold_words(acc, ps.map_values(|p: Seq<char>| plus_word(p)) + rest) == fold_words(
            LineAcc { projects: acc.projects + ps, ..acc },
            rest,
        ),
    decreases ps.len(),
{
    let m = ps.map_values(|p: Seq<char>| plus_word(p));
    if ps.len() == 0 {
        assert(m + rest =~= rest);
        assert(LineAcc { projects: acc.projects + ps, ..acc } =~= acc);
    } else {
        let w = plus_word(ps[0]);
        assert((m + rest)[0] == w);
        assert(w[0] == '+');
        assert(!has_due_prefix(w));
        assert(w.drop_first() =~= ps[0]);
        let acc2 = LineAcc { projects: acc.projects.push(ps[0]), ..acc };
        assert(step_word(acc, w) =~= acc2);
        assert((m + rest).drop_first() =~= ps.drop_first().map_values(
            |p: Seq<char>| plus_word(p),
        ) + rest);
        lemma_fold_projects(acc2, ps.drop_first(), rest);
        assert(acc2.projects + ps.drop_first() =~= acc.projects + ps);
        assert(LineAcc { projects: acc2.projects + ps.drop_first(), ..acc2 } =~= LineAcc {
            projects: acc.projects + ps,
            ..acc
        });
    }
}

/// `@` words accumulate as context tags, in order.
proof fn lemma_fold_contexts(acc: LineAcc, cs: Seq<Seq<char>>, rest: Seq<Seq<char>>)
    requires
        forall|i: int| 0 <= i < cs.len() ==> good_tag_word(#[trigger] cs[i]),
    ensures
        fold_words(acc, cs.map_values(|c: Seq<char>| at_word(c)) + rest) == fold_words(
            LineAcc { contexts: acc.contexts + cs, ..acc },
            rest,
        ),
    decreases cs.len(),
{
    let m = cs.map_values(|c: Seq<char>| at_word(c));
    if cs.len() == 0 {
        assert(m + rest =~= rest);
        assert(LineAcc { contexts: acc.contexts + cs, ..acc } =~= acc);
    } else {
        let w = at_word(cs[0]);
        assert((m + rest)[0] == w);
        assert(w[0] == '@');
        assert(w[0] != '+');
        assert(!has_due_prefix(w));
        assert(w.drop_first() =~= cs[0]);
        let acc2 = LineAcc { contexts: acc.contexts.push(cs[0]), ..acc };
        assert(step_word(acc, w) =~= acc2);
        assert((m + rest).drop_first() =~= cs.drop_first().map_values(|c: Seq<char>| at_word(c))
            + rest);
        lemma_fold_contexts(acc2, cs.drop_first(), rest);
        assert(acc2.contexts + cs.drop_first() =~= acc.contexts + cs);
        assert(LineAcc { contexts: acc2.contexts + cs.drop_first(), ..acc2 } =~= LineAcc {
            contexts: acc.contexts + cs,
            ..acc
        });
    }
}

/// A final `due:` word becomes the due date.
proof fn lemma_fold_due_word(acc: LineAcc, v: Seq<char>)
    requires
        acc.due is None,
    ensures
        fold_words(acc, seq![seq!['d', 'u', 'e', ':'] + v]) == (LineAcc { due: Some(v), ..acc }),
{
    let w = seq!['d', 'u', 'e', ':'] + v;
    assert(w[0] == 'd' && w[1] == 'u' && w[2] == 'e' && w[3] == ':');
    assert(has_due_prefix(w));
    assert(w.skip(4) =~= v);
    assert(seq![w][0] == w);
    assert(step_word(acc, w) =~= LineAcc { due: Some(v), ..acc });
    assert(seq![w].drop_first() =~= Seq::<Seq<char>>::empty());
    assert(fold_words(step_word(acc, w), Seq::<Seq<char>>::empty()) == step_word(acc, w));
    assert(fold_words(acc, seq![w]) == fold_words(step_word(acc, w), seq![w].drop_first()));
}

/// Classifying the serialized word list recovers the task's fields.
proof fn lemma_fold_item_words(t: TodoModel)
    requires
        valid_item(t),
    ensures
        fold_words(empty_acc(), item_words(t)) == (LineAcc {
            due: t.due,
            created: t.created,
            projects: t.projects,
            contexts: t.contexts,
            title_words: spec_words(t.title),
        }),
{
    let tws = spec_words(t.title);
    let pws = t.projects.map_values(|p: Seq<char>| plus_word(p));
    let xws = t.contexts.map_values(|c: Seq<char>| at_word(c));
    let dws = due_words(t.due);
    lemma_words_good(t.title);
    let rest1 = tws + pws + xws + dws;
    let acc1 = match t.created {
        Some(d) => LineAcc { created: Some(d), ..empty_acc() },
        None => empty_acc(),
    };
    match t.created {
        Some(d) => {
            assert(item_words(t) =~= seq![d] + rest1);
            lemma_fold_created_word(empty_acc(), d, rest1);
        },
        None => {
            assert(item_words(t) =~= rest1);
        },
    }
    assert(fold_words(empty_acc(), item_words(t)) == fold_words(acc1, rest1));
    assert(acc1.created is Some <==> t.created is Some);
    let rest2 = pws + xws + dws;
    assert(rest1 =~= tws + rest2);
    lemma_fold_title_words(acc1, tws, rest2);
    let acc2 = LineAcc { title_words: acc1.title_words + tws, ..acc1 };
    assert(acc2.title_words =~= tws);
    let rest3 = xws + dws;
    assert(rest2 =~= pws + rest3);
    lemma_fold_projects(acc2, t.projects, rest3);
    let acc3 = LineAcc { projects: acc2.projects + t.projects, ..acc2 };
    assert(acc3.projects =~= t.projects);
    lemma_fold_contexts(acc3, t.contexts, dws);
    let acc4 = LineAcc { contexts: acc3.contexts + t.contexts, ..acc3 };
    assert(acc4.contexts =~= t.contexts);
    match t.due {
        Some(v) => {
            assert(dws =~= seq![seq!['d', 'u', 'e', ':'] + v]);
            lemma_fold_due_word(acc4, v);
            assert(fold_words(acc4, dws) == LineAcc { due: Some(v), ..acc4 });
        },
        None => {
            assert(dws =~= Seq::<Seq<char>>::empty());
            assert(fold_words(acc4, dws) == acc4);
        },
    }
    assert(fold_words(empty_acc(), item_words(t)) =~= LineAcc {
        due: t.due,
        created: t.created,
        projects: t.projects,
        contexts: t.contexts,
        title_words: tws,
    });
}

/// Parsing the line a valid task serializes to yields the task back,
/// with the given line number as id and no subtasks yet.
#[verifier::rlimit(100)]
proof fn lemma_parse_item_line(t: TodoModel, ln: int)
    requires
        valid_item(t),
    ensures
        parse_line_model(ser_item_line(t), ln) == (TodoModel {
            id: ln,
            subtasks: Seq::empty(),
            ..t
        }),
        spec_trim(ser_item_line(t)) == ser_item_line(t),
        ser_item_line(t).len() > 0,
        !is_subtask_line(ser_item_line(t)),
{
    let line = ser_item_line(t);
    let mk = marker_chars(t.completed);
    let pc = priority_chars(t.priority);
    let rem = item_remainder(t);
    lemma_item_remainder_join(t);
    let iws = item_words(t);
    lemma_join_ends(iws);
    assert(line =~= mk + pc + rem);
    assert(rem.len() > 0);
    assert(line.len() > 0);
    assert(line.last() == rem.last());
    assert(!is_space(rem[0]) && !is_space(rem.last()));
    // The words of the title, needed when marker and priority are absent.
    let tws = spec_words(t.title);
    lemma_words_good(t.title);
    assert(tws.len() > 0) by {
        if tws.len() == 0 {
            assert(spec_join(tws) == Seq::<char>::empty());
        }
    }
    lemma_join_ends(tws);
    if t.created is None {
        assert(iws[0] == tws[0]);
        assert(rem[0] == tws[0][0]);
        assert(t.title[0] == tws[0][0]);
    }
    // The line survives trimming unchanged.
    if t.completed {
        assert(line[0] == 'x');
    } else if t.priority is Some {
        assert(line[0] == '(');
    } else {
        assert(line[0] == rem[0]);
    }
    assert(!is_space(line[0]));
    lemma_trim_id(line);
    assert(spec_trim(line) == line);
    assert(line[0] != ' ');
    assert(!is_subtask_line(line));
    // The completion marker is read back exactly.
    if !t.completed {
        match t.priority {
            Some(c) => {
                assert(line[0] == '(');
            },
            None => {
                match t.created {
                    Some(d) => {
                        assert(iws[0] == d);
                        assert(rem[0] == d[0]);
                        assert(is_digit(d[0]));
                        assert(line[0] != 'x');
                    },
                    None => {
                        assert(line[0] == t.title[0]);
                        assert(line[0] != 'x');
                    },
                }
            },
        }
    }
    assert((line.len() > 0 && line[0] == 'x') == t.completed);
    // After the marker, the rest of the line stands unchanged.
    if t.completed {
        assert(line.drop_first() =~= seq![' '] + (pc + rem));
        assert((seq![' '] + (pc + rem)).drop_first() =~= pc + rem);
        match t.priority {
            Some(c) => {
                assert((pc + rem)[0] == '(');
            },
            None => {
                assert(pc + rem =~= rem);
            },
        }
        assert(!is_space((pc + rem)[0]));
        assert(trim_start_rec(seq![' '] + (pc + rem)) == trim_start_rec(pc + rem));
        assert(trim_start_rec(pc + rem) == pc + rem);
    }
    let r0 = if t.completed {
        trim_start_rec(line.drop_first())
    } else {
        line
    };
    assert(r0 =~= pc + rem);
    // The priority token is read back exactly.
    match t.priority {
        Some(c) => {
            assert(r0[0] == '(' && r0[1] == c && r0[2] == ')');
            assert(is_upper(c));
            assert(pri_pattern(r0));
            assert(r0.skip(3) =~= seq![' '] + rem);
            assert((seq![' '] + rem).drop_first() =~= rem);
            assert(is_space((seq![' '] + rem)[0]));
            assert(trim_start_rec(seq![' '] + rem) == trim_start_rec(rem));
            assert(trim_start_rec(rem) == rem);
        },
        None => {
            assert(r0 =~= rem);
            match t.created {
                Some(d) => {
                    assert(iws[0] == d);
                    assert(rem[0] == d[0]);
                    assert(is_digit(d[0]));
                    assert(!pri_pattern(r0));
                },
                None => {
                    assert(!pri_pattern(r0)) by {
                        lemma_no_pri_pattern_in_rem(t);
                    }
                },
            }
        },
    }
    // The remaining words are the serialized word list.
    let r1 = if pri_pattern(r0) {
        trim_start_rec(r0.skip(3))
    } else {
        r0
    };
    assert(r1 =~= rem);
    lemma_words_join(iws);
    assert(spec_words(r1) == iws);
    lemma_fold_item_words(t);
    let m = parse_line_model(line, ln);
    assert(m.id == ln);
    assert(m.completed == t.completed);
    assert(m.priority == t.priority);
    assert(m.created == t.created);
    assert(m.due == t.due);
    assert(m.projects == t.projects);
    assert(m.contexts == t.contexts);
    assert(m.title == spec_join(tws));
    assert(m.title == t.title);
    assert(m.subtasks == Seq::<SubtaskModel>::empty());
    assert(m =~= (TodoModel { id: ln, subtasks: Seq::empty(), ..t }));
}

/// Without marker, priority or creation date, the remainder opens with
/// the title, which by validity is no priority token.
proof fn lemma_no_pri_pattern_in_rem(t: TodoModel)
    requires
        valid_item(t),
        t.priority is None,
        t.created is None,
    ensures
        !pri_pattern(item_remainder(t)),
{
    lemma_item_remainder_join(t);
    let iws = item_words(t);
    let rem = item_remainder(t);
    let tws = spec_words(t.title);
    lemma_words_good(t.title);
    assert(tws.len() > 0) by {
        if tws.len() == 0 {
            assert(spec_join(tws) == Seq::<char>::empty());
        }
    }
    let others = iws.skip(tws.len() as int);
    assert(iws =~= tws + others);
    if others.len() == 0 {
        assert(iws =~= tws);
        assert(rem =~= t.title);
        assert(!pri_pattern(t.title));
    } else {
        lemma_join_concat(tws, others);
        assert(rem =~= t.title + seq![' '] + spec_join(others));
        assert(forall|i: int| 0 <= i < t.title.len() ==> rem[i] == t.title[i]);
        assert(rem[t.title.len() as int] == ' ');
        if pri_pattern(rem) {
            if t.title.len() >= 3 {
                assert(pri_pattern(t.title));
                assert(false);
            } else if t.title.len() == 2 {
                assert(rem[2] == ' ');
                assert(false);
            } else {
                assert(t.title.len() == 1);
                assert(rem[1] == ' ');
                assert(!is_upper(' '));
                assert(false);
            }
        }
    }
}

/// Parsing the line a valid subtask serializes to yields it back.
pub proof fn lemma_parse_subtask_line(s: SubtaskModel)
    requires
        valid_subtask(s),
    ensures
        parse_subtask_model(ser_subtask_line(s)) == s,
        spec_trim(ser_subtask_line(s)).len() > 0,
        is_subtask_line(ser_subtask_line(s)),
{
    let line = ser_subtask_line(s);
    let mk = marker_chars(s.completed);
    lemma_trim_fixed(s.title);
    assert(line =~= seq![' ', ' '] + mk + seq!['-', ' '] + s.title);
    let x = mk + seq!['-', ' '] + s.title;
    assert(line.len() == 4 + mk.len() + s.title.len());
    // Trimming removes exactly the two leading spaces.
    assert(line[0] == ' ' && line[1] == ' ');
    if s.completed {
        assert(line[2] == 'x' && line[3] == ' ');
    } else {
        assert(line[2] == '-' && line[3] == ' ');
    }
    assert(is_subtask_line(line));
    crate::text::lemma_trim_start_at(line, 2);
    assert(trim_start_rec(line) =~= x);
    assert(x.last() == s.title.last());
    assert(crate::text::trim_end_rec(x) == x);
    assert(spec_trim(line) =~= x);
    // The completion marker is read back exactly.
    if s.completed {
        assert(x[0] == 'x');
        let y = seq!['-', ' '] + s.title;
        assert(x.drop_first() =~= seq![' '] + y);
        assert((seq![' '] + y).drop_first() =~= y);
        assert(is_space((seq![' '] + y)[0]));
        assert(trim_start_rec(seq![' '] + y) == trim_start_rec(y));
        assert(!is_space(y[0]));
        assert(trim_start_rec(y) == y);
        assert(trim_start_rec(x.drop_first()) == y);
    } else {
        assert(x[0] == '-');
    }
    let c = seq!['-', ' '] + s.title;
    assert(c[0] == '-' && c[1] == ' ');
    assert(c.skip(2) =~= s.title);
    let m = parse_subtask_model(line);
    assert(m.completed == s.completed);
    assert(m.title == s.title);
    assert(m =~= s);
}

// ---------------------------------------------------------------------
// From lines to whole files.
// ---------------------------------------------------------------------
/// A line without a line break in it.
pub open spec fn line_clean(l: Seq<char>) -> bool {
    forall|j: int| 0 <= j < l.len() ==> l[j] != '\n'
}

/// No serialized line holds a line break.
#[verifier::spinoff_prover]
#[verifier::rlimit(100)]
pub proof fn lemma_item_lines_clean(t: TodoModel)
    requires
        valid_item(t),
    ensures
        forall|i: int| 0 <= i < item_lines(t).len() ==> line_clean(#[trigger] item_lines(t)[i]),
{
    lemma_item_remainder_join(t);
    crate::text::lemma_join_no_newline(item_words(t));
    let line = ser_item_line(t);
    let mk = marker_chars(t.completed);
    let pc = priority_chars(t.priority);
    let rem = item_remainder(t);
    assert(line =~= mk + pc + rem);
    assert(line_clean(line)) by {
        assert forall|j: int| 0 <= j < line.len() implies line[j] != '\n' by {
            if j < mk.len() {
                assert(line[j] == mk[j]);
                assert(mk[j] == 'x' || mk[j] == ' ');
            } else if j < mk.len() + pc.len() {
                assert(line[j] == pc[j - mk.len()]);
                let c = t.priority->0;
                assert(is_upper(c));
                assert(pc[j - mk.len()] == '(' || pc[j - mk.len()] == c || pc[j - mk.len()] == ')'
                    || pc[j - mk.len()] == ' ');
            } else {
                assert(line[j] == rem[j - mk.len() - pc.len()]);
            }
        }
    }
    assert forall|i: int| 0 <= i < item_lines(t).len() implies line_clean(
        #[trigger] item_lines(t)[i],
    ) by {
        if i == 0 {
            assert(item_lines(t)[0] == line);
        } else {
            let s = t.subtasks[i - 1];
            assert(valid_subtask(s));
            let sl = ser_subtask_line(s);
            assert(item_lines(t)[i] == sl);
            let mk2 = marker_chars(s.completed);
            assert(sl =~= seq![' ', ' '] + mk2 + seq!['-', ' '] + s.title);
            assert forall|j: int| 0 <= j < sl.len() implies sl[j] != '\n' by {
                if j < 2 {
                    assert(sl[j] == ' ');
                } else if j < 2 + mk2.len() {
                    assert(sl[j] == mk2[j - 2]);
                    assert(mk2[j - 2] == 'x' || mk2[j - 2] == ' ');
                } else if j < 4 + mk2.len() {
                    assert(sl[j] == '-' || sl[j] == ' ');
                } else {
                    assert(sl[j] == s.title[j - 4 - mk2.len()]);
                }
            }
        }
    }
}

/// Splitting the unlined text recovers the lines.
pub proof fn lemma_lines_unlines(ls: Seq<Seq<char>>)
    requires
        forall|i: int| 0 <= i < ls.len() ==> line_clean(#[trigger] ls[i]),
    ensures
        spec_lines(unlines(ls)) =~= ls,
    decreases ls.len(),
{
    if ls.len() == 0 {
        assert(unlines(ls) == Seq::<char>::empty());
    } else {
        let l0 = ls[0];
        let rest = unlines(ls.drop_first());
        let s = unlines(ls);
        assert(s =~= l0 + seq!['\n'] + rest);
        assert(line_clean(l0));
        assert(s[l0.len() as int] == '\n');
        assert forall|j: int| 0 <= j < l0.len() implies s[j] != '\n' by {
            assert(s[j] == l0[j]);
        }
        crate::todos::lemma_find_newline_is(s, 0, l0.len() as int);
        let j = find_newline(s, 0);
        assert(j == l0.len() < s.len());
        assert(s.take(j) =~= l0);
        assert(s.skip(j + 1) =~= rest);
        lemma_lines_unlines(ls.drop_first());
        assert(spec_lines(s) =~= seq![l0] + spec_lines(rest));
    }
}

/// Every line of a serialized collection is newline-free.
proof fn lemma_all_lines_clean(items: Seq<TodoModel>)
    requires
        forall|i: int| 0 <= i < items.len() ==> valid_item(#[trigger] items[i]),
    ensures
        forall|i: int| 0 <= i < all_lines(items).len() ==> line_clean(#[trigger] all_lines(items)[i]),
    decreases items.len(),
{
    if items.len() > 0 {
        lemma_item_lines_clean(items[0]);
        lemma_all_lines_clean(items.drop_first());
        let hd = item_lines(items[0]);
        let tl = all_lines(items.drop_first());
        assert(all_lines(items) == hd + tl);
        assert forall|i: int| 0 <= i < all_lines(items).len() implies line_clean(
            #[trigger] all_lines(items)[i],
        ) by {
            if i < hd.len() {
                assert(all_lines(items)[i] == hd[i]);
            } else {
                assert(all_lines(items)[i] == tl[i - hd.len()]);
            }
        }
    }
}

/// The tasks a reparse yields: the same tasks, ids renumbered to the
/// line each would start on.
pub open spec fn renumbered(items: Seq<TodoModel>, ln: int) -> Seq<TodoModel>
    decreases items.len(),
{
    if items.len() == 0 {
        Seq::empty()
    } else {
        seq![TodoModel { id: ln, ..items[0] }] + renumbered(
            items.drop_first(),
            ln + 1 + items[0].subtasks.len(),
        )
    }
}

/// Folding the subtask lines of one task attaches its subtasks in
/// order to the task just parsed.
proof fn lemma_parse_subtask_lines(
    done: Seq<SubtaskModel>,
    todo: Seq<SubtaskModel>,
    rest: Seq<Seq<char>>,
    ln: int,
    acc: Seq<TodoModel>,
    base: TodoModel,
)
    requires
        forall|i: int| 0 <= i < todo.len() ==> valid_subtask(#[trigger] todo[i]),
    ensures
        parse_lines_model(
            todo.map_values(|s: SubtaskModel| ser_subtask_line(s)) + rest,
            ln,
            acc.push(TodoModel { subtasks: done, ..base }),
        ) == parse_lines_model(
            rest,
            ln + todo.len(),
            acc.push(TodoModel { subtasks: done + todo, ..base }),
        ),
    decreases todo.len(),
{
    let m = todo.map_values(|s: SubtaskModel| ser_subtask_line(s));
    if todo.len() == 0 {
        assert(m + rest =~= rest);
        assert(done + todo =~= done);
        assert((TodoModel { subtasks: done + todo, ..base }) =~= (TodoModel {
            subtasks: done,
            ..base
        }));
    } else {
        let s0 = todo[0];
        let l = ser_subtask_line(s0);
        assert((m + rest)[0] == l);
        lemma_parse_subtask_line(s0);
        let a = acc.push(TodoModel { subtasks: done, ..base });
        assert(a.len() > 0);
        assert(a.last() == (TodoModel { subtasks: done, ..base }));
        assert(push_subtask_last(a, parse_subtask_model(l)) =~= acc.push(TodoModel {
            subtasks: done.push(s0),
            ..base
        }));
        assert(parse_lines_model(m + rest, ln, a) == parse_lines_model(
            (m + rest).drop_first(),
            ln + 1,
            push_subtask_last(a, parse_subtask_model(l)),
        ));
        assert((m + rest).drop_first() =~= todo.drop_first().map_values(
            |s: SubtaskModel| ser_subtask_line(s),
        ) + rest);
        lemma_parse_subtask_lines(done.push(s0), todo.drop_first(), rest, ln + 1, acc, base);
        assert(done.push(s0) + todo.drop_first() =~= done + todo);
        assert((TodoModel { subtasks: done.push(s0) + todo.drop_first(), ..base }) =~= (TodoModel {
            subtasks: done + todo,
            ..base
        }));
    }
}

/// Folding the lines of one task appends the task, renumbered, to the
/// accumulator.
proof fn lemma_parse_group(t: TodoModel, rest: Seq<Seq<char>>, ln: int, acc: Seq<TodoModel>)
    requires
        valid_item(t),
    ensures
        parse_lines_model(item_lines(t) + rest, ln, acc) == parse_lines_model(
            rest,
            ln + 1 + t.subtasks.len(),
            acc.push(TodoModel { id: ln, ..t }),
        ),
{
    let line = ser_item_line(t);
    assert((item_lines(t) + rest)[0] == line);
    lemma_parse_item_line(t, ln);
    let base = TodoModel { id: ln, subtasks: Seq::empty(), ..t };
    assert(parse_line_model(line, ln) == base);
    let acc2 = acc.push(base);
    assert(parse_lines_model(item_lines(t) + rest, ln, acc) == parse_lines_model(
        (item_lines(t) + rest).drop_first(),
        ln + 1,
        acc2,
    ));
    assert((item_lines(t) + rest).drop_first() =~= t.subtasks.map_values(
        |s: SubtaskModel| ser_subtask_line(s),
    ) + rest);
    assert(acc2 == acc.push(TodoModel { subtasks: Seq::empty(), ..base })) by {
        assert((TodoModel { subtasks: Seq::empty(), ..base }) =~= base);
    }
    lemma_parse_subtask_lines(Seq::empty(), t.subtasks, rest, ln + 1, acc, base);
    assert(Seq::<SubtaskModel>::empty() + t.subtasks =~= t.subtasks);
    assert((TodoModel { subtasks: Seq::<SubtaskModel>::empty() + t.subtasks, ..base }) =~= (
    TodoModel { id: ln, ..t }));
}

/// Folding all serialized lines yields the renumbered collection.
proof fn lemma_parse_all(items: Seq<TodoModel>, ln: int, acc: Seq<TodoModel>)
    requires
        forall|i: int| 0 <= i < items.len() ==> valid_item(#[trigger] items[i]),
    ensures
        parse_lines_model(all_lines(items), ln, acc) =~= acc + renumbered(items, ln),
    decreases items.len(),
{
    if items.len() == 0 {
        assert(all_lines(items) == Seq::<Seq<char>>::empty());
        assert(acc + renumbered(items, ln) =~= acc);
    } else {
        let t = items[0];
        let rest = all_lines(items.drop_first());
        assert(all_lines(items) == item_lines(t) + rest);
        lemma_parse_group(t, rest, ln, acc);
        let acc2 = acc.push(TodoModel { id: ln, ..t });
        lemma_parse_all(items.drop_first(), ln + 1 + t.subtasks.len(), acc2);
        assert(renumbered(items, ln) == seq![TodoModel { id: ln, ..t }] + renumbered(
            items.drop_first(),
            ln + 1 + t.subtasks.len(),
        ));
        assert(acc2 + renumbered(items.drop_first(), ln + 1 + t.subtasks.len()) =~= acc
            + renumbered(items, ln));
    }
}

/// Equality of every field but the positional id.
pub open spec fn same_except_id(a: TodoModel, b: TodoModel) -> bool {
    &&& a.title == b.title
    &&& a.completed == b.completed
    &&& a.priority == b.priority
    &&& a.created == b.created
    &&& a.projects == b.projects
    &&& a.contexts == b.contexts
    &&& a.due == b.due
    &&& a.subtasks == b.subtasks
}

proof fn lemma_renumbered_props(items: Seq<TodoModel>, ln: int)
    ensures
        renumbered(items, ln).len() == items.len(),
        forall|i: int|
            0 <= i < items.len() ==> same_except_id(
                #[trigger] renumbered(items, ln)[i],
                items[i],
            ),
    decreases items.len(),
{
    if items.len() > 0 {
        lemma_renumbered_props(items.drop_first(), ln + 1 + items[0].subtasks.len());
        assert forall|i: int| 0 <= i < items.len() implies same_except_id(
            #[trigger] renumbered(items, ln)[i],
            items[i],
        ) by {
            if i == 0 {
                assert(renumbered(items, ln)[0] == (TodoModel { id: ln, ..items[0] }));
            } else {
                assert(renumbered(items, ln)[i] == renumbered(
                    items.drop_first(),
                    ln + 1 + items[0].subtasks.len(),
                )[i - 1]);
            }
        }
    }
}

/// Round trip: parsing the serialized text of a legally constructed
/// collection yields the same tasks — titles, flags, dates and tags
/// all equal — with ids renumbered to each task's line position.
pub proof fn lemma_parse_serialize_round_trip(items: Seq<TodoModel>)
    requires
        valid_items(items),
    ensures
        spec_parse(spec_serialize(items)) == renumbered(items, 1),
        spec_parse(spec_serialize(items)).len() == items.len(),
        forall|i: int|
            0 <= i < items.len() ==> same_except_id(
                #[trigger] spec_parse(spec_serialize(items))[i],
                items[i],
            ),
{
    lemma_all_lines_clean(items);
    lemma_lines_unlines(all_lines(items));
    assert(spec_lines(spec_serialize(items)) =~= all_lines(items));
    lemma_parse_all(items, 1, Seq::empty());
    assert(Seq::<TodoModel>::empty() + renumbered(items, 1) =~= renumbered(items, 1));
    lemma_renumbered_props(items, 1);
}

/// Serialization ignores ids, so tasks equal up to id serialize alike.
proof fn lemma_serialize_same(a: Seq<TodoModel>, b: Seq<TodoModel>)
    requires
        a.len() == b.len(),
        forall|i: int| 0 <= i < a.len() ==> same_except_id(#[trigger] a[i], b[i]),
    ensures
        spec_serialize(a) == spec_serialize(b),
    decreases a.len(),
{
    if a.len() > 0 {
        assert(same_except_id(a[0], b[0]));
        assert(ser_item_line(a[0]) == ser_item_line(b[0]));
        assert(item_lines(a[0]) =~= item_lines(b[0]));
        assert forall|i: int| 0 <= i < a.drop_first().len() implies same_except_id(
            #[trigger] a.drop_first()[i],
            b.drop_first()[i],
        ) by {
            assert(a.drop_first()[i] == a[i + 1]);
            assert(b.drop_first()[i] == b[i + 1]);
        }
        lemma_serialize_same(a.drop_first(), b.drop_first());
        assert(all_lines(a) =~= all_lines(b)) by {
            assert(all_lines(a) == item_lines(a[0]) + all_lines(a.drop_first()));
            assert(all_lines(b) == item_lines(b[0]) + all_lines(b.drop_first()));
            assert(unlines(all_lines(a.drop_first())) == unlines(all_lines(b.drop_first())));
            lemma_all_lines_same(a.drop_first(), b.drop_first());
        }
    }
}

proof fn lemma_all_lines_same(a: Seq<TodoModel>, b: Seq<TodoModel>)
    requires
        a.len() == b.len(),
        forall|i: int| 0 <= i < a.len() ==> same_except_id(#[trigger] a[i], b[i]),
    ensures
        all_lines(a) =~= all_lines(b),
    decreases a.len(),
{
    if a.len() > 0 {
        assert(same_except_id(a[0], b[0]));
        assert(item_lines(a[0]) =~= item_lines(b[0]));
        assert forall|i: int| 0 <= i < a.drop_first().len() implies same_except_id(
            #[trigger] a.drop_first()[i],
            b.drop_first()[i],
        ) by {
            assert(a.drop_first()[i] == a[i + 1]);
            assert(b.drop_first()[i] == b[i + 1]);
        }
        lemma_all_lines_same(a.drop_first(), b.drop_first());
    }
}

/// Serialize, parse, serialize: the second text is byte-identical to
/// the first, though ids were renumbered in between.
pub proof fn lemma_serialize_stable(items: Seq<TodoModel>)
    requires
        valid_items(items),
    ensures
        spec_serialize(spec_parse(spec_serialize(items))) == spec_serialize(items),
{
    lemma_parse_serialize_round_trip(items);
    lemma_renumbered_props(items, 1);
    lemma_serialize_same(spec_parse(spec_serialize(items)), items);
}

} // verus!
