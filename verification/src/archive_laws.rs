//! The archive format's round-trip law. What the engine appends for a
//! run of valid completed tasks, `parse_archive` reads back entry for
//! entry: same titles, the day's key as the date, and the same
//! subtasks.

use vstd::prelude::*;

use crate::archive::ArchivedModel;
use crate::archive::arch_item_line;
use crate::archive::arch_item_lines;
use crate::archive::arch_lines;
use crate::archive::is_arch_line;
use crate::archive::parse_arch_line;
use crate::archive::parse_arch_lines;
use crate::archive::push_arch_subtask_last;
use crate::archive::spec_archive_text;
use crate::archive::spec_parse_archive;
use crate::codec_laws::lemma_item_lines_clean;
use crate::codec_laws::lemma_lines_unlines;
use crate::codec_laws::lemma_parse_subtask_line;
use crate::codec_laws::line_clean;
use crate::codec_laws::valid_item;
use crate::codec_laws::valid_subtask;
use crate::dates::Date;
use crate::dates::is_date10;
use crate::dates::lemma_date_key_shape;
use crate::dates::spec_date_key;
use crate::text::is_space;
use crate::text::lemma_join_ends;
use crate::text::lemma_words_good;
use crate::text::spec_join;
use crate::text::spec_trim;
use crate::text::spec_words;
use crate::text::trim_start_rec;
use crate::text::trim_end_rec;
use crate::todos::SubtaskModel;
use crate::todos::TodoModel;
use crate::todos::is_subtask_line;
use crate::todos::item_lines;
use crate::todos::parse_subtask_model;
use crate::todos::ser_subtask_line;

verus! {

/// The entry one task leaves in the archive, completed on that day.
pub open spec fn arch_entry_of(t: TodoModel, d: Date) -> ArchivedModel {
    ArchivedModel { title: t.title, date: spec_date_key(d), subtasks: t.subtasks }
}

/// A valid task's archive line is recognized and read back exactly.
#[verifier::rlimit(100)]
proof fn lemma_arch_line_facts(t: TodoModel, d: Date)
    requires
        valid_item(t),
    ensures
        is_arch_line(arch_item_line(t, d)),
        !is_subtask_line(arch_item_line(t, d)),
        parse_arch_line(arch_item_line(t, d)) == (ArchivedModel {
            title: t.title,
            date: spec_date_key(d),
            subtasks: Seq::empty(),
        }),
        line_clean(arch_item_line(t, d)),
{
    let line = arch_item_line(t, d);
    let dk = spec_date_key(d);
    lemma_date_key_shape(d);
    assert(line =~= seq!['['] + dk + seq![']', ' '] + t.title);
    assert(line.len() == 13 + t.title.len());
    assert(line[0] == '[');
    assert(line[11] == ']');
    assert(line.subrange(1, 11) =~= dk);
    assert(is_arch_line(line));
    assert(!is_subtask_line(line));
    // The title survives the trim after the `] ` separator.
    let tws = spec_words(t.title);
    lemma_words_good(t.title);
    assert(tws.len() > 0) by {
        if tws.len() == 0 {
            assert(spec_join(tws) == Seq::<char>::empty());
        }
    }
    lemma_join_ends(tws);
    assert(!is_space(t.title[0]) && !is_space(t.title.last()));
    assert(line.skip(12) =~= seq![' '] + t.title);
    assert((seq![' '] + t.title).drop_first() =~= t.title);
    assert(is_space((seq![' '] + t.title)[0]));
    assert(trim_start_rec(line.skip(12)) == trim_start_rec(t.title));
    assert(trim_start_rec(t.title) == t.title);
    assert(trim_end_rec(t.title) == t.title);
    assert(spec_trim(line.skip(12)) == t.title);
    assert(parse_arch_line(line) =~= (ArchivedModel {
        title: t.title,
        date: spec_date_key(d),
        subtasks: Seq::empty(),
    }));
    // No character of the line is a line break.
    assert forall|j: int| 0 <= j < line.len() implies line[j] != '\n' by {
        if j == 0 {
            assert(line[j] == '[');
        } else if j < 11 {
            assert(line[j] == dk[j - 1]);
            assert(is_date10(dk));
        } else if j == 11 {
            assert(line[j] == ']');
        } else if j == 12 {
            assert(line[j] == ' ');
        } else {
            assert(line[j] == t.title[j - 13]);
            assert(t.title[j - 13] == spec_join(tws)[j - 13]);
            crate::text::lemma_join_no_newline(tws);
        }
    }
}

/// Every line a task appends to the archive is newline-free.
proof fn lemma_arch_item_lines_clean(t: TodoModel, d: Date)
    requires
        valid_item(t),
    ensures
        forall|i: int|
            0 <= i < arch_item_lines(t, d).len() ==> line_clean(#[trigger] arch_item_lines(t, d)[i]),
{
    lemma_arch_line_facts(t, d);
    lemma_item_lines_clean(t);
    assert forall|i: int| 0 <= i < arch_item_lines(t, d).len() implies line_clean(
        #[trigger] arch_item_lines(t, d)[i],
    ) by {
        if i == 0 {
            assert(arch_item_lines(t, d)[0] == arch_item_line(t, d));
        } else {
            assert(arch_item_lines(t, d)[i] == ser_subtask_line(t.subtasks[i - 1]));
            assert(item_lines(t)[i] == ser_subtask_line(t.subtasks[i - 1]));
        }
    }
}

proof fn lemma_arch_lines_clean(ts: Seq<TodoModel>, d: Date)
    requires
        forall|i: int| 0 <= i < ts.len() ==> valid_item(#[trigger] ts[i]),
    ensures
        forall|i: int|
            0 <= i < arch_lines(ts, d).len() ==> line_clean(#[trigger] arch_lines(ts, d)[i]),
    decreases ts.len(),
{
    if ts.len() > 0 {
        lemma_arch_item_lines_clean(ts[0], d);
        lemma_arch_lines_clean(ts.drop_first(), d);
        let hd = arch_item_lines(ts[0], d);
        let tl = arch_lines(ts.drop_first(), d);
        assert(arch_lines(ts, d) == hd + tl);
        assert forall|i: int| 0 <= i < arch_lines(ts, d).len() implies line_clean(
            #[trigger] arch_lines(ts, d)[i],
        ) by {
            if i < hd.len() {
                assert(arch_lines(ts, d)[i] == hd[i]);
            } else {
                assert(arch_lines(ts, d)[i] == tl[i - hd.len()]);
            }
        }
    }
}

/// Folding one entry's subtask lines attaches its subtasks in order.
proof fn lemma_parse_arch_subtasks(
    done: Seq<SubtaskModel>,
    todo: Seq<SubtaskModel>,
    rest: Seq<Seq<char>>,
    acc: Seq<ArchivedModel>,
    base: ArchivedModel,
)
    requires
        forall|i: int| 0 <= i < todo.len() ==> valid_subtask(#[trigger] todo[i]),
    ensures
        parse_arch_lines(
            todo.map_values(|s: SubtaskModel| ser_subtask_line(s)) + rest,
            acc.push(ArchivedModel { subtasks: done, ..base }),
        ) == parse_arch_lines(rest, acc.push(ArchivedModel { subtasks: done + todo, ..base })),
    decreases todo.len(),
{
    let m = todo.map_values(|s: SubtaskModel| ser_subtask_line(s));
    if todo.len() == 0 {
        assert(m + rest =~= rest);
        assert(done + todo =~= done);
        assert((ArchivedModel { subtasks: done + todo, ..base }) =~= (ArchivedModel {
            subtasks: done,
            ..base
        }));
    } else {
        let s0 = todo[0];
        let l = ser_subtask_line(s0);
        assert((m + rest)[0] == l);
        lemma_parse_subtask_line(s0);
        let a = acc.push(ArchivedModel { subtasks: done, ..base });
        assert(a.len() > 0);
        assert(a.last() == (ArchivedModel { subtasks: done, ..base }));
        assert(push_arch_subtask_last(a, parse_subtask_model(l)) =~= acc.push(ArchivedModel {
            subtasks: done.push(s0),
            ..base
        }));
        assert(parse_arch_lines(m + rest, a) == parse_arch_lines(
            (m + rest).drop_first(),
            push_arch_subtask_last(a, parse_subtask_model(l)),
        ));
        assert((m + rest).drop_first() =~= todo.drop_first().map_values(
            |s: SubtaskModel| ser_subtask_line(s),
        ) + rest);
        lemma_parse_arch_subtasks(done.push(s0), todo.drop_first(), rest, acc, base);
        assert(done.push(s0) + todo.drop_first() =~= done + todo);
        assert((ArchivedModel { subtasks: done.push(s0) + todo.drop_first(), ..base }) =~= (
        ArchivedModel { subtasks: done + todo, ..base }));
    }
}

/// Folding one entry's lines appends the entry.
proof fn lemma_parse_arch_group(t: TodoModel, d: Date, rest: Seq<Seq<char>>, acc: Seq<ArchivedModel>)
    requires
        valid_item(t),
    ensures
        parse_arch_lines(arch_item_lines(t, d) + rest, acc) == parse_arch_lines(
            rest,
            acc.push(arch_entry_of(t, d)),
        ),
{
    let line = arch_item_line(t, d);
    assert((arch_item_lines(t, d) + rest)[0] == line);
    lemma_arch_line_facts(t, d);
    let base = ArchivedModel { title: t.title, date: spec_date_key(d), subtasks: Seq::empty() };
    let acc2 = acc.push(base);
    assert(parse_arch_lines(arch_item_lines(t, d) + rest, acc) == parse_arch_lines(
        (arch_item_lines(t, d) + rest).drop_first(),
        acc2,
    ));
    assert((arch_item_lines(t, d) + rest).drop_first() =~= t.subtasks.map_values(
        |s: SubtaskModel| ser_subtask_line(s),
    ) + rest);
    assert(acc2 == acc.push(ArchivedModel { subtasks: Seq::empty(), ..base })) by {
        assert((ArchivedModel { subtasks: Seq::empty(), ..base }) =~= base);
    }
    lemma_parse_arch_subtasks(Seq::empty(), t.subtasks, rest, acc, base);
    assert(Seq::<SubtaskModel>::empty() + t.subtasks =~= t.subtasks);
    assert((ArchivedModel { subtasks: Seq::<SubtaskModel>::empty() + t.subtasks, ..base }) =~= (
    arch_entry_of(t, d)));
}

proof fn lemma_parse_arch_all(ts: Seq<TodoModel>, d: Date, acc: Seq<ArchivedModel>)
    requires
        forall|i: int| 0 <= i < ts.len() ==> valid_item(#[trigger] ts[i]),
    ensures
        parse_arch_lines(arch_lines(ts, d), acc) =~= acc + ts.map_values(
            |t: TodoModel| arch_entry_of(t, d),
        ),
    decreases ts.len(),
{
    if ts.len() == 0 {
        assert(arch_lines(ts, d) == Seq::<Seq<char>>::empty());
        assert(acc + ts.map_values(|t: TodoModel| arch_entry_of(t, d)) =~= acc);
    } else {
        let t = ts[0];
        let rest = arch_lines(ts.drop_first(), d);
        assert(arch_lines(ts, d) == arch_item_lines(t, d) + rest);
        lemma_parse_arch_group(t, d, rest, acc);
        lemma_parse_arch_all(ts.drop_first(), d, acc.push(arch_entry_of(t, d)));
        assert(acc.push(arch_entry_of(t, d)) + ts.drop_first().map_values(
            |t2: TodoModel| arch_entry_of(t2, d),
        ) =~= acc + ts.map_values(|t2: TodoModel| arch_entry_of(t2, d)));
    }
}

/// Round trip: the text a run of valid completed tasks appends to the
/// archive reads back as exactly those entries — same titles, the
/// day's key as each date, the same subtasks, in order.
pub proof fn lemma_archive_round_trip(ts: Seq<TodoModel>, d: Date)
    requires
        forall|i: int| 0 <= i < ts.len() ==> valid_item(#[trigger] ts[i]),
    ensures
        spec_parse_archive(spec_archive_text(ts, d)) =~= ts.map_values(
            |t: TodoModel| arch_entry_of(t, d),
        ),
{
    lemma_arch_lines_clean(ts, d);
    lemma_lines_unlines(arch_lines(ts, d));
    assert(crate::todos::spec_lines(spec_archive_text(ts, d)) =~= arch_lines(ts, d));
    lemma_parse_arch_all(ts, d, Seq::empty());
    assert(Seq::<ArchivedModel>::empty() + ts.map_values(|t: TodoModel| arch_entry_of(t, d)) =~= ts.map_values(
        |t: TodoModel| arch_entry_of(t, d),
    ));
}

} // verus!
