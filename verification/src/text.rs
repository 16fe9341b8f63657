//! Character sequences: whitespace classes, trimming, splitting into
//! words and joining them back. The todo codec's grammar is defined over
//! these functions, and its round-trip argument rests on the inverse
//! relation between `spec_words` and `spec_join` proved here.

use vstd::prelude::*;

verus! {

/// The whitespace characters the vault formats care about.
pub open spec fn is_space(c: char) -> bool {
    c == ' ' || c == '\t' || c == '\n' || c == '\r'
}

pub fn space_char(c: char) -> (r: bool)
    ensures
        r == is_space(c),
{
    c == ' ' || c == '\t' || c == '\n' || c == '\r'
}

pub open spec fn is_digit(c: char) -> bool {
    '0' <= c && c <= '9'
}

pub fn digit_char(c: char) -> (r: bool)
    ensures
        r == is_digit(c),
{
    '0' <= c && c <= '9'
}

pub open spec fn is_upper(c: char) -> bool {
    'A' <= c && c <= 'Z'
}

pub fn upper_char(c: char) -> (r: bool)
    ensures
        r == is_upper(c),
{
    'A' <= c && c <= 'Z'
}

/// The sequence with its leading whitespace removed.
pub open spec fn trim_start_rec(s: Seq<char>) -> Seq<char>
    decreases s.len(),
{
    if s.len() > 0 && is_space(s[0]) {
        trim_start_rec(s.drop_first())
    } else {
        s
    }
}

/// The sequence with its trailing whitespace removed.
pub open spec fn trim_end_rec(s: Seq<char>) -> Seq<char>
    decreases s.len(),
{
    if s.len() > 0 && is_space(s.last()) {
        trim_end_rec(s.drop_last())
    } else {
        s
    }
}

/// The sequence with whitespace removed at both ends.
pub open spec fn spec_trim(s: Seq<char>) -> Seq<char> {
    trim_end_rec(trim_start_rec(s))
}

pub proof fn lemma_trim_start_at(s: Seq<char>, i: int)
    requires
        0 <= i <= s.len(),
        forall|j: int| 0 <= j < i ==> is_space(s[j]),
        i == s.len() || !is_space(s[i]),
    ensures
        trim_start_rec(s) =~= s.subrange(i, s.len() as int),
    decreases i,
{
    if i == 0 {
        assert(trim_start_rec(s) == s);
        assert(s.subrange(0, s.len() as int) =~= s);
    } else {
        assert(is_space(s[0]));
        assert(s.drop_first() =~= s.subrange(1, s.len() as int));
        lemma_trim_start_at(s.drop_first(), i - 1);
        assert(s.drop_first().subrange(i - 1, s.drop_first().len() as int) =~= s.subrange(
            i,
            s.len() as int,
        ));
    }
}

pub proof fn lemma_trim_end_at(s: Seq<char>, k: int)
    requires
        0 <= k <= s.len(),
        forall|j: int| k <= j < s.len() ==> is_space(s[j]),
        k == 0 || !is_space(s[k - 1]),
    ensures
        trim_end_rec(s) =~= s.subrange(0, k),
    decreases s.len() - k,
{
    if k == s.len() {
        assert(trim_end_rec(s) == s);
        assert(s.subrange(0, k) =~= s);
    } else {
        assert(is_space(s.last()));
        assert(s.drop_last() =~= s.subrange(0, s.len() - 1));
        lemma_trim_end_at(s.drop_last(), k);
        assert(s.drop_last().subrange(0, k) =~= s.subrange(0, k));
    }
}

/// A sequence that neither starts nor ends with whitespace is unchanged
/// by trimming.
pub proof fn lemma_trim_id(s: Seq<char>)
    requires
        s.len() == 0 || (!is_space(s[0]) && !is_space(s.last())),
    ensures
        spec_trim(s) == s,
{
    assert(trim_start_rec(s) == s);
    assert(trim_end_rec(s) == s);
}

/// Copies the slice with leading whitespace removed.
pub fn trim_start_chars(s: &[char]) -> (r: Vec<char>)
    ensures
        r@ == trim_start_rec(s@),
{
    let mut i: usize = 0;
    while i < s.len() && space_char(s[i])
        invariant
            0 <= i <= s@.len(),
            forall|j: int| 0 <= j < i ==> is_space(s@[j]),
        decreases s@.len() - i,
    {
        i += 1;
    }
    proof {
        lemma_trim_start_at(s@, i as int);
    }
    let mut r: Vec<char> = Vec::new();
    let mut j: usize = i;
    while j < s.len()
        invariant
            i <= j <= s@.len(),
            r@ =~= s@.subrange(i as int, j as int),
        decreases s@.len() - j,
    {
        r.push(s[j]);
        j += 1;
    }
    proof {
        assert(r@ =~= s@.subrange(i as int, s@.len() as int));
    }
    r
}

/// Copies the slice with whitespace removed at both ends.
pub fn trim_chars(s: &[char]) -> (r: Vec<char>)
    ensures
        r@ == spec_trim(s@),
{
    let mut i: usize = 0;
    while i < s.len() && space_char(s[i])
        invariant
            0 <= i <= s@.len(),
            forall|j: int| 0 <= j < i ==> is_space(s@[j]),
        decreases s@.len() - i,
    {
        i += 1;
    }
    proof {
        lemma_trim_start_at(s@, i as int);
    }
    let mut k: usize = s.len();
    while k > i && space_char(s[k - 1])
        invariant
            i <= k <= s@.len(),
            forall|j: int| k <= j < s@.len() ==> is_space(s@[j]),
        decreases k,
    {
        k -= 1;
    }
    proof {
        let t = s@.subrange(i as int, s@.len() as int);
        lemma_trim_end_at(t, k - i);
        assert(t.subrange(0, k - i) =~= s@.subrange(i as int, k as int));
    }
    let mut r: Vec<char> = Vec::new();
    let mut j: usize = i;
    while j < k
        invariant
            i <= j <= k <= s@.len(),
            r@ =~= s@.subrange(i as int, j as int),
        decreases k - j,
    {
        r.push(s[j]);
        j += 1;
    }
    r
}

pub proof fn lemma_trim_start_first(s: Seq<char>)
    ensures
        trim_start_rec(s).len() == 0 || !is_space(trim_start_rec(s)[0]),
    decreases s.len(),
{
    if s.len() > 0 && is_space(s[0]) {
        lemma_trim_start_first(s.drop_first());
    }
}

pub proof fn lemma_trim_end_prefix(s: Seq<char>)
    ensures
        trim_end_rec(s).len() <= s.len(),
        forall|i: int| 0 <= i < trim_end_rec(s).len() ==> trim_end_rec(s)[i] == s[i],
        trim_end_rec(s).len() > 0 ==> !is_space(trim_end_rec(s).last()),
    decreases s.len(),
{
    if s.len() > 0 && is_space(s.last()) {
        lemma_trim_end_prefix(s.drop_last());
        assert forall|i: int| 0 <= i < trim_end_rec(s).len() implies trim_end_rec(s)[i]
            == s[i] by {
            assert(trim_end_rec(s)[i] == trim_end_rec(s.drop_last())[i]);
            assert(trim_end_rec(s.drop_last())[i] == s.drop_last()[i]);
        }
    }
}

/// A trimmed sequence neither starts nor ends with whitespace, so
/// trimming is idempotent.
pub proof fn lemma_trim_props(s: Seq<char>)
    ensures
        spec_trim(s).len() > 0 ==> !is_space(spec_trim(s)[0]) && !is_space(spec_trim(s).last()),
        spec_trim(spec_trim(s)) == spec_trim(s),
{
    let u = trim_start_rec(s);
    let t = spec_trim(s);
    lemma_trim_start_first(s);
    lemma_trim_end_prefix(u);
    if t.len() > 0 {
        assert(t[0] == u[0]);
        lemma_trim_id(t);
    } else {
        assert(trim_start_rec(t) == t);
        assert(trim_end_rec(trim_start_rec(t)) == t);
    }
}

pub proof fn lemma_trim_start_len(s: Seq<char>)
    ensures
        trim_start_rec(s).len() <= s.len(),
        s.len() > 0 && is_space(s[0]) ==> trim_start_rec(s).len() < s.len(),
    decreases s.len(),
{
    if s.len() > 0 && is_space(s[0]) {
        lemma_trim_start_len(s.drop_first());
    }
}

pub proof fn lemma_trim_end_len(s: Seq<char>)
    ensures
        trim_end_rec(s).len() <= s.len(),
        s.len() > 0 && is_space(s.last()) ==> trim_end_rec(s).len() < s.len(),
    decreases s.len(),
{
    if s.len() > 0 && is_space(s.last()) {
        lemma_trim_end_len(s.drop_last());
    }
}

/// A non-empty fixed point of trimming has whitespace-free ends.
pub proof fn lemma_trim_fixed(s: Seq<char>)
    requires
        spec_trim(s) == s,
        s.len() > 0,
    ensures
        !is_space(s[0]),
        !is_space(s.last()),
{
    lemma_trim_start_len(s);
    lemma_trim_end_len(trim_start_rec(s));
    if is_space(s[0]) {
        assert(spec_trim(s).len() < s.len());
    }
    assert(trim_start_rec(s) == s);
    if is_space(s.last()) {
        assert(spec_trim(s).len() < s.len());
    }
}

/// A join of good words is non-empty, opens with the first word's
/// first character, closes with the last word's last character, and
/// has whitespace-free ends.
pub proof fn lemma_join_ends(ws: Seq<Seq<char>>)
    requires
        ws.len() > 0,
        forall|i: int| 0 <= i < ws.len() ==> good_word(#[trigger] ws[i]),
    ensures
        spec_join(ws).len() > 0,
        spec_join(ws)[0] == ws[0][0],
        spec_join(ws).last() == ws.last().last(),
        !is_space(spec_join(ws)[0]),
        !is_space(spec_join(ws).last()),
    decreases ws.len(),
{
    if ws.len() == 1 {
        assert(good_word(ws[0]));
    } else {
        lemma_join_ends(ws.drop_first());
        let j = spec_join(ws);
        let tail = spec_join(ws.drop_first());
        assert(j =~= ws[0] + seq![' '] + tail);
        assert(good_word(ws[0]));
        assert(j[0] == ws[0][0]);
        assert(j.last() == tail.last());
        assert(ws.drop_first().last() == ws.last());
    }
}

/// Copies the characters of a slice between two positions.
pub fn copy_range(s: &[char], i: usize, j: usize) -> (r: Vec<char>)
    requires
        i <= j <= s@.len(),
    ensures
        r@ == s@.subrange(i as int, j as int),
{
    let mut r: Vec<char> = Vec::new();
    let mut k: usize = i;
    while k < j
        invariant
            i <= k <= j <= s@.len(),
            r@ =~= s@.subrange(i as int, k as int),
        decreases j - k,
    {
        r.push(s[k]);
        k += 1;
    }
    r
}

/// The longest whitespace-free prefix.
pub open spec fn leading_word(s: Seq<char>) -> Seq<char>
    decreases s.len(),
{
    if s.len() == 0 || is_space(s[0]) {
        Seq::empty()
    } else {
        seq![s[0]] + leading_word(s.drop_first())
    }
}

/// The whitespace-separated words of a sequence, in order.
pub open spec fn spec_words(s: Seq<char>) -> Seq<Seq<char>>
    decreases s.len(),
    via spec_words_decreases
{
    if s.len() == 0 {
        Seq::empty()
    } else if is_space(s[0]) {
        spec_words(s.drop_first())
    } else {
        seq![leading_word(s)] + spec_words(s.skip(leading_word(s).len() as int))
    }
}

#[via_fn]
proof fn spec_words_decreases(s: Seq<char>) {
    if s.len() > 0 && !is_space(s[0]) {
        lemma_leading_word_props(s);
        assert(leading_word(s).len() >= 1);
    }
}

/// A word as produced by splitting: non-empty and free of whitespace.
pub open spec fn good_word(w: Seq<char>) -> bool {
    w.len() > 0 && forall|i: int| 0 <= i < w.len() ==> !is_space(w[i])
}

pub proof fn lemma_leading_word_props(s: Seq<char>)
    ensures
        leading_word(s).len() <= s.len(),
        leading_word(s) =~= s.subrange(0, leading_word(s).len() as int),
        forall|i: int| 0 <= i < leading_word(s).len() ==> !is_space(s[i]),
        leading_word(s).len() == s.len() || is_space(s[leading_word(s).len() as int]),
    decreases s.len(),
{
    if s.len() == 0 || is_space(s[0]) {
    } else {
        let d = s.drop_first();
        lemma_leading_word_props(d);
        let l = leading_word(s);
        let ld = leading_word(d);
        assert(l =~= seq![s[0]] + ld);
        assert(l.len() == 1 + ld.len());
        assert forall|i: int| 0 <= i < l.len() implies l[i] == s[i] && !is_space(s[i]) by {
            if i == 0 {
                assert(l[0] == s[0]);
            } else {
                assert(l[i] == ld[i - 1]);
                assert(ld[i - 1] == d.subrange(0, ld.len() as int)[i - 1]);
                assert(ld[i - 1] == d[i - 1]);
                assert(d[i - 1] == s[i]);
            }
        }
        assert(l =~= s.subrange(0, l.len() as int));
        if ld.len() == d.len() {
            assert(l.len() == s.len());
        } else {
            assert(is_space(d[ld.len() as int]));
            assert(d[ld.len() as int] == s[l.len() as int]);
        }
    }
}

/// The leading word of a whitespace-free sequence is the sequence itself.
pub proof fn lemma_leading_word_all(w: Seq<char>)
    requires
        forall|i: int| 0 <= i < w.len() ==> !is_space(w[i]),
    ensures
        leading_word(w) =~= w,
    decreases w.len(),
{
    if w.len() == 0 {
    } else {
        lemma_leading_word_all(w.drop_first());
    }
}

/// The leading word stops exactly at the first whitespace character.
pub proof fn lemma_leading_word_concat(w: Seq<char>, t: Seq<char>)
    requires
        forall|i: int| 0 <= i < w.len() ==> !is_space(w[i]),
        t.len() > 0,
        is_space(t[0]),
    ensures
        leading_word(w + t) =~= w,
    decreases w.len(),
{
    if w.len() == 0 {
        assert(w + t =~= t);
    } else {
        assert((w + t).drop_first() =~= w.drop_first() + t);
        lemma_leading_word_concat(w.drop_first(), t);
        assert(!is_space((w + t)[0]));
    }
}

/// Words joined by single spaces.
pub open spec fn spec_join(ws: Seq<Seq<char>>) -> Seq<char>
    decreases ws.len(),
{
    if ws.len() == 0 {
        Seq::empty()
    } else if ws.len() == 1 {
        ws[0]
    } else {
        ws[0] + seq![' '] + spec_join(ws.drop_first())
    }
}

pub proof fn lemma_join_push(ws: Seq<Seq<char>>, w: Seq<char>)
    ensures
        spec_join(ws.push(w)) =~= if ws.len() == 0 {
            w
        } else {
            spec_join(ws) + seq![' '] + w
        },
    decreases ws.len(),
{
    if ws.len() == 0 {
        assert(ws.push(w)[0] =~= w);
    } else if ws.len() == 1 {
        assert(ws.push(w).drop_first() =~= seq![w]);
        assert(spec_join(seq![w]) == w);
        assert(ws.push(w)[0] == ws[0]);
    } else {
        lemma_join_push(ws.drop_first(), w);
        assert(ws.push(w).drop_first() =~= ws.drop_first().push(w));
        assert(ws.push(w)[0] == ws[0]);
    }
}

/// Joining two non-empty word lists glues their joins with one space.
pub proof fn lemma_join_concat(a: Seq<Seq<char>>, b: Seq<Seq<char>>)
    requires
        a.len() > 0,
        b.len() > 0,
    ensures
        spec_join(a + b) =~= spec_join(a) + seq![' '] + spec_join(b),
    decreases a.len(),
{
    if a.len() == 1 {
        assert((a + b).drop_first() =~= b);
        assert((a + b)[0] == a[0]);
        assert((a + b).len() >= 2);
    } else {
        lemma_join_concat(a.drop_first(), b);
        assert((a + b).drop_first() =~= a.drop_first() + b);
        assert((a + b)[0] == a[0]);
    }
}

/// Every character of a join of good words is a word character or a
/// separating space; in particular it is never a line break.
pub proof fn lemma_join_no_newline(ws: Seq<Seq<char>>)
    requires
        forall|i: int| 0 <= i < ws.len() ==> good_word(#[trigger] ws[i]),
    ensures
        forall|j: int| 0 <= j < spec_join(ws).len() ==> #[trigger] spec_join(ws)[j] != '\n',
    decreases ws.len(),
{
    if ws.len() == 0 {
    } else if ws.len() == 1 {
        assert(good_word(ws[0]));
        assert(forall|j: int|
            0 <= j < spec_join(ws).len() ==> !is_space(#[trigger] spec_join(ws)[j]));
    } else {
        lemma_join_no_newline(ws.drop_first());
        let h = ws[0];
        assert(good_word(h));
        let tail = spec_join(ws.drop_first());
        assert(spec_join(ws) =~= h + seq![' '] + tail);
        assert forall|j: int| 0 <= j < spec_join(ws).len() implies #[trigger] spec_join(ws)[j]
            != '\n' by {
            if j < h.len() {
                assert(spec_join(ws)[j] == h[j]);
                assert(!is_space(h[j]));
            } else if j == h.len() {
                assert(spec_join(ws)[j] == ' ');
            } else {
                assert(spec_join(ws)[j] == tail[j - h.len() - 1]);
            }
        }
    }
}

/// Splitting is the inverse of joining, for good words.
pub proof fn lemma_words_join(ws: Seq<Seq<char>>)
    requires
        forall|i: int| 0 <= i < ws.len() ==> good_word(#[trigger] ws[i]),
    ensures
        spec_words(spec_join(ws)) =~= ws,
    decreases ws.len(),
{
    if ws.len() == 0 {
    } else if ws.len() == 1 {
        let w = ws[0];
        assert(good_word(w));
        lemma_leading_word_all(w);
        assert(spec_join(ws) == w);
        assert(!is_space(w[0]));
        assert(w.skip(w.len() as int) =~= Seq::<char>::empty());
        assert(spec_words(w) =~= seq![w] + spec_words(Seq::<char>::empty()));
        assert(spec_words(w) =~= seq![w]);
        assert(seq![w] =~= ws);
    } else {
        let w = ws[0];
        let rest = ws.drop_first();
        assert(good_word(w));
        let j = spec_join(ws);
        let t = seq![' '] + spec_join(rest);
        assert(j =~= w + t);
        assert(is_space(t[0]));
        lemma_leading_word_concat(w, t);
        assert(leading_word(j) =~= w);
        assert(!is_space(j[0]));
        assert(j.skip(w.len() as int) =~= t);
        assert(spec_words(j) =~= seq![w] + spec_words(t));
        assert(t.drop_first() =~= spec_join(rest));
        assert(spec_words(t) == spec_words(spec_join(rest)));
        lemma_words_join(rest);
        assert(seq![w] + rest =~= ws);
    }
}

/// Every word produced by splitting is non-empty and whitespace-free.
pub proof fn lemma_words_good(s: Seq<char>)
    ensures
        forall|i: int| 0 <= i < spec_words(s).len() ==> good_word(#[trigger] spec_words(s)[i]),
    decreases s.len(),
{
    if s.len() == 0 {
    } else if is_space(s[0]) {
        lemma_words_good(s.drop_first());
        assert forall|i: int| 0 <= i < spec_words(s).len() implies good_word(
            #[trigger] spec_words(s)[i],
        ) by {
            assert(spec_words(s)[i] == spec_words(s.drop_first())[i]);
        }
    } else {
        lemma_leading_word_props(s);
        let l = leading_word(s);
        assert(l.len() > 0);
        assert(forall|i: int| 0 <= i < l.len() ==> !is_space(l[i]));
        assert(good_word(l));
        lemma_words_good(s.skip(l.len() as int));
        assert forall|i: int| 0 <= i < spec_words(s).len() implies good_word(
            #[trigger] spec_words(s)[i],
        ) by {
            if i == 0 {
                assert(spec_words(s)[0] == l);
            } else {
                assert(spec_words(s)[i] == spec_words(s.skip(l.len() as int))[i - 1]);
            }
        }
    }
}

/// Splits a slice into its whitespace-separated words.
pub fn split_words(s: &[char]) -> (r: Vec<Vec<char>>)
    ensures
        r.deep_view() == spec_words(s@),
{
    let mut r: Vec<Vec<char>> = Vec::new();
    let mut i: usize = 0;
    proof {
        assert(s@.skip(0) =~= s@);
        assert(r.deep_view() =~= Seq::<Seq<char>>::empty());
    }
    while i < s.len()
        invariant
            0 <= i <= s@.len(),
            spec_words(s@) =~= r.deep_view() + spec_words(s@.skip(i as int)),
        decreases s@.len() - i,
    {
        if space_char(s[i]) {
            proof {
                assert(s@.skip(i as int).drop_first() =~= s@.skip(i as int + 1));
            }
            i += 1;
        } else {
            let start = i;
            let mut w: Vec<char> = Vec::new();
            while i < s.len() && !space_char(s[i])
                invariant
                    start <= i <= s@.len(),
                    forall|j: int| start <= j < i ==> !is_space(s@[j]),
                    w@ =~= s@.subrange(start as int, i as int),
                decreases s@.len() - i,
            {
                w.push(s[i]);
                i += 1;
            }
            proof {
                let tail = s@.skip(start as int);
                assert(tail =~= w@ + s@.skip(i as int));
                if i < s@.len() {
                    lemma_leading_word_concat(w@, s@.skip(i as int));
                } else {
                    assert(s@.skip(i as int).len() == 0);
                    assert(tail =~= w@);
                    lemma_leading_word_all(w@);
                }
                assert(leading_word(tail) =~= w@);
                assert(!is_space(tail[0]));
                assert(tail.skip(w@.len() as int) =~= s@.skip(i as int));
                assert(spec_words(tail) =~= seq![w@] + spec_words(s@.skip(i as int)));
            }
            let ghost old_deep = r.deep_view();
            let ghost old_rv = r@;
            let ghost wv = w@;
            r.push(w);
            proof {
                assert forall|k: int| 0 <= k < r.deep_view().len() implies r.deep_view()[k]
                    =~= old_deep.push(wv)[k] by {
                    if k < old_deep.len() {
                        assert(r@[k] == old_rv[k]);
                        assert(r.deep_view()[k] == r@[k].deep_view());
                        assert(old_deep[k] == old_rv[k].deep_view());
                    } else {
                        assert(r@[k].deep_view() =~= wv);
                    }
                }
                assert(r.deep_view() =~= old_deep.push(wv));
                assert(old_deep.push(wv) + spec_words(s@.skip(i as int)) =~= old_deep + (seq![wv]
                    + spec_words(s@.skip(i as int))));
            }
        }
    }
    proof {
        assert(s@.skip(i as int).len() == 0);
        assert(spec_words(s@.skip(i as int)) =~= Seq::<Seq<char>>::empty());
        assert(r.deep_view() =~= spec_words(s@));
    }
    r
}

/// Joins words with single spaces.
pub fn join_words(ws: &Vec<Vec<char>>) -> (r: Vec<char>)
    ensures
        r@ == spec_join(ws.deep_view()),
{
    let mut r: Vec<char> = Vec::new();
    let mut i: usize = 0;
    while i < ws.len()
        invariant
            0 <= i <= ws@.len(),
            ws.deep_view().len() == ws@.len(),
            r@ =~= spec_join(ws.deep_view().take(i as int)),
        decreases ws@.len() - i,
    {
        if i > 0 {
            r.push(' ');
        }
        let mut j: usize = 0;
        let w = &ws[i];
        while j < w.len()
            invariant
                0 <= j <= w@.len(),
                w@ == ws@[i as int]@,
                i < ws@.len(),
                ws.deep_view().len() == ws@.len(),
                r@ =~= if i == 0 {
                    w@.take(j as int)
                } else {
                    spec_join(ws.deep_view().take(i as int)) + seq![' '] + w@.take(j as int)
                },
            decreases w@.len() - j,
        {
            r.push(w[j]);
            j += 1;
        }
        proof {
            let dv = ws.deep_view();
            assert(dv[i as int] == ws@[i as int]@);
            assert(dv.take(i as int).push(dv[i as int]) =~= dv.take(i as int + 1));
            lemma_join_push(dv.take(i as int), dv[i as int]);
            assert(w@.take(w@.len() as int) =~= w@);
        }
        i += 1;
    }
    proof {
        assert(ws.deep_view().take(ws@.len() as int) =~= ws.deep_view());
    }
    r
}

/// Converts a string slice to the vector of its characters.
pub fn str_to_chars(s: &str) -> (r: Vec<char>)
    ensures
        r@ == s@,
{
    let n = s.unicode_len();
    let mut r: Vec<char> = Vec::new();
    let mut i: usize = 0;
    while i < n
        invariant
            0 <= i <= n,
            n == s@.len(),
            r@ =~= s@.take(i as int),
        decreases n - i,
    {
        r.push(s.get_char(i));
        i += 1;
    }
    proof {
        assert(s@.take(n as int) =~= s@);
    }
    r
}

/// Copies the characters of a slice from the given position on.
pub fn skip_chars(s: &[char], n: usize) -> (r: Vec<char>)
    requires
        n <= s@.len(),
    ensures
        r@ == s@.skip(n as int),
{
    let mut r: Vec<char> = Vec::new();
    let mut j: usize = n;
    while j < s.len()
        invariant
            n <= j <= s@.len(),
            r@ =~= s@.subrange(n as int, j as int),
        decreases s@.len() - j,
    {
        r.push(s[j]);
        j += 1;
    }
    proof {
        assert(r@ =~= s@.skip(n as int));
    }
    r
}

/// Copies a slice with the characters of positions `i` to `j` left out.
pub fn remove_range(s: &[char], i: usize, j: usize) -> (r: Vec<char>)
    requires
        i <= j <= s@.len(),
    ensures
        r@ == s@.take(i as int) + s@.skip(j as int),
{
    let mut r: Vec<char> = Vec::new();
    let mut k: usize = 0;
    while k < i
        invariant
            0 <= k <= i <= s@.len(),
            r@ =~= s@.subrange(0, k as int),
        decreases i - k,
    {
        r.push(s[k]);
        k += 1;
    }
    let mut m: usize = j;
    while m < s.len()
        invariant
            i <= j <= m <= s@.len(),
            r@ =~= s@.subrange(0, i as int) + s@.subrange(j as int, m as int),
        decreases s@.len() - m,
    {
        r.push(s[m]);
        m += 1;
    }
    proof {
        assert(r@ =~= s@.take(i as int) + s@.skip(j as int));
    }
    r
}

/// Appends the characters of a slice to a vector.
pub fn push_chars(out: &mut Vec<char>, s: &[char])
    ensures
        final(out)@ == old(out)@ + s@,
{
    let ghost out0 = out@;
    let mut i: usize = 0;
    while i < s.len()
        invariant
            0 <= i <= s@.len(),
            out@ =~= out0 + s@.take(i as int),
        decreases s@.len() - i,
    {
        out.push(s[i]);
        i += 1;
    }
    proof {
        assert(out@ =~= out0 + s@);
    }
}

/// Appends the characters of a string slice to a vector.
pub fn push_str_chars(out: &mut Vec<char>, s: &str)
    ensures
        final(out)@ == old(out)@ + s@,
{
    let ghost out0 = out@;
    let n = s.unicode_len();
    let mut i: usize = 0;
    while i < n
        invariant
            0 <= i <= n,
            n == s@.len(),
            out@ =~= out0 + s@.take(i as int),
        decreases n - i,
    {
        out.push(s.get_char(i));
        i += 1;
    }
    proof {
        assert(out@ =~= out0 + s@);
        assert(out0 == old(out)@);
    }
}

/// Builds the string holding exactly the given characters.
/// Relies on `String`'s `FromIterator` implementation (through
/// `Iterator::collect`): the collected string holds the iterated
/// characters in order.
#[verifier::external_body]
pub fn chars_to_string(v: &Vec<char>) -> (r: String)
    ensures
        r@ == v@,
{
    v.iter().collect()
}

} // verus!
