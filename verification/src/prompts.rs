//! Framing for prompt files. A prompt file may open with a metadata
//! block between two `---` fences; this module finds the fences and
//! hands back the trimmed block and body. What the block's text means
//! is the surrounding application's business — it decodes it with its
//! own tools — but whether a file has a block, and where, is decided
//! and proved here.

use vstd::prelude::*;
use vstd::multiset::Multiset;

use crate::text::spec_trim;
use crate::text::str_to_chars;
use crate::text::trim_chars;
use crate::text::chars_to_string;
use crate::text::push_str_chars;
use crate::text::trim_start_rec;
use crate::text::trim_end_rec;
use crate::text::is_space;
use crate::text::copy_range;
use crate::text::skip_chars;

verus! {

/// Whether a `---` fence starts at position `i`.
pub open spec fn fence_at(s: Seq<char>, i: int) -> bool {
    0 <= i && i + 3 <= s.len() && s[i] == '-' && s[i + 1] == '-' && s[i + 2] == '-'
}

/// The position of the first fence at or after `i`, if any.
pub open spec fn find_fence(s: Seq<char>, i: int) -> Option<int>
    decreases s.len() - i,
{
    if i < 0 || i + 3 > s.len() {
        None
    } else if fence_at(s, i) {
        Some(i)
    } else {
        find_fence(s, i + 1)
    }
}

/// How a prompt file splits at its fences: the trimmed metadata block
/// and the trimmed body, or nothing when the file has no block — no
/// opening fence, text before the first fence, or no closing fence.
pub open spec fn spec_split_frontmatter(s: Seq<char>) -> Option<(Seq<char>, Seq<char>)> {
    match find_fence(s, 0) {
        None => None,
        Some(i0) => {
            if spec_trim(s.take(i0)).len() != 0 {
                None
            } else {
                match find_fence(s, i0 + 3) {
                    None => None,
                    Some(i1) => Some(
                        (spec_trim(s.subrange(i0 + 3, i1)), spec_trim(s.skip(i1 + 3))),
                    ),
                }
            }
        },
    }
}

proof fn lemma_find_fence_some(s: Seq<char>, j: int)
    ensures
        find_fence(s, j) matches Some(i) ==> j <= i && fence_at(s, i),
    decreases s.len() - j,
{
    if !(j < 0 || j + 3 > s.len()) && !fence_at(s, j) {
        lemma_find_fence_some(s, j + 1);
    }
}

fn fence_at_exec(s: &[char], i: usize) -> (r: bool)
    requires
        i + 3 <= s@.len(),
    ensures
        r == fence_at(s@, i as int),
{
    s[i] == '-' && s[i + 1] == '-' && s[i + 2] == '-'
}

fn find_fence_exec(s: &[char], from: usize) -> (r: Option<usize>)
    requires
        from <= s@.len(),
    ensures
        match r {
            Some(i) => find_fence(s@, from as int) == Some(i as int),
            None => find_fence(s@, from as int) is None,
        },
{
    if s.len() < 3 || from > s.len() - 3 {
        return None;
    }
    let mut i: usize = from;
    while i <= s.len() - 3
        invariant
            s@.len() >= 3,
            from <= i <= s@.len() - 3 + 1,
            find_fence(s@, from as int) == find_fence(s@, i as int),
        decreases s@.len() - i,
    {
        if fence_at_exec(s, i) {
            return Some(i);
        }
        i += 1;
    }
    None
}

/// Splits a prompt file at its metadata fences, if it has them.
pub fn split_frontmatter(content: &str) -> (r: Option<(String, String)>)
    ensures
        match r {
            Some(p) => spec_split_frontmatter(content@) == Some((p.0@, p.1@)),
            None => spec_split_frontmatter(content@) is None,
        },
{
    let chars = str_to_chars(content);
    let i0 = match find_fence_exec(chars.as_slice(), 0) {
        Some(i) => i,
        None => {
            return None;
        },
    };
    proof {
        lemma_find_fence_some(chars@, 0);
        assert(fence_at(chars@, i0 as int));
        assert(i0 + 3 <= chars@.len());
    }
    let head = copy_range(chars.as_slice(), 0, i0);
    let head_trimmed = trim_chars(head.as_slice());
    if head_trimmed.len() != 0 {
        proof {
            assert(chars@.take(i0 as int) =~= head@);
        }
        return None;
    }
    proof {
        assert(chars@.take(i0 as int) =~= head@);
    }
    let i1 = match find_fence_exec(chars.as_slice(), i0 + 3) {
        Some(i) => i,
        None => {
            return None;
        },
    };
    proof {
        lemma_find_fence_some(chars@, i0 as int + 3);
        assert(fence_at(chars@, i1 as int));
        assert(i0 + 3 <= i1 && i1 + 3 <= chars@.len());
    }
    let block = copy_range(chars.as_slice(), i0 + 3, i1);
    let block_trimmed = trim_chars(block.as_slice());
    let body = skip_chars(chars.as_slice(), i1 + 3);
    let body_trimmed = trim_chars(body.as_slice());
    proof {
        assert(chars@.subrange(i0 as int + 3, i1 as int) =~= block@);
        assert(chars@.skip(i1 as int + 3) =~= body@);
    }
    Some((chars_to_string(&block_trimmed), chars_to_string(&body_trimmed)))
}

/// What the prompt listing orders by: when a prompt was last used,
/// and its title.
#[derive(Clone, Debug, PartialEq)]
pub struct PromptEntry {
    pub id: String,
    pub title: String,
    pub last_used: Option<u64>,
    pub use_count: u64,
}

/// The mathematical value of a listing entry.
#[verifier::ext_equal]
pub struct PromptEntryModel {
    pub id: Seq<char>,
    pub title: Seq<char>,
    pub last_used: Option<u64>,
    pub use_count: u64,
}

impl View for PromptEntry {
    type V = PromptEntryModel;

    open spec fn view(&self) -> PromptEntryModel {
        PromptEntryModel {
            id: self.id@,
            title: self.title@,
            last_used: self.last_used,
            use_count: self.use_count,
        }
    }
}

impl DeepView for PromptEntry {
    type V = PromptEntryModel;

    open spec fn deep_view(&self) -> PromptEntryModel {
        self.view()
    }
}

/// Lexicographic order on character sequences, by code point, shorter
/// prefixes first.
pub open spec fn lex_le(a: Seq<char>, b: Seq<char>) -> bool
    decreases a.len(),
{
    if a.len() == 0 {
        true
    } else if b.len() == 0 {
        false
    } else if (a[0] as u32) < (b[0] as u32) {
        true
    } else if (a[0] as u32) > (b[0] as u32) {
        false
    } else {
        lex_le(a.drop_first(), b.drop_first())
    }
}

/// Any two sequences compare one way or the other.
pub proof fn lemma_lex_total(a: Seq<char>, b: Seq<char>)
    ensures
        lex_le(a, b) || lex_le(b, a),
    decreases a.len(),
{
    if a.len() > 0 && b.len() > 0 && (a[0] as u32) == (b[0] as u32) {
        lemma_lex_total(a.drop_first(), b.drop_first());
    }
}

/// The order is transitive.
pub proof fn lemma_lex_trans(a: Seq<char>, b: Seq<char>, c: Seq<char>)
    requires
        lex_le(a, b),
        lex_le(b, c),
    ensures
        lex_le(a, c),
    decreases a.len(),
{
    if a.len() > 0 && b.len() > 0 && c.len() > 0 && (a[0] as u32) == (b[0] as u32) && (
    b[0] as u32) == (c[0] as u32) {
        lemma_lex_trans(a.drop_first(), b.drop_first(), c.drop_first());
    }
}

/// How the listing orders prompts: most recently used first, prompts
/// never used after all used ones, those sorted by title.
pub open spec fn prompt_le(a: PromptEntryModel, b: PromptEntryModel) -> bool {
    match (a.last_used, b.last_used) {
        (Some(x), Some(y)) => x >= y,
        (Some(x), None) => true,
        (None, Some(y)) => false,
        (None, None) => lex_le(a.title, b.title),
    }
}

pub proof fn lemma_prompt_le_total(a: PromptEntryModel, b: PromptEntryModel)
    ensures
        prompt_le(a, b) || prompt_le(b, a),
{
    if a.last_used is None && b.last_used is None {
        lemma_lex_total(a.title, b.title);
    }
}

pub proof fn lemma_prompt_le_trans(a: PromptEntryModel, b: PromptEntryModel, c: PromptEntryModel)
    requires
        prompt_le(a, b),
        prompt_le(b, c),
    ensures
        prompt_le(a, c),
{
    if a.last_used is None && b.last_used is None && c.last_used is None {
        lemma_lex_trans(a.title, b.title, c.title);
    }
}

/// Compares two titles, character by character.
fn lex_le_exec(a: &str, b: &str) -> (r: bool)
    ensures
        r == lex_le(a@, b@),
{
    let an = a.unicode_len();
    let bn = b.unicode_len();
    let mut i: usize = 0;
    proof {
        assert(a@.skip(0) =~= a@);
        assert(b@.skip(0) =~= b@);
    }
    while i < an && i < bn
        invariant
            0 <= i <= an,
            0 <= i <= bn,
            an == a@.len(),
            bn == b@.len(),
            lex_le(a@, b@) == lex_le(a@.skip(i as int), b@.skip(i as int)),
        decreases an - i,
    {
        let ca = a.get_char(i);
        let cb = b.get_char(i);
        let ghost ta = a@.skip(i as int);
        let ghost tb = b@.skip(i as int);
        proof {
            assert(ta[0] == a@[i as int]);
            assert(tb[0] == b@[i as int]);
            assert(ta.drop_first() =~= a@.skip(i as int + 1));
            assert(tb.drop_first() =~= b@.skip(i as int + 1));
        }
        if (ca as u32) < (cb as u32) {
            return true;
        }
        if (ca as u32) > (cb as u32) {
            return false;
        }
        proof {
            assert(ca == cb);
        }
        i += 1;
    }
    proof {
        if i >= an {
            assert(a@.skip(i as int).len() == 0);
        } else {
            assert(b@.skip(i as int).len() == 0);
            assert(a@.skip(i as int).len() > 0);
        }
    }
    i >= an
}

/// Compares two listing entries under the listing's order.
fn prompt_le_exec(a: &PromptEntry, b: &PromptEntry) -> (r: bool)
    ensures
        r == prompt_le(a@, b@),
{
    match (a.last_used, b.last_used) {
        (Some(x), Some(y)) => x >= y,
        (Some(_), None) => true,
        (None, Some(_)) => false,
        (None, None) => lex_le_exec(a.title.as_str(), b.title.as_str()),
    }
}

/// Sorts a prompt listing: most recently used first, never-used
/// prompts last in title order. The same entries come back, as a
/// multiset.
pub fn sort_prompt_entries(entries: Vec<PromptEntry>) -> (r: Vec<PromptEntry>)
    ensures
        forall|a: int, b: int|
            0 <= a < b < r.deep_view().len() ==> prompt_le(
                #[trigger] r.deep_view()[a],
                #[trigger] r.deep_view()[b],
            ),
        r.deep_view().to_multiset() == entries.deep_view().to_multiset(),
{
    let ghost target = entries.deep_view().to_multiset();
    let mut src = entries;
    let mut out: Vec<PromptEntry> = Vec::new();
    proof {
        out.deep_view().to_multiset_ensures();
        assert(out.deep_view().to_multiset() =~= Multiset::<PromptEntryModel>::empty());
        assert(out.deep_view().to_multiset().add(src.deep_view().to_multiset()) =~= target);
    }
    while src.len() > 0
        invariant
            out.deep_view().to_multiset().add(src.deep_view().to_multiset()) =~= target,
            forall|a: int, b: int|
                0 <= a < b < out.deep_view().len() ==> prompt_le(
                    #[trigger] out.deep_view()[a],
                    #[trigger] out.deep_view()[b],
                ),
            forall|a: int, b: int|
                0 <= a < out.deep_view().len() && 0 <= b < src.deep_view().len() ==> prompt_le(
                    #[trigger] out.deep_view()[a],
                    #[trigger] src.deep_view()[b],
                ),
        decreases src@.len(),
    {
        let mut mi: usize = 0;
        let mut j: usize = 1;
        proof {
            assert(src.deep_view()[0] == src@[0].deep_view());
            lemma_prompt_le_total(src.deep_view()[0], src.deep_view()[0]);
        }
        while j < src.len()
            invariant
                0 <= mi < src@.len(),
                1 <= j <= src@.len(),
                src.deep_view().len() == src@.len(),
                forall|k: int| 0 <= k < src.deep_view().len() ==> src.deep_view()[k] == #[trigger] src@[k].deep_view(),
                forall|k: int|
                    0 <= k < j ==> prompt_le(
                        src.deep_view()[mi as int],
                        #[trigger] src.deep_view()[k],
                    ),
            decreases src@.len() - j,
        {
            let ghost pre_mi = mi as int;
            if !prompt_le_exec(&src[mi], &src[j]) {
                proof {
                    lemma_prompt_le_total(src.deep_view()[mi as int], src.deep_view()[j as int]);
                    assert(prompt_le(src.deep_view()[j as int], src.deep_view()[pre_mi]));
                    assert forall|k: int| 0 <= k < j implies prompt_le(
                        src.deep_view()[j as int],
                        #[trigger] src.deep_view()[k],
                    ) by {
                        lemma_prompt_le_trans(
                            src.deep_view()[j as int],
                            src.deep_view()[pre_mi],
                            src.deep_view()[k],
                        );
                    }
                }
                mi = j;
            }
            proof {
                lemma_prompt_le_total(src.deep_view()[j as int], src.deep_view()[j as int]);
                assert(prompt_le(src.deep_view()[mi as int], src.deep_view()[j as int]));
            }
            j += 1;
        }
        let ghost pre_src = src.deep_view();
        let ghost pre_out = out.deep_view();
        let picked = src.remove(mi);
        let ghost pickedv = picked.deep_view();
        out.push(picked);
        proof {
            pre_src.to_multiset_ensures();
            pre_out.to_multiset_ensures();
            lemma_deep_view_prompt_push(pre_out, out@, pickedv);
            assert(out.deep_view() =~= pre_out.push(pickedv));
            lemma_deep_view_prompt_remove(pre_src, src@, mi as int);
            assert(src.deep_view() =~= pre_src.remove(mi as int));
            assert(pre_src[mi as int] == pickedv);
            assert(pre_src.remove(mi as int).to_multiset() =~= pre_src.to_multiset().remove(
                pickedv,
            ));
            assert(pre_out.push(pickedv).to_multiset() =~= pre_out.to_multiset().insert(pickedv));
            assert(pre_src.to_multiset().count(pickedv) > 0) by {
                assert(pre_src.contains(pickedv)) by {
                    assert(pre_src[mi as int] == pickedv);
                }
            }
            assert(out.deep_view().to_multiset().add(src.deep_view().to_multiset()) =~= target);
            assert forall|b: int| 0 <= b < src.deep_view().len() implies prompt_le(
                pickedv,
                #[trigger] src.deep_view()[b],
            ) by {
                if b < mi {
                    assert(src.deep_view()[b] == pre_src[b]);
                } else {
                    assert(src.deep_view()[b] == pre_src[b + 1]);
                }
            }
        }
    }
    proof {
        assert(src.deep_view() =~= Seq::<PromptEntryModel>::empty());
        src.deep_view().to_multiset_ensures();
        assert(src.deep_view().to_multiset() =~= Multiset::<PromptEntryModel>::empty());
        assert(out.deep_view().to_multiset() =~= target);
    }
    out
}

proof fn lemma_deep_view_prompt_push(
    pre: Seq<PromptEntryModel>,
    post: Seq<PromptEntry>,
    x: PromptEntryModel,
)
    requires
        pre.len() + 1 == post.len(),
        forall|k: int| 0 <= k < pre.len() ==> pre[k] == #[trigger] post[k].deep_view(),
        post.last().deep_view() == x,
    ensures
        Seq::new(post.len(), |i: int| post[i].deep_view()) =~= pre.push(x),
{
}

proof fn lemma_deep_view_prompt_remove(
    pre: Seq<PromptEntryModel>,
    post: Seq<PromptEntry>,
    i: int,
)
    requires
        0 <= i < pre.len(),
        pre.len() == post.len() + 1,
        forall|k: int| 0 <= k < post.len() ==> #[trigger] post[k].deep_view() == pre.remove(i)[k],
    ensures
        Seq::new(post.len(), |k: int| post[k].deep_view()) =~= pre.remove(i),
{
}

/// The framed text of a prompt file: a fence line, the metadata
/// block, a closing fence, a blank line, then the body.
pub open spec fn spec_frame(block: Seq<char>, body: Seq<char>) -> Seq<char> {
    "---\n"@ + block + "\n---\n\n"@ + body
}

/// Frames a metadata block and body into a prompt file's text.
pub fn build_frontmatter(block: &str, body: &str) -> (r: String)
    ensures
        r@ == spec_frame(block@, body@),
{
    let mut out: Vec<char> = Vec::new();
    push_str_chars(&mut out, "---\n");
    push_str_chars(&mut out, block);
    push_str_chars(&mut out, "\n---\n\n");
    push_str_chars(&mut out, body);
    proof {
        assert(out@ =~= spec_frame(block@, body@));
    }
    chars_to_string(&out)
}

proof fn lemma_find_fence_is(s: Seq<char>, j: int, t: int)
    requires
        0 <= j <= t,
        fence_at(s, t),
        forall|i: int| j <= i < t ==> !fence_at(s, i),
    ensures
        find_fence(s, j) == Some(t),
    decreases t - j,
{
    if j < t {
        lemma_find_fence_is(s, j + 1, t);
    }
}

/// Trailing whitespace never changes a trim.
proof fn lemma_trim_push_space(w: Seq<char>, c: char)
    requires
        is_space(c),
    ensures
        spec_trim(w.push(c)) == spec_trim(w),
    decreases w.len(),
{
    if w.len() == 0 {
        assert(w.push(c) =~= seq![c]);
        assert(seq![c].drop_first() =~= Seq::<char>::empty());
        assert(trim_start_rec(Seq::<char>::empty()) == Seq::<char>::empty());
        assert(is_space(seq![c][0]));
        assert(trim_start_rec(seq![c]).len() == 0);
        assert(trim_end_rec(Seq::<char>::empty()) == Seq::<char>::empty());
    } else if is_space(w[0]) {
        assert(w.push(c).drop_first() =~= w.drop_first().push(c));
        assert(trim_start_rec(w.push(c)) == trim_start_rec(w.drop_first().push(c)));
        lemma_trim_push_space(w.drop_first(), c);
        assert(trim_start_rec(w) == trim_start_rec(w.drop_first()));
    } else {
        assert(trim_start_rec(w.push(c)) == w.push(c));
        assert(w.push(c).last() == c);
        assert(w.push(c).drop_last() =~= w);
        assert(trim_end_rec(w.push(c)) == trim_end_rec(w));
        assert(trim_start_rec(w) == w);
    }
}

/// Round trip: a framed prompt file splits back into its trimmed
/// block and trimmed body, as long as the block carries no fence of
/// its own.
#[verifier::rlimit(100)]
#[verifier::spinoff_prover]
pub proof fn lemma_frontmatter_round_trip(block: Seq<char>, body: Seq<char>)
    requires
        forall|i: int| !fence_at(block, i),
    ensures
        spec_split_frontmatter(spec_frame(block, body)) == Some(
            (spec_trim(block), spec_trim(body)),
        ),
{
    reveal_strlit("---\n");
    reveal_strlit("\n---\n\n");
    let s = spec_frame(block, body);
    let b = block.len() as int;
    assert("---\n"@.len() == 4);
    assert("\n---\n\n"@.len() == 6);
    assert(s.len() == 10 + b + body.len());
    assert forall|i: int| 0 <= i < 4 implies s[i] == "---\n"@[i] by {}
    assert forall|i: int| 0 <= i < b implies s[4 + i] == block[i] by {}
    assert forall|i: int| 0 <= i < 6 implies s[4 + b + i] == "\n---\n\n"@[i] by {}
    assert forall|i: int| 0 <= i < body.len() implies s[10 + b + i] == body[i] by {}
    // The opening fence.
    assert(s[0] == '-' && s[1] == '-' && s[2] == '-');
    assert(fence_at(s, 0));
    assert(find_fence(s, 0) == Some(0int));
    assert(s.take(0) =~= Seq::<char>::empty());
    assert(trim_start_rec(Seq::<char>::empty()) == Seq::<char>::empty());
    assert(spec_trim(s.take(0)).len() == 0);
    // The closing fence, and none between.
    assert(s[5 + b] == '-' && s[6 + b] == '-' && s[7 + b] == '-');
    assert(fence_at(s, 5 + b));
    assert(s[3] == '\n');
    assert(s[4 + b] == '\n');
    assert forall|i: int| 3 <= i < 5 + b implies !fence_at(s, i) by {
        if fence_at(s, i) {
            if i == 3 {
                assert(s[3] == '-');
            } else if i + 3 <= 4 + b {
                assert(block[i - 4] == s[i]);
                assert(block[i - 4 + 1] == s[i + 1]);
                assert(block[i - 4 + 2] == s[i + 2]);
                assert(fence_at(block, i - 4));
            } else if i <= 4 + b {
                assert(i <= 4 + b < i + 3);
                assert(s[4 + b] == '-');
            }
        }
    }
    lemma_find_fence_is(s, 3, 5 + b);
    // The block comes back trimmed.
    let piece = s.subrange(3, 5 + b);
    assert(piece =~= seq!['\n'] + block.push('\n'));
    assert((seq!['\n'] + block.push('\n')).drop_first() =~= block.push('\n'));
    assert(trim_start_rec(piece) == trim_start_rec(block.push('\n')));
    assert(spec_trim(piece) == spec_trim(block.push('\n')));
    lemma_trim_push_space(block, '\n');
    assert(spec_trim(piece) == spec_trim(block));
    // The body comes back trimmed.
    let tail = s.skip(8 + b);
    assert(tail =~= seq!['\n'] + (seq!['\n'] + body));
    assert((seq!['\n'] + (seq!['\n'] + body)).drop_first() =~= seq!['\n'] + body);
    assert((seq!['\n'] + body).drop_first() =~= body);
    assert(is_space(tail[0]));
    assert(trim_start_rec(tail) == trim_start_rec(seq!['\n'] + body));
    assert(is_space((seq!['\n'] + body)[0]));
    assert(trim_start_rec(seq!['\n'] + body) == trim_start_rec(body));
    assert(trim_start_rec(tail) == trim_start_rec(body));
    assert(spec_trim(tail) == spec_trim(body));
}

} // verus!
