//! The watcher's pure half. The running watcher hands every debounce
//! window's raw events to `process_events`, which classifies each path
//! against the tracked roots, drops duplicates, and decides which
//! semantic notifications to emit; the surrounding application only
//! performs the emissions and file reads it is told about.

use vstd::prelude::*;
use vstd::multiset::Multiset;

use crate::text::chars_to_string;
use crate::text::skip_chars;
use crate::text::str_to_chars;

verus! {

/// What a note event carries to the interface.
#[derive(Clone, Debug, PartialEq)]
pub struct NoteEventPayload {
    pub path: String,
    pub name: String,
    pub title: Option<String>,
    pub modified: Option<u64>,
}

/// A full, freshly sorted note listing.
#[derive(Clone, Debug, PartialEq)]
pub struct NoteListPayload {
    pub notes: Vec<NoteEventPayload>,
}

/// The mathematical value of a note payload.
#[verifier::ext_equal]
pub struct PayloadModel {
    pub path: Seq<char>,
    pub name: Seq<char>,
    pub title: Option<Seq<char>>,
    pub modified: Option<u64>,
}

impl View for NoteEventPayload {
    type V = PayloadModel;

    open spec fn view(&self) -> PayloadModel {
        PayloadModel {
            path: self.path@,
            name: self.name@,
            title: self.title.deep_view(),
            modified: self.modified,
        }
    }
}

impl DeepView for NoteEventPayload {
    type V = PayloadModel;

    open spec fn deep_view(&self) -> PayloadModel {
        self.view()
    }
}

/// The low-level change kinds the watcher distinguishes.
#[derive(PartialEq, Eq, Structural, Clone, Copy, Debug)]
pub enum FsEventKind {
    Create,
    Modify,
    Remove,
    Other,
}

/// One raw filesystem event, as handed in by the debouncer.
#[derive(Clone, Debug, PartialEq)]
pub struct RawEvent {
    pub kind: FsEventKind,
    pub path: String,
}

/// The mathematical value of a raw event.
#[verifier::ext_equal]
pub struct EventModel {
    pub kind: FsEventKind,
    pub path: Seq<char>,
}

impl View for RawEvent {
    type V = EventModel;

    open spec fn view(&self) -> EventModel {
        EventModel { kind: self.kind, path: self.path@ }
    }
}

impl DeepView for RawEvent {
    type V = EventModel;

    open spec fn deep_view(&self) -> EventModel {
        self.view()
    }
}

/// The tracked roots: the notes folder, the prompts folder, and the
/// single todo file at the vault root.
pub struct WatcherRoots {
    pub notes_dir: String,
    pub prompts_dir: String,
    pub todo_file: String,
}

/// The mathematical value of the roots.
#[verifier::ext_equal]
pub struct RootsModel {
    pub notes_dir: Seq<char>,
    pub prompts_dir: Seq<char>,
    pub todo_file: Seq<char>,
}

impl View for WatcherRoots {
    type V = RootsModel;

    open spec fn view(&self) -> RootsModel {
        RootsModel {
            notes_dir: self.notes_dir@,
            prompts_dir: self.prompts_dir@,
            todo_file: self.todo_file@,
        }
    }
}

/// A semantic notification the application must emit, or a read it
/// must perform.
#[derive(Clone, Debug, PartialEq)]
pub enum WatcherAction {
    NoteCreated(String),
    NoteUpdated(String),
    NoteDeleted(String),
    RefreshNoteList,
    TodoCollectionChanged,
}

/// The mathematical value of an action.
#[verifier::ext_equal]
pub enum ActionModel {
    NoteCreated(Seq<char>),
    NoteUpdated(Seq<char>),
    NoteDeleted(Seq<char>),
    RefreshNoteList,
    TodoCollectionChanged,
}

impl View for WatcherAction {
    type V = ActionModel;

    open spec fn view(&self) -> ActionModel {
        match self {
            WatcherAction::NoteCreated(p) => ActionModel::NoteCreated(p@),
            WatcherAction::NoteUpdated(p) => ActionModel::NoteUpdated(p@),
            WatcherAction::NoteDeleted(p) => ActionModel::NoteDeleted(p@),
            WatcherAction::RefreshNoteList => ActionModel::RefreshNoteList,
            WatcherAction::TodoCollectionChanged => ActionModel::TodoCollectionChanged,
        }
    }
}

impl DeepView for WatcherAction {
    type V = ActionModel;

    open spec fn deep_view(&self) -> ActionModel {
        self.view()
    }
}

// ---------------------------------------------------------------------
// Paths as character sequences.
// ---------------------------------------------------------------------
/// Whether `p` is a prefix of `s`.
pub open spec fn is_prefix(p: Seq<char>, s: Seq<char>) -> bool {
    p.len() <= s.len() && s.subrange(0, p.len() as int) == p
}

/// Checks a prefix, character by character.
pub fn starts_with_chars(s: &[char], p: &[char]) -> (r: bool)
    ensures
        r == is_prefix(p@, s@),
{
    if p.len() > s.len() {
        proof {
            assert(!is_prefix(p@, s@));
        }
        return false;
    }
    let mut i: usize = 0;
    while i < p.len()
        invariant
            0 <= i <= p@.len() <= s@.len(),
            forall|j: int| 0 <= j < i ==> s@[j] == p@[j],
        decreases p@.len() - i,
    {
        if s[i] != p[i] {
            proof {
                assert(s@.subrange(0, p@.len() as int)[i as int] == s@[i as int]);
            }
            return false;
        }
        i += 1;
    }
    proof {
        assert(s@.subrange(0, p@.len() as int) =~= p@);
    }
    true
}

/// Whether a path lies inside a root, matched by prefix — the check
/// the application runs on resolved paths before it deletes anything.
pub fn path_in_root(root: &str, path: &str) -> (r: bool)
    ensures
        r == is_prefix(root@, path@),
{
    let rc = str_to_chars(root);
    let pc = str_to_chars(path);
    starts_with_chars(pc.as_slice(), rc.as_slice())
}

/// The position of the first `/` at or after `i`, or the length.
pub open spec fn find_slash(s: Seq<char>, i: int) -> int
    decreases s.len() - i,
{
    if i < 0 || i >= s.len() {
        s.len() as int
    } else if s[i] == '/' {
        i
    } else {
        find_slash(s, i + 1)
    }
}

/// The part of a path after its last separator.
pub open spec fn spec_file_name(s: Seq<char>) -> Seq<char>
    decreases s.len(),
    via spec_file_name_decreases
{
    if s.len() == 0 {
        s
    } else {
        let j = find_slash(s, 0);
        if j == s.len() {
            s
        } else {
            spec_file_name(s.skip(j + 1))
        }
    }
}

proof fn lemma_find_slash_bounds(s: Seq<char>, i: int)
    requires
        0 <= i <= s.len(),
    ensures
        i <= find_slash(s, i) <= s.len(),
        find_slash(s, i) < s.len() ==> s[find_slash(s, i)] == '/',
        forall|j: int| i <= j < find_slash(s, i) ==> s[j] != '/',
    decreases s.len() - i,
{
    if i < s.len() && s[i] != '/' {
        lemma_find_slash_bounds(s, i + 1);
    }
}

#[via_fn]
proof fn spec_file_name_decreases(s: Seq<char>) {
    if s.len() > 0 {
        lemma_find_slash_bounds(s, 0);
    }
}

/// The file name is the suffix after the last separator.
proof fn lemma_file_name_at(s: Seq<char>, k: int)
    requires
        0 <= k <= s.len(),
        k == 0 || s[k - 1] == '/',
        forall|j: int| k <= j < s.len() ==> s[j] != '/',
    ensures
        spec_file_name(s) =~= s.skip(k),
    decreases s.len(),
{
    if s.len() == 0 {
    } else {
        lemma_find_slash_bounds(s, 0);
        let j = find_slash(s, 0);
        if j == s.len() {
            assert(k == 0) by {
                if k > 0 {
                    assert(s[k - 1] == '/');
                }
            }
            assert(s.skip(0) =~= s);
        } else {
            assert(j < k);
            let t = s.skip(j + 1);
            lemma_file_name_at(t, k - j - 1);
            assert(t.skip(k - j - 1) =~= s.skip(k));
        }
    }
}

/// The position of the last `.`, or -1 when there is none.
pub open spec fn last_dot(s: Seq<char>) -> int
    decreases s.len(),
{
    if s.len() == 0 {
        -1
    } else if s.last() == '.' {
        s.len() - 1
    } else {
        last_dot(s.drop_last())
    }
}

proof fn lemma_last_dot_at(s: Seq<char>, d: int)
    requires
        0 <= d < s.len(),
        s[d] == '.',
        forall|j: int| d < j < s.len() ==> s[j] != '.',
    ensures
        last_dot(s) == d,
    decreases s.len(),
{
    if s.last() != '.' {
        lemma_last_dot_at(s.drop_last(), d);
    }
}

proof fn lemma_last_dot_none(s: Seq<char>)
    requires
        forall|j: int| 0 <= j < s.len() ==> s[j] != '.',
    ensures
        last_dot(s) == -1,
    decreases s.len(),
{
    if s.len() > 0 {
        lemma_last_dot_none(s.drop_last());
    }
}

/// Whether a path's file name carries the note extension. As with the
/// platform's extension rule, a lone leading dot opens no extension.
pub open spec fn has_md_ext(path: Seq<char>) -> bool {
    let n = spec_file_name(path);
    let d = last_dot(n);
    d > 0 && n.skip(d + 1) == seq!['m', 'd']
}

/// Finds where the file name starts.
fn file_name_start(s: &[char]) -> (r: usize)
    ensures
        r <= s@.len(),
        spec_file_name(s@) == s@.skip(r as int),
{
    let mut k: usize = s.len();
    while k > 0 && s[k - 1] != '/'
        invariant
            0 <= k <= s@.len(),
            forall|j: int| k <= j < s@.len() ==> s@[j] != '/',
        decreases k,
    {
        k -= 1;
    }
    proof {
        lemma_file_name_at(s@, k as int);
    }
    k
}

/// Checks the note extension on a path.
pub fn has_md_ext_exec(path: &[char]) -> (r: bool)
    ensures
        r == has_md_ext(path@),
{
    let start = file_name_start(path);
    let ghost n = spec_file_name(path@);
    let mut d: usize = path.len();
    while d > start && path[d - 1] != '.'
        invariant
            start <= d <= path@.len(),
            forall|j: int| d <= j < path@.len() ==> path@[j] != '.',
        decreases d,
    {
        d -= 1;
    }
    if d == start {
        // No dot in the file name.
        proof {
            assert forall|j: int| 0 <= j < n.len() implies n[j] != '.' by {
                assert(n[j] == path@[start + j]);
            }
            lemma_last_dot_none(n);
        }
        false
    } else {
        let dot = d - 1;
        proof {
            assert(path@[dot as int] == '.');
            assert(n[dot - start] == path@[dot as int]);
            assert forall|j: int| dot - start < j < n.len() implies n[j] != '.' by {
                assert(n[j] == path@[start + j]);
            }
            lemma_last_dot_at(n, dot - start);
        }
        if dot == start {
            // A lone leading dot opens no extension.
            false
        } else {
            let r = path.len() - dot == 3 && path[dot + 1] == 'm' && path[dot + 2] == 'd';
            proof {
                let ext = n.skip(dot - start + 1);
                assert(ext.len() == path@.len() - dot - 1);
                if path@.len() == dot + 3 && path@[dot + 1] == 'm' && path@[dot + 2] == 'd' {
                    assert(ext =~= seq!['m', 'd']);
                } else {
                    if ext.len() == 2 {
                        assert(ext[0] == path@[dot + 1] && ext[1] == path@[dot + 2]);
                        if ext == seq!['m', 'd'] {
                            assert(path@[dot + 1] == 'm' && path@[dot + 2] == 'd');
                        }
                    } else {
                        assert(ext.len() != 2);
                        assert(ext != seq!['m', 'd']) by {
                            if ext == seq!['m', 'd'] {
                                assert(ext.len() == 2);
                            }
                        }
                    }
                }
            }
            r
        }
    }
}

/// The title a note takes from its file name: the name without its
/// extension, or a fixed fallback for an empty name.
pub open spec fn spec_title_of(path: Seq<char>) -> Seq<char> {
    let n = spec_file_name(path);
    if n.len() == 0 {
        seq!['U', 'n', 't', 'i', 't', 'l', 'e', 'd']
    } else {
        let d = last_dot(n);
        if d > 0 {
            n.take(d)
        } else {
            n
        }
    }
}

/// Reads a note's title from its path.
pub fn extract_title_from_filename(path: &str) -> (r: String)
    ensures
        r@ == spec_title_of(path@),
{
    let chars = str_to_chars(path);
    let start = file_name_start(chars.as_slice());
    let ghost n = spec_file_name(path@);
    let name = skip_chars(chars.as_slice(), start);
    if name.len() == 0 {
        let mut v: Vec<char> = Vec::new();
        v.push('U');
        v.push('n');
        v.push('t');
        v.push('i');
        v.push('t');
        v.push('l');
        v.push('e');
        v.push('d');
        proof {
            assert(v@ =~= spec_title_of(path@));
        }
        return chars_to_string(&v);
    }
    let mut d: usize = name.len();
    while d > 0 && name[d - 1] != '.'
        invariant
            0 <= d <= name@.len(),
            forall|j: int| d <= j < name@.len() ==> name@[j] != '.',
        decreases d,
    {
        d -= 1;
    }
    if d > 1 {
        proof {
            lemma_last_dot_at(name@, d - 1);
        }
        let stem = crate::text::copy_range(name.as_slice(), 0, d - 1);
        proof {
            assert(stem@ =~= n.take(d - 1));
        }
        chars_to_string(&stem)
    } else {
        proof {
            if d == 0 {
                lemma_last_dot_none(name@);
            } else {
                lemma_last_dot_at(name@, 0);
            }
        }
        chars_to_string(&name)
    }
}

/// The file-name part of a path, as a string.
pub fn file_name_string(path: &str) -> (r: String)
    ensures
        r@ == spec_file_name(path@),
{
    let chars = str_to_chars(path);
    let start = file_name_start(chars.as_slice());
    let name = skip_chars(chars.as_slice(), start);
    chars_to_string(&name)
}

// ---------------------------------------------------------------------
// Classification.
// ---------------------------------------------------------------------
/// What one raw event means. The todo file is matched by exact path,
/// whatever its extension; note files must lie under the notes root
/// and carry the note extension; everything else — prompt files
/// included, whose events the write and delete commands already
/// emit — is ignored.
pub open spec fn classify(roots: RootsModel, e: EventModel) -> Option<ActionModel> {
    if e.path == roots.todo_file {
        if e.kind == FsEventKind::Modify || e.kind == FsEventKind::Create {
            Some(ActionModel::TodoCollectionChanged)
        } else {
            None
        }
    } else if !has_md_ext(e.path) {
        None
    } else if is_prefix(roots.notes_dir, e.path) {
        match e.kind {
            FsEventKind::Create => Some(ActionModel::NoteCreated(e.path)),
            FsEventKind::Modify => Some(ActionModel::NoteUpdated(e.path)),
            FsEventKind::Remove => Some(ActionModel::NoteDeleted(e.path)),
            FsEventKind::Other => None,
        }
    } else {
        None
    }
}

/// Walks the events of one debounce window: note actions accumulate
/// once per distinct action, a todo-file hit sets one flag.
pub open spec fn gather(roots: RootsModel, evs: Seq<EventModel>, acc: Seq<ActionModel>, todo: bool)
    -> (Seq<ActionModel>, bool)
    decreases evs.len(),
{
    if evs.len() == 0 {
        (acc, todo)
    } else {
        match classify(roots, evs[0]) {
            None => gather(roots, evs.drop_first(), acc, todo),
            Some(a) => {
                if a == ActionModel::TodoCollectionChanged {
                    gather(roots, evs.drop_first(), acc, true)
                } else if acc.contains(a) {
                    gather(roots, evs.drop_first(), acc, todo)
                } else {
                    gather(roots, evs.drop_first(), acc.push(a), todo)
                }
            },
        }
    }
}

/// What one debounce window emits: the deduplicated note actions in
/// first-occurrence order, one list refresh if any note changed, and
/// one todo-collection signal if the todo file changed.
pub open spec fn spec_process(roots: RootsModel, evs: Seq<EventModel>) -> Seq<ActionModel> {
    let g = gather(roots, evs, Seq::empty(), false);
    g.0 + (if g.0.len() > 0 {
        seq![ActionModel::RefreshNoteList]
    } else {
        Seq::empty()
    }) + (if g.1 {
        seq![ActionModel::TodoCollectionChanged]
    } else {
        Seq::empty()
    })
}

fn action_eq(a: &WatcherAction, b: &WatcherAction) -> (r: bool)
    ensures
        r == (a@ == b@),
{
    match (a, b) {
        (WatcherAction::NoteCreated(p), WatcherAction::NoteCreated(q)) => p.eq(q),
        (WatcherAction::NoteUpdated(p), WatcherAction::NoteUpdated(q)) => p.eq(q),
        (WatcherAction::NoteDeleted(p), WatcherAction::NoteDeleted(q)) => p.eq(q),
        (WatcherAction::RefreshNoteList, WatcherAction::RefreshNoteList) => true,
        (WatcherAction::TodoCollectionChanged, WatcherAction::TodoCollectionChanged) => true,
        _ => false,
    }
}

fn actions_contain(acc: &Vec<WatcherAction>, a: &WatcherAction) -> (r: bool)
    ensures
        r == acc.deep_view().contains(a@),
{
    let mut i: usize = 0;
    while i < acc.len()
        invariant
            0 <= i <= acc@.len(),
            forall|j: int| 0 <= j < i ==> acc.deep_view()[j] != a@,
        decreases acc@.len() - i,
    {
        proof {
            assert(acc.deep_view()[i as int] == acc@[i as int].deep_view());
        }
        if action_eq(&acc[i], a) {
            proof {
                assert(acc.deep_view().contains(a@)) by {
                    assert(acc.deep_view()[i as int] == a@);
                }
            }
            return true;
        }
        i += 1;
    }
    proof {
        if acc.deep_view().contains(a@) {
            let j = choose|j: int| 0 <= j < acc.deep_view().len() && acc.deep_view()[j] == a@;
            assert(false);
        }
    }
    false
}

fn classify_exec(roots: &WatcherRoots, e: &RawEvent) -> (r: Option<WatcherAction>)
    ensures
        r.deep_view() == classify(roots@, e@),
{
    let path_chars = str_to_chars(e.path.as_str());
    if e.path == roots.todo_file {
        match e.kind {
            FsEventKind::Modify => Some(WatcherAction::TodoCollectionChanged),
            FsEventKind::Create => Some(WatcherAction::TodoCollectionChanged),
            _ => None,
        }
    } else if !has_md_ext_exec(path_chars.as_slice()) {
        None
    } else {
        let notes_chars = str_to_chars(roots.notes_dir.as_str());
        if starts_with_chars(path_chars.as_slice(), notes_chars.as_slice()) {
            match e.kind {
                FsEventKind::Create => Some(WatcherAction::NoteCreated(e.path.clone())),
                FsEventKind::Modify => Some(WatcherAction::NoteUpdated(e.path.clone())),
                FsEventKind::Remove => Some(WatcherAction::NoteDeleted(e.path.clone())),
                FsEventKind::Other => None,
            }
        } else {
            None
        }
    }
}

/// Turns one debounce window's raw events into the notifications to
/// emit, deduplicated as `spec_process` states.
pub fn process_events(roots: &WatcherRoots, events: &Vec<RawEvent>) -> (r: Vec<WatcherAction>)
    ensures
        r.deep_view() == spec_process(roots@, events.deep_view()),
{
    let ghost evm = events.deep_view();
    let mut acc: Vec<WatcherAction> = Vec::new();
    let mut todo: bool = false;
    let mut i: usize = 0;
    proof {
        assert(evm.skip(0) =~= evm);
        assert(acc.deep_view() =~= Seq::<ActionModel>::empty());
    }
    while i < events.len()
        invariant
            0 <= i <= events@.len(),
            evm == events.deep_view(),
            evm.len() == events@.len(),
            gather(roots@, evm, Seq::empty(), false) == gather(
                roots@,
                evm.skip(i as int),
                acc.deep_view(),
                todo,
            ),
        decreases events@.len() - i,
    {
        let ghost pre = acc.deep_view();
        let ghost tsuf = evm.skip(i as int);
        let e = &events[i];
        proof {
            assert(evm[i as int] == events@[i as int].deep_view());
            assert(tsuf[0] == evm[i as int]);
            assert(tsuf.drop_first() =~= evm.skip(i as int + 1));
        }
        match classify_exec(roots, e) {
            None => {},
            Some(a) => {
                let ghost am = a@;
                match &a {
                    WatcherAction::TodoCollectionChanged => {
                        todo = true;
                    },
                    _ => {
                        proof {
                            assert(am != ActionModel::TodoCollectionChanged);
                        }
                        if !actions_contain(&acc, &a) {
                            acc.push(a);
                            proof {
                                lemma_deep_view_actions(pre, acc@, am);
                                assert(acc.deep_view() =~= pre.push(am));
                            }
                        }
                    },
                }
            },
        }
        i += 1;
    }
    proof {
        assert(evm.skip(evm.len() as int) =~= Seq::<EventModel>::empty());
        assert(gather(roots@, evm, Seq::empty(), false) == (acc.deep_view(), todo));
    }
    let ghost g = gather(roots@, evm, Seq::empty(), false);
    let mut out = acc;
    if out.len() > 0 {
        let ghost pre = out.deep_view();
        out.push(WatcherAction::RefreshNoteList);
        proof {
            lemma_deep_view_actions(pre, out@, ActionModel::RefreshNoteList);
            assert(out.deep_view() =~= pre.push(ActionModel::RefreshNoteList));
        }
    }
    if todo {
        let ghost pre = out.deep_view();
        out.push(WatcherAction::TodoCollectionChanged);
        proof {
            lemma_deep_view_actions(pre, out@, ActionModel::TodoCollectionChanged);
            assert(out.deep_view() =~= pre.push(ActionModel::TodoCollectionChanged));
        }
    }
    proof {
        assert(out.deep_view() =~= spec_process(roots@, evm));
    }
    out
}

proof fn lemma_deep_view_actions(pre: Seq<ActionModel>, post: Seq<WatcherAction>, x: ActionModel)
    requires
        pre.len() + 1 == post.len(),
        forall|k: int| 0 <= k < pre.len() ==> pre[k] == #[trigger] post[k].deep_view(),
        post.last().deep_view() == x,
    ensures
        Seq::new(post.len(), |i: int| post[i].deep_view()) =~= pre.push(x),
{
}

// ---------------------------------------------------------------------
// The window's laws.
// ---------------------------------------------------------------------
/// Once gathered, repeated occurrences of the same action change
/// nothing.
proof fn lemma_gather_absorbs(
    roots: RootsModel,
    evs: Seq<EventModel>,
    acc: Seq<ActionModel>,
    todo: bool,
    a: ActionModel,
)
    requires
        acc.contains(a),
        a != ActionModel::TodoCollectionChanged,
        forall|i: int| 0 <= i < evs.len() ==> classify(roots, #[trigger] evs[i]) == Some(a),
    ensures
        gather(roots, evs, acc, todo) == (acc, todo),
    decreases evs.len(),
{
    if evs.len() > 0 {
        assert(classify(roots, evs[0]) == Some(a));
        lemma_gather_absorbs(roots, evs.drop_first(), acc, todo, a);
        assert(gather(roots, evs, acc, todo) == gather(roots, evs.drop_first(), acc, todo));
    }
}

/// Coalescing: however many raw modifications of one tracked note a
/// debounce window holds, it emits exactly one update for that note
/// and exactly one list refresh — never one per raw event.
pub proof fn lemma_burst_coalesced(roots: RootsModel, evs: Seq<EventModel>, p: Seq<char>)
    requires
        evs.len() > 0,
        forall|i: int|
            0 <= i < evs.len() ==> #[trigger] evs[i] == (EventModel {
                kind: FsEventKind::Modify,
                path: p,
            }),
        p != roots.todo_file,
        has_md_ext(p),
        is_prefix(roots.notes_dir, p),
    ensures
        spec_process(roots, evs) =~= seq![
            ActionModel::NoteUpdated(p),
            ActionModel::RefreshNoteList,
        ],
{
    let a = ActionModel::NoteUpdated(p);
    assert(classify(roots, evs[0]) == Some(a));
    let acc1 = Seq::<ActionModel>::empty().push(a);
    assert(acc1.contains(a)) by {
        assert(acc1[0] == a);
    }
    assert(!Seq::<ActionModel>::empty().contains(a));
    assert forall|i: int| 0 <= i < evs.drop_first().len() implies classify(
        roots,
        #[trigger] evs.drop_first()[i],
    ) == Some(a) by {
        assert(evs.drop_first()[i] == evs[i + 1]);
    }
    lemma_gather_absorbs(roots, evs.drop_first(), acc1, false, a);
    assert(gather(roots, evs, Seq::empty(), false) == (acc1, false));
    assert(spec_process(roots, evs) =~= acc1 + seq![ActionModel::RefreshNoteList]);
}

/// A change with the wrong extension inside the notes root is no
/// event at all.
pub proof fn lemma_wrong_extension_ignored(roots: RootsModel, e: EventModel)
    requires
        e.path != roots.todo_file,
        !has_md_ext(e.path),
    ensures
        classify(roots, e) is None,
        spec_process(roots, seq![e]) =~= Seq::<ActionModel>::empty(),
{
    assert(seq![e][0] == e);
    assert(seq![e].drop_first() =~= Seq::<EventModel>::empty());
    assert(gather(roots, Seq::<EventModel>::empty(), Seq::<ActionModel>::empty(), false) == (
    Seq::<ActionModel>::empty(),
        false,
    ));
    assert(gather(roots, seq![e], Seq::empty(), false) == (Seq::<ActionModel>::empty(), false));
    let g = gather(roots, seq![e], Seq::empty(), false);
    assert(g.0.len() == 0 && !g.1);
    assert(spec_process(roots, seq![e]) =~= Seq::<ActionModel>::empty());
}

/// A change to the todo file yields only the collection-changed
/// signal: no note event and no list refresh, whatever the file's
/// extension or position.
pub proof fn lemma_todo_file_signal(roots: RootsModel, e: EventModel)
    requires
        e.path == roots.todo_file,
        e.kind == FsEventKind::Modify || e.kind == FsEventKind::Create,
    ensures
        spec_process(roots, seq![e]) =~= seq![ActionModel::TodoCollectionChanged],
{
    assert(seq![e][0] == e);
    assert(seq![e].drop_first() =~= Seq::<EventModel>::empty());
    assert(classify(roots, e) == Some(ActionModel::TodoCollectionChanged));
    assert(gather(roots, Seq::<EventModel>::empty(), Seq::<ActionModel>::empty(), true) == (
    Seq::<ActionModel>::empty(),
        true,
    ));
    assert(gather(roots, seq![e], Seq::empty(), false) == (Seq::<ActionModel>::empty(), true));
    let g = gather(roots, seq![e], Seq::empty(), false);
    assert(g.0.len() == 0 && g.1);
    assert(spec_process(roots, seq![e]) =~= Seq::<ActionModel>::empty() + Seq::<
        ActionModel,
    >::empty() + seq![ActionModel::TodoCollectionChanged]);
}

// ---------------------------------------------------------------------
// Building and sorting the note listing.
// ---------------------------------------------------------------------
/// The payload of a created or updated note, from its path and
/// modification time.
pub fn make_note_payload(path: String, modified: u64) -> (r: NoteEventPayload)
    ensures
        r@.path == path@,
        r@.name == spec_file_name(path@),
        r@.title == Some(spec_title_of(path@)),
        r@.modified == Some(modified),
{
    let name = file_name_string(path.as_str());
    let title = extract_title_from_filename(path.as_str());
    NoteEventPayload { path, name, title: Some(title), modified: Some(modified) }
}

/// The payload of a deleted note: no title, no modification time.
pub fn deleted_note_payload(path: String) -> (r: NoteEventPayload)
    ensures
        r@.path == path@,
        r@.name == spec_file_name(path@),
        r@.title is None,
        r@.modified is None,
{
    let name = file_name_string(path.as_str());
    NoteEventPayload { path, name, title: None, modified: None }
}

/// The sort key of the listing: the modification time, with absent
/// times oldest.
pub open spec fn mod_key(p: PayloadModel) -> u64 {
    match p.modified {
        Some(m) => m,
        None => 0,
    }
}

fn mod_key_exec(p: &NoteEventPayload) -> (r: u64)
    ensures
        r == mod_key(p@),
{
    match p.modified {
        Some(m) => m,
        None => 0,
    }
}

/// Sorts a note listing newest first. The same notes come back, as a
/// multiset, ordered by descending modification time.
pub fn sort_notes_by_modified_desc(notes: Vec<NoteEventPayload>) -> (r: Vec<NoteEventPayload>)
    ensures
        forall|a: int, b: int|
            0 <= a < b < r.deep_view().len() ==> mod_key(#[trigger] r.deep_view()[a]) >= mod_key(
                #[trigger] r.deep_view()[b],
            ),
        r.deep_view().to_multiset() == notes.deep_view().to_multiset(),
{
    let ghost target = notes.deep_view().to_multiset();
    let mut src = notes;
    let mut out: Vec<NoteEventPayload> = Vec::new();
    proof {
        out.deep_view().to_multiset_ensures();
        assert(out.deep_view().to_multiset() =~= Multiset::<PayloadModel>::empty());
        assert(out.deep_view().to_multiset().add(src.deep_view().to_multiset()) =~= target);
    }
    while src.len() > 0
        invariant
            out.deep_view().to_multiset().add(src.deep_view().to_multiset()) =~= target,
            forall|a: int, b: int|
                0 <= a < b < out.deep_view().len() ==> mod_key(#[trigger] out.deep_view()[a])
                    >= mod_key(#[trigger] out.deep_view()[b]),
            forall|a: int, b: int|
                0 <= a < out.deep_view().len() && 0 <= b < src.deep_view().len() ==> mod_key(
                    #[trigger] out.deep_view()[a],
                ) >= mod_key(#[trigger] src.deep_view()[b]),
        decreases src@.len(),
    {
        let mut mi: usize = 0;
        let mut mv: u64 = mod_key_exec(&src[0]);
        proof {
            assert(src.deep_view()[0] == src@[0].deep_view());
        }
        let mut j: usize = 1;
        while j < src.len()
            invariant
                0 <= mi < src@.len(),
                1 <= j <= src@.len(),
                src.deep_view().len() == src@.len(),
                mv == mod_key(src.deep_view()[mi as int]),
                forall|k: int| 0 <= k < j ==> mod_key(#[trigger] src.deep_view()[k]) <= mv,
            decreases src@.len() - j,
        {
            proof {
                assert(src.deep_view()[j as int] == src@[j as int].deep_view());
            }
            let v = mod_key_exec(&src[j]);
            if v > mv {
                mi = j;
                mv = v;
            }
            j += 1;
        }
        let ghost pre_src = src.deep_view();
        let ghost pre_out = out.deep_view();
        let picked = src.remove(mi);
        let ghost pickedv = picked.deep_view();
        out.push(picked);
        proof {
            pre_src.to_multiset_ensures();
            pre_out.to_multiset_ensures();
            lemma_deep_view_payload_push(pre_out, out@, pickedv);
            assert(out.deep_view() =~= pre_out.push(pickedv));
            lemma_deep_view_payload_remove(pre_src, src@, mi as int);
            assert(src.deep_view() =~= pre_src.remove(mi as int));
            assert(pre_src[mi as int] == pickedv);
            assert(pre_src.remove(mi as int).to_multiset() =~= pre_src.to_multiset().remove(
                pickedv,
            ));
            assert(pre_out.push(pickedv).to_multiset() =~= pre_out.to_multiset().insert(pickedv));
            assert(pre_src.to_multiset().count(pickedv) > 0) by {
                assert(pre_src.contains(pickedv)) by {
                    assert(pre_src[mi as int] == pickedv);
                }
            }
            assert(out.deep_view().to_multiset().add(src.deep_view().to_multiset()) =~= target);
            assert forall|b: int| 0 <= b < src.deep_view().len() implies mod_key(
                #[trigger] src.deep_view()[b],
            ) <= mod_key(pickedv) by {
                if b < mi {
                    assert(src.deep_view()[b] == pre_src[b]);
                } else {
                    assert(src.deep_view()[b] == pre_src[b + 1]);
                }
            }
        }
    }
    proof {
        assert(src.deep_view() =~= Seq::<PayloadModel>::empty());
        src.deep_view().to_multiset_ensures();
        assert(src.deep_view().to_multiset() =~= Multiset::<PayloadModel>::empty());
        assert(out.deep_view().to_multiset() =~= target);
    }
    out
}

proof fn lemma_deep_view_payload_push(
    pre: Seq<PayloadModel>,
    post: Seq<NoteEventPayload>,
    x: PayloadModel,
)
    requires
        pre.len() + 1 == post.len(),
        forall|k: int| 0 <= k < pre.len() ==> pre[k] == #[trigger] post[k].deep_view(),
        post.last().deep_view() == x,
    ensures
        Seq::new(post.len(), |i: int| post[i].deep_view()) =~= pre.push(x),
{
}

proof fn lemma_deep_view_payload_remove(
    pre: Seq<PayloadModel>,
    post: Seq<NoteEventPayload>,
    i: int,
)
    requires
        0 <= i < pre.len(),
        pre.len() == post.len() + 1,
        forall|k: int| 0 <= k < post.len() ==> #[trigger] post[k].deep_view() == pre.remove(i)[k],
    ensures
        Seq::new(post.len(), |k: int| post[k].deep_view()) =~= pre.remove(i),
{
}

} // verus!
