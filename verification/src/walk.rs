//! The decisions of a recursive directory walk, as a state machine: the
//! caller lists the directories the walk asks for and hands the listings
//! back; the walk collects the files, depth first, and the errors.
use vstd::prelude::*;

use crate::types::{error_views, ProcessingError, ProcessingErrorView};

verus! {

/// The kind of a directory entry.
#[derive(Debug, Clone, Copy, PartialEq, Eq, Structural)]
pub enum EntryKind {
    Dir,
    File,
    Other,
}

/// One entry of a directory listing: a path and its kind, or the error met
/// reading the entry or its kind.
pub enum DirEntryOutcome {
    Entry { path: String, kind: EntryKind },
    Failed(ProcessingError),
}

/// The listing of a directory: its entries in order, or the error met
/// opening it.
pub enum DirListing {
    Unreadable(ProcessingError),
    Listed(Vec<DirEntryOutcome>),
}

/// What the walk needs next.
pub enum WalkStep {
    /// The listing of this directory.
    List(String),
    /// Nothing: call `step` again.
    Continue,
    /// Nothing more: the walk is over.
    Done,
}

/// The mathematical view of a [`DirEntryOutcome`].
pub ghost enum EntryView {
    Entry { path: Seq<char>, kind: EntryKind },
    Failed(ProcessingErrorView),
}

/// The mathematical view of a [`WalkStep`].
pub ghost enum StepView {
    List(Seq<char>),
    Continue,
    Done,
}

impl View for DirEntryOutcome {
    type V = EntryView;

    open spec fn view(&self) -> EntryView {
        match self {
            DirEntryOutcome::Entry { path, kind } => EntryView::Entry { path: path@, kind: *kind },
            DirEntryOutcome::Failed(e) => EntryView::Failed(e@),
        }
    }
}

impl View for WalkStep {
    type V = StepView;

    open spec fn view(&self) -> StepView {
        match self {
            WalkStep::List(p) => StepView::List(p@),
            WalkStep::Continue => StepView::Continue,
            WalkStep::Done => StepView::Done,
        }
    }
}

/// The views of a sequence of entries.
pub open spec fn entry_views(s: Seq<DirEntryOutcome>) -> Seq<EntryView> {
    s.map_values(|e: DirEntryOutcome| e@)
}

/// The state of a walk: the directories to walk, how many of them it has
/// started, the entries still to visit in each directory being walked
/// (the innermost last), and the files and errors found so far.
pub ghost struct WalkView {
    pub roots: Seq<Seq<char>>,
    pub next_root: int,
    pub frames: Seq<Seq<EntryView>>,
    pub files: Seq<Seq<char>>,
    pub errors: Seq<ProcessingErrorView>,
}

/// One step of the walk. In the innermost directory being walked, it
/// visits the next entry: a subdirectory is asked for, a file is
/// collected, an error is recorded, anything else is passed over; a
/// directory with no entry left is left. With no directory being walked, it
/// asks for the next directory to walk, or ends.
pub open spec fn walk_step(w: WalkView) -> (WalkView, StepView) {
    if w.frames.len() > 0 {
        let top = w.frames.last();
        if top.len() == 0 {
            (WalkView { frames: w.frames.drop_last(), ..w }, StepView::Continue)
        } else {
            let rest = w.frames.update(w.frames.len() - 1, top.drop_first());
            match top[0] {
                EntryView::Entry { path, kind } => match kind {
                    EntryKind::Dir => (WalkView { frames: rest, ..w }, StepView::List(path)),
                    EntryKind::File => (
                        WalkView { frames: rest, files: w.files.push(path), ..w },
                        StepView::Continue,
                    ),
                    EntryKind::Other => (WalkView { frames: rest, ..w }, StepView::Continue),
                },
                EntryView::Failed(e) => (
                    WalkView { frames: rest, errors: w.errors.push(e), ..w },
                    StepView::Continue,
                ),
            }
        }
    } else if 0 <= w.next_root < w.roots.len() {
        (WalkView { next_root: w.next_root + 1, ..w }, StepView::List(w.roots[w.next_root]))
    } else {
        (w, StepView::Done)
    }
}

/// The walk after the listing of the directory it asked for: its entries
/// are visited next, or the error opening it is recorded.
pub open spec fn walk_supply(w: WalkView, listing: Result<Seq<EntryView>, ProcessingErrorView>) -> WalkView {
    match listing {
        Ok(entries) => WalkView { frames: w.frames.push(entries), ..w },
        Err(e) => WalkView { errors: w.errors.push(e), ..w },
    }
}

/// A directory walk in progress.
pub struct DirWalk {
    roots: Vec<String>,
    next_root: usize,
    /// The entries still to visit in each directory, last entry first.
    frames: Vec<Vec<DirEntryOutcome>>,
    files: Vec<String>,
    errors: Vec<ProcessingError>,
}

/// The views of a sequence of strings.
pub open spec fn string_views(s: Seq<String>) -> Seq<Seq<char>> {
    s.map_values(|x: String| x@)
}

/// The entries a stored frame still holds, in visiting order.
pub open spec fn frame_view(f: Vec<DirEntryOutcome>) -> Seq<EntryView> {
    entry_views(f@.reverse())
}

impl View for DirWalk {
    type V = WalkView;

    closed spec fn view(&self) -> WalkView {
        WalkView {
            roots: string_views(self.roots@),
            next_root: self.next_root as int,
            frames: self.frames@.map_values(|f: Vec<DirEntryOutcome>| frame_view(f)),
            files: string_views(self.files@),
            errors: error_views(self.errors@),
        }
    }
}

impl DirWalk {
    /// A walk of the directories `dirs`, in order.
    pub fn new(dirs: Vec<String>) -> (w: Self)
        ensures
            w@ == (WalkView {
                roots: string_views(dirs@),
                next_root: 0,
                frames: Seq::empty(),
                files: Seq::empty(),
                errors: Seq::empty(),
            }),
    {
        let w = DirWalk {
            roots: dirs,
            next_root: 0,
            frames: Vec::new(),
            files: Vec::new(),
            errors: Vec::new(),
        };
        assert(w@.frames =~= Seq::<Seq<EntryView>>::empty());
        assert(w@.files =~= Seq::<Seq<char>>::empty());
        assert(w@.errors =~= Seq::<ProcessingErrorView>::empty());
        w
    }

    /// Takes one step of the walk.
    pub fn step(&mut self) -> (s: WalkStep)
        ensures
            (final(self)@, s@) == walk_step(old(self)@),
    {
        let ghost w = self@;
        match self.frames.pop() {
            Some(mut top) => {
                let ghost rest_frames = self.frames@;
                assert(w.frames == rest_frames.map_values(
                    |f: Vec<DirEntryOutcome>| frame_view(f),
                ).push(frame_view(top)));
                let ghost top_before = top@;
                match top.pop() {
                    None => {
                        assert(top_before.len() == 0);
                        assert(self@.frames =~= w.frames.drop_last());
                        WalkStep::Continue
                    },
                    Some(entry) => {
                        proof {
                            assert(top_before == top@.push(entry));
                            assert(top_before.reverse() == seq![entry] + top@.reverse());
                            assert(frame_view(top) == w.frames.last().drop_first());
                            assert(w.frames.last()[0] == entry@);
                        }
                        self.frames.push(top);
                        assert(self@.frames =~= w.frames.update(
                            w.frames.len() - 1,
                            w.frames.last().drop_first(),
                        ));
                        match entry {
                            DirEntryOutcome::Entry { path, kind } => match kind {
                                EntryKind::Dir => WalkStep::List(path),
                                EntryKind::File => {
                                    let ghost before = self.files@;
                                    self.files.push(path);
                                    assert(string_views(self.files@) =~= string_views(
                                        before,
                                    ).push(path@));
                                    WalkStep::Continue
                                },
                                EntryKind::Other => WalkStep::Continue,
                            },
                            DirEntryOutcome::Failed(e) => {
                                let ghost before = self.errors@;
                                self.errors.push(e);
                                assert(error_views(self.errors@) =~= error_views(before).push(e@));
                                WalkStep::Continue
                            },
                        }
                    },
                }
            },
            None => {
                if self.next_root < self.roots.len() {
                    let root = self.roots[self.next_root].clone();
                    assert(root@ == w.roots[w.next_root]);
                    self.next_root = self.next_root + 1;
                    WalkStep::List(root)
                } else {
                    WalkStep::Done
                }
            },
        }
    }

    /// Hands over the listing of the directory the walk asked for.
    pub fn supply(&mut self, listing: DirListing)
        ensures
            final(self)@ == walk_supply(
                old(self)@,
                match listing {
                    DirListing::Listed(v) => Ok(entry_views(v@)),
                    DirListing::Unreadable(e) => Err(e@),
                },
            ),
    {
        match listing {
            DirListing::Unreadable(e) => {
                let ghost before = self.errors@;
                self.errors.push(e);
                assert(error_views(self.errors@) =~= error_views(before).push(e@));
            },
            DirListing::Listed(mut entries) => {
                let ghost original = entries@;
                let mut stored: Vec<DirEntryOutcome> = Vec::new();
                while entries.len() > 0
                    invariant
                        original == entries@ + stored@.reverse(),
                    decreases entries@.len(),
                {
                    let ghost before = entries@;
                    let ghost stored_before = stored@;
                    let e = entries.pop().unwrap();
                    stored.push(e);
                    proof {
                        assert(before == entries@.push(e));
                        assert(stored@.reverse() == seq![e] + stored_before.reverse());
                        assert(original == entries@ + stored@.reverse());
                    }
                }
                assert(entries@.len() == 0);
                assert(original == stored@.reverse());
                let ghost frames_before = self.frames@;
                self.frames.push(stored);
                assert(self@.frames =~= frames_before.map_values(
                    |f: Vec<DirEntryOutcome>| frame_view(f),
                ).push(entry_views(original)));
            },
        }
    }

    /// The files and errors found, in the order the walk found them.
    pub fn into_results(self) -> (r: (Vec<String>, Vec<ProcessingError>))
        ensures
            string_views(r.0@) == self@.files,
            error_views(r.1@) == self@.errors,
    {
        (self.files, self.errors)
    }
}

/// Whether a walk is over: no directory is being walked and every
/// directory to walk has been started.
pub open spec fn walk_done(w: WalkView) -> bool {
    w.frames.len() == 0 && w.next_root >= w.roots.len()
}

/// A walk of the directories `roots` that has not started.
pub open spec fn walk_start(roots: Seq<Seq<char>>) -> WalkView {
    WalkView {
        roots,
        next_root: 0,
        frames: Seq::empty(),
        files: Seq::empty(),
        errors: Seq::empty(),
    }
}

/// One step of a walk driven against a file system that lists each
/// directory as `fs` gives it: the step, then, when the walk asked for a
/// directory, the listing of that directory.
pub open spec fn drive_step(
    w: WalkView,
    fs: spec_fn(Seq<char>) -> Result<Seq<EntryView>, ProcessingErrorView>,
) -> WalkView {
    let (next, step) = walk_step(w);
    match step {
        StepView::List(dir) => walk_supply(next, fs(dir)),
        _ => next,
    }
}

/// The walk after at most `n` steps driven against `fs`, stopping once it
/// is over.
pub open spec fn drive(
    w: WalkView,
    fs: spec_fn(Seq<char>) -> Result<Seq<EntryView>, ProcessingErrorView>,
    n: nat,
) -> WalkView
    decreases n,
{
    if n == 0 || walk_done(w) {
        w
    } else {
        drive(drive_step(w, fs), fs, (n - 1) as nat)
    }
}

/// Whether the position of the next directory to walk lies within the
/// directories.
pub open spec fn walk_wf(w: WalkView) -> bool {
    0 <= w.next_root <= w.roots.len()
}

/// The walk of `w` with the directories `more` to walk after its own.
pub open spec fn with_more_roots(w: WalkView, more: Seq<Seq<char>>) -> WalkView {
    WalkView { roots: w.roots + more, ..w }
}

/// The walk of `w` after a finished walk of the directories `before`, that
/// found `files` and `errors`.
pub open spec fn after_walk(
    w: WalkView,
    before: Seq<Seq<char>>,
    files: Seq<Seq<char>>,
    errors: Seq<ProcessingErrorView>,
) -> WalkView {
    WalkView {
        roots: before + w.roots,
        next_root: before.len() + w.next_root,
        frames: w.frames,
        files: files + w.files,
        errors: errors + w.errors,
    }
}

proof fn lemma_drive_step_wf(
    w: WalkView,
    fs: spec_fn(Seq<char>) -> Result<Seq<EntryView>, ProcessingErrorView>,
)
    requires
        walk_wf(w),
    ensures
        walk_wf(drive_step(w, fs)),
        drive_step(w, fs).roots == w.roots,
{
}

proof fn lemma_drive_wf(
    w: WalkView,
    fs: spec_fn(Seq<char>) -> Result<Seq<EntryView>, ProcessingErrorView>,
    n: nat,
)
    requires
        walk_wf(w),
    ensures
        walk_wf(drive(w, fs, n)),
        drive(w, fs, n).roots == w.roots,
    decreases n,
{
    if n > 0 && !walk_done(w) {
        lemma_drive_step_wf(w, fs);
        lemma_drive_wf(drive_step(w, fs), fs, (n - 1) as nat);
    }
}

proof fn lemma_drive_compose(
    w: WalkView,
    fs: spec_fn(Seq<char>) -> Result<Seq<EntryView>, ProcessingErrorView>,
    n: nat,
    m: nat,
)
    ensures
        drive(w, fs, n + m) == drive(drive(w, fs, n), fs, m),
    decreases n,
{
    if n > 0 && !walk_done(w) {
        lemma_drive_compose(drive_step(w, fs), fs, (n - 1) as nat, m);
        assert((n + m - 1) as nat == ((n - 1) as nat + m) as nat);
    }
}

proof fn lemma_after_walk_step(
    w: WalkView,
    before: Seq<Seq<char>>,
    files: Seq<Seq<char>>,
    errors: Seq<ProcessingErrorView>,
    fs: spec_fn(Seq<char>) -> Result<Seq<EntryView>, ProcessingErrorView>,
)
    requires
        walk_wf(w),
    ensures
        drive_step(after_walk(w, before, files, errors), fs) == after_walk(
            drive_step(w, fs),
            before,
            files,
            errors,
        ),
        walk_done(after_walk(w, before, files, errors)) == walk_done(w),
{
    let lw = after_walk(w, before, files, errors);
    let (next, step) = walk_step(w);
    if w.frames.len() > 0 {
        let top = w.frames.last();
        if top.len() > 0 {
            match top[0] {
                EntryView::Entry { path, kind } => {
                    assert((files + w.files).push(path) == files + w.files.push(path));
                },
                EntryView::Failed(e) => {
                    assert((errors + w.errors).push(e) == errors + w.errors.push(e));
                },
            }
        }
    } else if w.next_root < w.roots.len() {
        assert(lw.roots[lw.next_root] == w.roots[w.next_root]);
    }
    match step {
        StepView::List(dir) => {
            match fs(dir) {
                Ok(entries) => {},
                Err(e) => {
                    assert((errors + next.errors).push(e) == errors + next.errors.push(e));
                },
            }
        },
        _ => {},
    }
}

proof fn lemma_after_walk_drive(
    w: WalkView,
    before: Seq<Seq<char>>,
    files: Seq<Seq<char>>,
    errors: Seq<ProcessingErrorView>,
    fs: spec_fn(Seq<char>) -> Result<Seq<EntryView>, ProcessingErrorView>,
    n: nat,
)
    requires
        walk_wf(w),
    ensures
        drive(after_walk(w, before, files, errors), fs, n) == after_walk(
            drive(w, fs, n),
            before,
            files,
            errors,
        ),
    decreases n,
{
    lemma_after_walk_step(w, before, files, errors, fs);
    if n > 0 && !walk_done(w) {
        lemma_drive_step_wf(w, fs);
        lemma_after_walk_drive(drive_step(w, fs), before, files, errors, fs, (n - 1) as nat);
    }
}

proof fn lemma_more_roots_step(
    w: WalkView,
    more: Seq<Seq<char>>,
    fs: spec_fn(Seq<char>) -> Result<Seq<EntryView>, ProcessingErrorView>,
)
    requires
        walk_wf(w),
        !walk_done(w),
    ensures
        drive_step(with_more_roots(w, more), fs) == with_more_roots(drive_step(w, fs), more),
        !walk_done(with_more_roots(w, more)),
{
    let mw = with_more_roots(w, more);
    if w.frames.len() == 0 {
        assert(mw.roots[w.next_root] == w.roots[w.next_root]);
    }
}

/// Returns how many steps the walk with more directories takes to reach
/// the point where the walk of `w` alone stands after `n` steps.
proof fn lemma_more_roots_drive(
    w: WalkView,
    more: Seq<Seq<char>>,
    fs: spec_fn(Seq<char>) -> Result<Seq<EntryView>, ProcessingErrorView>,
    n: nat,
) -> (k: nat)
    requires
        walk_wf(w),
    ensures
        k <= n,
        drive(with_more_roots(w, more), fs, k) == with_more_roots(drive(w, fs, n), more),
    decreases n,
{
    if n == 0 || walk_done(w) {
        0
    } else {
        lemma_more_roots_step(w, more, fs);
        lemma_drive_step_wf(w, fs);
        let k = lemma_more_roots_drive(drive_step(w, fs), more, fs, (n - 1) as nat);
        assert(((k + 1) as nat - 1) as nat == k);
        (k + 1) as nat
    }
}

/// A walk of no directories is over at once and finds nothing.
pub proof fn lemma_walk_no_roots()
    ensures
        walk_done(walk_start(Seq::empty())),
        walk_start(Seq::empty()).files.len() == 0,
        walk_start(Seq::empty()).errors.len() == 0,
{
}

/// Walking the directories `a` and then `b` finds what walking `a` finds,
/// then what walking `b` finds: when the walks of `a` and of `b` are over
/// after `n1` and `n2` steps against the same file system, the walk of
/// `a + b` is over after `n1 + n2` steps, with their files and their errors
/// one after the other.
pub proof fn lemma_walk_concat(
    a: Seq<Seq<char>>,
    b: Seq<Seq<char>>,
    fs: spec_fn(Seq<char>) -> Result<Seq<EntryView>, ProcessingErrorView>,
    n1: nat,
    n2: nat,
)
    requires
        walk_done(drive(walk_start(a), fs, n1)),
        walk_done(drive(walk_start(b), fs, n2)),
    ensures
        walk_done(drive(walk_start(a + b), fs, n1 + n2)),
        drive(walk_start(a + b), fs, n1 + n2).files == drive(walk_start(a), fs, n1).files + drive(
            walk_start(b),
            fs,
            n2,
        ).files,
        drive(walk_start(a + b), fs, n1 + n2).errors == drive(walk_start(a), fs, n1).errors
            + drive(walk_start(b), fs, n2).errors,
{
    let wa = drive(walk_start(a), fs, n1);
    let wb = drive(walk_start(b), fs, n2);
    lemma_drive_wf(walk_start(a), fs, n1);
    let k = lemma_more_roots_drive(walk_start(a), b, fs, n1);
    assert(with_more_roots(walk_start(a), b) == walk_start(a + b));
    let mid = after_walk(walk_start(b), a, wa.files, wa.errors);
    assert(wa.roots == a);
    assert(wa.next_root == a.len());
    assert(wa.frames =~= Seq::<Seq<EntryView>>::empty());
    assert(wa.files + Seq::<Seq<char>>::empty() =~= wa.files);
    assert(wa.errors + Seq::<ProcessingErrorView>::empty() =~= wa.errors);
    assert(with_more_roots(wa, b) =~= mid);
    lemma_after_walk_drive(walk_start(b), a, wa.files, wa.errors, fs, n2);
    lemma_drive_compose(walk_start(a + b), fs, k, n2);
    let end = after_walk(wb, a, wa.files, wa.errors);
    assert(drive(walk_start(a + b), fs, k + n2) == end);
    assert(walk_done(end));
    lemma_drive_compose(walk_start(a + b), fs, k + n2, (n1 - k) as nat);
    assert((k + n2 + (n1 - k) as nat) as nat == n1 + n2);
    assert(drive(end, fs, (n1 - k) as nat) == end);
}

/// The files found under a directory's entries, depth first, in listing
/// order, when the file system lists each directory as `fs` gives it: a
/// file is found, the files under a subdirectory come in its place, and
/// anything else, or a subdirectory that cannot be listed, adds nothing.
/// `depth` bounds how deep subdirectories are followed.
pub open spec fn entries_files(
    fs: spec_fn(Seq<char>) -> Result<Seq<EntryView>, ProcessingErrorView>,
    entries: Seq<EntryView>,
    depth: nat,
) -> Seq<Seq<char>>
    decreases depth, entries.len(),
{
    if entries.len() == 0 {
        Seq::empty()
    } else {
        let rest = entries_files(fs, entries.drop_first(), depth);
        match entries[0] {
            EntryView::Entry { path, kind } => match kind {
                EntryKind::File => seq![path] + rest,
                EntryKind::Dir => if depth == 0 {
                    rest
                } else {
                    match fs(path) {
                        Ok(sub) => entries_files(fs, sub, (depth - 1) as nat) + rest,
                        Err(_) => rest,
                    }
                },
                EntryKind::Other => rest,
            },
            EntryView::Failed(_) => rest,
        }
    }
}

/// Whether no directory under the entries lies deeper than `depth`: the
/// file system, seen from them, is a finite tree of that depth.
pub open spec fn entries_within(
    fs: spec_fn(Seq<char>) -> Result<Seq<EntryView>, ProcessingErrorView>,
    entries: Seq<EntryView>,
    depth: nat,
) -> bool
    decreases depth, entries.len(),
{
    if entries.len() == 0 {
        true
    } else {
        &&& entries_within(fs, entries.drop_first(), depth)
        &&& match entries[0] {
            EntryView::Entry { path, kind: EntryKind::Dir } => depth > 0 && match fs(path) {
                Ok(sub) => entries_within(fs, sub, (depth - 1) as nat),
                Err(_) => true,
            },
            _ => true,
        }
    }
}

/// The files found under a root directory, depth first.
pub open spec fn root_files(
    fs: spec_fn(Seq<char>) -> Result<Seq<EntryView>, ProcessingErrorView>,
    root: Seq<char>,
    depth: nat,
) -> Seq<Seq<char>> {
    match fs(root) {
        Ok(entries) => entries_files(fs, entries, depth),
        Err(_) => Seq::empty(),
    }
}

/// The files found under the roots from position `r` on, root after root.
pub open spec fn roots_files(
    fs: spec_fn(Seq<char>) -> Result<Seq<EntryView>, ProcessingErrorView>,
    roots: Seq<Seq<char>>,
    r: int,
    depth: nat,
) -> Seq<Seq<char>>
    decreases roots.len() - r,
{
    if r < 0 || r >= roots.len() {
        Seq::empty()
    } else {
        root_files(fs, roots[r], depth) + roots_files(fs, roots, r + 1, depth)
    }
}

/// Whether the roots from position `r` on are trees of depth at most
/// `depth`.
pub open spec fn roots_within(
    fs: spec_fn(Seq<char>) -> Result<Seq<EntryView>, ProcessingErrorView>,
    roots: Seq<Seq<char>>,
    r: int,
    depth: nat,
) -> bool {
    forall|j: int|
        r <= j < roots.len() ==> match fs(#[trigger] roots[j]) {
            Ok(entries) => entries_within(fs, entries, depth),
            Err(_) => true,
        }
}

/// The files still to be found under the directories a walk is in, the
/// innermost first; the directory at nesting level `k` (from 0) has
/// `depth - k` levels left below it.
pub open spec fn frames_files(
    fs: spec_fn(Seq<char>) -> Result<Seq<EntryView>, ProcessingErrorView>,
    frames: Seq<Seq<EntryView>>,
    depth: nat,
) -> Seq<Seq<char>>
    decreases frames.len(),
{
    if frames.len() == 0 {
        Seq::empty()
    } else {
        entries_files(fs, frames.last(), (depth - (frames.len() - 1)) as nat) + frames_files(
            fs,
            frames.drop_last(),
            depth,
        )
    }
}

/// Whether the directories a walk is in lie within the depth.
pub open spec fn frames_within(
    fs: spec_fn(Seq<char>) -> Result<Seq<EntryView>, ProcessingErrorView>,
    frames: Seq<Seq<EntryView>>,
    depth: nat,
) -> bool {
    &&& frames.len() <= depth + 1
    &&& forall|k: int|
        0 <= k < frames.len() ==> entries_within(fs, #[trigger] frames[k], (depth - k) as nat)
}

/// The files a walk has still to find.
pub open spec fn files_to_find(
    w: WalkView,
    fs: spec_fn(Seq<char>) -> Result<Seq<EntryView>, ProcessingErrorView>,
    depth: nat,
) -> Seq<Seq<char>> {
    frames_files(fs, w.frames, depth) + roots_files(fs, w.roots, w.next_root, depth)
}

/// Whether a walk stays within the depth.
pub open spec fn walk_within(
    w: WalkView,
    fs: spec_fn(Seq<char>) -> Result<Seq<EntryView>, ProcessingErrorView>,
    depth: nat,
) -> bool {
    &&& walk_wf(w)
    &&& frames_within(fs, w.frames, depth)
    &&& roots_within(fs, w.roots, w.next_root, depth)
}

proof fn lemma_frames_files_push(
    fs: spec_fn(Seq<char>) -> Result<Seq<EntryView>, ProcessingErrorView>,
    frames: Seq<Seq<EntryView>>,
    top: Seq<EntryView>,
    depth: nat,
)
    ensures
        frames_files(fs, frames.push(top), depth) == entries_files(
            fs,
            top,
            (depth - frames.len()) as nat,
        ) + frames_files(fs, frames, depth),
{
    assert(frames.push(top).drop_last() == frames);
}

/// One step of a walk keeps what it has found together with what it has
/// still to find, and stays within the depth.
proof fn lemma_step_keeps_files(
    w: WalkView,
    fs: spec_fn(Seq<char>) -> Result<Seq<EntryView>, ProcessingErrorView>,
    depth: nat,
)
    requires
        walk_within(w, fs, depth),
        !walk_done(w),
    ensures
        walk_within(drive_step(w, fs), fs, depth),
        drive_step(w, fs).files + files_to_find(drive_step(w, fs), fs, depth) == w.files
            + files_to_find(w, fs, depth),
{
    let w2 = drive_step(w, fs);
    let roots_part = roots_files(fs, w.roots, w.next_root, depth);
    if w.frames.len() > 0 {
        let k = w.frames.len() - 1;
        let top = w.frames.last();
        let lower = w.frames.drop_last();
        let fuel = (depth - k) as nat;
        assert(entries_within(fs, w.frames[k], fuel));
        assert(frames_files(fs, w.frames, depth) == entries_files(fs, top, fuel) + frames_files(
            fs,
            lower,
            depth,
        ));
        if top.len() == 0 {
            assert(w2.frames == lower);
            assert(entries_files(fs, top, fuel) == Seq::<Seq<char>>::empty());
            assert(Seq::<Seq<char>>::empty() + frames_files(fs, lower, depth) == frames_files(
                fs,
                lower,
                depth,
            ));
            assert forall|j: int| 0 <= j < lower.len() implies entries_within(
                fs,
                #[trigger] lower[j],
                (depth - j) as nat,
            ) by {
                assert(lower[j] == w.frames[j]);
            }
        } else {
            let rest = top.drop_first();
            let frames1 = w.frames.update(k, rest);
            assert(frames1.drop_last() == lower);
            assert(frames1.last() == rest);
            assert(frames_files(fs, frames1, depth) == entries_files(fs, rest, fuel)
                + frames_files(fs, lower, depth));
            assert(entries_within(fs, rest, fuel));
            assert forall|j: int| 0 <= j < frames1.len() implies entries_within(
                fs,
                #[trigger] frames1[j],
                (depth - j) as nat,
            ) by {
                if j < k {
                    assert(frames1[j] == w.frames[j]);
                }
            }
            let rest_files = entries_files(fs, rest, fuel);
            let lower_files = frames_files(fs, lower, depth);
            match top[0] {
                EntryView::Entry { path, kind } => match kind {
                    EntryKind::File => {
                        assert(w2.frames == frames1);
                        assert(w2.files == w.files.push(path));
                        assert(entries_files(fs, top, fuel) == seq![path] + rest_files);
                        assert(w.files.push(path) + (rest_files + lower_files + roots_part)
                            == w.files + (seq![path] + rest_files + lower_files + roots_part));
                    },
                    EntryKind::Dir => {
                        assert(fuel > 0);
                        match fs(path) {
                            Ok(sub) => {
                                assert(w2.frames == frames1.push(sub));
                                lemma_frames_files_push(fs, frames1, sub, depth);
                                let sub_files = entries_files(fs, sub, (fuel - 1) as nat);
                                assert((depth - frames1.len()) as nat == (fuel - 1) as nat);
                                assert(entries_files(fs, top, fuel) == sub_files + rest_files);
                                assert(sub_files + (rest_files + lower_files) + roots_part == (
                                sub_files + rest_files) + lower_files + roots_part);
                                assert(entries_within(fs, sub, (fuel - 1) as nat));
                                assert forall|j: int|
                                    0 <= j < w2.frames.len() implies entries_within(
                                    fs,
                                    #[trigger] w2.frames[j],
                                    (depth - j) as nat,
                                ) by {
                                    if j < frames1.len() {
                                        assert(w2.frames[j] == frames1[j]);
                                    } else {
                                        assert(w2.frames[j] == sub);
                                    }
                                }
                            },
                            Err(e) => {
                                assert(w2.frames == frames1);
                                assert(entries_files(fs, top, fuel) == rest_files);
                            },
                        }
                    },
                    EntryKind::Other => {
                        assert(w2.frames == frames1);
                        assert(entries_files(fs, top, fuel) == rest_files);
                    },
                },
                EntryView::Failed(e) => {
                    assert(w2.frames == frames1);
                    assert(entries_files(fs, top, fuel) == rest_files);
                },
            }
        }
    } else {
        let r = w.next_root;
        assert(0 <= r < w.roots.len());
        let root = w.roots[r];
        assert(roots_part == root_files(fs, root, depth) + roots_files(fs, w.roots, r + 1, depth));
        assert(frames_files(fs, w.frames, depth) == Seq::<Seq<char>>::empty());
        match fs(root) {
            Ok(entries) => {
                assert(w2.frames == Seq::<Seq<EntryView>>::empty().push(entries));
                lemma_frames_files_push(fs, Seq::<Seq<EntryView>>::empty(), entries, depth);
                assert(frames_files(fs, Seq::<Seq<EntryView>>::empty(), depth)
                    == Seq::<Seq<char>>::empty());
                assert(frames_files(fs, w2.frames, depth) == entries_files(fs, entries, depth)
                    + Seq::<Seq<char>>::empty());
                assert(entries_within(fs, entries, depth));
                assert(w2.frames[0] == entries);
            },
            Err(e) => {
                assert(w2.frames.len() == 0);
                assert(frames_files(fs, w2.frames, depth) == Seq::<Seq<char>>::empty());
            },
        }
        assert(Seq::<Seq<char>>::empty() + roots_part == roots_part);
    }
}

proof fn lemma_drive_keeps_files(
    w: WalkView,
    fs: spec_fn(Seq<char>) -> Result<Seq<EntryView>, ProcessingErrorView>,
    depth: nat,
    n: nat,
)
    requires
        walk_within(w, fs, depth),
        walk_done(drive(w, fs, n)),
    ensures
        drive(w, fs, n).files == w.files + files_to_find(w, fs, depth),
    decreases n,
{
    if n == 0 || walk_done(w) {
        assert(frames_files(fs, w.frames, depth) == Seq::<Seq<char>>::empty());
        assert(roots_files(fs, w.roots, w.next_root, depth) == Seq::<Seq<char>>::empty());
        assert(w.files + (Seq::<Seq<char>>::empty() + Seq::<Seq<char>>::empty()) == w.files);
    } else {
        lemma_step_keeps_files(w, fs, depth);
        lemma_drive_keeps_files(drive_step(w, fs), fs, depth, (n - 1) as nat);
    }
}

/// A finished walk finds exactly the regular files under its directories,
/// at any depth, depth first in listing order: when every directory under
/// the roots lies within some depth (the file system is a finite tree), the
/// files of a walk that is over are those of `roots_files`.
pub proof fn lemma_walk_finds_tree_files(
    roots: Seq<Seq<char>>,
    fs: spec_fn(Seq<char>) -> Result<Seq<EntryView>, ProcessingErrorView>,
    depth: nat,
    n: nat,
)
    requires
        roots_within(fs, roots, 0, depth),
        walk_done(drive(walk_start(roots), fs, n)),
    ensures
        drive(walk_start(roots), fs, n).files == roots_files(fs, roots, 0, depth),
{
    let w = walk_start(roots);
    assert(frames_files(fs, w.frames, depth) == Seq::<Seq<char>>::empty());
    lemma_drive_keeps_files(w, fs, depth, n);
    assert(Seq::<Seq<char>>::empty() + (Seq::<Seq<char>>::empty() + roots_files(
        fs,
        roots,
        0,
        depth,
    )) == roots_files(fs, roots, 0, depth));
}

} // verus!
