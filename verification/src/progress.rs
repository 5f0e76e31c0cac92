//! Progress of a processing run: the status of every file, the counters
//! that the progress display shows, and the events that update them.
use std::time::Duration;

use vstd::prelude::*;

use crate::decimal::{decimal, format_decimal, is_digit, lemma_decimal_digits};
use crate::text::{
    is_white_space, lemma_lines_concat, lemma_single_line, lemma_trim_of_trimmed, chars_of, copy_range, lines_of, push_str, split_lines, string_from_chars, trim_chars, trim_of,
    views_of,
};
use crate::types::{FileStatus, ProgressSnapshot};

verus! {

broadcast use vstd::string::group_string_axioms;

/// The status of each file, by the display text of its path.
pub struct StatusTable {
    keys: Vec<String>,
    values: Vec<FileStatus>,
}

/// Keys that are pairwise distinct by their text.
pub open spec fn distinct_keys(keys: Seq<String>) -> bool {
    forall|i: int, j: int| 0 <= i < j < keys.len() ==> #[trigger] keys[i]@ != #[trigger] keys[j]@
}

/// The position of `key` among `keys`.
pub open spec fn key_index(keys: Seq<String>, key: Seq<char>) -> int {
    choose|i: int| 0 <= i < keys.len() && keys[i]@ == key
}

/// The map that parallel key and value sequences stand for.
pub open spec fn table_map(keys: Seq<String>, values: Seq<FileStatus>) -> Map<
    Seq<char>,
    FileStatus,
> {
    Map::new(
        |k: Seq<char>| exists|i: int| 0 <= i < keys.len() && keys[i]@ == k,
        |k: Seq<char>| values[key_index(keys, k)],
    )
}

impl StatusTable {
    #[verifier::type_invariant]
    spec fn wf(self) -> bool {
        &&& self.keys@.len() == self.values@.len()
        &&& distinct_keys(self.keys@)
    }
}

impl View for StatusTable {
    type V = Map<Seq<char>, FileStatus>;

    closed spec fn view(&self) -> Map<Seq<char>, FileStatus> {
        table_map(self.keys@, self.values@)
    }
}

/// The position of `key` in `keys`, if it is there.
fn find_key(keys: &Vec<String>, key: &String) -> (r: Option<usize>)
    ensures
        match r {
            Some(i) => i < keys@.len() && keys@[i as int]@ == key@,
            None => forall|i: int| 0 <= i < keys@.len() ==> keys@[i]@ != key@,
        },
{
    let mut i: usize = 0;
    while i < keys.len()
        invariant
            i <= keys@.len(),
            forall|j: int| 0 <= j < i ==> keys@[j]@ != key@,
        decreases keys@.len() - i,
    {
        if keys[i] == *key {
            return Some(i);
        }
        i = i + 1;
    }
    None
}

proof fn lemma_table_update(keys: Seq<String>, values: Seq<FileStatus>, i: int, v: FileStatus)
    requires
        keys.len() == values.len(),
        distinct_keys(keys),
        0 <= i < keys.len(),
    ensures
        table_map(keys, values.update(i, v)) == table_map(keys, values).insert(keys[i]@, v),
{
    let old_map = table_map(keys, values);
    let new_map = table_map(keys, values.update(i, v));
    let keyv = keys[i]@;
    assert forall|k: Seq<char>| #[trigger] new_map.contains_key(k) == old_map.insert(
        keyv,
        v,
    ).contains_key(k) by {}
    assert forall|k: Seq<char>| new_map.contains_key(k) implies #[trigger] new_map[k]
        == old_map.insert(keyv, v)[k] by {
        let j = key_index(keys, k);
        if k == keyv {
            assert(j == i);
        } else {
            assert(j != i);
        }
    }
    assert(new_map =~= old_map.insert(keyv, v));
}

proof fn lemma_table_push(keys: Seq<String>, values: Seq<FileStatus>, key: String, v: FileStatus)
    requires
        keys.len() == values.len(),
        distinct_keys(keys),
        forall|i: int| 0 <= i < keys.len() ==> keys[i]@ != key@,
    ensures
        distinct_keys(keys.push(key)),
        table_map(keys.push(key), values.push(v)) == table_map(keys, values).insert(key@, v),
{
    let nk = keys.push(key);
    let nv = values.push(v);
    let n = keys.len() as int;
    let old_map = table_map(keys, values);
    let new_map = table_map(nk, nv);
    assert(nk[n]@ == key@);
    assert forall|k: Seq<char>| #[trigger] new_map.contains_key(k) == old_map.insert(
        key@,
        v,
    ).contains_key(k) by {
        if k != key@ && new_map.contains_key(k) {
            let j = choose|j: int| 0 <= j < nk.len() && nk[j]@ == k;
            assert(j < n);
            assert(keys[j]@ == k);
        }
        if old_map.contains_key(k) {
            let j = choose|j: int| 0 <= j < keys.len() && keys[j]@ == k;
            assert(nk[j]@ == k);
        }
    }
    assert forall|k: Seq<char>| new_map.contains_key(k) implies #[trigger] new_map[k]
        == old_map.insert(key@, v)[k] by {
        let j = key_index(nk, k);
        if k == key@ {
            assert(j == n);
        } else {
            let j0 = key_index(keys, k);
            assert(nk[j0]@ == k);
            assert(j == j0);
        }
    }
    assert(new_map =~= old_map.insert(key@, v));
}

impl StatusTable {
    /// A table with no entries.
    pub fn new() -> (t: Self)
        ensures
            t@ == Map::<Seq<char>, FileStatus>::empty(),
    {
        let t = StatusTable { keys: Vec::new(), values: Vec::new() };
        assert(t@ =~= Map::<Seq<char>, FileStatus>::empty());
        t
    }

    /// Sets the status of `key`.
    pub fn insert(&mut self, key: String, status: FileStatus)
        ensures
            final(self)@ == old(self)@.insert(key@, status),
    {
        let mut t = StatusTable::new();
        std::mem::swap(&mut t, self);
        proof {
            use_type_invariant(&t);
        }
        let StatusTable { mut keys, mut values } = t;
        match find_key(&keys, &key) {
            Some(i) => {
                proof {
                    lemma_table_update(keys@, values@, i as int, status);
                }
                values.set(i, status);
            },
            None => {
                proof {
                    lemma_table_push(keys@, values@, key, status);
                }
                keys.push(key);
                values.push(status);
            },
        }
        *self = StatusTable { keys, values };
    }

    /// The status of `key`, if it has one.
    pub fn get(&self, key: &str) -> (r: Option<FileStatus>)
        ensures
            match r {
                Some(s) => self@.contains_key(key@) && self@[key@] == s,
                None => !self@.contains_key(key@),
            },
    {
        proof {
            use_type_invariant(self);
        }
        let k = key.to_string();
        match find_key(&self.keys, &k) {
            Some(i) => {
                assert(key_index(self.keys@, key@) == i);
                Some(self.values[i])
            },
            None => None,
        }
    }
}

/// A change in the progress of one file.
#[derive(Debug)]
pub enum ProgressEvent {
    Started { path: String },
    Finished { path: String, status: FileStatus, processing_time: Duration, error_count: usize },
    Skipped { path: String, reason: String },
}

/// The state of a processing run.
pub struct ProgressState {
    pub total: usize,
    pub done: usize,
    pub errors: usize,
    pub skipped: usize,
    pub in_progress: usize,
    pub statuses: StatusTable,
    pub cancelled: bool,
}

impl Default for ProgressState {
    fn default() -> (s: Self)
        ensures
            s.total == 0,
            s.done == 0,
            s.errors == 0,
            s.skipped == 0,
            s.in_progress == 0,
            s.statuses@ == Map::<Seq<char>, FileStatus>::empty(),
            !s.cancelled,
    {
        ProgressState {
            total: 0,
            done: 0,
            errors: 0,
            skipped: 0,
            in_progress: 0,
            statuses: StatusTable::new(),
            cancelled: false,
        }
    }
}

/// The statuses with every path of `paths` marked pending.
pub open spec fn all_pending(
    statuses: Map<Seq<char>, FileStatus>,
    paths: Seq<String>,
) -> Map<Seq<char>, FileStatus>
    decreases paths.len(),
{
    if paths.len() == 0 {
        statuses
    } else {
        all_pending(statuses, paths.drop_last()).insert(paths.last()@, FileStatus::Pending)
    }
}

/// The line that records a finished file in the progress file, if any.
pub open spec fn progress_line(path: Seq<char>, status: FileStatus, error_count: usize) -> Option<
    Seq<char>,
> {
    match status {
        FileStatus::Done => Some("DONE\t"@ + path),
        FileStatus::Error => Some("ERROR("@ + decimal(error_count as nat) + ")\t"@ + path),
        _ => None,
    }
}

/// Whether an event accounts for a file: the file finished, done or with
/// errors, or it was skipped.
pub open spec fn accounts_file(e: ProgressEvent) -> bool {
    match e {
        ProgressEvent::Finished { status, .. } => status == FileStatus::Done || status
            == FileStatus::Error,
        ProgressEvent::Skipped { .. } => true,
        ProgressEvent::Started { .. } => false,
    }
}

/// How many files a state has accounted for: done, failed or skipped.
pub open spec fn accounted(s: ProgressState) -> int {
    s.done + s.errors + s.skipped
}

/// How the counters move on an event: the total stays, and one more file
/// is accounted for when the event accounts for one.
pub open spec fn counters_step(before: ProgressState, e: ProgressEvent, after: ProgressState) -> bool {
    &&& after.total == before.total
    &&& accounted(after) == accounted(before) + if accounts_file(e) {
        1int
    } else {
        0int
    }
}

/// How many of the events account for a file.
pub open spec fn files_accounted(events: Seq<ProgressEvent>) -> nat
    decreases events.len(),
{
    if events.len() == 0 {
        0
    } else {
        files_accounted(events.drop_last()) + if accounts_file(events.last()) {
            1nat
        } else {
            0nat
        }
    }
}

/// Over a run, the counters account for every file: starting from no file
/// accounted for, after events of which as many account for a file as the
/// run has files, as many files are done, failed or skipped as there are
/// files, so the run is finished.
pub proof fn lemma_run_counters(states: Seq<ProgressState>, events: Seq<ProgressEvent>)
    requires
        states.len() == events.len() + 1,
        accounted(states[0]) == 0,
        forall|i: int|
            0 <= i < events.len() ==> counters_step(states[i], #[trigger] events[i], states[i + 1]),
        files_accounted(events) == states[0].total,
    ensures
        states.last().total == states[0].total,
        accounted(states.last()) == states[0].total,
        states.last().done + states.last().errors + states.last().skipped >= states.last().total,
{
    lemma_counters_prefix(states, events, events.len() as int);
    assert(events.take(events.len() as int) =~= events);
    assert(states.last() == states[events.len() as int]);
}

proof fn lemma_counters_prefix(states: Seq<ProgressState>, events: Seq<ProgressEvent>, k: int)
    requires
        states.len() == events.len() + 1,
        0 <= k <= events.len(),
        accounted(states[0]) == 0,
        forall|i: int|
            0 <= i < events.len() ==> counters_step(states[i], #[trigger] events[i], states[i + 1]),
    ensures
        states[k].total == states[0].total,
        accounted(states[k]) == files_accounted(events.take(k)),
    decreases k,
{
    if k == 0 {
        assert(events.take(0) =~= Seq::<ProgressEvent>::empty());
    } else {
        lemma_counters_prefix(states, events, k - 1);
        assert(counters_step(states[k - 1], events[k - 1], states[k]));
        assert(events.take(k).drop_last() =~= events.take(k - 1));
        assert(events.take(k).last() == events[k - 1]);
        if k == events.len() {
            assert(events.take(k) =~= events);
        }
    }
}

impl ProgressState {
    /// Starts a run over `paths`: the total is their number and each of
    /// them is pending.
    pub fn begin(&mut self, paths: &Vec<String>)
        ensures
            final(self).total == paths@.len(),
            final(self).statuses@ == all_pending(old(self).statuses@, paths@),
            final(self).done == old(self).done,
            final(self).errors == old(self).errors,
            final(self).skipped == old(self).skipped,
            final(self).in_progress == old(self).in_progress,
            final(self).cancelled == old(self).cancelled,
    {
        self.total = paths.len();
        let mut i: usize = 0;
        while i < paths.len()
            invariant
                i <= paths@.len(),
                self.total == paths@.len(),
                self.statuses@ == all_pending(old(self).statuses@, paths@.take(i as int)),
                self.done == old(self).done,
                self.errors == old(self).errors,
                self.skipped == old(self).skipped,
                self.in_progress == old(self).in_progress,
                self.cancelled == old(self).cancelled,
            decreases paths@.len() - i,
        {
            assert(paths@.take(i + 1).drop_last() == paths@.take(i as int));
            self.statuses.insert(paths[i].clone(), FileStatus::Pending);
            i = i + 1;
        }
        assert(paths@.take(paths@.len() as int) == paths@);
    }

    /// Applies a progress event and returns the line to append to the
    /// progress file, if the event calls for one.
    pub fn apply(&mut self, event: ProgressEvent) -> (line: Option<String>)
        requires
            match event {
                ProgressEvent::Started { .. } => old(self).in_progress < usize::MAX,
                ProgressEvent::Finished { status, .. } => (status == FileStatus::Done ==> old(
                    self,
                ).done < usize::MAX) && (status == FileStatus::Error ==> old(self).errors
                    < usize::MAX),
                ProgressEvent::Skipped { .. } => old(self).skipped < usize::MAX,
            },
        ensures
            final(self).total == old(self).total,
            final(self).cancelled == old(self).cancelled,
            counters_step(*old(self), event, *final(self)),
            match event {
                ProgressEvent::Started { path } => {
                    &&& final(self).in_progress == old(self).in_progress + 1
                    &&& final(self).statuses@ == old(self).statuses@.insert(
                        path@,
                        FileStatus::InProgress,
                    )
                    &&& final(self).done == old(self).done
                    &&& final(self).errors == old(self).errors
                    &&& final(self).skipped == old(self).skipped
                    &&& line is None
                },
                ProgressEvent::Finished { path, status, error_count, .. } => {
                    &&& final(self).in_progress == if old(self).in_progress > 0 {
                        old(self).in_progress - 1
                    } else {
                        0
                    }
                    &&& final(self).statuses@ == old(self).statuses@.insert(path@, status)
                    &&& final(self).done == old(self).done + if status == FileStatus::Done {
                        1int
                    } else {
                        0int
                    }
                    &&& final(self).errors == old(self).errors + if status == FileStatus::Error {
                        1int
                    } else {
                        0int
                    }
                    &&& final(self).skipped == old(self).skipped
                    &&& match progress_line(path@, status, error_count) {
                        Some(l) => line matches Some(s) && s@ == l,
                        None => line is None,
                    }
                },
                ProgressEvent::Skipped { path, .. } => {
                    &&& final(self).skipped == old(self).skipped + 1
                    &&& final(self).statuses@ == old(self).statuses@.insert(
                        path@,
                        FileStatus::Skipped,
                    )
                    &&& final(self).done == old(self).done
                    &&& final(self).errors == old(self).errors
                    &&& final(self).in_progress == old(self).in_progress
                    &&& line is None
                },
            },
    {
        match event {
            ProgressEvent::Started { path } => {
                self.in_progress = self.in_progress + 1;
                self.statuses.insert(path, FileStatus::InProgress);
                None
            },
            ProgressEvent::Finished { path, status, processing_time, error_count } => {
                if self.in_progress > 0 {
                    self.in_progress = self.in_progress - 1;
                }
                let line = match status {
                    FileStatus::Done => {
                        self.done = self.done + 1;
                        let mut l: Vec<char> = Vec::new();
                        push_str(&mut l, "DONE\t");
                        push_str(&mut l, path.as_str());
                        Some(string_from_chars(&l))
                    },
                    FileStatus::Error => {
                        self.errors = self.errors + 1;
                        let mut l: Vec<char> = Vec::new();
                        push_str(&mut l, "ERROR(");
                        let mut digits = format_decimal(error_count as u128);
                        l.append(&mut digits);
                        push_str(&mut l, ")\t");
                        push_str(&mut l, path.as_str());
                        Some(string_from_chars(&l))
                    },
                    _ => None,
                };
                self.statuses.insert(path, status);
                line
            },
            ProgressEvent::Skipped { path, reason } => {
                self.skipped = self.skipped + 1;
                self.statuses.insert(path, FileStatus::Skipped);
                None
            },
        }
    }

    /// Whether every file has been accounted for: as many of them are done,
    /// failed or skipped as there are files. A run without files is finished.
    pub fn is_finished(&self) -> (r: bool)
        ensures
            r == (self.done + self.errors + self.skipped >= self.total),
    {
        let accounted = self.done as u128 + self.errors as u128 + self.skipped as u128;
        accounted >= self.total as u128
    }

    /// The counters at this moment.
    pub fn snapshot(&self) -> (s: ProgressSnapshot)
        ensures
            s.total == self.total,
            s.done == self.done,
            s.errors == self.errors,
            s.skipped == self.skipped,
            s.in_progress == self.in_progress,
            s.cancelled == self.cancelled,
    {
        ProgressSnapshot {
            total: self.total,
            done: self.done,
            errors: self.errors,
            skipped: self.skipped,
            in_progress: self.in_progress,
            cancelled: self.cancelled,
        }
    }
}

/// The characters of `s` before its first tab (all of them if it has none),
/// as the first item of `str::splitn(2, '\t')`.
pub open spec fn before_tab(s: Seq<char>) -> Seq<char>
    decreases s.len(),
{
    if s.len() == 0 || s[0] == '\t' {
        Seq::empty()
    } else {
        seq![s[0]] + before_tab(s.drop_first())
    }
}

/// The characters of `s` after its first tab (none if it has no tab), as
/// the second item of `str::splitn(2, '\t')` or `""` when there is none.
pub open spec fn after_tab(s: Seq<char>) -> Seq<char> {
    if before_tab(s).len() < s.len() {
        s.skip(before_tab(s).len() + 1int)
    } else {
        Seq::empty()
    }
}

/// The path that a progress-file line records as done, if it records one:
/// the line's status field, trimmed, is `DONE` and its path field, trimmed,
/// is not empty.
pub open spec fn resume_entry(line: Seq<char>) -> Option<Seq<char>> {
    let status = trim_of(before_tab(line));
    let path = trim_of(after_tab(line));
    if status == "DONE"@ && path.len() > 0 {
        Some(path)
    } else {
        None
    }
}

/// The paths that a progress file records as done.
pub open spec fn resume_paths(content: Seq<char>) -> Set<Seq<char>> {
    Set::new(
        |p: Seq<char>|
            exists|i: int|
                0 <= i < lines_of(content).len() && resume_entry(lines_of(content)[i]) == Some(p),
    )
}

proof fn lemma_before_tab_prefix(s: Seq<char>, k: int)
    requires
        0 <= k <= s.len(),
        forall|j: int| 0 <= j < k ==> s[j] != '\t',
        k == s.len() || s[k] == '\t',
    ensures
        before_tab(s) == s.take(k),
    decreases k,
{
    if k > 0 {
        lemma_before_tab_prefix(s.drop_first(), k - 1);
        assert(seq![s[0]] + s.drop_first().take(k - 1) == s.take(k));
    } else {
        assert(s.take(0) == Seq::<char>::empty());
    }
}

/// The paths recorded as done in a progress file.
pub struct ResumeSet {
    paths: Vec<String>,
}

impl View for ResumeSet {
    type V = Set<Seq<char>>;

    closed spec fn view(&self) -> Set<Seq<char>> {
        Set::new(|p: Seq<char>| exists|i: int| 0 <= i < self.paths@.len() && self.paths@[i]@ == p)
    }
}

/// The path a progress-file line records as done, if any.
fn resume_entry_of(line: &Vec<char>) -> (r: Option<Vec<char>>)
    ensures
        match resume_entry(line@) {
            Some(p) => r matches Some(v) && v@ == p,
            None => r is None,
        },
{
    let len = line.len();
    let mut k: usize = 0;
    while k < len && line[k] != '\t'
        invariant
            k <= len == line@.len(),
            forall|j: int| 0 <= j < k ==> line@[j] != '\t',
        decreases len - k,
    {
        k = k + 1;
    }
    proof {
        lemma_before_tab_prefix(line@, k as int);
    }
    let status = trim_chars(copy_range(line.as_slice(), 0, k).as_slice());
    let rest = if k < len {
        copy_range(line.as_slice(), k + 1, len)
    } else {
        Vec::new()
    };
    assert(rest@ == after_tab(line@));
    let path = trim_chars(rest.as_slice());
    let done = chars_of("DONE");
    let mut same = status.len() == done.len();
    let mut j: usize = 0;
    while same && j < status.len()
        invariant
            j <= status@.len(),
            same ==> status@.len() == done@.len(),
            same ==> forall|m: int| 0 <= m < j ==> status@[m] == done@[m],
            !same ==> status@ != done@,
        decreases status@.len() - j,
    {
        if status[j] != done[j] {
            same = false;
        }
        j = j + 1;
    }
    if same {
        assert(status@ == done@);
    }
    if same && path.len() > 0 {
        Some(path)
    } else {
        None
    }
}

impl ResumeSet {
    /// A set with no path.
    pub fn new() -> (r: Self)
        ensures
            r@ == Set::<Seq<char>>::empty(),
    {
        let r = ResumeSet { paths: Vec::new() };
        assert(r@ =~= Set::<Seq<char>>::empty());
        r
    }

    /// Whether `path` is recorded as done.
    pub fn contains(&self, path: &str) -> (r: bool)
        ensures
            r == self@.contains(path@),
    {
        let p = path.to_string();
        match find_key(&self.paths, &p) {
            Some(i) => {
                assert(self.paths@[i as int]@ == path@);
                true
            },
            None => false,
        }
    }
}

/// What becomes of a file when the run comes to it.
#[derive(Debug, Clone, Copy, PartialEq, Eq, Structural)]
pub enum Submission {
    /// The run is cancelled: the file is skipped, not scheduled.
    Cancelled,
    /// The run resumes and the progress file records the file as done: it
    /// is skipped.
    AlreadyDone,
    /// The file is handed to a worker.
    Run,
}

/// Decides what becomes of the file at `path`: skipped when the run is
/// cancelled, skipped when resuming and it is recorded as done, else run.
pub fn plan_submission(cancelled: bool, resume: bool, done: &ResumeSet, path: &str) -> (s:
    Submission)
    ensures
        s == (if cancelled {
            Submission::Cancelled
        } else if resume && done@.contains(path@) {
            Submission::AlreadyDone
        } else {
            Submission::Run
        }),
{
    if cancelled {
        Submission::Cancelled
    } else if resume && done.contains(path) {
        Submission::AlreadyDone
    } else {
        Submission::Run
    }
}

/// Whether some path of `paths` has the text `p`.
pub open spec fn holds_path(paths: Seq<String>, p: Seq<char>) -> bool {
    exists|j: int| 0 <= j < paths.len() && paths[j]@ == p
}

/// Whether one of the first `n` lines records `p` as done.
pub open spec fn recorded_within(lines: Seq<Seq<char>>, n: int, p: Seq<char>) -> bool {
    exists|m: int| 0 <= m < n && resume_entry(lines[m]) == Some(p)
}

/// The paths a progress file's content records as done: every line whose
/// status field is `DONE` names one.
pub fn parse_resume_set(content: &str) -> (r: ResumeSet)
    ensures
        r@ == resume_paths(content@),
{
    let lines = split_lines(content);
    let ghost ls = lines_of(content@);
    let mut paths: Vec<String> = Vec::new();
    let mut i: usize = 0;
    while i < lines.len()
        invariant
            i <= lines@.len(),
            views_of(lines@) == ls,
            forall|p: Seq<char>| #[trigger] holds_path(paths@, p) == recorded_within(ls, i as int, p),
        decreases lines@.len() - i,
    {
        assert(ls[i as int] == lines@[i as int]@);
        let ghost before = paths@;
        match resume_entry_of(&lines[i]) {
            Some(v) => {
                let s = string_from_chars(&v);
                paths.push(s);
            },
            None => {},
        }
        proof {
            assert forall|p: Seq<char>| #[trigger]
                holds_path(paths@, p) == recorded_within(ls, i + 1, p) by {
                if holds_path(paths@, p) {
                    let j = choose|j: int| 0 <= j < paths@.len() && paths@[j]@ == p;
                    if j < before.len() {
                        assert(before[j]@ == p);
                        assert(holds_path(before, p));
                    } else {
                        assert(resume_entry(ls[i as int]) == Some(p));
                    }
                }
                if recorded_within(ls, i + 1, p) {
                    let m = choose|m: int| 0 <= m < i + 1 && resume_entry(ls[m]) == Some(p);
                    if m < i {
                        assert(recorded_within(ls, i as int, p));
                        assert(holds_path(before, p));
                        let j = choose|j: int| 0 <= j < before.len() && before[j]@ == p;
                        assert(paths@[j]@ == p);
                    } else {
                        assert(paths@[before.len() as int]@ == p);
                    }
                }
            }
        }
        i = i + 1;
    }
    let r = ResumeSet { paths };
    assert forall|p: Seq<char>| r@.contains(p) == resume_paths(content@).contains(p) by {
        assert(holds_path(r.paths@, p) == recorded_within(ls, ls.len() as int, p));
    }
    assert(r@ =~= resume_paths(content@));
    r
}

/// Whether a path can be recorded in the progress file and read back as
/// it is: not empty, without a line break, and with no whitespace at
/// either end.
pub open spec fn recordable_path(path: Seq<char>) -> bool {
    &&& path.len() > 0
    &&& !is_white_space(path[0])
    &&& !is_white_space(path.last())
    &&& forall|i: int| 0 <= i < path.len() ==> path[i] != '\n'
}

/// Appending one line (and its line break) after complete lines adds what
/// that line records as done, and nothing else.
proof fn lemma_append_line(prefix: Seq<char>, l: Seq<char>)
    requires
        prefix.len() == 0 || prefix.last() == '\n',
        l.len() > 0,
        forall|i: int| 0 <= i < l.len() ==> l[i] != '\n',
        l.last() != '\r',
    ensures
        resume_paths(prefix + l.push('\n')) == match resume_entry(l) {
            Some(p) => resume_paths(prefix).insert(p),
            None => resume_paths(prefix),
        },
{
    lemma_single_line(l);
    lemma_lines_concat(prefix, l.push('\n'));
    let ls = lines_of(prefix + l.push('\n'));
    assert(ls == lines_of(prefix).push(l));
    let old_set = resume_paths(prefix);
    let new_set = resume_paths(prefix + l.push('\n'));
    let expected = match resume_entry(l) {
        Some(p) => old_set.insert(p),
        None => old_set,
    };
    assert forall|p: Seq<char>| new_set.contains(p) == expected.contains(p) by {
        if new_set.contains(p) {
            let i = choose|i: int| 0 <= i < ls.len() && resume_entry(ls[i]) == Some(p);
            if i < lines_of(prefix).len() {
                assert(lines_of(prefix)[i] == ls[i]);
            }
        }
        if old_set.contains(p) {
            let i = choose|i: int|
                0 <= i < lines_of(prefix).len() && resume_entry(lines_of(prefix)[i]) == Some(p);
            assert(ls[i] == lines_of(prefix)[i]);
        }
        if resume_entry(l) == Some(p) {
            assert(ls[lines_of(prefix).len() as int] == l);
        }
    }
    assert(new_set =~= expected);
}

/// A file that the progress file records as done is found again when the
/// progress file is read back: appending its line `DONE\t<path>` (and the
/// line break `writeln!` adds) after complete lines adds exactly its path
/// to the paths read back, whatever error count the event carried. This
/// holds for paths without a line break whose first and last characters
/// are not whitespace.
pub proof fn lemma_done_line_resumes(prefix: Seq<char>, path: Seq<char>, error_count: usize)
    requires
        prefix.len() == 0 || prefix.last() == '\n',
        recordable_path(path),
    ensures
        progress_line(path, FileStatus::Done, error_count) matches Some(l) && resume_paths(
            prefix + l.push('\n'),
        ) == resume_paths(prefix).insert(path),
{
    reveal_strlit("DONE\t");
    reveal_strlit("DONE");
    let l = "DONE\t"@ + path;
    assert(l.last() == path.last());
    assert forall|i: int| 0 <= i < l.len() implies l[i] != '\n' by {
        if i >= 5 {
            assert(l[i] == path[i - 5]);
        }
    }
    lemma_before_tab_prefix(l, 4);
    assert(l.take(4) == "DONE"@);
    assert(l.skip(5) == path);
    lemma_trim_of_trimmed("DONE"@);
    lemma_trim_of_trimmed(path);
    assert(resume_entry(l) == Some(path));
    lemma_append_line(prefix, l);
}

/// A file that failed is not found again when the progress file is read
/// back: appending its line `ERROR(<n>)\t<path>` after complete lines adds
/// nothing to the paths read back.
pub proof fn lemma_error_line_records_nothing(
    prefix: Seq<char>,
    path: Seq<char>,
    error_count: usize,
)
    requires
        prefix.len() == 0 || prefix.last() == '\n',
        recordable_path(path),
    ensures
        progress_line(path, FileStatus::Error, error_count) matches Some(l) && resume_paths(
            prefix + l.push('\n'),
        ) == resume_paths(prefix),
{
    reveal_strlit("ERROR(");
    reveal_strlit(")\t");
    reveal_strlit("DONE");
    let digits = decimal(error_count as nat);
    lemma_decimal_digits(error_count as nat);
    let head = "ERROR("@ + digits + ")"@;
    let l = "ERROR("@ + digits + ")\t"@ + path;
    reveal_strlit(")");
    assert(")\t"@ =~= ")"@ + seq!['\t']);
    assert(l =~= head + seq!['\t'] + path);
    let k = head.len() as int;
    assert forall|j: int| 0 <= j < k implies l[j] != '\t' by {
        assert(l[j] == head[j]);
        if 6 <= j < 6 + digits.len() {
            assert(head[j] == digits[j - 6]);
            assert(is_digit(digits[j - 6]));
        }
    }
    assert(l[k] == '\t');
    lemma_before_tab_prefix(l, k);
    assert(l.take(k) == head);
    assert(head[0] == 'E');
    assert(head.last() == ')');
    lemma_trim_of_trimmed(head);
    assert(trim_of(before_tab(l)) != "DONE"@) by {
        assert("DONE"@[0] == 'D');
    }
    assert(resume_entry(l) is None);
    assert(l.last() == path.last());
    assert forall|i: int| 0 <= i < l.len() implies l[i] != '\n' by {
        if i < k {
            assert(l[i] == head[i]);
            if 6 <= i < 6 + digits.len() {
                assert(head[i] == digits[i - 6]);
                assert(is_digit(digits[i - 6]));
            }
        } else if i > k {
            assert(l[i] == path[i - k - 1]);
        }
    }
    lemma_append_line(prefix, l);
}

/// What the progress file gains from the files that finished, in order:
/// for each, its progress line and a line break, if it has a progress line.
pub open spec fn appended_lines(finished: Seq<(Seq<char>, FileStatus, usize)>) -> Seq<char>
    decreases finished.len(),
{
    if finished.len() == 0 {
        Seq::empty()
    } else {
        let e = finished.last();
        appended_lines(finished.drop_last()) + match progress_line(e.0, e.1, e.2) {
            Some(l) => l.push('\n'),
            None => Seq::empty(),
        }
    }
}

/// The paths of the files that finished without error.
pub open spec fn done_paths(finished: Seq<(Seq<char>, FileStatus, usize)>) -> Set<Seq<char>> {
    Set::new(
        |p: Seq<char>|
            exists|i: int|
                0 <= i < finished.len() && finished[i].0 == p && finished[i].1 == FileStatus::Done,
    )
}

/// Reading the progress file back after a run gives the paths it recorded
/// as done before, together with the files that finished without error in
/// that run: when the file was empty or ended with a line break before the
/// run, and every file's path can be recorded. Files that failed add
/// nothing.
pub proof fn lemma_run_resumes(prefix: Seq<char>, finished: Seq<(Seq<char>, FileStatus, usize)>)
    requires
        prefix.len() == 0 || prefix.last() == '\n',
        forall|i: int| 0 <= i < finished.len() ==> recordable_path(#[trigger] finished[i].0),
    ensures
        resume_paths(prefix + appended_lines(finished)) == resume_paths(prefix).union(
            done_paths(finished),
        ),
        prefix + appended_lines(finished) == Seq::<char>::empty() || (prefix + appended_lines(
            finished,
        )).last() == '\n',
    decreases finished.len(),
{
    if finished.len() == 0 {
        assert(prefix + Seq::<char>::empty() == prefix);
        assert(done_paths(finished) =~= Set::<Seq<char>>::empty());
        assert(resume_paths(prefix).union(Set::empty()) =~= resume_paths(prefix));
    } else {
        let rest = finished.drop_last();
        let e = finished.last();
        assert forall|i: int| 0 <= i < rest.len() implies recordable_path(#[trigger] rest[i].0) by {
            assert(rest[i] == finished[i]);
        }
        lemma_run_resumes(prefix, rest);
        let before = prefix + appended_lines(rest);
        assert(recordable_path(finished[finished.len() - 1].0));
        let tail = match progress_line(e.0, e.1, e.2) {
            Some(l) => l.push('\n'),
            None => Seq::empty(),
        };
        assert(prefix + appended_lines(finished) == before + tail);
        let old_done = done_paths(rest);
        let new_done = done_paths(finished);
        match e.1 {
            FileStatus::Done => {
                lemma_done_line_resumes(before, e.0, e.2);
                assert forall|p: Seq<char>| new_done.contains(p) == old_done.insert(e.0).contains(
                    p,
                ) by {
                    if new_done.contains(p) {
                        let i = choose|i: int|
                            0 <= i < finished.len() && finished[i].0 == p && finished[i].1
                                == FileStatus::Done;
                        if i < rest.len() {
                            assert(rest[i] == finished[i]);
                        }
                    }
                    if old_done.contains(p) {
                        let i = choose|i: int|
                            0 <= i < rest.len() && rest[i].0 == p && rest[i].1 == FileStatus::Done;
                        assert(finished[i] == rest[i]);
                    }
                    if p == e.0 {
                        assert(finished[finished.len() - 1] == e);
                    }
                }
                assert(new_done =~= old_done.insert(e.0));
                assert(resume_paths(before).insert(e.0) =~= resume_paths(prefix).union(
                    old_done,
                ).insert(e.0));
                assert(resume_paths(prefix).union(old_done).insert(e.0) =~= resume_paths(
                    prefix,
                ).union(new_done));
            },
            _ => {
                if e.1 == FileStatus::Error {
                    lemma_error_line_records_nothing(before, e.0, e.2);
                } else {
                    assert(before + tail =~= before);
                }
                assert forall|p: Seq<char>| new_done.contains(p) == old_done.contains(p) by {
                    if new_done.contains(p) {
                        let i = choose|i: int|
                            0 <= i < finished.len() && finished[i].0 == p && finished[i].1
                                == FileStatus::Done;
                        if i < rest.len() {
                            assert(rest[i] == finished[i]);
                        }
                    }
                    if old_done.contains(p) {
                        let i = choose|i: int|
                            0 <= i < rest.len() && rest[i].0 == p && rest[i].1 == FileStatus::Done;
                        assert(finished[i] == rest[i]);
                    }
                }
                assert(new_done =~= old_done);
            },
        }
    }
}

} // verus!
