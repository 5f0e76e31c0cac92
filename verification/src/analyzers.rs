//! Analyzers: each one updates the statistics (and possibly the errors) of
//! a file from its decoded text and its size on disk.
use vstd::prelude::*;

use crate::text::{count_lines, count_words, line_count_of, word_count_of};
use crate::types::{error_views, FileStats, FileStatsView, ProcessingError, ProcessingErrorView};

verus! {

broadcast use vstd::std_specs::hash::group_hash_axioms;

/// An analysis step run on every file.
///
/// An implementation describes what it does with two spec functions: the
/// statistics and the error list after it has run, as functions of the
/// file's path and text, its size on disk, and the statistics and errors
/// before.
pub trait Analyzer: Send + Sync {
    /// The name of the analyzer.
    spec fn spec_name(&self) -> Seq<char>;

    /// The statistics after this analyzer has run.
    spec fn spec_stats_after(
        &self,
        path: Seq<char>,
        content: Seq<char>,
        size_bytes: u64,
        stats: FileStatsView,
    ) -> FileStatsView;

    /// The errors after this analyzer has run.
    spec fn spec_errors_after(
        &self,
        path: Seq<char>,
        content: Seq<char>,
        size_bytes: u64,
        stats: FileStatsView,
        errors: Seq<ProcessingErrorView>,
    ) -> Seq<ProcessingErrorView>;

    fn name(&self) -> (r: &'static str)
        ensures
            r@ == self.spec_name(),
    ;

    /// Update stats/errors for this file.
    ///
    /// `content` is decoded text (may be lossy); `size_bytes` is the on-disk size.
    fn analyze(
        &self,
        path: &str,
        content: &str,
        size_bytes: u64,
        stats: &mut FileStats,
        errors: &mut Vec<ProcessingError>,
    )
        ensures
            final(stats)@ == self.spec_stats_after(path@, content@, size_bytes, old(stats)@),
            error_views(final(errors)@) == self.spec_errors_after(
                path@,
                content@,
                size_bytes,
                old(stats)@,
                error_views(old(errors)@),
            ),
    ;
}

/// Counts the words of a file.
pub struct WordCount;

/// Counts the lines of a file.
pub struct LineCount;

/// Counts the occurrences of each character of a file.
pub struct CharFrequency;

/// Records the size of a file on disk.
pub struct FileSize;

/// A count one higher, wrapping around at `usize::MAX` as `+=` does in a
/// release build.
pub open spec fn wrapping_inc(n: usize) -> usize {
    if n == usize::MAX {
        0
    } else {
        (n + 1) as usize
    }
}

/// `m` with one more occurrence of `c`.
pub open spec fn count_char(m: Map<u32, usize>, c: char) -> Map<u32, usize> {
    let k = c as u32;
    m.insert(
        k,
        if m.contains_key(k) {
            wrapping_inc(m[k])
        } else {
            1
        },
    )
}

/// `m` with the occurrences of the characters of `s` added.
pub open spec fn tally(m: Map<u32, usize>, s: Seq<char>) -> Map<u32, usize>
    decreases s.len(),
{
    if s.len() == 0 {
        m
    } else {
        count_char(tally(m, s.drop_last()), s.last())
    }
}

/// The number of occurrences of `c` in `s`.
pub open spec fn occurrences(s: Seq<char>, c: char) -> nat
    decreases s.len(),
{
    if s.len() == 0 {
        0
    } else {
        occurrences(s.drop_last(), c) + if s.last() == c {
            1nat
        } else {
            0nat
        }
    }
}

impl Analyzer for WordCount {
    open spec fn spec_name(&self) -> Seq<char> {
        "word_count"@
    }

    open spec fn spec_stats_after(
        &self,
        path: Seq<char>,
        content: Seq<char>,
        size_bytes: u64,
        stats: FileStatsView,
    ) -> FileStatsView {
        FileStatsView { word_count: word_count_of(content) as usize, ..stats }
    }

    open spec fn spec_errors_after(
        &self,
        path: Seq<char>,
        content: Seq<char>,
        size_bytes: u64,
        stats: FileStatsView,
        errors: Seq<ProcessingErrorView>,
    ) -> Seq<ProcessingErrorView> {
        errors
    }

    fn name(&self) -> (r: &'static str) {
        "word_count"
    }

    fn analyze(
        &self,
        path: &str,
        content: &str,
        size_bytes: u64,
        stats: &mut FileStats,
        errors: &mut Vec<ProcessingError>,
    ) {
        stats.word_count = count_words(content);
    }
}

impl Analyzer for LineCount {
    open spec fn spec_name(&self) -> Seq<char> {
        "line_count"@
    }

    open spec fn spec_stats_after(
        &self,
        path: Seq<char>,
        content: Seq<char>,
        size_bytes: u64,
        stats: FileStatsView,
    ) -> FileStatsView {
        FileStatsView { line_count: line_count_of(content) as usize, ..stats }
    }

    open spec fn spec_errors_after(
        &self,
        path: Seq<char>,
        content: Seq<char>,
        size_bytes: u64,
        stats: FileStatsView,
        errors: Seq<ProcessingErrorView>,
    ) -> Seq<ProcessingErrorView> {
        errors
    }

    fn name(&self) -> (r: &'static str) {
        "line_count"
    }

    fn analyze(
        &self,
        path: &str,
        content: &str,
        size_bytes: u64,
        stats: &mut FileStats,
        errors: &mut Vec<ProcessingError>,
    ) {
        stats.line_count = count_lines(content);
    }
}

impl Analyzer for CharFrequency {
    open spec fn spec_name(&self) -> Seq<char> {
        "char_frequencies"@
    }

    open spec fn spec_stats_after(
        &self,
        path: Seq<char>,
        content: Seq<char>,
        size_bytes: u64,
        stats: FileStatsView,
    ) -> FileStatsView {
        FileStatsView { char_frequencies: tally(stats.char_frequencies, content), ..stats }
    }

    open spec fn spec_errors_after(
        &self,
        path: Seq<char>,
        content: Seq<char>,
        size_bytes: u64,
        stats: FileStatsView,
        errors: Seq<ProcessingErrorView>,
    ) -> Seq<ProcessingErrorView> {
        errors
    }

    fn name(&self) -> (r: &'static str) {
        "char_frequencies"
    }

    fn analyze(
        &self,
        path: &str,
        content: &str,
        size_bytes: u64,
        stats: &mut FileStats,
        errors: &mut Vec<ProcessingError>,
    ) {
        for ch in it: content.chars()
            invariant
                it.seq() == content@,
                stats.char_frequencies@ == tally(
                    old(stats).char_frequencies@,
                    content@.take(it.index() as int),
                ),
                stats.word_count == old(stats).word_count,
                stats.line_count == old(stats).line_count,
                stats.size_bytes == old(stats).size_bytes,
        {
            assert(content@.take(it.index() + 1).drop_last() == content@.take(it.index() as int));
            let k = ch as u32;
            let n: usize = match stats.char_frequencies.get(&k) {
                Some(v) => v.wrapping_add(1),
                None => 1,
            };
            stats.char_frequencies.insert(k, n);
        }
        assert(content@.take(content@.len() as int) == content@);
    }
}

impl Analyzer for FileSize {
    open spec fn spec_name(&self) -> Seq<char> {
        "size_bytes"@
    }

    open spec fn spec_stats_after(
        &self,
        path: Seq<char>,
        content: Seq<char>,
        size_bytes: u64,
        stats: FileStatsView,
    ) -> FileStatsView {
        FileStatsView { size_bytes, ..stats }
    }

    open spec fn spec_errors_after(
        &self,
        path: Seq<char>,
        content: Seq<char>,
        size_bytes: u64,
        stats: FileStatsView,
        errors: Seq<ProcessingErrorView>,
    ) -> Seq<ProcessingErrorView> {
        errors
    }

    fn name(&self) -> (r: &'static str) {
        "size_bytes"
    }

    fn analyze(
        &self,
        path: &str,
        content: &str,
        size_bytes: u64,
        stats: &mut FileStats,
        errors: &mut Vec<ProcessingError>,
    ) {
        stats.size_bytes = size_bytes;
    }
}

/// The statistics after the first `n` analyzers have run in order,
/// starting from `stats`.
pub open spec fn stats_after_first<A: Analyzer>(
    analyzers: Seq<A>,
    n: int,
    path: Seq<char>,
    content: Seq<char>,
    size_bytes: u64,
    stats: FileStatsView,
) -> FileStatsView
    decreases n,
{
    if n <= 0 {
        stats
    } else {
        analyzers[n - 1].spec_stats_after(
            path,
            content,
            size_bytes,
            stats_after_first(analyzers, n - 1, path, content, size_bytes, stats),
        )
    }
}

/// The errors after the first `n` analyzers have run in order, starting
/// from `stats` and `errors`.
pub open spec fn errors_after_first<A: Analyzer>(
    analyzers: Seq<A>,
    n: int,
    path: Seq<char>,
    content: Seq<char>,
    size_bytes: u64,
    stats: FileStatsView,
    errors: Seq<ProcessingErrorView>,
) -> Seq<ProcessingErrorView>
    decreases n,
{
    if n <= 0 {
        errors
    } else {
        analyzers[n - 1].spec_errors_after(
            path,
            content,
            size_bytes,
            stats_after_first(analyzers, n - 1, path, content, size_bytes, stats),
            errors_after_first(analyzers, n - 1, path, content, size_bytes, stats, errors),
        )
    }
}

/// The four analyzers of a default run, in their order: file size, line
/// count, word count, character frequencies.
pub open spec fn is_default_pipeline<A: Analyzer>(analyzers: Seq<A>) -> bool {
    &&& analyzers.len() == 4
    &&& analyzers[0].spec_name() == "size_bytes"@
    &&& analyzers[1].spec_name() == "line_count"@
    &&& analyzers[2].spec_name() == "word_count"@
    &&& analyzers[3].spec_name() == "char_frequencies"@
    &&& forall|p: Seq<char>, c: Seq<char>, s: u64, st: FileStatsView|
        #[trigger] analyzers[0].spec_stats_after(p, c, s, st) == FileSize.spec_stats_after(
            p,
            c,
            s,
            st,
        )
    &&& forall|p: Seq<char>, c: Seq<char>, s: u64, st: FileStatsView|
        #[trigger] analyzers[1].spec_stats_after(p, c, s, st) == LineCount.spec_stats_after(
            p,
            c,
            s,
            st,
        )
    &&& forall|p: Seq<char>, c: Seq<char>, s: u64, st: FileStatsView|
        #[trigger] analyzers[2].spec_stats_after(p, c, s, st) == WordCount.spec_stats_after(
            p,
            c,
            s,
            st,
        )
    &&& forall|p: Seq<char>, c: Seq<char>, s: u64, st: FileStatsView|
        #[trigger] analyzers[3].spec_stats_after(p, c, s, st) == CharFrequency.spec_stats_after(
            p,
            c,
            s,
            st,
        )
    &&& forall|
        i: int,
        p: Seq<char>,
        c: Seq<char>,
        s: u64,
        st: FileStatsView,
        e: Seq<ProcessingErrorView>,
    | 0 <= i < 4 ==> #[trigger] analyzers[i].spec_errors_after(p, c, s, st, e) == e
}

/// A boxed analyzer analyzes as the analyzer in the box.
impl Analyzer for Box<dyn Analyzer> {
    open spec fn spec_name(&self) -> Seq<char> {
        (**self).spec_name()
    }

    open spec fn spec_stats_after(
        &self,
        path: Seq<char>,
        content: Seq<char>,
        size_bytes: u64,
        stats: FileStatsView,
    ) -> FileStatsView {
        (**self).spec_stats_after(path, content, size_bytes, stats)
    }

    open spec fn spec_errors_after(
        &self,
        path: Seq<char>,
        content: Seq<char>,
        size_bytes: u64,
        stats: FileStatsView,
        errors: Seq<ProcessingErrorView>,
    ) -> Seq<ProcessingErrorView> {
        (**self).spec_errors_after(path, content, size_bytes, stats, errors)
    }

    fn name(&self) -> (r: &'static str) {
        (**self).name()
    }

    fn analyze(
        &self,
        path: &str,
        content: &str,
        size_bytes: u64,
        stats: &mut FileStats,
        errors: &mut Vec<ProcessingError>,
    ) {
        (**self).analyze(path, content, size_bytes, stats, errors)
    }
}

/// One of the four built-in analyzers.
#[derive(Debug, Clone, Copy, PartialEq, Eq, Structural)]
pub enum DefaultAnalyzer {
    FileSize,
    LineCount,
    WordCount,
    CharFrequency,
}

impl Analyzer for DefaultAnalyzer {
    open spec fn spec_name(&self) -> Seq<char> {
        match self {
            DefaultAnalyzer::FileSize => FileSize.spec_name(),
            DefaultAnalyzer::LineCount => LineCount.spec_name(),
            DefaultAnalyzer::WordCount => WordCount.spec_name(),
            DefaultAnalyzer::CharFrequency => CharFrequency.spec_name(),
        }
    }

    open spec fn spec_stats_after(
        &self,
        path: Seq<char>,
        content: Seq<char>,
        size_bytes: u64,
        stats: FileStatsView,
    ) -> FileStatsView {
        match self {
            DefaultAnalyzer::FileSize => FileSize.spec_stats_after(path, content, size_bytes, stats),
            DefaultAnalyzer::LineCount => LineCount.spec_stats_after(
                path,
                content,
                size_bytes,
                stats,
            ),
            DefaultAnalyzer::WordCount => WordCount.spec_stats_after(
                path,
                content,
                size_bytes,
                stats,
            ),
            DefaultAnalyzer::CharFrequency => CharFrequency.spec_stats_after(
                path,
                content,
                size_bytes,
                stats,
            ),
        }
    }

    open spec fn spec_errors_after(
        &self,
        path: Seq<char>,
        content: Seq<char>,
        size_bytes: u64,
        stats: FileStatsView,
        errors: Seq<ProcessingErrorView>,
    ) -> Seq<ProcessingErrorView> {
        errors
    }

    fn name(&self) -> (r: &'static str) {
        match self {
            DefaultAnalyzer::FileSize => FileSize.name(),
            DefaultAnalyzer::LineCount => LineCount.name(),
            DefaultAnalyzer::WordCount => WordCount.name(),
            DefaultAnalyzer::CharFrequency => CharFrequency.name(),
        }
    }

    fn analyze(
        &self,
        path: &str,
        content: &str,
        size_bytes: u64,
        stats: &mut FileStats,
        errors: &mut Vec<ProcessingError>,
    ) {
        match self {
            DefaultAnalyzer::FileSize => FileSize.analyze(path, content, size_bytes, stats, errors),
            DefaultAnalyzer::LineCount => LineCount.analyze(
                path,
                content,
                size_bytes,
                stats,
                errors,
            ),
            DefaultAnalyzer::WordCount => WordCount.analyze(
                path,
                content,
                size_bytes,
                stats,
                errors,
            ),
            DefaultAnalyzer::CharFrequency => CharFrequency.analyze(
                path,
                content,
                size_bytes,
                stats,
                errors,
            ),
        }
    }
}

/// The default analyzers: file size, line count, word count and character
/// frequencies, in that order. They are given as plain values, so that what
/// each one does is known; a boxed analyzer of the caller's own analyzes
/// through the same functions.
pub fn default_analyzers() -> (v: Vec<DefaultAnalyzer>)
    ensures
        v@ == seq![
            DefaultAnalyzer::FileSize,
            DefaultAnalyzer::LineCount,
            DefaultAnalyzer::WordCount,
            DefaultAnalyzer::CharFrequency,
        ],
        is_default_pipeline(v@),
{
    let v = vec![
        DefaultAnalyzer::FileSize,
        DefaultAnalyzer::LineCount,
        DefaultAnalyzer::WordCount,
        DefaultAnalyzer::CharFrequency,
    ];
    assert(v@ =~= seq![
        DefaultAnalyzer::FileSize,
        DefaultAnalyzer::LineCount,
        DefaultAnalyzer::WordCount,
        DefaultAnalyzer::CharFrequency,
    ]);
    v
}

/// A character tally started from no counts holds, for each character of
/// the text, its number of occurrences, and nothing else.
pub proof fn lemma_tally_counts_occurrences(s: Seq<char>, c: char)
    requires
        s.len() <= usize::MAX,
    ensures
        tally(Map::empty(), s).contains_key(c as u32) <==> occurrences(s, c) > 0,
        tally(Map::empty(), s).contains_key(c as u32) ==> tally(Map::empty(), s)[c as u32]
            == occurrences(s, c),
    decreases s.len(),
{
    if s.len() > 0 {
        lemma_tally_counts_occurrences(s.drop_last(), c);
        lemma_occurrences_bound(s.drop_last(), c);
        let d = s.last();
        if d as u32 == c as u32 {
            vstd::utf8::char_u32_cast(d, d as u32);
            vstd::utf8::char_u32_cast(c, c as u32);
        }
    }
}

/// The count of key `k` in `m`, 0 when it has none.
pub open spec fn count_of(m: Map<u32, usize>, k: u32) -> int {
    if m.contains_key(k) {
        m[k] as int
    } else {
        0
    }
}

/// Counting the characters of a text onto given counts adds to the count
/// of each character its number of occurrences in the text, as long as
/// that count does not pass `usize::MAX`.
pub proof fn lemma_tally_from_map(m: Map<u32, usize>, s: Seq<char>, c: char)
    requires
        count_of(m, c as u32) + occurrences(s, c) <= usize::MAX,
    ensures
        tally(m, s).contains_key(c as u32) <==> (m.contains_key(c as u32) || occurrences(s, c)
            > 0),
        count_of(tally(m, s), c as u32) == count_of(m, c as u32) + occurrences(s, c),
    decreases s.len(),
{
    if s.len() > 0 {
        lemma_tally_from_map(m, s.drop_last(), c);
        let d = s.last();
        if d as u32 == c as u32 {
            vstd::utf8::char_u32_cast(d, d as u32);
            vstd::utf8::char_u32_cast(c, c as u32);
        }
    }
}

/// Counting the characters of a text leaves the count of every key that is
/// not the code of one of its characters as it was.
pub proof fn lemma_tally_other_keys(m: Map<u32, usize>, s: Seq<char>, k: u32)
    requires
        forall|i: int| 0 <= i < s.len() ==> #[trigger] s[i] as u32 != k,
    ensures
        tally(m, s).contains_key(k) == m.contains_key(k),
        count_of(tally(m, s), k) == count_of(m, k),
    decreases s.len(),
{
    if s.len() > 0 {
        assert forall|i: int| 0 <= i < s.drop_last().len() implies #[trigger] s.drop_last()[i] as u32
            != k by {
            assert(s.drop_last()[i] == s[i]);
        }
        assert(s.last() as u32 != k);
        lemma_tally_other_keys(m, s.drop_last(), k);
    }
}

proof fn lemma_occurrences_bound(s: Seq<char>, c: char)
    ensures
        occurrences(s, c) <= s.len(),
    decreases s.len(),
{
    if s.len() > 0 {
        lemma_occurrences_bound(s.drop_last(), c);
    }
}

/// Run in full from empty statistics, the default analyzers record the
/// file's size, its line count, its word count and the occurrences of each
/// of its characters, and add no error.
pub proof fn lemma_default_pipeline<A: Analyzer>(
    analyzers: Seq<A>,
    path: Seq<char>,
    content: Seq<char>,
    size_bytes: u64,
    errors: Seq<ProcessingErrorView>,
)
    requires
        is_default_pipeline(analyzers),
    ensures
        stats_after_first(analyzers, 4, path, content, size_bytes, crate::types::empty_stats())
            == (FileStatsView {
            word_count: word_count_of(content) as usize,
            line_count: line_count_of(content) as usize,
            char_frequencies: tally(Map::empty(), content),
            size_bytes,
        }),
        errors_after_first(
            analyzers,
            4,
            path,
            content,
            size_bytes,
            crate::types::empty_stats(),
            errors,
        ) == errors,
{
    let st0 = crate::types::empty_stats();
    let st1 = stats_after_first(analyzers, 1, path, content, size_bytes, st0);
    let st2 = stats_after_first(analyzers, 2, path, content, size_bytes, st0);
    let st3 = stats_after_first(analyzers, 3, path, content, size_bytes, st0);
    assert(stats_after_first(analyzers, 0, path, content, size_bytes, st0) == st0);
    assert(st1 == analyzers[0].spec_stats_after(path, content, size_bytes, st0));
    assert(st2 == analyzers[1].spec_stats_after(path, content, size_bytes, st1));
    assert(st3 == analyzers[2].spec_stats_after(path, content, size_bytes, st2));
    assert(stats_after_first(analyzers, 4, path, content, size_bytes, st0)
        == analyzers[3].spec_stats_after(path, content, size_bytes, st3));
    let e0 = errors_after_first(analyzers, 0, path, content, size_bytes, st0, errors);
    let e1 = errors_after_first(analyzers, 1, path, content, size_bytes, st0, errors);
    let e2 = errors_after_first(analyzers, 2, path, content, size_bytes, st0, errors);
    let e3 = errors_after_first(analyzers, 3, path, content, size_bytes, st0, errors);
    let e4 = errors_after_first(analyzers, 4, path, content, size_bytes, st0, errors);
    assert(e1 == analyzers[0].spec_errors_after(path, content, size_bytes, st0, e0));
    assert(e2 == analyzers[1].spec_errors_after(path, content, size_bytes, st1, e1));
    assert(e3 == analyzers[2].spec_errors_after(path, content, size_bytes, st2, e2));
    assert(e4 == analyzers[3].spec_errors_after(path, content, size_bytes, st3, e3));
}

} // verus!
