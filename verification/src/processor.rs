//! Processing of one file once its bytes are in memory: the size limit,
//! decoding, and running the analyzers with cancellation between them.
use std::sync::atomic::AtomicBool;

use vstd::prelude::*;
use vstd::utf8::{decode_utf8, valid_utf8};

use crate::analyzers::{
    errors_after_first, is_default_pipeline, lemma_default_pipeline, stats_after_first, tally,
    Analyzer,
};
use crate::text::{line_count_of, word_count_of};
use crate::types::{
    cancelled_error, empty_stats, error_views, too_large_message, FileStats, FileStatsView,
    FileStatus, ProcessingError, ProcessingErrorKind, ProcessingErrorView,
};

verus! {

broadcast use vstd::string::group_string_axioms;

/// Settings of a processing run.
#[derive(Clone)]
pub struct ProcessorConfig {
    /// If set, skip files larger than this (bytes).
    pub max_bytes: Option<u64>,
    /// If true, try a naive ISO-8859-1 decode when UTF-8 fails.
    pub allow_latin1_fallback: bool,
    /// If set, append completed file paths to this progress file.
    pub progress_file: Option<String>,
    /// If true, skip any file already listed as DONE in progress_file.
    pub resume: bool,
}

impl Default for ProcessorConfig {
    fn default() -> (c: Self)
        ensures
            c.max_bytes is None,
            c.allow_latin1_fallback,
            c.progress_file is None,
            !c.resume,
    {
        ProcessorConfig {
            max_bytes: None,
            allow_latin1_fallback: true,
            progress_file: None,
            resume: false,
        }
    }
}

/// Whether cancellation has been requested, read from the shared flag.
/// Another thread may set the flag at any moment, so nothing is claimed
/// of the value read.
pub fn cancel_requested(flag: &AtomicBool) -> bool {
    flag.load(std::sync::atomic::Ordering::SeqCst)
}

/// The error for a file over the configured size limit, if it is over it.
pub fn size_limit_error(path: &str, size_bytes: u64, cfg: &ProcessorConfig) -> (r: Option<
    ProcessingError,
>)
    ensures
        match cfg.max_bytes {
            Some(max) => if size_bytes > max {
                r matches Some(e) && e@ == (ProcessingErrorView {
                    kind: ProcessingErrorKind::TooLarge,
                    path: Some(path@),
                    message: too_large_message(size_bytes, max),
                    io_kind: None,
                })
            } else {
                r is None
            },
            None => r is None,
        },
{
    match cfg.max_bytes {
        Some(max) => if size_bytes > max {
            Some(ProcessingError::too_large(path.to_string(), size_bytes, max))
        } else {
            None
        },
        None => None,
    }
}

/// The text of bytes read as ISO-8859-1: each byte is the character with
/// the same code.
pub open spec fn latin1_text(bytes: Seq<u8>) -> Seq<char> {
    bytes.map_values(|b: u8| b as char)
}

/// What `String::from_utf8_lossy` makes of `bytes`.
pub uninterp spec fn lossy_utf8_text(bytes: Seq<u8>) -> Seq<char>;

/// Decodes bytes as UTF-8 with `String::from_utf8`. Claimed: it succeeds
/// exactly on valid UTF-8 and then holds the decoded characters; otherwise
/// the bytes come back unchanged.
#[verifier::external_body]
fn utf8_to_string(bytes: Vec<u8>) -> (r: Result<String, Vec<u8>>)
    ensures
        match r {
            Ok(s) => valid_utf8(bytes@) && s@ == decode_utf8(bytes@),
            Err(b) => !valid_utf8(bytes@) && b@ == bytes@,
        },
{
    match String::from_utf8(bytes) {
        Ok(s) => Ok(s),
        Err(e) => Err(e.into_bytes()),
    }
}

/// Decodes bytes with `String::from_utf8_lossy`, which replaces invalid
/// sequences. Claimed: the result is a function of the bytes alone.
#[verifier::external_body]
fn utf8_lossy(bytes: &Vec<u8>) -> (s: String)
    ensures
        s@ == lossy_utf8_text(bytes@),
{
    String::from_utf8_lossy(bytes).to_string()
}

/// The text that processing analyzes for a file's bytes.
pub open spec fn decoded_text(bytes: Seq<u8>, latin1_fallback: bool) -> Seq<char> {
    if valid_utf8(bytes) {
        decode_utf8(bytes)
    } else if latin1_fallback {
        latin1_text(bytes)
    } else {
        lossy_utf8_text(bytes)
    }
}

/// The error that decoding records for a file's bytes, if any.
pub open spec fn decode_error(path: Seq<char>, bytes: Seq<u8>, latin1_fallback: bool) -> Option<
    ProcessingErrorView,
> {
    if valid_utf8(bytes) {
        None
    } else {
        Some(
            ProcessingErrorView {
                kind: ProcessingErrorKind::Decode,
                path: Some(path),
                message: if latin1_fallback {
                    "UTF-8 decode failed; used ISO-8859-1 fallback"@
                } else {
                    "UTF-8 decode failed; used lossy UTF-8"@
                },
                io_kind: None,
            },
        )
    }
}

/// The errors decoding leaves: none, or the decoding error.
pub open spec fn decode_errors(path: Seq<char>, bytes: Seq<u8>, latin1_fallback: bool) -> Seq<
    ProcessingErrorView,
> {
    match decode_error(path, bytes, latin1_fallback) {
        Some(e) => seq![e],
        None => Seq::empty(),
    }
}

/// The bytes read as ISO-8859-1.
pub fn latin1_decode(bytes: &Vec<u8>) -> (s: String)
    ensures
        s@ == latin1_text(bytes@),
{
    let mut chars: Vec<char> = Vec::new();
    let mut i: usize = 0;
    while i < bytes.len()
        invariant
            i <= bytes@.len(),
            chars@ == latin1_text(bytes@.take(i as int)),
        decreases bytes@.len() - i,
    {
        let b = bytes[i];
        chars.push(b as char);
        i = i + 1;
        assert(latin1_text(bytes@.take(i as int)) == latin1_text(bytes@.take(i - 1)).push(
            b as char,
        ));
    }
    assert(bytes@.take(bytes@.len() as int) == bytes@);
    crate::text::string_from_chars(&chars)
}

/// Decodes a file's bytes: as UTF-8 when they are valid UTF-8; else as
/// ISO-8859-1 or lossy UTF-8, as configured, with a decoding error.
pub fn decode_content(path: &str, bytes: Vec<u8>, allow_latin1_fallback: bool) -> (r: (
    String,
    Option<ProcessingError>,
))
    ensures
        r.0@ == decoded_text(bytes@, allow_latin1_fallback),
        match decode_error(path@, bytes@, allow_latin1_fallback) {
            Some(e) => r.1 matches Some(x) && x@ == e,
            None => r.1 is None,
        },
{
    match utf8_to_string(bytes) {
        Ok(s) => (s, None),
        Err(b) => {
            if allow_latin1_fallback {
                let s = latin1_decode(&b);
                (
                    s,
                    Some(
                        ProcessingError::decode(
                            path.to_string(),
                            "UTF-8 decode failed; used ISO-8859-1 fallback",
                        ),
                    ),
                )
            } else {
                let s = utf8_lossy(&b);
                (
                    s,
                    Some(
                        ProcessingError::decode(
                            path.to_string(),
                            "UTF-8 decode failed; used lossy UTF-8",
                        ),
                    ),
                )
            }
        },
    }
}

/// The errors with a cancellation error at the end when processing was
/// cancelled.
pub open spec fn with_cancellation(
    errors: Seq<ProcessingErrorView>,
    cancelled: bool,
    path: Seq<char>,
) -> Seq<ProcessingErrorView> {
    if cancelled {
        errors.push(cancelled_error(Some(path)))
    } else {
        errors
    }
}

/// Whether `reads` can be the values read from the cancellation flag before
/// each of `n` analyzers: no more reads than analyzers, none set but
/// possibly the last, and fewer reads than analyzers only when the last
/// one was set.
pub open spec fn analyzer_reads_ok(reads: Seq<bool>, n: int) -> bool {
    &&& reads.len() <= n
    &&& forall|j: int| 0 <= j < reads.len() - 1 ==> !#[trigger] reads[j]
    &&& reads.len() < n ==> reads.len() > 0 && reads.last()
}

/// Whether the last read of the cancellation flag found it set.
pub open spec fn stopped(reads: Seq<bool>) -> bool {
    reads.len() > 0 && reads.last()
}

/// How many analyzers ran, given the reads before them.
pub open spec fn analyzers_ran(reads: Seq<bool>) -> int {
    if stopped(reads) {
        reads.len() - 1
    } else {
        reads.len() as int
    }
}

proof fn lemma_error_views_push(errors: Seq<ProcessingError>, e: ProcessingError)
    ensures
        error_views(errors.push(e)) == error_views(errors).push(e@),
{
    assert(error_views(errors.push(e)) =~= error_views(errors).push(e@));
}

/// One step of a run, given what the cancellation flag read: when it was
/// set, a cancellation error is recorded and the analyzer does not run;
/// otherwise the analyzer runs.
pub fn analyzer_step<A: Analyzer>(
    cancelled: bool,
    analyzer: &A,
    path: &str,
    content: &str,
    size_bytes: u64,
    stats: &mut FileStats,
    errors: &mut Vec<ProcessingError>,
)
    ensures
        cancelled ==> final(stats)@ == old(stats)@ && error_views(final(errors)@) == error_views(
            old(errors)@,
        ).push(cancelled_error(Some(path@))),
        !cancelled ==> final(stats)@ == analyzer.spec_stats_after(
            path@,
            content@,
            size_bytes,
            old(stats)@,
        ) && error_views(final(errors)@) == analyzer.spec_errors_after(
            path@,
            content@,
            size_bytes,
            old(stats)@,
            error_views(old(errors)@),
        ),
{
    if cancelled {
        let e = ProcessingError::cancelled(Some(path.to_string()));
        proof {
            lemma_error_views_push(errors@, e);
        }
        errors.push(e);
    } else {
        analyzer.analyze(path, content, size_bytes, stats, errors);
    }
}

/// Runs the analyzers in order on a file's text. Before each analyzer the
/// cancellation flag is read; once it is set, a cancellation error is
/// recorded and no further analyzer runs. Returns the values read.
pub fn run_analyzers<A: Analyzer>(
    path: &str,
    content: &str,
    size_bytes: u64,
    analyzers: &[A],
    cancel: &AtomicBool,
    stats: &mut FileStats,
    errors: &mut Vec<ProcessingError>,
) -> (reads: Vec<bool>)
    ensures
        analyzer_reads_ok(reads@, analyzers@.len() as int),
        final(stats)@ == stats_after_first(
            analyzers@,
            analyzers_ran(reads@),
            path@,
            content@,
            size_bytes,
            old(stats)@,
        ),
        error_views(final(errors)@) == with_cancellation(
            errors_after_first(
                analyzers@,
                analyzers_ran(reads@),
                path@,
                content@,
                size_bytes,
                old(stats)@,
                error_views(old(errors)@),
            ),
            stopped(reads@),
            path@,
        ),
{
    let n = analyzers.len();
    let mut reads: Vec<bool> = Vec::new();
    let mut i: usize = 0;
    while i < n
        invariant
            i <= n == analyzers@.len(),
            reads@.len() == i,
            forall|j: int| 0 <= j < i ==> !#[trigger] reads@[j],
            stats@ == stats_after_first(
                analyzers@,
                i as int,
                path@,
                content@,
                size_bytes,
                old(stats)@,
            ),
            error_views(errors@) == errors_after_first(
                analyzers@,
                i as int,
                path@,
                content@,
                size_bytes,
                old(stats)@,
                error_views(old(errors)@),
            ),
        decreases n - i,
    {
        let cancelled = cancel_requested(cancel);
        reads.push(cancelled);
        analyzer_step(cancelled, &analyzers[i], path, content, size_bytes, stats, errors);
        if cancelled {
            assert(analyzers_ran(reads@) == i);
            return reads;
        }
        i = i + 1;
    }
    reads
}

/// Whether `reads` can be the values read from the cancellation flag while
/// processing a file's bytes with `n` analyzers: one read before decoding,
/// and, when it was not set, the reads before the analyzers.
pub open spec fn loaded_reads_ok(reads: Seq<bool>, n: int) -> bool {
    &&& reads.len() >= 1
    &&& reads[0] ==> reads.len() == 1
    &&& !reads[0] ==> analyzer_reads_ok(reads.skip(1), n)
}

/// The statistics of processing a file's bytes, given the values read from
/// the cancellation flag: empty when it was set before decoding, else the
/// statistics after the analyzers that ran on the decoded text.
pub open spec fn loaded_stats<A: Analyzer>(
    path: Seq<char>,
    bytes: Seq<u8>,
    size_bytes: u64,
    latin1_fallback: bool,
    analyzers: Seq<A>,
    reads: Seq<bool>,
) -> FileStatsView {
    if reads[0] {
        empty_stats()
    } else {
        stats_after_first(
            analyzers,
            analyzers_ran(reads.skip(1)),
            path,
            decoded_text(bytes, latin1_fallback),
            size_bytes,
            empty_stats(),
        )
    }
}

/// The errors of processing a file's bytes, given the values read from the
/// cancellation flag: one cancellation error when it was set before
/// decoding; else the decoding error, if any, then the errors of the
/// analyzers that ran, then a cancellation error if the run was stopped.
pub open spec fn loaded_errors<A: Analyzer>(
    path: Seq<char>,
    bytes: Seq<u8>,
    size_bytes: u64,
    latin1_fallback: bool,
    analyzers: Seq<A>,
    reads: Seq<bool>,
) -> Seq<ProcessingErrorView> {
    if reads[0] {
        seq![cancelled_error(Some(path))]
    } else {
        with_cancellation(
            errors_after_first(
                analyzers,
                analyzers_ran(reads.skip(1)),
                path,
                decoded_text(bytes, latin1_fallback),
                size_bytes,
                empty_stats(),
                decode_errors(path, bytes, latin1_fallback),
            ),
            stopped(reads.skip(1)),
            path,
        )
    }
}

/// Processes a file whose bytes have been read: checks for cancellation,
/// decodes the bytes and runs the analyzers from empty statistics. Returns
/// the statistics, the errors and the values read from the cancellation
/// flag.
pub fn analyze_loaded<A: Analyzer>(
    path: &str,
    bytes: Vec<u8>,
    size_bytes: u64,
    cfg: &ProcessorConfig,
    analyzers: &[A],
    cancel: &AtomicBool,
) -> (r: (FileStats, Vec<ProcessingError>, Vec<bool>))
    ensures
        loaded_reads_ok(r.2@, analyzers@.len() as int),
        r.0@ == loaded_stats(
            path@,
            bytes@,
            size_bytes,
            cfg.allow_latin1_fallback,
            analyzers@,
            r.2@,
        ),
        error_views(r.1@) == loaded_errors(
            path@,
            bytes@,
            size_bytes,
            cfg.allow_latin1_fallback,
            analyzers@,
            r.2@,
        ),
{
    let mut stats = FileStats::default();
    let mut errors: Vec<ProcessingError> = Vec::new();
    let cancelled = cancel_requested(cancel);
    if cancelled {
        let e = ProcessingError::cancelled(Some(path.to_string()));
        proof {
            lemma_error_views_push(errors@, e);
        }
        errors.push(e);
        assert(error_views(errors@) == seq![cancelled_error(Some(path@))]);
        let reads = vec![true];
        return (stats, errors, reads);
    }
    let ghost original = bytes@;
    let (content, decode_err) = decode_content(path, bytes, cfg.allow_latin1_fallback);
    match decode_err {
        Some(e) => {
            proof {
                lemma_error_views_push(errors@, e);
            }
            errors.push(e);
        },
        None => {},
    }
    assert(error_views(errors@) == decode_errors(path@, original, cfg.allow_latin1_fallback));
    let later = run_analyzers(
        path,
        content.as_str(),
        size_bytes,
        analyzers,
        cancel,
        &mut stats,
        &mut errors,
    );
    let mut reads = vec![false];
    let mut rest = later;
    reads.append(&mut rest);
    assert(reads@.skip(1) =~= later@);
    (stats, errors, reads)
}

/// The status of a processed file: done when it has no errors.
pub fn file_status(errors: &Vec<ProcessingError>) -> (s: FileStatus)
    ensures
        s == (if errors@.len() == 0 {
            FileStatus::Done
        } else {
            FileStatus::Error
        }),
{
    if errors.len() == 0 {
        FileStatus::Done
    } else {
        FileStatus::Error
    }
}

/// Without cancellation, every analyzer runs once, in order: when no read
/// of the cancellation flag found it set, all of the analyzers ran and the
/// run was not stopped.
pub proof fn lemma_uncancelled_runs_all(reads: Seq<bool>, n: int)
    requires
        analyzer_reads_ok(reads, n),
        forall|j: int| 0 <= j < reads.len() ==> !#[trigger] reads[j],
    ensures
        analyzers_ran(reads) == n,
        !stopped(reads),
{
    if reads.len() > 0 {
        assert(!reads[reads.len() - 1]);
    }
}

/// With the default analyzers, a file whose processing never found the
/// cancellation flag set has the statistics of its decoded text (its size
/// on disk, its lines, its words and the occurrences of each character),
/// and no error but the decoding error, if decoding needed a fallback.
pub proof fn lemma_default_file_outcome<A: Analyzer>(
    path: Seq<char>,
    bytes: Seq<u8>,
    size_bytes: u64,
    latin1_fallback: bool,
    analyzers: Seq<A>,
    reads: Seq<bool>,
)
    requires
        is_default_pipeline(analyzers),
        loaded_reads_ok(reads, analyzers.len() as int),
        forall|j: int| 0 <= j < reads.len() ==> !#[trigger] reads[j],
    ensures
        loaded_stats(path, bytes, size_bytes, latin1_fallback, analyzers, reads) == (FileStatsView {
            word_count: word_count_of(decoded_text(bytes, latin1_fallback)) as usize,
            line_count: line_count_of(decoded_text(bytes, latin1_fallback)) as usize,
            char_frequencies: tally(Map::empty(), decoded_text(bytes, latin1_fallback)),
            size_bytes,
        }),
        loaded_errors(path, bytes, size_bytes, latin1_fallback, analyzers, reads) == decode_errors(
            path,
            bytes,
            latin1_fallback,
        ),
{
    assert(!reads[0]);
    let later = reads.skip(1);
    assert forall|j: int| 0 <= j < later.len() implies !#[trigger] later[j] by {
        assert(later[j] == reads[j + 1]);
    }
    lemma_uncancelled_runs_all(later, analyzers.len() as int);
    lemma_default_pipeline(
        analyzers,
        path,
        decoded_text(bytes, latin1_fallback),
        size_bytes,
        decode_errors(path, bytes, latin1_fallback),
    );
}

} // verus!
