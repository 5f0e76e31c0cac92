//! The data the file processor produces: per-file statistics and
//! analyses, processing errors, file statuses and progress snapshots.
use std::collections::HashMap;
use std::time::Duration;

use vstd::prelude::*;

use crate::decimal::{decimal, format_decimal};
use crate::text::{push_str, string_from_chars};

verus! {

broadcast use vstd::string::group_string_axioms;

#[verifier::external_type_specification]
#[verifier::external_body]
pub struct ExIoError(std::io::Error);

#[verifier::external_type_specification]
#[verifier::external_body]
pub struct ExIoErrorKind(std::io::ErrorKind);

/// `Duration`'s `Clone`: `Duration` is `Copy`, so its clone is the same
/// value. Claimed: the result equals the argument.
pub assume_specification[ <Duration as Clone>::clone ](d: &Duration) -> (r: Duration)
    ensures
        r == *d,
;

/// Statistics gathered for one file.
///
/// `char_frequencies` maps each character, by its scalar value, to the
/// number of its occurrences.
#[derive(Debug, Clone)]
pub struct FileStats {
    pub word_count: usize,
    pub line_count: usize,
    pub char_frequencies: HashMap<u32, usize>,
    pub size_bytes: u64,
}

/// The mathematical view of [`FileStats`].
pub ghost struct FileStatsView {
    pub word_count: usize,
    pub line_count: usize,
    pub char_frequencies: Map<u32, usize>,
    pub size_bytes: u64,
}

impl View for FileStats {
    type V = FileStatsView;

    open spec fn view(&self) -> FileStatsView {
        FileStatsView {
            word_count: self.word_count,
            line_count: self.line_count,
            char_frequencies: self.char_frequencies@,
            size_bytes: self.size_bytes,
        }
    }
}

/// Statistics before any analyzer has run: all zero, no characters.
pub open spec fn empty_stats() -> FileStatsView {
    FileStatsView { word_count: 0, line_count: 0, char_frequencies: Map::empty(), size_bytes: 0 }
}

impl Default for FileStats {
    fn default() -> (s: Self)
        ensures
            s@ == empty_stats(),
    {
        FileStats { word_count: 0, line_count: 0, char_frequencies: HashMap::new(), size_bytes: 0 }
    }
}

/// The kind of a [`ProcessingError`].
#[derive(Debug, Clone, Copy, PartialEq, Eq, Structural)]
pub enum ProcessingErrorKind {
    Io,
    Decode,
    Cancelled,
    TooLarge,
    Other,
}

/// An error met while walking directories or processing a file. The path,
/// where there is one, is the display text of the file's path.
#[derive(Debug, Clone)]
pub struct ProcessingError {
    pub kind: ProcessingErrorKind,
    pub path: Option<String>,
    pub message: String,
    pub io_kind: Option<std::io::ErrorKind>,
}

/// The mathematical view of [`ProcessingError`].
pub ghost struct ProcessingErrorView {
    pub kind: ProcessingErrorKind,
    pub path: Option<Seq<char>>,
    pub message: Seq<char>,
    pub io_kind: Option<std::io::ErrorKind>,
}

/// The view of an optional string.
pub open spec fn opt_view(s: Option<String>) -> Option<Seq<char>> {
    match s {
        Some(t) => Some(t@),
        None => None,
    }
}

impl View for ProcessingError {
    type V = ProcessingErrorView;

    open spec fn view(&self) -> ProcessingErrorView {
        ProcessingErrorView {
            kind: self.kind,
            path: opt_view(self.path),
            message: self.message@,
            io_kind: self.io_kind,
        }
    }
}

/// The views of a sequence of errors.
pub open spec fn error_views(errors: Seq<ProcessingError>) -> Seq<ProcessingErrorView> {
    errors.map_values(|e: ProcessingError| e@)
}

/// The error recorded when processing is cancelled.
pub open spec fn cancelled_error(path: Option<Seq<char>>) -> ProcessingErrorView {
    ProcessingErrorView {
        kind: ProcessingErrorKind::Cancelled,
        path,
        message: "cancelled"@,
        io_kind: None,
    }
}

/// The message of a [`ProcessingErrorKind::TooLarge`] error.
pub open spec fn too_large_message(size: u64, max: u64) -> Seq<char> {
    "file too large: "@ + decimal(size as nat) + " bytes (max "@ + decimal(max as nat) + ")"@
}

/// The kind of an I/O error, read with `std::io::Error::kind`. Nothing is
/// claimed of the kind returned: it is opaque here.
#[verifier::external_body]
fn io_error_kind(err: &std::io::Error) -> std::io::ErrorKind {
    err.kind()
}

impl ProcessingError {
    /// An I/O error at `path`. Its message is the error's `Display` text,
    /// as `ToString` gives it.
    pub fn io(path: String, err: &std::io::Error) -> (e: Self)
        ensures
            e.kind == ProcessingErrorKind::Io,
            e.path == Some(path),
            vstd::string::to_string_from_display_ensures::<std::io::Error>(err, e.message),
            e.io_kind is Some,
    {
        let message = err.to_string();
        let kind = io_error_kind(err);
        ProcessingError {
            kind: ProcessingErrorKind::Io,
            path: Some(path),
            message,
            io_kind: Some(kind),
        }
    }

    /// A decoding error at `path` with message `msg`.
    pub fn decode(path: String, msg: &str) -> (e: Self)
        ensures
            e@ == (ProcessingErrorView {
                kind: ProcessingErrorKind::Decode,
                path: Some(path@),
                message: msg@,
                io_kind: None,
            }),
    {
        ProcessingError {
            kind: ProcessingErrorKind::Decode,
            path: Some(path),
            message: msg.to_string(),
            io_kind: None,
        }
    }

    /// The error that records a cancellation.
    pub fn cancelled(path: Option<String>) -> (e: Self)
        ensures
            e@ == cancelled_error(opt_view(path)),
    {
        ProcessingError {
            kind: ProcessingErrorKind::Cancelled,
            path,
            message: "cancelled".to_string(),
            io_kind: None,
        }
    }

    /// The error for a file of `size` bytes when at most `max` are allowed.
    pub fn too_large(path: String, size: u64, max: u64) -> (e: Self)
        ensures
            e@ == (ProcessingErrorView {
                kind: ProcessingErrorKind::TooLarge,
                path: Some(path@),
                message: too_large_message(size, max),
                io_kind: None,
            }),
    {
        let mut msg: Vec<char> = Vec::new();
        push_str(&mut msg, "file too large: ");
        let mut digits = format_decimal(size as u128);
        msg.append(&mut digits);
        push_str(&mut msg, " bytes (max ");
        let mut digits = format_decimal(max as u128);
        msg.append(&mut digits);
        push_str(&mut msg, ")");
        ProcessingError {
            kind: ProcessingErrorKind::TooLarge,
            path: Some(path),
            message: string_from_chars(&msg),
            io_kind: None,
        }
    }

    /// Any other error, with message `msg`.
    pub fn other(path: Option<String>, msg: &str) -> (e: Self)
        ensures
            e@ == (ProcessingErrorView {
                kind: ProcessingErrorKind::Other,
                path: opt_view(path),
                message: msg@,
                io_kind: None,
            }),
    {
        ProcessingError { kind: ProcessingErrorKind::Other, path, message: msg.to_string(), io_kind: None }
    }
}

/// The result of analyzing one file. `filename` is the display text of
/// the file's path.
#[derive(Debug, Clone)]
pub struct FileAnalysis {
    pub filename: String,
    pub stats: FileStats,
    pub errors: Vec<ProcessingError>,
    pub processing_time: Duration,
}

/// Where a file stands in processing.
#[derive(Debug, Clone, Copy, PartialEq, Eq, Structural)]
pub enum FileStatus {
    Pending,
    InProgress,
    Done,
    Error,
    Skipped,
}

/// The counters of the processor's progress at one moment.
#[derive(Debug, Clone)]
pub struct ProgressSnapshot {
    pub total: usize,
    pub done: usize,
    pub errors: usize,
    pub skipped: usize,
    pub in_progress: usize,
    pub cancelled: bool,
}

} // verus!
