use std::collections::HashMap;
use std::sync::atomic::AtomicBool;

use parallel_file_processor::analyzers::{
    default_analyzers, Analyzer, CharFrequency, DefaultAnalyzer, FileSize,
    LineCount, WordCount,
};
use parallel_file_processor::processor::{
    analyze_loaded, analyzer_step, cancel_requested, decode_content, file_status, latin1_decode,
    run_analyzers, size_limit_error, ProcessorConfig,
};
use parallel_file_processor::types::{
    FileStats, FileStatus, ProcessingError, ProcessingErrorKind,
};

fn tally(text: &str) -> HashMap<u32, usize> {
    let mut m = HashMap::new();
    for c in text.chars() {
        *m.entry(c as u32).or_insert(0) += 1;
    }
    m
}

#[test]
fn default_analyzers_in_order() {
    let a = default_analyzers();
    assert_eq!(
        a,
        vec![
            DefaultAnalyzer::FileSize,
            DefaultAnalyzer::LineCount,
            DefaultAnalyzer::WordCount,
            DefaultAnalyzer::CharFrequency
        ]
    );
    let names: Vec<&str> = a.iter().map(|x| x.name()).collect();
    assert_eq!(names, vec!["size_bytes", "line_count", "word_count", "char_frequencies"]);
}

#[test]
fn analyzer_step_follows_the_read() {
    let mut stats = FileStats::default();
    let mut errors: Vec<ProcessingError> = Vec::new();
    analyzer_step(true, &DefaultAnalyzer::WordCount, "p", "a b c", 5, &mut stats, &mut errors);
    assert_eq!(stats.word_count, 0);
    assert_eq!(errors.len(), 1);
    assert_eq!(errors[0].kind, ProcessingErrorKind::Cancelled);
    assert_eq!(errors[0].path.as_deref(), Some("p"));
    analyzer_step(false, &DefaultAnalyzer::WordCount, "p", "a b c", 5, &mut stats, &mut errors);
    assert_eq!(stats.word_count, 3);
    assert_eq!(errors.len(), 1);
}

#[test]
fn each_analyzer_sets_its_field() {
    let text = "hello world\nsecond line\n";
    let mut stats = FileStats::default();
    let mut errors: Vec<ProcessingError> = Vec::new();
    WordCount.analyze("a.txt", text, 99, &mut stats, &mut errors);
    assert_eq!(stats.word_count, 4);
    LineCount.analyze("a.txt", text, 99, &mut stats, &mut errors);
    assert_eq!(stats.line_count, 2);
    FileSize.analyze("a.txt", text, 99, &mut stats, &mut errors);
    assert_eq!(stats.size_bytes, 99);
    CharFrequency.analyze("a.txt", text, 99, &mut stats, &mut errors);
    assert_eq!(stats.char_frequencies, tally(text));
    assert_eq!(stats.char_frequencies[&('l' as u32)], 4);
    assert!(errors.is_empty());
}

#[test]
fn char_frequency_accumulates_and_wraps() {
    let mut stats = FileStats::default();
    let mut errors: Vec<ProcessingError> = Vec::new();
    stats.char_frequencies.insert('x' as u32, usize::MAX);
    stats.char_frequencies.insert('y' as u32, 3);
    CharFrequency.analyze("p", "xyz", 0, &mut stats, &mut errors);
    assert_eq!(stats.char_frequencies[&('x' as u32)], 0);
    assert_eq!(stats.char_frequencies[&('y' as u32)], 4);
    assert_eq!(stats.char_frequencies[&('z' as u32)], 1);
}

#[test]
fn processes_files_and_counts_words_lines() {
    let analyzers = default_analyzers();
    let cancel = AtomicBool::new(false);
    let cfg = ProcessorConfig::default();
    let a = b"hello world\nsecond line\n".to_vec();
    let (stats, errors, reads) = analyze_loaded("dir/a.txt", a, 24, &cfg, &analyzers, &cancel);
    assert_eq!(reads, vec![false; 5]);
    assert_eq!(stats.line_count, 2);
    assert_eq!(stats.word_count, 4);
    assert_eq!(stats.size_bytes, 24);
    assert!(errors.is_empty());
    assert_eq!(file_status(&errors), FileStatus::Done);
    let b = b"one two three\n".to_vec();
    let (stats, errors, _) = analyze_loaded("dir/b.txt", b, 14, &cfg, &analyzers, &cancel);
    assert_eq!(stats.line_count, 1);
    assert_eq!(stats.word_count, 3);
    assert_eq!(stats.char_frequencies, tally("one two three\n"));
    assert!(errors.is_empty());
}

#[test]
fn cancelled_before_decoding() {
    let analyzers = default_analyzers();
    let cancel = AtomicBool::new(true);
    assert!(cancel_requested(&cancel));
    let cfg = ProcessorConfig::default();
    let (stats, errors, reads) = analyze_loaded("c.txt", b"a b".to_vec(), 3, &cfg, &analyzers, &cancel);
    assert_eq!(reads, vec![true]);
    assert_eq!(stats.word_count, 0);
    assert_eq!(errors.len(), 1);
    assert_eq!(errors[0].kind, ProcessingErrorKind::Cancelled);
    assert_eq!(errors[0].message, "cancelled");
    assert_eq!(errors[0].path.as_deref(), Some("c.txt"));
    assert_eq!(file_status(&errors), FileStatus::Error);
}

#[test]
fn run_analyzers_stops_when_cancelled() {
    let analyzers: Vec<Box<dyn Analyzer>> =
        vec![Box::new(FileSize), Box::new(LineCount), Box::new(WordCount), Box::new(CharFrequency)];
    let cancel = AtomicBool::new(true);
    let mut stats = FileStats::default();
    let mut errors = Vec::new();
    let reads = run_analyzers("p", "a b", 3, &analyzers, &cancel, &mut stats, &mut errors);
    assert_eq!(reads, vec![true]);
    assert_eq!(errors.len(), 1);
    assert_eq!(errors[0].kind, ProcessingErrorKind::Cancelled);
    let go = AtomicBool::new(false);
    let mut errors = Vec::new();
    let reads = run_analyzers("p", "a b", 3, &analyzers, &go, &mut stats, &mut errors);
    assert_eq!(reads, vec![false; 4]);
    assert!(errors.is_empty());
    assert_eq!(stats.word_count, 2);
}

#[test]
fn invalid_utf8_falls_back() {
    let bytes = vec![b'c', b'a', b'f', 0xe9, b' ', b'x'];
    let (text, err) = decode_content("f.txt", bytes.clone(), true);
    assert_eq!(text, "caf\u{e9} x");
    let err = err.unwrap();
    assert_eq!(err.kind, ProcessingErrorKind::Decode);
    assert_eq!(err.message, "UTF-8 decode failed; used ISO-8859-1 fallback");
    let (text, err) = decode_content("f.txt", bytes.clone(), false);
    assert_eq!(text, String::from_utf8_lossy(&bytes));
    assert_eq!(err.unwrap().message, "UTF-8 decode failed; used lossy UTF-8");
    let (text, err) = decode_content("g.txt", "héllo".as_bytes().to_vec(), true);
    assert_eq!(text, "héllo");
    assert!(err.is_none());
    assert_eq!(latin1_decode(&vec![0x41, 0xff]), "A\u{ff}");
    let analyzers = default_analyzers();
    let cancel = AtomicBool::new(false);
    let cfg = ProcessorConfig::default();
    let (stats, errors, _) = analyze_loaded("f.txt", bytes, 6, &cfg, &analyzers, &cancel);
    assert_eq!(stats.word_count, 2);
    assert_eq!(errors.len(), 1);
    assert_eq!(errors[0].kind, ProcessingErrorKind::Decode);
}

#[test]
fn size_limit() {
    let mut cfg = ProcessorConfig::default();
    assert!(size_limit_error("big", 10, &cfg).is_none());
    cfg.max_bytes = Some(5);
    let e = size_limit_error("big", 10, &cfg).unwrap();
    assert_eq!(e.kind, ProcessingErrorKind::TooLarge);
    assert_eq!(e.message, "file too large: 10 bytes (max 5)");
    assert_eq!(e.path.as_deref(), Some("big"));
    assert!(size_limit_error("big", 5, &cfg).is_none());
}

#[test]
fn error_constructors() {
    let io = std::io::Error::new(std::io::ErrorKind::NotFound, "gone");
    let e = ProcessingError::io("x".to_string(), &io);
    assert_eq!(e.kind, ProcessingErrorKind::Io);
    assert_eq!(e.message, "gone");
    assert_eq!(e.io_kind, Some(std::io::ErrorKind::NotFound));
    let e = ProcessingError::decode("x".to_string(), "bad");
    assert_eq!((e.kind, e.message.as_str(), e.io_kind), (ProcessingErrorKind::Decode, "bad", None));
    let e = ProcessingError::cancelled(None);
    assert_eq!((e.kind, e.path, e.message.as_str()), (ProcessingErrorKind::Cancelled, None, "cancelled"));
    let e = ProcessingError::other(Some("y".to_string()), "why");
    assert_eq!((e.kind, e.path.as_deref(), e.message.as_str()), (ProcessingErrorKind::Other, Some("y"), "why"));
    let e = ProcessingError::too_large("z".to_string(), 0, 18446744073709551615);
    assert_eq!(e.message, "file too large: 0 bytes (max 18446744073709551615)");
}

#[test]
fn config_defaults() {
    let c = ProcessorConfig::default();
    assert_eq!(c.max_bytes, None);
    assert!(c.allow_latin1_fallback);
    assert_eq!(c.progress_file, None);
    assert!(!c.resume);
    let s = FileStats::default();
    assert_eq!((s.word_count, s.line_count, s.size_bytes), (0, 0, 0));
    assert!(s.char_frequencies.is_empty());
}
