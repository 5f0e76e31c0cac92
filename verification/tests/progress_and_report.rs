use std::time::Duration;

use parallel_file_processor::progress::{
    parse_resume_set, plan_submission, ProgressEvent, ProgressState, ResumeSet, StatusTable,
    Submission,
};
use parallel_file_processor::report::{format_error, progress_display, report_line, top_by_count};
use parallel_file_processor::types::{
    FileAnalysis, FileStats, FileStatus, ProcessingError, ProgressSnapshot,
};

fn finished(path: &str, status: FileStatus, error_count: usize) -> ProgressEvent {
    ProgressEvent::Finished {
        path: path.to_string(),
        status,
        processing_time: Duration::from_millis(3),
        error_count,
    }
}

#[test]
fn status_table_insert_and_get() {
    let mut t = StatusTable::new();
    assert_eq!(t.get("a"), None);
    t.insert("a".to_string(), FileStatus::Pending);
    t.insert("b".to_string(), FileStatus::Pending);
    t.insert("a".to_string(), FileStatus::Done);
    assert_eq!(t.get("a"), Some(FileStatus::Done));
    assert_eq!(t.get("b"), Some(FileStatus::Pending));
    assert_eq!(t.get("c"), None);
}

#[test]
fn progress_events_update_counters() {
    let mut st = ProgressState::default();
    let paths = vec!["a.txt".to_string(), "b.txt".to_string(), "c.txt".to_string()];
    st.begin(&paths);
    assert_eq!(st.total, 3);
    assert_eq!(st.statuses.get("b.txt"), Some(FileStatus::Pending));
    assert!(!st.is_finished());
    assert_eq!(st.apply(ProgressEvent::Started { path: "a.txt".to_string() }), None);
    assert_eq!(st.in_progress, 1);
    assert_eq!(st.statuses.get("a.txt"), Some(FileStatus::InProgress));
    assert_eq!(st.apply(finished("a.txt", FileStatus::Done, 0)).as_deref(), Some("DONE\ta.txt"));
    assert_eq!((st.done, st.in_progress), (1, 0));
    assert_eq!(st.apply(ProgressEvent::Started { path: "b.txt".to_string() }), None);
    assert_eq!(st.apply(finished("b.txt", FileStatus::Error, 2)).as_deref(), Some("ERROR(2)\tb.txt"));
    assert_eq!(st.errors, 1);
    assert_eq!(st.statuses.get("b.txt"), Some(FileStatus::Error));
    assert!(!st.is_finished());
    let skip = ProgressEvent::Skipped { path: "c.txt".to_string(), reason: "resume: already DONE".to_string() };
    assert_eq!(st.apply(skip), None);
    assert_eq!(st.skipped, 1);
    assert!(st.is_finished());
    assert_eq!(st.apply(finished("x", FileStatus::Pending, 0)), None);
    assert_eq!(st.in_progress, 0);
    let snap = st.snapshot();
    assert_eq!((snap.total, snap.done, snap.errors, snap.skipped, snap.in_progress, snap.cancelled), (3, 1, 1, 1, 0, false));
}

#[test]
fn empty_run_is_finished() {
    let st = ProgressState::default();
    assert!(st.is_finished());
}

#[test]
fn resume_reads_done_lines() {
    let content = "DONE\ta.txt\nERROR(1)\tb.txt\n  DONE \t  c.txt \r\nDONE\t\nDONE\nDONE\td\te\nDONE\tlast";
    let set = parse_resume_set(content);
    assert!(set.contains("a.txt"));
    assert!(!set.contains("b.txt"));
    assert!(set.contains("c.txt"));
    assert!(set.contains("d\te"));
    assert!(set.contains("last"));
    assert!(!set.contains(""));
    assert!(!ResumeSet::new().contains("a.txt"));
}

#[test]
fn done_line_is_resumed() {
    let mut st = ProgressState::default();
    st.begin(&vec!["books/x.txt".to_string()]);
    let line = st.apply(finished("books/x.txt", FileStatus::Done, 0)).unwrap();
    let content = format!("DONE\tother.txt\n{}\n", line);
    let set = parse_resume_set(&content);
    assert!(set.contains("books/x.txt"));
    assert_eq!(plan_submission(false, true, &set, "books/x.txt"), Submission::AlreadyDone);
    assert_eq!(plan_submission(false, false, &set, "books/x.txt"), Submission::Run);
    assert_eq!(plan_submission(true, true, &set, "books/x.txt"), Submission::Cancelled);
    assert_eq!(plan_submission(false, true, &set, "books/y.txt"), Submission::Run);
}

#[test]
fn error_descriptions() {
    let e = ProcessingError::other(Some("a/b.txt".to_string()), "boom");
    assert_eq!(format_error(&e), "Other at a/b.txt: boom");
    let e = ProcessingError::cancelled(None);
    assert_eq!(format_error(&e), "Cancelled: cancelled");
    let e = ProcessingError::too_large("big".to_string(), 9, 1);
    assert_eq!(format_error(&e), "TooLarge at big: file too large: 9 bytes (max 1)");
}

#[test]
fn report_line_fields() {
    let mut stats = FileStats::default();
    stats.size_bytes = 24;
    stats.line_count = 2;
    stats.word_count = 4;
    let r = FileAnalysis {
        filename: "a.txt".to_string(),
        stats,
        errors: vec![ProcessingError::cancelled(None)],
        processing_time: Duration::from_millis(7),
    };
    assert_eq!(report_line(&r, 7), "FILE\ta.txt\tSIZE\t24\tLINES\t2\tWORDS\t4\tTIME_MS\t7\tERRORS\t1");
}

#[test]
fn progress_display_pads() {
    let snap = ProgressSnapshot { total: 3, done: 123456, errors: 0, skipped: 12, in_progress: 1, cancelled: false };
    let want = format!(
        "\rTotal: {:>5} | Done: {:>5} | Err: {:>5} | Skip: {:>5} | InProg: {:>5}{}",
        3, 123456, 0, 12, 1, ""
    );
    assert_eq!(progress_display(&snap), want);
    let snap = ProgressSnapshot { cancelled: true, ..snap };
    assert!(progress_display(&snap).ends_with("InProg:     1 | CANCELLED"));
}

#[test]
fn top_chars_by_count_stable() {
    let freqs = vec![('a', 2), ('b', 5), ('c', 2), ('d', 9), ('e', 5), ('f', 1)];
    let top = top_by_count(&freqs, 4);
    assert_eq!(top, vec![('d', 9), ('b', 5), ('e', 5), ('a', 2)]);
    let all = top_by_count(&freqs, 10);
    let mut want = freqs.clone();
    want.sort_by(|x, y| y.1.cmp(&x.1));
    assert_eq!(all, want);
    assert!(top_by_count(&vec![], 10).is_empty());
}

#[test]
fn run_lines_read_back() {
    let mut st = ProgressState::default();
    let paths = vec!["a.txt".to_string(), "b.txt".to_string(), "c.txt".to_string()];
    st.begin(&paths);
    let mut content = String::from("DONE\told.txt\n");
    let events = vec![
        ProgressEvent::Started { path: "a.txt".to_string() },
        finished("a.txt", FileStatus::Done, 0),
        finished("b.txt", FileStatus::Error, 3),
        ProgressEvent::Skipped { path: "c.txt".to_string(), reason: "resume: already DONE".to_string() },
    ];
    let mut accounted = Vec::new();
    for ev in events {
        if let Some(line) = st.apply(ev) {
            content.push_str(&line);
            content.push('\n');
        }
        accounted.push(st.done + st.errors + st.skipped);
    }
    assert_eq!(content, "DONE\told.txt\nDONE\ta.txt\nERROR(3)\tb.txt\n");
    let set = parse_resume_set(&content);
    assert!(set.contains("old.txt"));
    assert!(set.contains("a.txt"));
    assert!(!set.contains("b.txt"));
    assert!(!set.contains("c.txt"));
    assert_eq!(accounted, vec![0, 1, 2, 3]);
    assert!(st.is_finished());
}
