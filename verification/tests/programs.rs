use parallel_file_processor::books::{
    format_book_line, parse_book_line, parse_catalog, Book, BookLineError,
};
use parallel_file_processor::cli::{is_cancel_command, parse_args, CliCommand};
use parallel_file_processor::exercises::{
    analyze_numbers, classify_number, guessing_game, largest_number, sum_numbers, NumberKind,
    Student,
};
use parallel_file_processor::walk::{DirEntryOutcome, DirListing, DirWalk, EntryKind, WalkStep};
use parallel_file_processor::types::ProcessingError;

fn args(v: &[&str]) -> Vec<String> {
    v.iter().map(|s| s.to_string()).collect()
}

#[test]
fn cli_full_command_line() {
    let a = args(&["--dir", "x", "--dir", "y", "--threads", "3", "--out", "r.txt", "--max-bytes", "100", "--progress-file", "p.tsv", "--resume"]);
    match parse_args(&a, 8) {
        Ok(CliCommand::Run(c)) => {
            assert_eq!(c.dirs, vec!["x".to_string(), "y".to_string()]);
            assert_eq!(c.threads, 3);
            assert_eq!(c.out.as_deref(), Some("r.txt"));
            assert_eq!(c.max_bytes, Some(100));
            assert_eq!(c.progress_file.as_deref(), Some("p.tsv"));
            assert!(c.resume);
        }
        _ => panic!("expected a run"),
    }
}

#[test]
fn cli_defaults() {
    match parse_args(&args(&[]), 6) {
        Ok(CliCommand::Run(c)) => {
            assert_eq!(c.dirs, vec!["books".to_string()]);
            assert_eq!(c.threads, 6);
            assert!(c.out.is_none() && c.max_bytes.is_none() && c.progress_file.is_none() && !c.resume);
        }
        _ => panic!("expected a run"),
    }
}

#[test]
fn cli_errors_and_help() {
    let err = |v: &[&str]| match parse_args(&args(v), 1) {
        Err(e) => e,
        _ => panic!("expected an error"),
    };
    assert_eq!(err(&["--dir"]), "--dir needs a path");
    assert_eq!(err(&["--threads"]), "--threads needs a number");
    assert_eq!(err(&["--threads", "x"]), "invalid --threads value");
    assert_eq!(err(&["--out"]), "--out needs a path");
    assert_eq!(err(&["--max-bytes"]), "--max-bytes needs a number");
    assert_eq!(err(&["--max-bytes", "-5"]), "invalid --max-bytes value");
    assert_eq!(err(&["--progress-file"]), "--progress-file needs a path");
    assert_eq!(err(&["--bogus", "-h"]), "unknown arg: --bogus");
    assert!(matches!(parse_args(&args(&["-h", "--bogus"]), 1), Ok(CliCommand::Help)));
    assert!(matches!(parse_args(&args(&["--resume", "--help"]), 1), Ok(CliCommand::Help)));
}

#[test]
fn book_lines() {
    let b = Book { title: "1984".to_string(), author: "George Orwell".to_string(), year: 1949 };
    let line = format_book_line(&b);
    assert_eq!(line, "1984,George Orwell,1949");
    let back = parse_book_line(&line).unwrap();
    assert_eq!((back.title.as_str(), back.author.as_str(), back.year), ("1984", "George Orwell", 1949));
    let t = parse_book_line("  Dune , Frank Herbert ,  1965 ").unwrap();
    assert_eq!((t.title.as_str(), t.author.as_str(), t.year), ("Dune", "Frank Herbert", 1965));
    assert_eq!(parse_book_line("a,b").unwrap_err(), BookLineError::Malformed);
    assert_eq!(parse_book_line("a,b,c,d").unwrap_err(), BookLineError::Malformed);
    assert_eq!(parse_book_line("a,b,70000").unwrap_err(), BookLineError::InvalidYear);
    assert_eq!(parse_book_line("a,b,").unwrap_err(), BookLineError::InvalidYear);
}

#[test]
fn catalog_roundtrip() {
    let books = vec![
        Book { title: "1984".to_string(), author: "George Orwell".to_string(), year: 1949 },
        Book { title: "To Kill a Mockingbird".to_string(), author: "Harper Lee".to_string(), year: 1960 },
        Book { title: "The Pragmatic Programmer".to_string(), author: "Andrew Hunt & David Thomas".to_string(), year: 1999 },
    ];
    let mut lines: Vec<String> = books.iter().map(format_book_line).collect();
    lines.insert(1, "broken line".to_string());
    let (read, skipped) = parse_catalog(&lines);
    assert_eq!(read.len(), 3);
    for (a, b) in read.iter().zip(books.iter()) {
        assert_eq!((&a.title, &a.author, a.year), (&b.title, &b.author, b.year));
    }
    assert_eq!(skipped.len(), 1);
    assert_eq!((skipped[0].index, skipped[0].reason), (1, BookLineError::Malformed));
}

#[test]
fn number_analysis() {
    let numbers = [3, 5, 8, 12, 15, 20, 21, 30, 42, 55];
    let kinds: Vec<NumberKind> = numbers.iter().map(|n| classify_number(*n)).collect();
    assert_eq!(kinds, vec![NumberKind::Fizz, NumberKind::Buzz, NumberKind::Even, NumberKind::Fizz, NumberKind::FizzBuzz, NumberKind::Buzz, NumberKind::Fizz, NumberKind::FizzBuzz, NumberKind::Fizz, NumberKind::Buzz]);
    assert_eq!(sum_numbers(&numbers), 211);
    assert_eq!(largest_number(&numbers), 55);
    let r = analyze_numbers(&numbers);
    assert_eq!((r.sum, r.largest), (211, 55));
    assert_eq!(r.kinds, kinds);
    assert_eq!(classify_number(7), NumberKind::Odd);
    assert_eq!(classify_number(-4), NumberKind::Even);
    assert_eq!(classify_number(0), NumberKind::FizzBuzz);
    assert_eq!(largest_number(&[-5, -2, -9]), -2);
}

#[test]
fn guessing_game_trace() {
    let g = guessing_game(30, 42);
    assert_eq!(g.len(), 13);
    assert_eq!(g[0], 30);
    assert_eq!(*g.last().unwrap(), 42);
    let g = guessing_game(45, 42);
    assert_eq!(g, vec![45, 44, 43, 42]);
    assert_eq!(guessing_game(42, 42), vec![42]);
}

#[test]
fn student_record() {
    let mut s = Student::new("Maribel Hernandez", "Undeclared");
    assert_eq!(s.get_name(), "Maribel Hernandez");
    assert_eq!(s.get_major(), "Undeclared");
    s.set_major("Computer Science");
    assert_eq!(s.get_major(), "Computer Science");
    assert_eq!(s.get_name(), "Maribel Hernandez");
}

#[test]
fn walk_depth_first() {
    let mut w = DirWalk::new(vec!["r1".to_string(), "r2".to_string()]);
    let mut listed: Vec<String> = Vec::new();
    loop {
        match w.step() {
            WalkStep::List(p) => {
                listed.push(p.clone());
                let entry = |path: &str, kind| DirEntryOutcome::Entry { path: path.to_string(), kind };
                let listing = match p.as_str() {
                    "r1" => DirListing::Listed(vec![
                        entry("r1/a", EntryKind::File),
                        entry("r1/sub", EntryKind::Dir),
                        DirEntryOutcome::Failed(ProcessingError::other(Some("r1".to_string()), "entry")),
                        entry("r1/z", EntryKind::File),
                        entry("r1/link", EntryKind::Other),
                    ]),
                    "r1/sub" => DirListing::Listed(vec![entry("r1/sub/b", EntryKind::File)]),
                    _ => DirListing::Unreadable(ProcessingError::other(Some(p.clone()), "missing")),
                };
                w.supply(listing);
            }
            WalkStep::Continue => {}
            WalkStep::Done => break,
        }
    }
    let (files, errors) = w.into_results();
    assert_eq!(listed, vec!["r1", "r1/sub", "r2"]);
    assert_eq!(files, vec!["r1/a", "r1/sub/b", "r1/z"]);
    let msgs: Vec<&str> = errors.iter().map(|e| e.message.as_str()).collect();
    assert_eq!(msgs, vec!["entry", "missing"]);
}

fn fake_listing(p: &str) -> DirListing {
    let entry = |path: &str, kind| DirEntryOutcome::Entry { path: path.to_string(), kind };
    match p {
        "r1" => DirListing::Listed(vec![
            entry("r1/a", EntryKind::File),
            entry("r1/sub", EntryKind::Dir),
            DirEntryOutcome::Failed(ProcessingError::other(Some("r1".to_string()), "entry")),
        ]),
        "r1/sub" => DirListing::Listed(vec![entry("r1/sub/b", EntryKind::File)]),
        "r3" => DirListing::Listed(vec![entry("r3/c", EntryKind::File)]),
        _ => DirListing::Unreadable(ProcessingError::other(Some(p.to_string()), "missing")),
    }
}

fn walk_all(roots: &[&str]) -> (Vec<String>, Vec<String>) {
    let mut w = DirWalk::new(roots.iter().map(|r| r.to_string()).collect());
    loop {
        match w.step() {
            WalkStep::List(p) => w.supply(fake_listing(&p)),
            WalkStep::Continue => {}
            WalkStep::Done => break,
        }
    }
    let (files, errors) = w.into_results();
    (files, errors.into_iter().map(|e| e.message).collect())
}

#[test]
fn walk_of_joined_roots_joins_results() {
    let (fa, ea) = walk_all(&["r1", "r2"]);
    let (fb, eb) = walk_all(&["r3"]);
    let (f, e) = walk_all(&["r1", "r2", "r3"]);
    assert_eq!(f, [fa.clone(), fb].concat());
    assert_eq!(e, [ea, eb].concat());
    assert_eq!(fa, vec!["r1/a", "r1/sub/b"]);
    assert_eq!(walk_all(&[]), (Vec::new(), Vec::new()));
}

#[test]
fn cancel_commands() {
    for line in ["c\n", "C\r\n", "  cancel \n", "CaNcEl", "q", "QUIT\n", "\tquit\t"] {
        assert!(is_cancel_command(line), "{line:?}");
    }
    for line in ["", "\n", "x", "cancelled", "qu", "c c", "\u{212a}"] {
        assert!(!is_cancel_command(line), "{line:?}");
    }
}
