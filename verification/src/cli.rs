//! The command line of the file processor.
use vstd::prelude::*;

use crate::decimal::{parse_decimal, parse_unsigned};
use crate::text::{chars_of, push_str, string_from_chars, trim_chars, trim_of};

verus! {

broadcast use vstd::string::group_string_axioms;

/// The settings a command line gives for a run.
pub struct CliArgs {
    pub dirs: Vec<String>,
    pub threads: usize,
    pub out: Option<String>,
    pub max_bytes: Option<u64>,
    pub progress_file: Option<String>,
    pub resume: bool,
}

/// What a command line asks for: a run with its settings, or the usage text.
pub enum CliCommand {
    Run(CliArgs),
    Help,
}

/// The options read so far.
pub ghost struct CliState {
    pub dirs: Seq<Seq<char>>,
    pub threads: Option<usize>,
    pub out: Option<Seq<char>>,
    pub max_bytes: Option<u64>,
    pub progress_file: Option<Seq<char>>,
    pub resume: bool,
}

/// The outcome of reading a command line.
pub ghost enum CliOutcome {
    Read(CliState),
    Help,
    Fail(Seq<char>),
}

/// No options read yet.
pub open spec fn initial_cli_state() -> CliState {
    CliState {
        dirs: Seq::empty(),
        threads: None,
        out: None,
        max_bytes: None,
        progress_file: None,
        resume: false,
    }
}

/// Reads the arguments from position `i` on, with the options `st` read
/// before it. Options may repeat; a later one replaces an earlier one,
/// but every `--dir` adds a directory. The first argument that is unknown
/// or lacks its value ends the reading with an error, and `-h` or `--help`
/// ends it with a request for the usage text.
pub open spec fn read_cli(args: Seq<Seq<char>>, i: int, st: CliState) -> CliOutcome
    decreases args.len() - i,
{
    if i < 0 || i >= args.len() {
        CliOutcome::Read(st)
    } else {
        let a = args[i];
        let has_value = i + 1 < args.len();
        if a == "--dir"@ {
            if has_value {
                read_cli(args, i + 2, CliState { dirs: st.dirs.push(args[i + 1]), ..st })
            } else {
                CliOutcome::Fail("--dir needs a path"@)
            }
        } else if a == "--threads"@ {
            if has_value {
                match parse_unsigned(args[i + 1], usize::MAX as nat) {
                    Some(n) => read_cli(args, i + 2, CliState { threads: Some(n as usize), ..st }),
                    None => CliOutcome::Fail("invalid --threads value"@),
                }
            } else {
                CliOutcome::Fail("--threads needs a number"@)
            }
        } else if a == "--out"@ {
            if has_value {
                read_cli(args, i + 2, CliState { out: Some(args[i + 1]), ..st })
            } else {
                CliOutcome::Fail("--out needs a path"@)
            }
        } else if a == "--max-bytes"@ {
            if has_value {
                match parse_unsigned(args[i + 1], u64::MAX as nat) {
                    Some(n) => read_cli(args, i + 2, CliState { max_bytes: Some(n as u64), ..st }),
                    None => CliOutcome::Fail("invalid --max-bytes value"@),
                }
            } else {
                CliOutcome::Fail("--max-bytes needs a number"@)
            }
        } else if a == "--progress-file"@ {
            if has_value {
                read_cli(args, i + 2, CliState { progress_file: Some(args[i + 1]), ..st })
            } else {
                CliOutcome::Fail("--progress-file needs a path"@)
            }
        } else if a == "--resume"@ {
            read_cli(args, i + 1, CliState { resume: true, ..st })
        } else if a == "-h"@ || a == "--help"@ {
            CliOutcome::Help
        } else {
            CliOutcome::Fail("unknown arg: "@ + a)
        }
    }
}

/// The texts of the arguments.
pub open spec fn arg_views(args: Seq<String>) -> Seq<Seq<char>> {
    args.map_values(|s: String| s@)
}

/// The directories a run uses: those given, or `books` when none is.
pub open spec fn run_dirs(dirs: Seq<Seq<char>>) -> Seq<Seq<char>> {
    if dirs.len() == 0 {
        seq!["books"@]
    } else {
        dirs
    }
}

/// Whether `a` is the text of `lit`.
fn is_text(a: &String, lit: &str) -> (r: bool)
    ensures
        r == (a@ == lit@),
{
    let l = lit.to_string();
    same_text(a, &l)
}

fn same_text(a: &String, b: &String) -> (r: bool)
    ensures
        r == (a@ == b@),
{
    *a == *b
}

/// Reads a command line (the arguments after the program's name).
/// `default_threads` is the number of worker threads when none is given.
pub fn parse_args(args: &Vec<String>, default_threads: usize) -> (r: Result<CliCommand, String>)
    ensures
        match read_cli(arg_views(args@), 0, initial_cli_state()) {
            CliOutcome::Help => r matches Ok(CliCommand::Help),
            CliOutcome::Fail(msg) => r matches Err(e) && e@ == msg,
            CliOutcome::Read(st) => r matches Ok(CliCommand::Run(a)) && {
                &&& arg_views(a.dirs@) == run_dirs(st.dirs)
                &&& a.threads == (match st.threads {
                    Some(n) => n,
                    None => default_threads,
                })
                &&& crate::types::opt_view(a.out) == st.out
                &&& a.max_bytes == st.max_bytes
                &&& crate::types::opt_view(a.progress_file) == st.progress_file
                &&& a.resume == st.resume
            },
        },
{
    let ghost av = arg_views(args@);
    let n = args.len();
    let mut dirs: Vec<String> = Vec::new();
    let mut threads: Option<usize> = None;
    let mut out: Option<String> = None;
    let mut max_bytes: Option<u64> = None;
    let mut progress_file: Option<String> = None;
    let mut resume = false;
    let mut i: usize = 0;
    assert(arg_views(dirs@) =~= Seq::<Seq<char>>::empty());
    while i < n
        invariant
            n == args@.len() == av.len(),
            av == arg_views(args@),
            i <= n,
            read_cli(av, 0, initial_cli_state()) == read_cli(
                av,
                i as int,
                CliState {
                    dirs: arg_views(dirs@),
                    threads,
                    out: crate::types::opt_view(out),
                    max_bytes,
                    progress_file: crate::types::opt_view(progress_file),
                    resume,
                },
            ),
        decreases n - i,
    {
        let a = &args[i];
        assert(av[i as int] == a@);
        let has_value = i + 1 < n;
        if is_text(a, "--dir") {
            if !has_value {
                return Err("--dir needs a path".to_string());
            }
            let ghost before = dirs@;
            dirs.push(args[i + 1].clone());
            assert(arg_views(dirs@) == arg_views(before).push(av[i + 1]));
            i = i + 2;
        } else if is_text(a, "--threads") {
            if !has_value {
                return Err("--threads needs a number".to_string());
            }
            let digits = chars_of(args[i + 1].as_str());
            match parse_decimal(digits.as_slice(), usize::MAX as u64) {
                Some(v) => {
                    threads = Some(v as usize);
                },
                None => {
                    return Err("invalid --threads value".to_string());
                },
            }
            i = i + 2;
        } else if is_text(a, "--out") {
            if !has_value {
                return Err("--out needs a path".to_string());
            }
            out = Some(args[i + 1].clone());
            i = i + 2;
        } else if is_text(a, "--max-bytes") {
            if !has_value {
                return Err("--max-bytes needs a number".to_string());
            }
            let digits = chars_of(args[i + 1].as_str());
            match parse_decimal(digits.as_slice(), u64::MAX) {
                Some(v) => {
                    max_bytes = Some(v);
                },
                None => {
                    return Err("invalid --max-bytes value".to_string());
                },
            }
            i = i + 2;
        } else if is_text(a, "--progress-file") {
            if !has_value {
                return Err("--progress-file needs a path".to_string());
            }
            progress_file = Some(args[i + 1].clone());
            i = i + 2;
        } else if is_text(a, "--resume") {
            resume = true;
            i = i + 1;
        } else if is_text(a, "-h") || is_text(a, "--help") {
            return Ok(CliCommand::Help);
        } else {
            let mut msg: Vec<char> = Vec::new();
            push_str(&mut msg, "unknown arg: ");
            push_str(&mut msg, a.as_str());
            return Err(string_from_chars(&msg));
        }
    }
    if dirs.len() == 0 {
        dirs.push("books".to_string());
        assert(arg_views(dirs@) == seq!["books"@]);
    }
    let threads = match threads {
        Some(t) => t,
        None => default_threads,
    };
    Ok(CliCommand::Run(CliArgs { dirs, threads, out, max_bytes, progress_file, resume }))
}

/// Whether `c` is the letter `w` in either case (`w` in lower case), or `w`
/// itself.
pub open spec fn same_letter(c: char, w: char) -> bool {
    c == w || ('a' <= w <= 'z' && c as u32 + 32 == w as u32)
}

/// Whether `t` is the word `w` (in lower case) with letters in either case.
/// Of all characters only the ASCII letters have lower cases among the
/// ASCII letters, so this is whether `t` in lower case is `w`.
pub open spec fn matches_word(t: Seq<char>, w: Seq<char>) -> bool {
    t.len() == w.len() && forall|i: int| 0 <= i < t.len() ==> same_letter(#[trigger] t[i], w[i])
}

/// Whether a line typed while the processor runs asks to cancel: trimmed and
/// in lower case it is `c`, `cancel`, `q` or `quit`.
pub open spec fn is_cancel_text(line: Seq<char>) -> bool {
    let t = trim_of(line);
    matches_word(t, "c"@) || matches_word(t, "cancel"@) || matches_word(t, "q"@) || matches_word(
        t,
        "quit"@,
    )
}

fn is_word(t: &Vec<char>, w: &str) -> (r: bool)
    ensures
        r == matches_word(t@, w@),
{
    let wc = chars_of(w);
    if t.len() != wc.len() {
        return false;
    }
    let mut i: usize = 0;
    while i < t.len()
        invariant
            i <= t@.len() == wc@.len(),
            wc@ == w@,
            forall|j: int| 0 <= j < i ==> same_letter(#[trigger] t@[j], wc@[j]),
        decreases t@.len() - i,
    {
        let c = t[i];
        let d = wc[i];
        if !(c == d || ('a' <= d && d <= 'z' && c as u32 == (d as u32) - 32)) {
            return false;
        }
        i = i + 1;
    }
    true
}

/// Whether a line typed while the processor runs asks to cancel.
pub fn is_cancel_command(line: &str) -> (r: bool)
    ensures
        r == is_cancel_text(line@),
{
    let chars = chars_of(line);
    let t = trim_chars(chars.as_slice());
    is_word(&t, "c") || is_word(&t, "cancel") || is_word(&t, "q") || is_word(&t, "quit")
}

/// Once `--resume` has been read, the run resumes, whatever options come
/// after it.
pub proof fn lemma_cli_resume_kept(args: Seq<Seq<char>>, i: int, st: CliState)
    requires
        st.resume,
    ensures
        read_cli(args, i, st) matches CliOutcome::Read(r) ==> r.resume,
    decreases args.len() - i,
{
    if 0 <= i < args.len() {
        let a = args[i];
        let has_value = i + 1 < args.len();
        if a == "--dir"@ {
            if has_value {
                lemma_cli_resume_kept(args, i + 2, CliState { dirs: st.dirs.push(args[i + 1]), ..st });
            }
        } else if a == "--threads"@ {
            if has_value {
                if let Some(n) = parse_unsigned(args[i + 1], usize::MAX as nat) {
                    lemma_cli_resume_kept(args, i + 2, CliState { threads: Some(n as usize), ..st });
                }
            }
        } else if a == "--out"@ {
            if has_value {
                lemma_cli_resume_kept(args, i + 2, CliState { out: Some(args[i + 1]), ..st });
            }
        } else if a == "--max-bytes"@ {
            if has_value {
                if let Some(n) = parse_unsigned(args[i + 1], u64::MAX as nat) {
                    lemma_cli_resume_kept(args, i + 2, CliState { max_bytes: Some(n as u64), ..st });
                }
            }
        } else if a == "--progress-file"@ {
            if has_value {
                lemma_cli_resume_kept(args, i + 2, CliState { progress_file: Some(args[i + 1]), ..st });
            }
        } else if a == "--resume"@ {
            lemma_cli_resume_kept(args, i + 1, CliState { resume: true, ..st });
        }
    }
}

/// Reading `--resume` as an option makes the run resume, whatever options
/// come before or after it: if the reading reaches `--resume` at position
/// `i` and succeeds, the run resumes.
pub proof fn lemma_cli_resume_read(args: Seq<Seq<char>>, i: int, st: CliState)
    requires
        0 <= i < args.len(),
        args[i] == "--resume"@,
    ensures
        read_cli(args, i, st) matches CliOutcome::Read(r) ==> r.resume,
{
    reveal_strlit("--dir");
    reveal_strlit("--threads");
    reveal_strlit("--out");
    reveal_strlit("--max-bytes");
    reveal_strlit("--progress-file");
    reveal_strlit("--resume");
    reveal_strlit("-h");
    reveal_strlit("--help");
    let r = "--resume"@;
    assert(r.len() == 8 && r[2] == 'r');
    assert(r != "--dir"@ && r != "--out"@ && r != "-h"@ && r != "--help"@ && r != "--threads"@);
    assert(r != "--max-bytes"@) by {
        assert("--max-bytes"@[2] == 'm');
    }
    assert(r != "--progress-file"@) by {
        assert("--progress-file"@.len() != 8);
    }
    assert(read_cli(args, i, st) == read_cli(args, i + 1, CliState { resume: true, ..st }));
    lemma_cli_resume_kept(args, i + 1, CliState { resume: true, ..st });
}

/// Without `--resume` among the arguments still to read, a run that did not
/// resume does not resume.
pub proof fn lemma_cli_no_resume(args: Seq<Seq<char>>, i: int, st: CliState)
    requires
        !st.resume,
        forall|j: int| i <= j < args.len() ==> #[trigger] args[j] != "--resume"@,
    ensures
        read_cli(args, i, st) matches CliOutcome::Read(r) ==> !r.resume,
    decreases args.len() - i,
{
    if 0 <= i < args.len() {
        let a = args[i];
        let has_value = i + 1 < args.len();
        assert(a != "--resume"@);
        if a == "--dir"@ {
            if has_value {
                lemma_cli_no_resume(args, i + 2, CliState { dirs: st.dirs.push(args[i + 1]), ..st });
            }
        } else if a == "--threads"@ {
            if has_value {
                if let Some(n) = parse_unsigned(args[i + 1], usize::MAX as nat) {
                    lemma_cli_no_resume(args, i + 2, CliState { threads: Some(n as usize), ..st });
                }
            }
        } else if a == "--out"@ {
            if has_value {
                lemma_cli_no_resume(args, i + 2, CliState { out: Some(args[i + 1]), ..st });
            }
        } else if a == "--max-bytes"@ {
            if has_value {
                if let Some(n) = parse_unsigned(args[i + 1], u64::MAX as nat) {
                    lemma_cli_no_resume(args, i + 2, CliState { max_bytes: Some(n as u64), ..st });
                }
            }
        } else if a == "--progress-file"@ {
            if has_value {
                lemma_cli_no_resume(args, i + 2, CliState { progress_file: Some(args[i + 1]), ..st });
            }
        } else if a == "--resume"@ {
            assert(false);
        }
    }
}

} // verus!
