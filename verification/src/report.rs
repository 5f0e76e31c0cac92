//! The text of reports: error descriptions, per-file report lines, the
//! progress display and the most frequent characters of a file.
use vstd::prelude::*;

use crate::decimal::{decimal, format_decimal};
use crate::text::{push_str, string_from_chars};
use crate::types::{
    FileAnalysis, ProcessingError, ProcessingErrorKind, ProcessingErrorView, ProgressSnapshot,
};

verus! {

broadcast use vstd::string::group_string_axioms;

/// The name of an error kind, as `Debug` writes it.
pub open spec fn kind_name(k: ProcessingErrorKind) -> Seq<char> {
    match k {
        ProcessingErrorKind::Io => "Io"@,
        ProcessingErrorKind::Decode => "Decode"@,
        ProcessingErrorKind::Cancelled => "Cancelled"@,
        ProcessingErrorKind::TooLarge => "TooLarge"@,
        ProcessingErrorKind::Other => "Other"@,
    }
}

/// The one-line description of an error: its kind, its path when it has
/// one, and its message.
pub open spec fn error_text(e: ProcessingErrorView) -> Seq<char> {
    match e.path {
        Some(p) => kind_name(e.kind) + " at "@ + p + ": "@ + e.message,
        None => kind_name(e.kind) + ": "@ + e.message,
    }
}

/// The name of an error kind.
pub fn kind_str(k: ProcessingErrorKind) -> (s: &'static str)
    ensures
        s@ == kind_name(k),
{
    match k {
        ProcessingErrorKind::Io => "Io",
        ProcessingErrorKind::Decode => "Decode",
        ProcessingErrorKind::Cancelled => "Cancelled",
        ProcessingErrorKind::TooLarge => "TooLarge",
        ProcessingErrorKind::Other => "Other",
    }
}

/// Describes an error in one line.
pub fn format_error(e: &ProcessingError) -> (s: String)
    ensures
        s@ == error_text(e@),
{
    let mut t: Vec<char> = Vec::new();
    push_str(&mut t, kind_str(e.kind));
    match &e.path {
        Some(p) => {
            push_str(&mut t, " at ");
            push_str(&mut t, p.as_str());
            push_str(&mut t, ": ");
        },
        None => {
            push_str(&mut t, ": ");
        },
    }
    push_str(&mut t, e.message.as_str());
    string_from_chars(&t)
}

/// The report line of a file's result, `time_ms` being its processing
/// time in milliseconds. The fields are separated by tabs.
pub open spec fn report_line_text(
    filename: Seq<char>,
    size_bytes: u64,
    lines: usize,
    words: usize,
    time_ms: u128,
    errors: nat,
) -> Seq<char> {
    "FILE\t"@ + filename + "\tSIZE\t"@ + decimal(size_bytes as nat) + "\tLINES\t"@ + decimal(
        lines as nat,
    ) + "\tWORDS\t"@ + decimal(words as nat) + "\tTIME_MS\t"@ + decimal(time_ms as nat)
        + "\tERRORS\t"@ + decimal(errors)
}

/// The report line of a file's result.
pub fn report_line(r: &FileAnalysis, time_ms: u128) -> (s: String)
    ensures
        s@ == report_line_text(
            r.filename@,
            r.stats.size_bytes,
            r.stats.line_count,
            r.stats.word_count,
            time_ms,
            r.errors@.len(),
        ),
{
    let mut t: Vec<char> = Vec::new();
    push_str(&mut t, "FILE\t");
    push_str(&mut t, r.filename.as_str());
    push_str(&mut t, "\tSIZE\t");
    let mut d = format_decimal(r.stats.size_bytes as u128);
    t.append(&mut d);
    push_str(&mut t, "\tLINES\t");
    let mut d = format_decimal(r.stats.line_count as u128);
    t.append(&mut d);
    push_str(&mut t, "\tWORDS\t");
    let mut d = format_decimal(r.stats.word_count as u128);
    t.append(&mut d);
    push_str(&mut t, "\tTIME_MS\t");
    let mut d = format_decimal(time_ms);
    t.append(&mut d);
    push_str(&mut t, "\tERRORS\t");
    let mut d = format_decimal(r.errors.len() as u128);
    t.append(&mut d);
    string_from_chars(&t)
}

/// `s` right-aligned in a field of `width` characters, as `{:>width}`
/// writes it: spaces before it when it is shorter.
pub open spec fn pad_left(s: Seq<char>, width: nat) -> Seq<char> {
    if s.len() >= width {
        s
    } else {
        Seq::new((width - s.len()) as nat, |i: int| ' ') + s
    }
}

/// Appends `n` right-aligned in a field of five characters.
fn push_padded(t: &mut Vec<char>, n: usize)
    ensures
        final(t)@ == old(t)@ + pad_left(decimal(n as nat), 5),
{
    let mut d = format_decimal(n as u128);
    let len = d.len();
    let mut k: usize = len;
    let ghost start = t@;
    while k < 5
        invariant
            len == d@.len(),
            len <= k <= 5 || (len > 5 && k == len),
            t@ == start + Seq::new((k - len) as nat, |i: int| ' '),
        decreases 5 - k,
    {
        t.push(' ');
        k = k + 1;
        assert(Seq::new((k - len) as nat, |i: int| ' ') == Seq::new(
            (k - 1 - len) as nat,
            |i: int| ' ',
        ).push(' '));
    }
    let ghost spaces = t@;
    t.append(&mut d);
    assert(pad_left(decimal(n as nat), 5) == Seq::new((k - len) as nat, |i: int| ' ') + decimal(
        n as nat,
    ));
}

/// The progress display: the counters right-aligned in fields of five
/// characters, after a carriage return.
pub open spec fn progress_text(s: ProgressSnapshot) -> Seq<char> {
    "\rTotal: "@ + pad_left(decimal(s.total as nat), 5) + " | Done: "@ + pad_left(
        decimal(s.done as nat),
        5,
    ) + " | Err: "@ + pad_left(decimal(s.errors as nat), 5) + " | Skip: "@ + pad_left(
        decimal(s.skipped as nat),
        5,
    ) + " | InProg: "@ + pad_left(decimal(s.in_progress as nat), 5) + if s.cancelled {
        " | CANCELLED"@
    } else {
        Seq::empty()
    }
}

/// The progress display for a snapshot of the counters.
pub fn progress_display(s: &ProgressSnapshot) -> (r: String)
    ensures
        r@ == progress_text(*s),
{
    let mut t: Vec<char> = Vec::new();
    push_str(&mut t, "\rTotal: ");
    push_padded(&mut t, s.total);
    push_str(&mut t, " | Done: ");
    push_padded(&mut t, s.done);
    push_str(&mut t, " | Err: ");
    push_padded(&mut t, s.errors);
    push_str(&mut t, " | Skip: ");
    push_padded(&mut t, s.skipped);
    push_str(&mut t, " | InProg: ");
    push_padded(&mut t, s.in_progress);
    if s.cancelled {
        push_str(&mut t, " | CANCELLED");
    }
    string_from_chars(&t)
}

/// The position of the first entry of `s` whose count is below `c`.
pub open spec fn first_below(s: Seq<(char, usize)>, c: usize) -> int
    decreases s.len(),
{
    if s.len() == 0 {
        0
    } else if s[0].1 < c {
        0
    } else {
        1 + first_below(s.drop_first(), c)
    }
}

/// `s` with `x` inserted before the first entry of smaller count.
pub open spec fn insert_by_count(s: Seq<(char, usize)>, x: (char, usize)) -> Seq<(char, usize)> {
    let k = first_below(s, x.1);
    s.take(k).push(x) + s.skip(k)
}

/// `s` sorted by decreasing count, entries of equal count keeping their
/// order (as a stable sort does).
pub open spec fn sort_by_count(s: Seq<(char, usize)>) -> Seq<(char, usize)>
    decreases s.len(),
{
    if s.len() == 0 {
        s
    } else {
        insert_by_count(sort_by_count(s.drop_last()), s.last())
    }
}

/// Whether the counts of `s` never increase.
pub open spec fn counts_decreasing(s: Seq<(char, usize)>) -> bool {
    forall|i: int, j: int| 0 <= i < j < s.len() ==> s[i].1 >= s[j].1
}

proof fn lemma_first_below(s: Seq<(char, usize)>, c: usize)
    ensures
        0 <= first_below(s, c) <= s.len(),
        forall|i: int| 0 <= i < first_below(s, c) ==> s[i].1 >= c,
        first_below(s, c) < s.len() ==> s[first_below(s, c)].1 < c,
    decreases s.len(),
{
    if s.len() > 0 && s[0].1 >= c {
        lemma_first_below(s.drop_first(), c);
        assert forall|i: int| 0 <= i < first_below(s, c) implies s[i].1 >= c by {
            if i > 0 {
                assert(s[i] == s.drop_first()[i - 1]);
            }
        }
    }
}

/// Sorting by count leaves the counts in decreasing order, and keeps every
/// entry.
pub proof fn lemma_sort_by_count_sorted(s: Seq<(char, usize)>)
    ensures
        counts_decreasing(sort_by_count(s)),
        sort_by_count(s).len() == s.len(),
        sort_by_count(s).to_multiset() == s.to_multiset(),
    decreases s.len(),
{
    if s.len() > 0 {
        let r = sort_by_count(s.drop_last());
        lemma_sort_by_count_sorted(s.drop_last());
        let x = s.last();
        let k = first_below(r, x.1);
        lemma_first_below(r, x.1);
        let n = insert_by_count(r, x);
        assert(n.len() == r.len() + 1);
        assert forall|i: int, j: int| 0 <= i < j < n.len() implies n[i].1 >= n[j].1 by {
            if i < k {
                assert(n[i] == r[i]);
            } else if i == k {
                assert(n[i] == x);
                assert(n[j] == r[j - 1]);
                if k < r.len() {
                    assert(r[k].1 < x.1);
                }
            } else {
                assert(n[i] == r[i - 1]);
            }
            if j < k {
                assert(n[j] == r[j]);
            } else if j == k {
                assert(n[j] == x);
            } else {
                assert(n[j] == r[j - 1]);
            }
        }
        vstd::seq_lib::lemma_multiset_commutative(r.take(k).push(x), r.skip(k));
        vstd::seq_lib::lemma_multiset_commutative(r.take(k), r.skip(k));
        assert(r.take(k) + r.skip(k) == r);
        assert(s.drop_last().push(x) == s);
        vstd::seq_lib::lemma_multiset_commutative(s.drop_last(), seq![x]);
        vstd::seq_lib::lemma_multiset_commutative(r.take(k), seq![x]);
        assert(r.take(k).push(x) == r.take(k) + seq![x]);
        assert(s.drop_last() + seq![x] == s);
    }
}

/// The `k` entries of highest count, in the order a stable sort by
/// decreasing count gives them (all of them when there are fewer).
pub fn top_by_count(freqs: &Vec<(char, usize)>, k: usize) -> (r: Vec<(char, usize)>)
    ensures
        r@ == sort_by_count(freqs@).take(if k < freqs@.len() {
            k as int
        } else {
            freqs@.len() as int
        }),
{
    let mut sorted: Vec<(char, usize)> = Vec::new();
    let mut i: usize = 0;
    while i < freqs.len()
        invariant
            i <= freqs@.len(),
            sorted@ == sort_by_count(freqs@.take(i as int)),
            sorted@.len() == i,
        decreases freqs@.len() - i,
    {
        let x = freqs[i];
        let mut p: usize = 0;
        proof {
            lemma_first_below(sorted@, x.1);
        }
        while p < sorted.len() && sorted[p].1 >= x.1
            invariant
                p <= sorted@.len(),
                p <= first_below(sorted@, x.1),
                0 <= first_below(sorted@, x.1) <= sorted@.len(),
                forall|m: int| 0 <= m < first_below(sorted@, x.1) ==> sorted@[m].1 >= x.1,
                first_below(sorted@, x.1) < sorted@.len() ==> sorted@[first_below(sorted@, x.1)].1
                    < x.1,
            decreases sorted@.len() - p,
        {
            p = p + 1;
        }
        assert(p == first_below(sorted@, x.1));
        let ghost before = sorted@;
        sorted.insert(p, x);
        proof {
            assert(sorted@ == before.take(p as int).push(x) + before.skip(p as int));
            assert(freqs@.take(i + 1).drop_last() == freqs@.take(i as int));
            assert(freqs@.take(i + 1).last() == x);
        }
        i = i + 1;
    }
    assert(freqs@.take(freqs@.len() as int) == freqs@);
    let n = if k < sorted.len() {
        k
    } else {
        sorted.len()
    };
    sorted.truncate(n);
    sorted
}

} // verus!
