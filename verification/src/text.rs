//! Character-level text utilities: Unicode whitespace, words, lines,
//! trimming and splitting, each with a specification over `Seq<char>`.
use vstd::prelude::*;

verus! {

/// The Unicode `White_Space` property, which `char::is_whitespace` tests.
pub open spec fn is_white_space(c: char) -> bool {
    ||| ('\t' <= c && c <= '\r')
    ||| c == ' '
    ||| c == '\u{85}'
    ||| c == '\u{a0}'
    ||| c == '\u{1680}'
    ||| ('\u{2000}' <= c && c <= '\u{200a}')
    ||| c == '\u{2028}'
    ||| c == '\u{2029}'
    ||| c == '\u{202f}'
    ||| c == '\u{205f}'
    ||| c == '\u{3000}'
}

/// Whether `c` is Unicode whitespace.
pub fn is_whitespace(c: char) -> (r: bool)
    ensures
        r == is_white_space(c),
{
    ('\t' <= c && c <= '\r') || c == ' ' || c == '\u{85}' || c == '\u{a0}' || c == '\u{1680}'
        || ('\u{2000}' <= c && c <= '\u{200a}') || c == '\u{2028}' || c == '\u{2029}' || c
        == '\u{202f}' || c == '\u{205f}' || c == '\u{3000}'
}

/// Builds a `String` from characters with std's `FromIterator<char>` for
/// `String`. Claimed: the string holds exactly those characters, in order.
#[verifier::external_body]
pub fn string_from_chars(chars: &Vec<char>) -> (s: String)
    ensures
        s@ == chars@,
{
    chars.iter().collect()
}

/// The characters of `s`, in order.
pub fn chars_of(s: &str) -> (v: Vec<char>)
    ensures
        v@ == s@,
{
    let mut v: Vec<char> = Vec::new();
    for c in it: s.chars()
        invariant
            it.seq() == s@,
            v@ == s@.take(it.index() as int),
    {
        assert(s@.take(it.index() + 1) == s@.take(it.index() as int).push(c));
        v.push(c);
    }
    assert(s@.take(s@.len() as int) == s@);
    v
}

/// Appends the characters of `s` to `buf`.
pub fn push_str(buf: &mut Vec<char>, s: &str)
    ensures
        final(buf)@ == old(buf)@ + s@,
{
    for c in it: s.chars()
        invariant
            it.seq() == s@,
            buf@ == old(buf)@ + s@.take(it.index() as int),
    {
        assert(s@.take(it.index() + 1) == s@.take(it.index() as int).push(c));
        buf.push(c);
    }
    assert(s@.take(s@.len() as int) == s@);
}

/// Whether a word (a maximal run of non-whitespace characters) starts at `i`.
pub open spec fn starts_word(s: Seq<char>, i: int) -> bool {
    !is_white_space(s[i]) && (i == 0 || is_white_space(s[i - 1]))
}

/// The number of whitespace-separated words of `s`, as `str::split_whitespace`
/// yields them: the number of positions at which a word starts.
pub open spec fn word_count_of(s: Seq<char>) -> nat
    decreases s.len(),
{
    if s.len() == 0 {
        0
    } else {
        word_count_of(s.drop_last()) + if starts_word(s, s.len() - 1) {
            1nat
        } else {
            0nat
        }
    }
}

/// A text has no more words than characters.
pub proof fn lemma_word_count_bound(s: Seq<char>)
    ensures
        word_count_of(s) <= s.len(),
    decreases s.len(),
{
    if s.len() > 0 {
        lemma_word_count_bound(s.drop_last());
    }
}

/// The pieces of `s` that `str::split_inclusive('\n')` yields: each piece
/// ends with its `'\n'`, except a last piece without one. An empty text
/// has no pieces.
pub open spec fn line_pieces(s: Seq<char>) -> Seq<Seq<char>>
    decreases s.len(),
{
    if s.len() == 0 {
        Seq::empty()
    } else {
        let p = line_pieces(s.drop_last());
        if p.len() == 0 || p.last().last() == '\n' {
            p.push(seq![s.last()])
        } else {
            p.update(p.len() - 1, p.last().push(s.last()))
        }
    }
}

/// A piece with its line ending (`"\n"` or `"\r\n"`) removed.
pub open spec fn strip_line_ending(piece: Seq<char>) -> Seq<char> {
    if piece.len() > 0 && piece.last() == '\n' {
        let q = piece.drop_last();
        if q.len() > 0 && q.last() == '\r' {
            q.drop_last()
        } else {
            q
        }
    } else {
        piece
    }
}

/// The lines of `s`, as `str::lines` yields them.
pub open spec fn lines_of(s: Seq<char>) -> Seq<Seq<char>> {
    line_pieces(s).map_values(|p: Seq<char>| strip_line_ending(p))
}

/// Every piece is non-empty, and every piece but the last ends with `'\n'`.
pub proof fn lemma_line_pieces_shape(s: Seq<char>)
    ensures
        line_pieces(s).len() <= s.len(),
        forall|i: int| 0 <= i < line_pieces(s).len() ==> #[trigger] line_pieces(s)[i].len() > 0,
        forall|i: int|
            0 <= i < line_pieces(s).len() - 1 ==> #[trigger] line_pieces(s)[i].last() == '\n',
    decreases s.len(),
{
    if s.len() > 0 {
        lemma_line_pieces_shape(s.drop_last());
    }
}

/// The number of lines of `s`: 0 for an empty text, else the number of
/// `'\n'` plus one when the text does not end with `'\n'`.
pub open spec fn line_count_of(s: Seq<char>) -> nat {
    lines_of(s).len()
}

/// Count of the whitespace-separated words of `s`.
pub fn count_words(s: &str) -> (n: usize)
    ensures
        n == word_count_of(s@),
{
    let len = s.unicode_len();
    let mut n: usize = 0;
    let mut prev_white = true;
    for c in it: s.chars()
        invariant
            it.seq() == s@,
            len == s@.len(),
            n == word_count_of(s@.take(it.index() as int)),
            it.index() > 0 ==> prev_white == is_white_space(s@[it.index() - 1]),
            it.index() == 0 ==> prev_white,
    {
        let ghost i = it.index();
        proof {
            let t = s@.take(i + 1);
            assert(t.drop_last() == s@.take(i));
            assert(t[i] == c);
            assert(i > 0 ==> t[i - 1] == s@[i - 1]);
            lemma_word_count_bound(s@.take(i));
        }
        let white = is_whitespace(c);
        if !white && prev_white {
            n = n + 1;
        }
        prev_white = white;
    }
    assert(s@.take(s@.len() as int) == s@);
    n
}

/// Count of the lines of `s`.
pub fn count_lines(s: &str) -> (n: usize)
    ensures
        n == line_count_of(s@),
{
    let len = s.unicode_len();
    let mut n: usize = 0;
    let mut at_line_start = true;
    for c in it: s.chars()
        invariant
            it.seq() == s@,
            len == s@.len(),
            n == line_pieces(s@.take(it.index() as int)).len(),
            at_line_start == (line_pieces(s@.take(it.index() as int)).len() == 0
                || line_pieces(s@.take(it.index() as int)).last().last() == '\n'),
    {
        let ghost i = it.index();
        proof {
            let t = s@.take(i + 1);
            assert(t.drop_last() == s@.take(i));
            assert(t.last() == c);
            lemma_line_pieces_shape(s@.take(i));
        }
        if at_line_start {
            n = n + 1;
        }
        at_line_start = c == '\n';
    }
    assert(s@.take(s@.len() as int) == s@);
    n
}


/// `s` without its leading whitespace, as `str::trim_start` gives it.
pub open spec fn trim_start_of(s: Seq<char>) -> Seq<char>
    decreases s.len(),
{
    if s.len() > 0 && is_white_space(s[0]) {
        trim_start_of(s.drop_first())
    } else {
        s
    }
}

/// `s` without its trailing whitespace, as `str::trim_end` gives it.
pub open spec fn trim_end_of(s: Seq<char>) -> Seq<char>
    decreases s.len(),
{
    if s.len() > 0 && is_white_space(s.last()) {
        trim_end_of(s.drop_last())
    } else {
        s
    }
}

/// `s` without leading and trailing whitespace, as `str::trim` gives it.
pub open spec fn trim_of(s: Seq<char>) -> Seq<char> {
    trim_end_of(trim_start_of(s))
}

proof fn lemma_trim_start_skip(s: Seq<char>, a: int)
    requires
        0 <= a <= s.len(),
        forall|i: int| 0 <= i < a ==> is_white_space(#[trigger] s[i]),
        a == s.len() || !is_white_space(s[a]),
    ensures
        trim_start_of(s) == s.subrange(a, s.len() as int),
    decreases a,
{
    if a == 0 {
        assert(s.subrange(0, s.len() as int) == s);
    } else {
        let t = s.drop_first();
        assert forall|i: int| 0 <= i < a - 1 implies is_white_space(#[trigger] t[i]) by {
            assert(t[i] == s[i + 1]);
        }
        lemma_trim_start_skip(t, a - 1);
        assert(t.subrange(a - 1, t.len() as int) == s.subrange(a, s.len() as int));
    }
}

proof fn lemma_trim_end_take(s: Seq<char>, b: int)
    requires
        0 <= b <= s.len(),
        forall|i: int| b <= i < s.len() ==> is_white_space(#[trigger] s[i]),
        b == 0 || !is_white_space(s[b - 1]),
    ensures
        trim_end_of(s) == s.subrange(0, b),
    decreases s.len() - b,
{
    if b == s.len() {
        assert(s.subrange(0, b) == s);
    } else {
        let t = s.drop_last();
        lemma_trim_end_take(t, b);
        assert(t.subrange(0, b) == s.subrange(0, b));
    }
}

/// Copy of `v[from..to]`.
pub fn copy_range(v: &[char], from: usize, to: usize) -> (r: Vec<char>)
    requires
        from <= to <= v@.len(),
    ensures
        r@ == v@.subrange(from as int, to as int),
{
    let mut r: Vec<char> = Vec::new();
    let mut i = from;
    while i < to
        invariant
            from <= i <= to <= v@.len(),
            r@ == v@.subrange(from as int, i as int),
        decreases to - i,
    {
        r.push(v[i]);
        i = i + 1;
        assert(r@ == v@.subrange(from as int, i as int));
    }
    r
}

/// `v` without leading and trailing whitespace.
pub fn trim_chars(v: &[char]) -> (r: Vec<char>)
    ensures
        r@ == trim_of(v@),
{
    let len = v.len();
    let mut a: usize = 0;
    while a < len && is_whitespace(v[a])
        invariant
            a <= len == v@.len(),
            forall|i: int| 0 <= i < a ==> is_white_space(#[trigger] v@[i]),
        decreases len - a,
    {
        a = a + 1;
    }
    proof {
        lemma_trim_start_skip(v@, a as int);
    }
    let mut b: usize = len;
    while b > a && is_whitespace(v[b - 1])
        invariant
            a <= b <= len == v@.len(),
            forall|i: int| b <= i < len ==> is_white_space(#[trigger] v@[i]),
        decreases b,
    {
        b = b - 1;
    }
    proof {
        let t = v@.subrange(a as int, len as int);
        assert forall|i: int| b - a <= i < t.len() implies is_white_space(#[trigger] t[i]) by {
            assert(t[i] == v@[a + i]);
        }
        if b > a {
            assert(t[b - a - 1] == v@[b - 1]);
        }
        lemma_trim_end_take(t, (b - a) as int);
        assert(t.subrange(0, (b - a) as int) == v@.subrange(a as int, b as int));
    }
    copy_range(v, a, b)
}

/// The pieces of `s` between occurrences of `sep`, as `str::split(sep)`
/// yields them. There is always at least one piece.
pub open spec fn split_on(s: Seq<char>, sep: char) -> Seq<Seq<char>>
    decreases s.len(),
{
    if s.len() == 0 {
        seq![Seq::empty()]
    } else {
        let p = split_on(s.drop_last(), sep);
        if s.last() == sep {
            p.push(Seq::empty())
        } else {
            p.update(p.len() - 1, p.last().push(s.last()))
        }
    }
}

/// Splitting a text always gives at least one field.
pub proof fn lemma_split_on_nonempty(s: Seq<char>, sep: char)
    ensures
        split_on(s, sep).len() >= 1,
    decreases s.len(),
{
    if s.len() > 0 {
        lemma_split_on_nonempty(s.drop_last(), sep);
    }
}

/// The views of a sequence of character vectors.
pub open spec fn views_of(parts: Seq<Vec<char>>) -> Seq<Seq<char>> {
    parts.map_values(|p: Vec<char>| p@)
}

/// The pieces of `v` between occurrences of `sep`.
pub fn split_chars(v: &[char], sep: char) -> (parts: Vec<Vec<char>>)
    ensures
        views_of(parts@) == split_on(v@, sep),
{
    let len = v.len();
    let mut parts: Vec<Vec<char>> = Vec::new();
    let mut cur: Vec<char> = Vec::new();
    let mut i: usize = 0;
    while i < len
        invariant
            i <= len == v@.len(),
            views_of(parts@).push(cur@) == split_on(v@.take(i as int), sep),
        decreases len - i,
    {
        let c = v[i];
        proof {
            let t = v@.take(i + 1);
            assert(t.drop_last() == v@.take(i as int));
            lemma_split_on_nonempty(v@.take(i as int), sep);
        }
        if c == sep {
            let mut done: Vec<char> = Vec::new();
            std::mem::swap(&mut done, &mut cur);
            parts.push(done);
            assert(views_of(parts@) == views_of(parts@.drop_last()).push(done@));
        } else {
            cur.push(c);
        }
        i = i + 1;
        assert(views_of(parts@).push(cur@) == split_on(v@.take(i as int), sep));
    }
    assert(v@.take(len as int) == v@);
    parts.push(cur);
    assert(views_of(parts@) == views_of(parts@.drop_last()).push(parts@.last()@));
    parts
}

/// Whether the last piece of `pieces` is a line still missing its `'\n'`.
pub open spec fn open_piece(pieces: Seq<Seq<char>>) -> bool {
    pieces.len() > 0 && pieces.last().last() != '\n'
}

/// The pieces that end with their `'\n'`.
pub open spec fn closed_pieces(pieces: Seq<Seq<char>>) -> Seq<Seq<char>> {
    if open_piece(pieces) {
        pieces.drop_last()
    } else {
        pieces
    }
}

/// `v` without one trailing `'\r'`.
fn strip_cr(v: &mut Vec<char>)
    ensures
        final(v)@ == (if old(v)@.len() > 0 && old(v)@.last() == '\r' {
            old(v)@.drop_last()
        } else {
            old(v)@
        }),
{
    if v.len() > 0 && v[v.len() - 1] == '\r' {
        v.pop();
    }
}

/// The lines of `s`, as `str::lines` yields them.
pub fn split_lines(s: &str) -> (lines: Vec<Vec<char>>)
    ensures
        views_of(lines@) == lines_of(s@),
{
    let mut lines: Vec<Vec<char>> = Vec::new();
    let mut cur: Vec<char> = Vec::new();
    for c in it: s.chars()
        invariant
            it.seq() == s@,
            views_of(lines@) == closed_pieces(line_pieces(s@.take(it.index() as int))).map_values(
                |p: Seq<char>| strip_line_ending(p),
            ),
            cur@ == (if open_piece(line_pieces(s@.take(it.index() as int))) {
                line_pieces(s@.take(it.index() as int)).last()
            } else {
                Seq::empty()
            }),
    {
        let ghost i = it.index();
        let ghost p = line_pieces(s@.take(i as int));
        let ghost np = line_pieces(s@.take(i + 1));
        proof {
            assert(s@.take(i + 1).drop_last() == s@.take(i as int));
            assert(s@.take(i + 1).last() == c);
            lemma_line_pieces_shape(s@.take(i as int));
        }
        if c == '\n' {
            let ghost piece = cur@.push('\n');
            proof {
                if open_piece(p) {
                    assert(np == p.update(p.len() - 1, piece));
                    assert(closed_pieces(np) == p.drop_last().push(piece));
                } else {
                    assert(np == p.push(piece));
                    assert(closed_pieces(np) == p.push(piece));
                }
                assert(piece.drop_last() == cur@);
            }
            let mut line: Vec<char> = Vec::new();
            std::mem::swap(&mut line, &mut cur);
            strip_cr(&mut line);
            let ghost before = lines@;
            lines.push(line);
            proof {
                assert(views_of(lines@) == views_of(before).push(strip_line_ending(piece)));
                assert(closed_pieces(np).map_values(|q: Seq<char>| strip_line_ending(q))
                    == closed_pieces(p).map_values(|q: Seq<char>| strip_line_ending(q)).push(
                    strip_line_ending(piece),
                ));
            }
        } else {
            proof {
                if open_piece(p) {
                    assert(np == p.update(p.len() - 1, p.last().push(c)));
                    assert(np.drop_last() == p.drop_last());
                } else {
                    assert(np == p.push(seq![c]));
                    assert(np.drop_last() == p);
                    assert(Seq::<char>::empty().push(c) == seq![c]);
                }
            }
            cur.push(c);
        }
    }
    let ghost p = line_pieces(s@);
    assert(s@.take(s@.len() as int) == s@);
    proof {
        lemma_line_pieces_shape(s@);
    }
    if cur.len() > 0 {
        let ghost before = lines@;
        let ghost last = cur@;
        lines.push(cur);
        proof {
            assert(p == p.drop_last().push(last));
            assert(strip_line_ending(last) == last);
            assert(views_of(lines@) == views_of(before).push(last));
            assert(p.map_values(|q: Seq<char>| strip_line_ending(q)) == p.drop_last().map_values(
                |q: Seq<char>| strip_line_ending(q),
            ).push(strip_line_ending(last)));
        }
    } else {
        proof {
            if open_piece(p) {
                assert(p.last().len() > 0);
            }
        }
    }
    lines
}

/// The last piece of a non-empty text ends with the text's last character.
pub proof fn lemma_line_pieces_last(s: Seq<char>)
    requires
        s.len() > 0,
    ensures
        line_pieces(s).len() > 0,
        line_pieces(s).last().len() > 0,
        line_pieces(s).last().last() == s.last(),
    decreases s.len(),
{
    lemma_line_pieces_shape(s);
}

/// After a text that is empty or ends with `'\n'`, the lines of what
/// follows are lines of their own.
pub proof fn lemma_line_pieces_concat(a: Seq<char>, t: Seq<char>)
    requires
        a.len() == 0 || a.last() == '\n',
    ensures
        line_pieces(a + t) == line_pieces(a) + line_pieces(t),
    decreases t.len(),
{
    if t.len() == 0 {
        assert(a + t == a);
        assert(line_pieces(a) + Seq::<Seq<char>>::empty() == line_pieces(a));
    } else {
        let t1 = t.drop_last();
        let c = t.last();
        assert((a + t).drop_last() == a + t1);
        assert((a + t).last() == c);
        lemma_line_pieces_concat(a, t1);
        let pa = line_pieces(a);
        let p1 = line_pieces(t1);
        if a.len() > 0 {
            lemma_line_pieces_last(a);
        }
        if p1.len() == 0 {
            assert(pa + p1 == pa);
            assert(line_pieces(t) == seq![seq![c]]);
            assert(pa.push(seq![c]) == pa + seq![seq![c]]);
        } else {
            assert((pa + p1).last() == p1.last());
            if p1.last().last() == '\n' {
                assert((pa + p1).push(seq![c]) == pa + p1.push(seq![c]));
            } else {
                assert((pa + p1).update((pa + p1).len() - 1, p1.last().push(c)) == pa + p1.update(
                    p1.len() - 1,
                    p1.last().push(c),
                ));
            }
        }
    }
}

/// After a text that is empty or ends with `'\n'`, the lines of what
/// follows come after its own lines.
pub proof fn lemma_lines_concat(a: Seq<char>, t: Seq<char>)
    requires
        a.len() == 0 || a.last() == '\n',
    ensures
        lines_of(a + t) == lines_of(a) + lines_of(t),
{
    lemma_line_pieces_concat(a, t);
    assert(lines_of(a + t) =~= lines_of(a) + lines_of(t));
}

proof fn lemma_line_pieces_no_newline(l: Seq<char>)
    requires
        l.len() > 0,
        forall|i: int| 0 <= i < l.len() ==> l[i] != '\n',
    ensures
        line_pieces(l) == seq![l],
    decreases l.len(),
{
    let l1 = l.drop_last();
    if l1.len() == 0 {
        assert(l == seq![l.last()]);
        assert(line_pieces(l1) == Seq::<Seq<char>>::empty());
    } else {
        assert forall|i: int| 0 <= i < l1.len() implies l1[i] != '\n' by {
            assert(l1[i] == l[i]);
        }
        lemma_line_pieces_no_newline(l1);
        assert(l1.last() == l[l1.len() - 1]);
        assert(l1.push(l.last()) == l);
        assert(seq![l1].update(0, l1.push(l.last())) == seq![l]);
    }
}

/// A text without `'\n'` that does not end with `'\r'`, followed by one
/// `'\n'`, is one line: itself.
pub proof fn lemma_single_line(l: Seq<char>)
    requires
        l.len() > 0,
        forall|i: int| 0 <= i < l.len() ==> l[i] != '\n',
        l.last() != '\r',
    ensures
        lines_of(l.push('\n')) == seq![l],
{
    lemma_line_pieces_no_newline(l);
    assert(l.push('\n').drop_last() == l);
    assert(line_pieces(l.push('\n')) == seq![l.push('\n')]);
    assert(strip_line_ending(l.push('\n')) == l);
    assert(lines_of(l.push('\n')) =~= seq![l]);
}

/// A text whose first and last characters are not whitespace is its own
/// trimmed text.
pub proof fn lemma_trim_of_trimmed(s: Seq<char>)
    requires
        s.len() > 0,
        !is_white_space(s[0]),
        !is_white_space(s.last()),
    ensures
        trim_of(s) == s,
{
}

/// A non-empty text without whitespace is one word, whatever characters
/// it holds.
pub proof fn lemma_word_count_one_word(w: Seq<char>)
    requires
        w.len() > 0,
        forall|i: int| 0 <= i < w.len() ==> !is_white_space(#[trigger] w[i]),
    ensures
        word_count_of(w) == 1,
    decreases w.len(),
{
    if w.len() > 1 {
        let d = w.drop_last();
        assert forall|i: int| 0 <= i < d.len() implies !is_white_space(#[trigger] d[i]) by {
            assert(d[i] == w[i]);
        }
        lemma_word_count_one_word(d);
        assert(!is_white_space(w[w.len() - 2]));
        assert(!starts_word(w, w.len() - 1));
        assert(word_count_of(w) == word_count_of(d));
    } else {
        assert(w.drop_last().len() == 0);
        assert(word_count_of(w.drop_last()) == 0);
        assert(!is_white_space(w[0]));
        assert(starts_word(w, 0));
    }
}

/// Words separated by whitespace add up: the words of `a`, a whitespace
/// character and `b` are the words of `a` and those of `b`.
pub proof fn lemma_word_count_split(a: Seq<char>, c: char, b: Seq<char>)
    requires
        is_white_space(c),
    ensures
        word_count_of(a + seq![c] + b) == word_count_of(a) + word_count_of(b),
    decreases b.len(),
{
    let s = a + seq![c] + b;
    if b.len() == 0 {
        assert(s.drop_last() == a);
        assert(s.last() == c);
    } else {
        lemma_word_count_split(a, c, b.drop_last());
        assert(s.drop_last() == a + seq![c] + b.drop_last());
        assert(s[s.len() - 1] == b[b.len() - 1]);
        if b.len() == 1 {
            assert(s[s.len() - 2] == c);
            assert(b.drop_last().len() == 0);
        } else {
            assert(s[s.len() - 2] == b[b.len() - 2]);
        }
    }
}

} // verus!
