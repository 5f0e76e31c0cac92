//! A book catalogue kept as text, one book per line: `title,author,year`.
use vstd::prelude::*;

use crate::decimal::{
    decimal, format_decimal, is_digit, lemma_decimal_digits, lemma_parse_decimal_roundtrip,
    parse_decimal, parse_unsigned,
};
use crate::text::{
    chars_of, is_white_space, lemma_split_on_nonempty, lemma_trim_of_trimmed, push_str, split_chars,
    split_on, string_from_chars, trim_chars, trim_of, views_of,
};

verus! {

/// A book of the catalogue.
#[derive(Debug)]
pub struct Book {
    pub title: String,
    pub author: String,
    pub year: u16,
}

/// The mathematical view of a [`Book`].
pub ghost struct BookView {
    pub title: Seq<char>,
    pub author: Seq<char>,
    pub year: u16,
}

impl View for Book {
    type V = BookView;

    open spec fn view(&self) -> BookView {
        BookView { title: self.title@, author: self.author@, year: self.year }
    }
}

/// Why a catalogue line was not read as a book.
#[derive(Debug, Clone, Copy, PartialEq, Eq, Structural)]
pub enum BookLineError {
    /// The line does not have exactly three comma-separated fields.
    Malformed,
    /// The third field is not a year (a number from 0 to 65535).
    InvalidYear,
}

/// The catalogue line of a book: title, author and year, separated by
/// commas.
pub open spec fn book_line(b: BookView) -> Seq<char> {
    b.title + ","@ + b.author + ","@ + decimal(b.year as nat)
}

/// The fields of a catalogue line: the pieces between commas, trimmed.
pub open spec fn book_fields(line: Seq<char>) -> Seq<Seq<char>> {
    split_on(line, ',').map_values(|p: Seq<char>| trim_of(p))
}

/// The book a catalogue line describes: its three trimmed fields, the
/// last of them read as a `u16`.
pub open spec fn parse_book(line: Seq<char>) -> Result<BookView, BookLineError> {
    let f = book_fields(line);
    if f.len() != 3 {
        Err(BookLineError::Malformed)
    } else {
        match parse_unsigned(f[2], u16::MAX as nat) {
            Some(y) => Ok(BookView { title: f[0], author: f[1], year: y as u16 }),
            None => Err(BookLineError::InvalidYear),
        }
    }
}

/// The catalogue line of `b`.
pub fn format_book_line(b: &Book) -> (line: String)
    ensures
        line@ == book_line(b@),
{
    let mut l: Vec<char> = Vec::new();
    push_str(&mut l, b.title.as_str());
    push_str(&mut l, ",");
    push_str(&mut l, b.author.as_str());
    push_str(&mut l, ",");
    let mut digits = format_decimal(b.year as u128);
    l.append(&mut digits);
    string_from_chars(&l)
}

/// Reads a catalogue line as a book.
pub fn parse_book_line(line: &str) -> (r: Result<Book, BookLineError>)
    ensures
        match parse_book(line@) {
            Ok(b) => r matches Ok(x) && x@ == b,
            Err(e) => r matches Err(x) && x == e,
        },
{
    let chars = chars_of(line);
    let parts = split_chars(chars.as_slice(), ',');
    let ghost f = book_fields(line@);
    assert(views_of(parts@) == split_on(line@, ','));
    if parts.len() != 3 {
        return Err(BookLineError::Malformed);
    }
    let title = trim_chars(parts[0].as_slice());
    let author = trim_chars(parts[1].as_slice());
    let year = trim_chars(parts[2].as_slice());
    assert(title@ == f[0] && author@ == f[1] && year@ == f[2]) by {
        assert(views_of(parts@)[0] == parts@[0]@);
        assert(views_of(parts@)[1] == parts@[1]@);
        assert(views_of(parts@)[2] == parts@[2]@);
    }
    match parse_decimal(year.as_slice(), 65535) {
        Some(y) => Ok(
            Book {
                title: string_from_chars(&title),
                author: string_from_chars(&author),
                year: y as u16,
            },
        ),
        None => Err(BookLineError::InvalidYear),
    }
}

/// The result of reading a catalogue: the books, in order, and the lines
/// not read as books, by position, with the reason.
pub ghost struct CatalogView {
    pub books: Seq<BookView>,
    pub skipped: Seq<(int, BookLineError)>,
}

/// Reads the first `n` lines of a catalogue.
pub open spec fn read_catalog(lines: Seq<Seq<char>>, n: int) -> CatalogView
    decreases n,
{
    if n <= 0 {
        CatalogView { books: Seq::empty(), skipped: Seq::empty() }
    } else {
        let c = read_catalog(lines, n - 1);
        match parse_book(lines[n - 1]) {
            Ok(b) => CatalogView { books: c.books.push(b), ..c },
            Err(e) => CatalogView { skipped: c.skipped.push((n - 1, e)), ..c },
        }
    }
}

/// The views of a sequence of books.
pub open spec fn book_views(books: Seq<Book>) -> Seq<BookView> {
    books.map_values(|b: Book| b@)
}

/// A line of a catalogue that was not read as a book.
pub struct SkippedLine {
    /// The position of the line, from 0.
    pub index: usize,
    pub reason: BookLineError,
}

/// Reads catalogue lines: every line that describes a book gives one, in
/// order; every other line is reported with the reason.
pub fn parse_catalog(lines: &Vec<String>) -> (r: (Vec<Book>, Vec<SkippedLine>))
    ensures
        book_views(r.0@) == read_catalog(lines@.map_values(|s: String| s@), lines@.len() as int).books,
        r.1@.len() == read_catalog(
            lines@.map_values(|s: String| s@),
            lines@.len() as int,
        ).skipped.len(),
        forall|k: int|
            0 <= k < r.1@.len() ==> (#[trigger] r.1@[k]).index == read_catalog(
                lines@.map_values(|s: String| s@),
                lines@.len() as int,
            ).skipped[k].0 && r.1@[k].reason == read_catalog(
                lines@.map_values(|s: String| s@),
                lines@.len() as int,
            ).skipped[k].1,
{
    let ghost lv = lines@.map_values(|s: String| s@);
    let mut books: Vec<Book> = Vec::new();
    let mut skipped: Vec<SkippedLine> = Vec::new();
    let mut i: usize = 0;
    while i < lines.len()
        invariant
            i <= lines@.len(),
            lv == lines@.map_values(|s: String| s@),
            book_views(books@) == read_catalog(lv, i as int).books,
            skipped@.len() == read_catalog(lv, i as int).skipped.len(),
            forall|k: int|
                0 <= k < skipped@.len() ==> (#[trigger] skipped@[k]).index == read_catalog(
                    lv,
                    i as int,
                ).skipped[k].0 && skipped@[k].reason == read_catalog(lv, i as int).skipped[k].1,
        decreases lines@.len() - i,
    {
        assert(lv[i as int] == lines@[i as int]@);
        match parse_book_line(lines[i].as_str()) {
            Ok(b) => {
                let ghost before = books@;
                books.push(b);
                assert(book_views(books@) == book_views(before).push(b@));
            },
            Err(e) => {
                skipped.push(SkippedLine { index: i, reason: e });
            },
        }
        i = i + 1;
    }
    (books, skipped)
}

proof fn lemma_split_on_no_sep(a: Seq<char>, sep: char)
    requires
        forall|i: int| 0 <= i < a.len() ==> a[i] != sep,
    ensures
        split_on(a, sep) == seq![a],
    decreases a.len(),
{
    if a.len() > 0 {
        let a1 = a.drop_last();
        assert forall|i: int| 0 <= i < a1.len() implies a1[i] != sep by {
            assert(a1[i] == a[i]);
        }
        lemma_split_on_no_sep(a1, sep);
        assert(a1.push(a.last()) == a);
        assert(seq![a1].update(0, a1.push(a.last())) == seq![a]);
    } else {
        assert(a == Seq::<char>::empty());
    }
}

proof fn lemma_split_on_sep(a: Seq<char>, sep: char, b: Seq<char>)
    ensures
        split_on(a.push(sep) + b, sep) == split_on(a, sep) + split_on(b, sep),
    decreases b.len(),
{
    if b.len() == 0 {
        assert(a.push(sep) + b == a.push(sep));
        assert(a.push(sep).drop_last() == a);
        assert(split_on(a, sep).push(Seq::empty()) == split_on(a, sep) + seq![Seq::<char>::empty()]);
    } else {
        let b1 = b.drop_last();
        let c = b.last();
        assert((a.push(sep) + b).drop_last() == a.push(sep) + b1);
        assert((a.push(sep) + b).last() == c);
        lemma_split_on_sep(a, sep, b1);
        lemma_split_on_nonempty(b1, sep);
        let sa = split_on(a, sep);
        let sb = split_on(b1, sep);
        if c == sep {
            assert((sa + sb).push(Seq::empty()) == sa + sb.push(Seq::empty()));
        } else {
            assert((sa + sb).last() == sb.last());
            assert((sa + sb).update((sa + sb).len() - 1, sb.last().push(c)) == sa + sb.update(
                sb.len() - 1,
                sb.last().push(c),
            ));
        }
    }
}

/// A field fit for a catalogue line: no comma, and empty or without
/// whitespace at either end.
pub open spec fn plain_field(s: Seq<char>) -> bool {
    &&& forall|i: int| 0 <= i < s.len() ==> s[i] != ','
    &&& s.len() > 0 ==> !is_white_space(s[0]) && !is_white_space(s.last())
}

proof fn lemma_plain_field_trimmed(s: Seq<char>)
    requires
        plain_field(s),
    ensures
        trim_of(s) == s,
{
    if s.len() > 0 {
        lemma_trim_of_trimmed(s);
    }
}

/// Saving a book and reading its line back gives the book back, when its
/// title and author hold no comma and have no whitespace at either end.
pub proof fn lemma_book_line_roundtrip(b: BookView)
    requires
        plain_field(b.title),
        plain_field(b.author),
    ensures
        parse_book(book_line(b)) == Ok::<BookView, BookLineError>(b),
{
    reveal_strlit(",");
    let d = decimal(b.year as nat);
    lemma_decimal_digits(b.year as nat);
    assert forall|i: int| 0 <= i < d.len() implies d[i] != ',' by {
        assert(is_digit(d[i]));
    }
    assert(b.title + ","@ == b.title.push(','));
    assert(b.title + ","@ + b.author + ","@ + d == b.title.push(',') + (b.author.push(',') + d));
    lemma_split_on_sep(b.title, ',', b.author.push(',') + d);
    lemma_split_on_sep(b.author, ',', d);
    lemma_split_on_no_sep(b.title, ',');
    lemma_split_on_no_sep(b.author, ',');
    lemma_split_on_no_sep(d, ',');
    let pieces = split_on(book_line(b), ',');
    assert(pieces == seq![b.title, b.author, d]);
    lemma_plain_field_trimmed(b.title);
    lemma_plain_field_trimmed(b.author);
    assert(plain_field(d)) by {
        assert(is_digit(d[0]));
        assert(is_digit(d.last()));
    }
    lemma_plain_field_trimmed(d);
    lemma_parse_decimal_roundtrip(b.year as nat, u16::MAX as nat);
    assert(book_fields(book_line(b)) == seq![b.title, b.author, d]);
}

/// Saving books and reading the lines back gives the same books, in
/// order, and no skipped line, when no title or author holds a comma or
/// has whitespace at either end.
pub proof fn lemma_catalog_roundtrip(books: Seq<BookView>)
    requires
        forall|i: int|
            0 <= i < books.len() ==> plain_field(#[trigger] books[i].title) && plain_field(
                books[i].author,
            ),
    ensures
        read_catalog(books.map_values(|b: BookView| book_line(b)), books.len() as int)
            == (CatalogView { books, skipped: Seq::empty() }),
    decreases books.len(),
{
    let lines = books.map_values(|b: BookView| book_line(b));
    if books.len() > 0 {
        let n = books.len() - 1;
        let rest = books.drop_last();
        assert forall|i: int| 0 <= i < rest.len() implies plain_field(
            #[trigger] rest[i].title,
        ) && plain_field(rest[i].author) by {
            assert(rest[i] == books[i]);
        }
        lemma_catalog_roundtrip(rest);
        let rest_lines = rest.map_values(|b: BookView| book_line(b));
        assert forall|k: int| 0 <= k < n implies #[trigger] lines[k] == rest_lines[k] by {}
        lemma_read_catalog_prefix(lines, rest_lines, n);
        assert(plain_field(books[n].title) && plain_field(books[n].author));
        lemma_book_line_roundtrip(books[n]);
        assert(lines[n] == book_line(books[n]));
        assert(rest.push(books[n]) == books);
        let c = read_catalog(rest_lines, n);
        assert(c.books == rest && c.skipped == Seq::<(int, BookLineError)>::empty());
        assert(read_catalog(lines, n + 1).books == books);
        assert(read_catalog(lines, n + 1).skipped == Seq::<(int, BookLineError)>::empty());
    } else {
        assert(books == Seq::<BookView>::empty());
    }
}

proof fn lemma_read_catalog_prefix(a: Seq<Seq<char>>, b: Seq<Seq<char>>, n: int)
    requires
        forall|k: int| 0 <= k < n ==> #[trigger] a[k] == b[k],
    ensures
        read_catalog(a, n) == read_catalog(b, n),
    decreases n,
{
    if n > 0 {
        lemma_read_catalog_prefix(a, b, n - 1);
        assert(a[n - 1] == b[n - 1]);
    }
}

/// A catalogue of one line holds the book that line describes, whatever
/// its spacing and form, or reports the line with its reason.
pub proof fn lemma_catalog_one_line(line: Seq<char>)
    ensures
        match parse_book(line) {
            Ok(b) => read_catalog(seq![line], 1).books == seq![b] && read_catalog(
                seq![line],
                1,
            ).skipped.len() == 0,
            Err(e) => read_catalog(seq![line], 1).books.len() == 0 && read_catalog(
                seq![line],
                1,
            ).skipped == seq![(0int, e)],
        },
{
    assert(read_catalog(seq![line], 0).books == Seq::<BookView>::empty());
    assert(seq![line][0] == line);
}

/// The skipped lines of a catalogue read after `offset` other lines.
pub open spec fn shifted(skipped: Seq<(int, BookLineError)>, offset: int) -> Seq<(int, BookLineError)> {
    skipped.map_values(|x: (int, BookLineError)| (x.0 + offset, x.1))
}

/// Reading two catalogues one after the other gives the books of the first
/// and then those of the second, and the skipped lines of both, those of
/// the second after the lines of the first.
pub proof fn lemma_catalog_concat(a: Seq<Seq<char>>, b: Seq<Seq<char>>, k: int)
    requires
        0 <= k <= b.len(),
    ensures
        read_catalog(a + b, a.len() + k).books == read_catalog(a, a.len() as int).books
            + read_catalog(b, k).books,
        read_catalog(a + b, a.len() + k).skipped == read_catalog(a, a.len() as int).skipped
            + shifted(read_catalog(b, k).skipped, a.len() as int),
    decreases k,
{
    let ra = read_catalog(a, a.len() as int);
    if k == 0 {
        assert forall|j: int| 0 <= j < a.len() implies #[trigger] (a + b)[j] == a[j] by {}
        lemma_read_catalog_prefix(a + b, a, a.len() as int);
        assert(ra.books + Seq::<BookView>::empty() == ra.books);
        assert(shifted(Seq::<(int, BookLineError)>::empty(), a.len() as int) =~= Seq::<
            (int, BookLineError),
        >::empty());
        assert(ra.skipped + Seq::<(int, BookLineError)>::empty() == ra.skipped);
    } else {
        lemma_catalog_concat(a, b, k - 1);
        assert((a + b)[a.len() + k - 1] == b[k - 1]);
        let rb = read_catalog(b, k - 1);
        match parse_book(b[k - 1]) {
            Ok(bk) => {
                assert(ra.books + rb.books.push(bk) == (ra.books + rb.books).push(bk));
            },
            Err(e) => {
                assert(shifted(rb.skipped.push((k - 1, e)), a.len() as int) =~= shifted(
                    rb.skipped,
                    a.len() as int,
                ).push((k - 1 + a.len(), e)));
                assert(ra.skipped + shifted(rb.skipped, a.len() as int).push(
                    (k - 1 + a.len(), e),
                ) == (ra.skipped + shifted(rb.skipped, a.len() as int)).push(
                    (k - 1 + a.len(), e),
                ));
            },
        }
    }
}

} // verus!
