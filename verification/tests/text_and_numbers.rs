use parallel_file_processor::decimal::{format_decimal, parse_decimal};
use parallel_file_processor::text::{
    chars_of, count_lines, count_words, is_whitespace, split_chars, split_lines, string_from_chars,
    trim_chars,
};

fn s(v: &[char]) -> String {
    v.iter().collect()
}

#[test]
fn words_and_lines_of_sample_files() {
    assert_eq!(count_words("hello world\nsecond line\n"), 4);
    assert_eq!(count_lines("hello world\nsecond line\n"), 2);
    assert_eq!(count_words("one two three\n"), 3);
    assert_eq!(count_lines("one two three\n"), 1);
}

#[test]
fn counts_match_std_on_edge_cases() {
    let samples = [
        "",
        "a",
        "\n",
        "\n\n",
        "a\n\nb",
        "a\r\nb\r\n",
        "a\rb",
        "  leading and trailing  ",
        "tabs\tand\u{a0}nbsp\u{3000}ideographic\u{2003}em",
        "x\u{85}y\u{2028}z\u{2029}w",
        "no newline at end",
        "\u{200b}zero width is not space",
    ];
    for t in samples.iter() {
        assert_eq!(count_words(t), t.split_whitespace().count(), "words of {:?}", t);
        assert_eq!(count_lines(t), t.lines().count(), "lines of {:?}", t);
    }
}

#[test]
fn whitespace_matches_std() {
    for code in 0u32..0x3100 {
        if let Some(c) = char::from_u32(code) {
            assert_eq!(is_whitespace(c), c.is_whitespace(), "char {:x}", code);
        }
    }
}

#[test]
fn lines_match_std() {
    let samples = ["", "a", "a\n", "a\r\n", "a\r", "\r\n\r\n", "x\ny\r\nz", "\n\nq"];
    for t in samples.iter() {
        let got: Vec<String> = split_lines(t).iter().map(|l| s(l)).collect();
        let want: Vec<String> = t.lines().map(|l| l.to_string()).collect();
        assert_eq!(got, want, "lines of {:?}", t);
    }
}

#[test]
fn trim_and_split_match_std() {
    let samples = ["", " a ", "a,b,,c", ",", "  x , y  ", "\u{3000}q\u{a0}"];
    for t in samples.iter() {
        let chars = chars_of(t);
        assert_eq!(s(&trim_chars(&chars)), t.trim());
        let got: Vec<String> = split_chars(&chars, ',').iter().map(|p| s(p)).collect();
        let want: Vec<String> = t.split(',').map(|p| p.to_string()).collect();
        assert_eq!(got, want);
    }
    assert_eq!(string_from_chars(&vec!['o', 'k']), "ok");
}

#[test]
fn decimal_parsing_follows_str_parse() {
    let samples = ["0", "42", "+7", "", "+", "-1", "007", "65535", "65536", "1a", " 1", "+-1"];
    for t in samples.iter() {
        let got = parse_decimal(&chars_of(t), 65535);
        let want = t.parse::<u16>().ok().map(|v| v as u64);
        assert_eq!(got, want, "parse of {:?}", t);
    }
    assert_eq!(parse_decimal(&chars_of("18446744073709551615"), u64::MAX), Some(u64::MAX));
    assert_eq!(parse_decimal(&chars_of("18446744073709551616"), u64::MAX), None);
}

#[test]
fn decimal_formatting_follows_display() {
    for n in [0u128, 7, 10, 99, 100, 12345, u64::MAX as u128, u128::MAX].iter() {
        assert_eq!(s(&format_decimal(*n)), n.to_string());
    }
}

#[test]
fn decimal_roundtrip() {
    for n in [0u64, 1, 9, 10, 65535, 1_000_000].iter() {
        let digits = format_decimal(*n as u128);
        assert_eq!(parse_decimal(&digits, u64::MAX), Some(*n));
    }
}
