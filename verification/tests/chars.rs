use yt_summarizer::chars::{
    chars_eq, contains_chars, copy_range, find_chars, from_chars, has_char, has_prefix,
    is_whitespace, join_chars, lines_of, split_chars, to_chars, to_lower, trim_chars,
    trim_end_chars, words_of,
};

fn cs(s: &str) -> Vec<char> {
    s.chars().collect()
}

fn strings(parts: Vec<Vec<char>>) -> Vec<String> {
    parts.into_iter().map(|p| p.into_iter().collect()).collect()
}

#[test]
fn conversions_round_trip() {
    assert_eq!(to_chars("aé日"), vec!['a', 'é', '日']);
    assert_eq!(from_chars(&['x', 'ü']), "xü");
    assert_eq!(copy_range(&cs("abcdef"), 1, 4), cs("bcd"));
}

#[test]
fn whitespace_matches_std() {
    for c in ['\t', '\n', ' ', '\u{85}', '\u{a0}', '\u{2003}', '\u{3000}', 'a', '_', '\u{200b}'] {
        assert_eq!(is_whitespace(c), c.is_whitespace());
    }
}

#[test]
fn trimming_matches_std() {
    for s in ["  a b  ", "\u{a0}x\u{3000}", "   ", "", "x"] {
        assert_eq!(from_chars(&trim_chars(&cs(s))), s.trim());
        assert_eq!(from_chars(&trim_end_chars(&cs(s))), s.trim_end());
    }
}

#[test]
fn trimming_twice_changes_nothing() {
    let once = trim_chars(&cs("  \t word \n"));
    assert_eq!(trim_chars(&once), once);
}

#[test]
fn lines_match_std() {
    for s in ["a\nb", "a\r\nb\r\n", "foo\r\nbar\n\nbaz\r", "", "\n", "x\n\ny", "a\r\rb\r\n"] {
        let expected: Vec<String> = s.lines().map(str::to_string).collect();
        assert_eq!(strings(lines_of(&cs(s))), expected);
    }
}

#[test]
fn words_match_std() {
    for s in ["  a  b\tc ", "", "   ", "one"] {
        let expected: Vec<String> = s.split_whitespace().map(str::to_string).collect();
        assert_eq!(strings(words_of(&cs(s))), expected);
    }
}

#[test]
fn split_matches_std() {
    for s in ["a b  c", "", " ", "abc"] {
        let expected: Vec<String> = s.split(' ').map(str::to_string).collect();
        assert_eq!(strings(split_chars(&cs(s), ' ')), expected);
    }
}

#[test]
fn join_with_separator() {
    let parts = vec![cs("a"), cs(""), cs("bc")];
    assert_eq!(from_chars(&join_chars(&parts, &[',', ' '])), "a, , bc");
    assert_eq!(join_chars(&Vec::new(), &[',']), Vec::<char>::new());
}

#[test]
fn searching() {
    assert_eq!(find_chars(&cs("abcabc"), &cs("ca"), 0), Some(2));
    assert_eq!(find_chars(&cs("abcabc"), &cs("bc"), 2), Some(4));
    assert_eq!(find_chars(&cs("abc"), &cs("x"), 0), None);
    assert_eq!(find_chars(&cs("abc"), &cs(""), 3), Some(3));
    assert!(contains_chars(&cs("hello world"), &cs("o w")));
    assert!(has_prefix(&cs("```rust"), &cs("```")));
    assert!(!has_prefix(&cs("``"), &cs("```")));
    assert!(has_char(&cs("a\nb"), '\n'));
    assert!(chars_eq(&cs("same"), &cs("same")));
    assert!(!chars_eq(&cs("same"), &cs("sane")));
}

#[test]
fn ascii_lowercase() {
    assert_eq!(from_chars(&to_lower(&cs("HeLLo Ä"))), "hello Ä");
}
