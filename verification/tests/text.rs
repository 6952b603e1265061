use asadoc::bytes::{byte_length, slice, split_at};
use asadoc::lines::{join_texts, lines, split_text};
use asadoc::numbers::{decimal, decimal_wide, padded, parse_digits};
use asadoc::text::{
    comes_before, contains, is_all, is_whitespace, replace, runs_of, same, split_once, starts_with, strip_prefix,
    strip_suffix, trim, CharClass,
};

#[test]
fn whitespace_is_unicode_whitespace() {
    for c in '\u{0}'..='\u{10ffff}' {
        assert_eq!(is_whitespace(c), c.is_whitespace(), "{c:?}");
    }
}

#[test]
fn texts_compare_by_their_characters() {
    assert!(same("naïve", "naïve"));
    assert!(!same("naïve", "naive"));
    assert!(!same("a", "ab"));
    assert!(same("", ""));
    for (first, second) in [("a", "b"), ("a", "a"), ("", "a"), ("é", "z"), ("ab", "abc"), ("Z", "a")] {
        assert_eq!(comes_before(first, second), first < second, "{first:?} {second:?}");
    }
}

#[test]
fn texts_are_searched_and_cut() {
    assert_eq!(trim("\u{a0} a b \t\n"), "a b");
    assert!(contains("abcabc", "cab"));
    assert!(starts_with("abc", "ab"));
    assert_eq!(strip_prefix("$ ls", "$ "), Some("ls".to_owned()));
    assert_eq!(strip_prefix("ls", "$ "), None);
    assert_eq!(strip_suffix("docs.git", ".git"), Some("docs".to_owned()));
    assert_eq!(
        split_once("a -> b -> c", " -> "),
        Some(("a".to_owned(), "b -> c".to_owned()))
    );
    assert_eq!(replace("mod/terminal-001", "/", "--"), "mod--terminal-001");
    assert_eq!(replace("aaa", "aa", "b"), "ba");
    assert_eq!(runs_of("  a bb\tccc ", CharClass::Solid), ["a", "bb", "ccc"]);
    assert!(is_all("0123456789abcdefABCDEF", CharClass::Hex));
    assert!(!is_all("0g", CharClass::Hex));
}

#[test]
fn lines_are_those_of_std() {
    for text in ["", "\n", "a", "a\n", "a\r\nb\n\n", "a\rb\n\r\n", "\r\n\r"] {
        let expected: Vec<&str> = text.lines().collect();
        assert_eq!(lines(text), expected, "{text:?}");
        let pieces: Vec<&str> = text.split('\n').collect();
        assert_eq!(split_text(text, '\n'), pieces, "{text:?}");
        assert_eq!(join_texts(&split_text(text, '\n'), "\n"), text);
    }
}

#[test]
fn numbers_are_written_and_read() {
    assert_eq!(decimal(0), "0");
    assert_eq!(decimal(usize::MAX), usize::MAX.to_string());
    assert_eq!(decimal_wide(u128::MAX), u128::MAX.to_string());
    assert_eq!(padded(7, 3), "007");
    assert_eq!(padded(1234, 3), "1234");
    assert_eq!(parse_digits("0042", 100), Some(42));
    assert_eq!(parse_digits("101", 100), None);
}

#[test]
fn bytes_split_only_between_characters() {
    assert_eq!(byte_length("aé€"), 6);
    assert_eq!(split_at("aé", 1), Some(("a".to_owned(), "é".to_owned())));
    assert_eq!(split_at("aé", 2), None);
    assert_eq!(split_at("aé", 4), None);
    assert_eq!(slice("aé€b", 1, 6), Some("é€".to_owned()));
}
