use compare_sets::line::{blank, normalize};
use compare_sets::text::text_before;

#[test]
fn blank_is_unicode_white_space() {
    let mut n: u32 = 0;
    while n <= 0x10FFFF {
        if let Some(c) = char::from_u32(n) {
            assert_eq!(blank(c), c.is_whitespace(), "code point {}", n);
        }
        n += 1;
    }
}

#[test]
fn normalize_trims_both_ends() {
    assert_eq!(normalize("  a b \t"), Some("a b".to_string()));
    assert_eq!(normalize("a"), Some("a".to_string()));
    assert_eq!(normalize("10.0.0.1\r"), Some("10.0.0.1".to_string()));
    assert_eq!(normalize("\u{3000}h\u{e9}llo\u{a0}"), Some("h\u{e9}llo".to_string()));
    assert_eq!(normalize(" x"), Some("x".to_string()));
    assert_eq!(normalize("x "), Some("x".to_string()));
}

#[test]
fn normalize_drops_blank_lines() {
    assert_eq!(normalize(""), None);
    assert_eq!(normalize(" "), None);
    assert_eq!(normalize(" \t\r\n "), None);
    assert_eq!(normalize("\u{2003}\u{85}"), None);
}

#[test]
fn normalize_agrees_with_trim() {
    for s in ["", " ", "a", " a", "a ", "  a  b  ", "\ta\u{2028}", "\u{feff}a ", "\u{200b} x"] {
        let t = s.trim();
        let expected = if t.is_empty() { None } else { Some(t.to_string()) };
        assert_eq!(normalize(s), expected);
    }
}

fn before(a: &str, b: &str) -> bool {
    let x: Vec<char> = a.chars().collect();
    let y: Vec<char> = b.chars().collect();
    text_before(&x, &y)
}

#[test]
fn upper_case_comes_before_lower_case() {
    assert!(before("Zebra", "alpha"));
    assert!(!before("alpha", "Zebra"));
}

#[test]
fn text_order_is_strict_and_by_prefix() {
    assert!(!before("abc", "abc"));
    assert!(before("ab", "abc"));
    assert!(!before("abc", "ab"));
    assert!(before("", "a"));
    assert!(!before("", ""));
    assert!(!before("a", ""));
    assert!(before("abc", "abd"));
    assert!(before("10", "9"));
}

#[test]
fn text_order_agrees_with_string_order() {
    let samples = ["", "a", "A", "ab", "b", "\u{e9}", "z", "\u{10000}", "\u{ffff}", "a\u{e9}", "a\u{10000}", "~"];
    for a in samples {
        for b in samples {
            assert_eq!(before(a, b), a.to_string() < b.to_string(), "{:?} {:?}", a, b);
        }
    }
}
