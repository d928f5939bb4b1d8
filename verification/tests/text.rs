use hs_sig::text::{find, join_with, split_on, stands_at, to_chars, trimmed, whitespace};

fn chars(s: &str) -> Vec<char> {
    s.chars().collect()
}

fn strings(parts: &[&str]) -> Vec<String> {
    parts.iter().map(|p| p.to_string()).collect()
}

#[test]
fn to_chars_lists_characters() {
    assert_eq!(to_chars("aé→"), vec!['a', 'é', '→']);
    assert_eq!(to_chars(""), Vec::<char>::new());
}

#[test]
fn whitespace_is_unicode_white_space() {
    for code in 0u32..0x11000 {
        if let Some(c) = char::from_u32(code) {
            assert_eq!(whitespace(c), c.is_whitespace(), "U+{:04X}", code);
        }
    }
}

#[test]
fn trimmed_agrees_with_trim() {
    for s in ["", " ", "a", "  a b \t", "\u{3000}x\u{85}", "\n\n", "é ", " - "] {
        assert_eq!(trimmed(s), s.trim());
    }
}

#[test]
fn find_gives_first_occurrence() {
    assert_eq!(find(&chars("a :: b :: c"), &chars("::")), Some(2));
    assert_eq!(find(&chars(":::"), &chars("::")), Some(0));
    assert_eq!(find(&chars("a:b"), &chars("::")), None);
    assert_eq!(find(&chars(""), &chars("::")), None);
    assert_eq!(find(&chars("abc"), &chars("")), Some(0));
    assert_eq!(find(&chars("é->"), &chars("->")), Some(1));
}

#[test]
fn stands_at_compares_in_place() {
    assert!(stands_at(&chars("a->b"), &chars("->"), 1));
    assert!(!stands_at(&chars("a->b"), &chars("->"), 2));
    assert!(!stands_at(&chars("a->b"), &chars("->"), 3));
    assert!(!stands_at(&chars("a->b"), &chars("->"), 9));
}

#[test]
fn split_on_agrees_with_split() {
    for s in ["", "a", "a->b", "->", "a->->b", "a - > b", "-->", "->a->", "é->ü", "a:::b::::c"] {
        for pat in ["->", "::"] {
            let expected: Vec<String> = s.split(pat).map(|p| p.to_string()).collect();
            assert_eq!(split_on(s, pat), expected, "{:?} on {:?}", s, pat);
        }
    }
}

#[test]
fn join_with_puts_separator_between() {
    assert_eq!(join_with(&strings(&[]), ", "), "");
    assert_eq!(join_with(&strings(&["f"]), ", "), "f");
    assert_eq!(join_with(&strings(&["f", "g", "h"]), ", "), "f, g, h");
    assert_eq!(join_with(&strings(&["", ""]), "-"), "-");
}
