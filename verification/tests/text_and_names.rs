use cargo_lock::package::{check_number, check_version, Name, SourceId, Version};
use cargo_lock::text::{check_word, find_char, same_text, split_on, starts_with, text_precedes};

#[test]
fn words_have_no_separators() {
    assert!(check_word("serde"));
    assert!(check_word("registry+https://github.com/rust-lang/crates.io-index"));
    assert!(!check_word(""));
    assert!(!check_word("two words"));
    assert!(!check_word("(x"));
    assert!(!check_word("x)"));
}

#[test]
fn find_char_returns_first_position_or_length() {
    assert_eq!(find_char("a b c", ' ', 0), 1);
    assert_eq!(find_char("a b c", ' ', 2), 3);
    assert_eq!(find_char("a b c", ' ', 4), 5);
    assert_eq!(find_char("abc", ' ', 0), 3);
    assert_eq!(find_char("", ' ', 0), 0);
}

#[test]
fn split_keeps_empty_fields() {
    assert_eq!(split_on("a b c", ' '), vec!["a".to_string(), "b".to_string(), "c".to_string()]);
    assert_eq!(split_on("", ' '), vec!["".to_string()]);
    assert_eq!(split_on("a  b", ' '), vec!["a".to_string(), "".to_string(), "b".to_string()]);
    assert_eq!(split_on(" a", ' '), vec!["".to_string(), "a".to_string()]);
    assert_eq!(split_on("a ", ' '), vec!["a".to_string(), "".to_string()]);
    assert_eq!(split_on("1.20.3", '.'), vec!["1".to_string(), "20".to_string(), "3".to_string()]);
}

#[test]
fn split_counts_characters_not_bytes() {
    assert_eq!(split_on("é ü", ' '), vec!["é".to_string(), "ü".to_string()]);
    assert_eq!(find_char("éé x", ' ', 0), 2);
}

#[test]
fn same_text_and_prefix() {
    assert!(same_text("abc", "abc"));
    assert!(!same_text("abc", "abd"));
    assert!(!same_text("abc", "ab"));
    assert!(same_text("", ""));
    assert!(starts_with("checksum a", "checksum "));
    assert!(starts_with("abc", ""));
    assert!(!starts_with("check", "checksum "));
    assert!(!starts_with("Checksum a", "checksum "));
}

#[test]
fn numbers_have_no_leading_zero() {
    assert!(check_number("0"));
    assert!(check_number("10"));
    assert!(check_number("18446744073709551616"));
    assert!(!check_number(""));
    assert!(!check_number("01"));
    assert!(!check_number("1a"));
    assert!(!check_number("-1"));
}

#[test]
fn versions_have_three_numbers() {
    assert!(check_version("1.0.0"));
    assert!(check_version("0.4.12"));
    assert!(check_version("1.2.3-alpha.1"));
    assert!(check_version("1.2.3+build.5"));
    assert!(check_version("1.2.3-rc.1+build-7"));
    assert!(!check_version(""));
    assert!(!check_version("1.0"));
    assert!(!check_version("1.0.0.0"));
    assert!(!check_version("01.0.0"));
    assert!(!check_version("1.0.x"));
    assert!(!check_version("1.0.0-"));
    assert!(!check_version("1.0.0+"));
    assert!(!check_version("1.0.0 "));
    assert!(!check_version("1.0.0-a(b)"));
    assert!(!check_version("v1.0.0"));
}

#[test]
fn parsed_values_keep_their_text() {
    assert_eq!(Name::parse("serde").unwrap().as_str(), "serde");
    assert_eq!(Version::parse("1.0.130").unwrap().as_str(), "1.0.130");
    assert_eq!(SourceId::parse("git+https://example.com/x?branch=y#abc").unwrap().as_str(),
        "git+https://example.com/x?branch=y#abc");
    assert!(Name::parse("").is_none());
    assert!(Name::parse("a b").is_none());
    assert!(Version::parse("one").is_none());
    assert!(SourceId::parse("(x)").is_none());
}

#[test]
fn same_compares_text() {
    let a = Name::parse("a").unwrap();
    assert!(a.same(&Name::parse("a").unwrap()));
    assert!(!a.same(&Name::parse("b").unwrap()));
    let v = Version::parse("1.0.0").unwrap();
    assert!(v.same(&v.clone()));
    assert!(!v.same(&Version::parse("1.0.1").unwrap()));
    assert_eq!(a.clone(), a);
}

#[test]
fn texts_are_ordered_by_first_difference() {
    assert!(text_precedes("", "a"));
    assert!(text_precedes("a", "ab"));
    assert!(text_precedes("ab", "b"));
    assert!(text_precedes("10.0.0", "9.0.0"));
    assert!(!text_precedes("a", "a"));
    assert!(!text_precedes("", ""));
    assert!(!text_precedes("b", "ab"));
    assert!(!text_precedes("ab", "a"));
    for (a, b) in [("a", "b"), ("abc", "abd"), ("", "x"), ("é", "ü"), ("z", "é")] {
        assert_eq!(text_precedes(a, b), a < b);
        assert_eq!(text_precedes(b, a), b < a);
    }
}
