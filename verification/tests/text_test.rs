use lazy_java::patterns::{
    find_all, find_at, group, CLASS_GROUP, CLASS_PATTERN, MAIN_PATTERN, PACKAGE_GROUP,
    PACKAGE_PATTERN,
};
use lazy_java::text::{chars_of, same_text, split_trimmed, string_of, substring, trimmed};

#[test]
fn trimmed_drops_surrounding_white_space() {
    assert_eq!(trimmed("  a b \t\n"), "a b");
    assert_eq!(trimmed("\u{a0}x\u{3000}"), "x");
    assert_eq!(trimmed("   "), "");
    assert_eq!(trimmed(""), "");
    assert_eq!(trimmed("ab"), "ab");
}

#[test]
fn split_trimmed_splits_at_every_separator() {
    assert_eq!(split_trimmed("A, B ,C", ','), vec!["A", "B", "C"]);
    assert_eq!(split_trimmed("", ','), vec![""]);
    assert_eq!(split_trimmed("a,,b,", ','), vec!["a", "", "b", ""]);
    assert_eq!(split_trimmed(" only ", ','), vec!["only"]);
}

#[test]
fn same_text_compares_characters() {
    assert!(same_text("class", "class"));
    assert!(!same_text("class", "Class"));
    assert!(!same_text("class", "classes"));
    assert!(same_text("", ""));
}

#[test]
fn substring_and_string_of() {
    assert_eq!(substring("héllo", 1, 3), "é");
    assert_eq!(substring("héllo", 0, 0), "");
    let chars = chars_of("héllo");
    assert_eq!(chars, vec!['h', 'é', 'l', 'l', 'o']);
    assert_eq!(string_of(&chars, 1, 4), "éll");
}

#[test]
fn package_search_reads_the_package_name() {
    let src = "package com.example.app;\nclass A {}\n";
    let spans = find_at(PACKAGE_PATTERN, src, 0).unwrap();
    assert_eq!(group(src, &spans, PACKAGE_GROUP), Some("com.example.app".to_string()));
    assert!(find_at(PACKAGE_PATTERN, "class A {}", 0).is_none());
}

#[test]
fn class_search_finds_every_line_start_declaration() {
    let src = "class A {\n}\ninterface B {\n}\n";
    let all = find_all(CLASS_PATTERN, src);
    assert_eq!(all.len(), 2);
    assert_eq!(group(src, &all[0], CLASS_GROUP), Some("A".to_string()));
    assert_eq!(group(src, &all[1], CLASS_GROUP), Some("B".to_string()));
    // The whole match ends just after the opening brace.
    assert_eq!(all[0][0], Some((0, 9)));
    assert!(find_all(CLASS_PATTERN, "no declarations").is_empty());
}

#[test]
fn search_starts_at_the_given_offset() {
    let src = "class A {\n}\nclass B {\n}\n";
    let spans = find_at(CLASS_PATTERN, src, 1).unwrap();
    assert_eq!(group(src, &spans, CLASS_GROUP), Some("B".to_string()));
    assert!(find_at(MAIN_PATTERN, src, 0).is_none());
}

#[test]
fn is_whitespace_agrees_with_std() {
    for c in (0u32..0x3100).filter_map(char::from_u32) {
        assert_eq!(lazy_java::text::is_whitespace(c), c.is_whitespace(), "{:?}", c);
    }
}
