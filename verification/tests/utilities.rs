use simple_json_parser::{key_chain_equals, unescape_string_content, JSONKey};
use std::borrow::Cow;

#[test]
fn key_chain_equality() {
    assert!(key_chain_equals(
        &[JSONKey::Slice("k1"), JSONKey::Slice("q\\\"")],
        &[JSONKey::Slice("k1"), JSONKey::Slice("q\"")]
    ));
    assert!(!key_chain_equals(
        &[JSONKey::Slice("k1"), JSONKey::Slice("b\\\"")],
        &[JSONKey::Slice("k1"), JSONKey::Slice("q\"")]
    ));
}

#[test]
fn unescaping() {
    assert!(matches!(
        unescape_string_content("No quotes here"),
        Cow::Borrowed(_)
    ));
    assert_eq!(
        unescape_string_content("Something with \\\"quotes\\\""),
        "Something with \"quotes\""
    );
}

#[test]
fn key_chains_of_different_length_differ() {
    assert!(!key_chain_equals(&[JSONKey::Slice("a")], &[JSONKey::Slice("a"), JSONKey::Index(0)]));
    assert!(!key_chain_equals(&[JSONKey::Slice("a"), JSONKey::Index(0)], &[JSONKey::Slice("a")]));
    assert!(key_chain_equals(&[], &[]));
}

#[test]
fn indices_are_equal_as_numbers() {
    assert!(key_chain_equals(&[JSONKey::Index(3)], &[JSONKey::Index(3)]));
    assert!(!key_chain_equals(&[JSONKey::Index(3)], &[JSONKey::Index(4)]));
}

#[test]
fn a_name_is_no_index() {
    assert!(!key_chain_equals(&[JSONKey::Slice("0")], &[JSONKey::Index(0)]));
    assert!(!key_chain_equals(&[JSONKey::Index(0)], &[JSONKey::Slice("0")]));
}

#[test]
fn a_key_must_be_read_to_its_end() {
    assert!(key_chain_equals(&[JSONKey::Slice("ab")], &[JSONKey::Slice("ab")]));
    assert!(!key_chain_equals(&[JSONKey::Slice("abc")], &[JSONKey::Slice("ab")]));
    assert!(!key_chain_equals(&[JSONKey::Slice("ab")], &[JSONKey::Slice("abc")]));
    assert!(!key_chain_equals(&[JSONKey::Slice("ab\\")], &[JSONKey::Slice("ab")]));
}

#[test]
fn an_escaped_backslash_is_a_backslash() {
    // The raw key holds two backslashes; the name it stands for holds one.
    assert!(key_chain_equals(&[JSONKey::Slice("a\\\\b")], &[JSONKey::Slice("a\\b")]));
    assert!(!key_chain_equals(&[JSONKey::Slice("a\\\\b")], &[JSONKey::Slice("ab")]));
    // Only the key of the document is read with escapes.
    assert!(!key_chain_equals(&[JSONKey::Slice("q\"")], &[JSONKey::Slice("q\\\"")]));
}

#[test]
fn keys_beyond_ascii() {
    assert!(key_chain_equals(&[JSONKey::Slice("gr\\\u{fc}n")], &[JSONKey::Slice("gr\u{fc}n")]));
    assert!(!key_chain_equals(&[JSONKey::Slice("gr\u{fc}n")], &[JSONKey::Slice("grun")]));
}

#[test]
fn unescaping_drops_every_backslash() {
    assert_eq!(unescape_string_content("a\\nb"), "anb");
    assert_eq!(unescape_string_content("a\\\\b"), "ab");
    assert_eq!(unescape_string_content("\\"), "");
    assert_eq!(unescape_string_content("\\u0041"), "u0041");
    assert_eq!(unescape_string_content("tail\\"), "tail");
    assert_eq!(unescape_string_content("\\head"), "head");
}

#[test]
fn unescaping_copies_only_where_a_backslash_stands() {
    assert!(matches!(unescape_string_content(""), Cow::Borrowed("")));
    assert!(matches!(unescape_string_content("pl\u{e4}in"), Cow::Borrowed("pl\u{e4}in")));
    assert!(matches!(unescape_string_content("a\\b"), Cow::Owned(_)));
    assert!(matches!(unescape_string_content("\\"), Cow::Owned(_)));
}

#[test]
fn unescaping_twice_changes_nothing_more() {
    let once = unescape_string_content("\\\"a\\\\b\\\" \u{20ac}\\").into_owned();
    assert_eq!(once, "\"ab\" \u{20ac}");
    let twice = unescape_string_content(&once);
    assert!(matches!(twice, Cow::Borrowed(_)));
    assert_eq!(twice, once);
}

#[test]
fn unescaping_keeps_what_is_beyond_ascii() {
    assert_eq!(unescape_string_content("\u{20ac}\\\u{1f600}\\x"), "\u{20ac}\u{1f600}x");
}
