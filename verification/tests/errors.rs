use simple_json_parser::{
    parse, parse_with_exit_signal, JSONParseError, JSONParseErrorReason, ParseOptions,
};

fn refusal(source: &str) -> JSONParseError {
    parse_with_exit_signal(source, |_keys, _value| false, &ParseOptions::default()).unwrap_err()
}

#[test]
fn malformed_literal() {
    let refused = refusal(r#"{"a": tru}"#);
    assert_eq!(refused.at, 9);
    assert_eq!(refused.reason, JSONParseErrorReason::ExpectedTrueFalseNull);
}

#[test]
fn unterminated_string() {
    let source = r#"{"a": "b"#;
    let refused = refusal(source);
    assert_eq!(refused.at, source.len());
    assert_eq!(refused.reason, JSONParseErrorReason::ExpectedQuote);
}

#[test]
fn unterminated_key() {
    let refused = refusal(r#"{"abc"#);
    assert_eq!(refused, JSONParseError { at: 5, reason: JSONParseErrorReason::ExpectedQuote });
}

#[test]
fn escaped_quote_does_not_end_a_string() {
    let refused = refusal(r#"["a\"]"#);
    assert_eq!(refused, JSONParseError { at: 6, reason: JSONParseErrorReason::ExpectedQuote });
}

#[test]
fn missing_colon() {
    let refused = refusal(r#"{"a" 1}"#);
    assert_eq!(refused, JSONParseError { at: 5, reason: JSONParseErrorReason::ExpectedColon });
    let refused = refusal(r#"{"a" "#);
    assert_eq!(refused, JSONParseError { at: 5, reason: JSONParseErrorReason::ExpectedColon });
}

#[test]
fn junk_behind_a_value() {
    let refused = refusal(r#"["a" "b"]"#);
    assert_eq!(refused, JSONParseError { at: 5, reason: JSONParseErrorReason::ExpectedEndOfValue });
    let refused = refusal("true false");
    assert_eq!(refused, JSONParseError { at: 5, reason: JSONParseErrorReason::ExpectedEndOfValue });
}

#[test]
fn closer_without_an_opener() {
    let refused = refusal("1]");
    assert_eq!(refused, JSONParseError { at: 1, reason: JSONParseErrorReason::ExpectedEndOfValue });
}

#[test]
fn wrong_closer_behind_a_value() {
    let refused = refusal(r#"["a"}"#);
    assert_eq!(refused, JSONParseError { at: 4, reason: JSONParseErrorReason::ExpectedEndOfValue });
    // The value is handed out before its delimiter is judged.
    let mut seen = 0;
    let result = parse("[1}", |_keys, _value| seen += 1);
    assert_eq!(result, Err(JSONParseError { at: 2, reason: JSONParseErrorReason::ExpectedEndOfValue }));
    assert_eq!(seen, 1);
}

#[test]
fn missing_closer() {
    let refused = refusal(r#"{"a": "b""#);
    assert_eq!(refused, JSONParseError { at: 9, reason: JSONParseErrorReason::ExpectedBracket });
    let refused = refusal("[");
    assert_eq!(refused, JSONParseError { at: 1, reason: JSONParseErrorReason::ExpectedBracket });
    let refused = refusal(r#"{"a": 1,"#);
    assert_eq!(refused, JSONParseError { at: 8, reason: JSONParseErrorReason::ExpectedBracket });
    let refused = refusal("{}");
    assert_eq!(refused, JSONParseError { at: 2, reason: JSONParseErrorReason::ExpectedBracket });
}

#[test]
fn literal_cut_short() {
    let refused = refusal("[tr");
    assert_eq!(
        refused,
        JSONParseError { at: 3, reason: JSONParseErrorReason::ExpectedTrueFalseNull }
    );
    let refused = refusal("falsy");
    assert_eq!(
        refused,
        JSONParseError { at: 4, reason: JSONParseErrorReason::ExpectedTrueFalseNull }
    );
    let refused = refusal("nope");
    assert_eq!(
        refused,
        JSONParseError { at: 3, reason: JSONParseErrorReason::ExpectedTrueFalseNull }
    );
}

#[test]
fn literal_is_judged_at_its_fourth_character() {
    // Three characters, one of them three bytes long: nothing is judged yet.
    let refused = refusal("t\u{20ac}x");
    assert_eq!(
        refused,
        JSONParseError { at: 5, reason: JSONParseErrorReason::ExpectedTrueFalseNull }
    );
    // The fourth character stands at byte 5.
    let refused = refusal("t\u{20ac}xy, 1");
    assert_eq!(
        refused,
        JSONParseError { at: 5, reason: JSONParseErrorReason::ExpectedTrueFalseNull }
    );
}

#[test]
fn no_key_where_one_is_due() {
    let refused = refusal("{a: 1}");
    assert_eq!(refused, JSONParseError { at: 1, reason: JSONParseErrorReason::ExpectedKey });
}

#[test]
fn no_value_where_one_is_due() {
    let refused = refusal("[]");
    assert_eq!(refused, JSONParseError { at: 1, reason: JSONParseErrorReason::ExpectedValue });
    let refused = refusal(r#"{"a": +1}"#);
    assert_eq!(refused, JSONParseError { at: 6, reason: JSONParseErrorReason::ExpectedValue });
    let refused = refusal("[1, ]");
    assert_eq!(refused, JSONParseError { at: 4, reason: JSONParseErrorReason::ExpectedValue });
}

#[test]
fn open_block_comment() {
    let options = ParseOptions { exit_on_first_value: false, allow_comments: true };
    let source = "[1, /* never closed *";
    let refused = parse_with_exit_signal(source, |_keys, _value| false, &options).unwrap_err();
    assert_eq!(refused.at, source.len());
    assert_eq!(refused.reason, JSONParseErrorReason::ExpectedEndOfMultilineComment);
}

#[test]
fn open_line_comment_ends_the_text() {
    let options = ParseOptions { exit_on_first_value: false, allow_comments: true };
    let source = "[1, // never closed";
    assert_eq!(parse_with_exit_signal(source, |_keys, _value| false, &options), Ok(source.len()));
}

#[test]
fn offsets_count_bytes() {
    // The name takes two characters and five bytes.
    let refused = refusal("{\"\u{e9}\u{20ac}\" 1}");
    assert_eq!(refused, JSONParseError { at: 9, reason: JSONParseErrorReason::ExpectedColon });
    let source = "[\"\u{1f600}\", \"\u{e9}";
    let refused = refusal(source);
    assert_eq!(refused, JSONParseError { at: 12, reason: JSONParseErrorReason::ExpectedQuote });
    assert_eq!(source.len(), 12);
}

#[test]
fn empty_text_is_accepted() {
    let mut seen = 0;
    assert_eq!(parse("", |_keys, _value| seen += 1), Ok(0));
    assert_eq!(parse("  \n\t ", |_keys, _value| seen += 1), Ok(5));
    assert_eq!(seen, 0);
}
