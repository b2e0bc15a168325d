use simple_json_parser::{
    parse_with_exit_signal, JSONKey, JSONParseErrorReason, ParseOptions, RootJSONValue,
};

#[test]
fn at_end_of_value() {
    let source =
        r#"<script id="data" type="application/json">{"org": 10, "items":["one"]}</script>"#;
    let source = source
        .strip_prefix(r#"<script id="data" type="application/json">"#)
        .unwrap();

    let mut values = 2;
    let result = parse_with_exit_signal(
        source,
        |keys, value| {
            values -= 1;
            if let &[JSONKey::Slice("org")] = keys {
                assert_eq!(value, RootJSONValue::Number("10"));
            } else if let &[JSONKey::Slice("items"), JSONKey::Index(0)] = keys {
                assert_eq!(value, RootJSONValue::String("one"));
            } else {
                panic!("Unknown value {keys:?}");
            }
            false
        },
        &ParseOptions {
            exit_on_first_value: true,
            ..Default::default()
        },
    )
    .unwrap();

    assert_eq!(values, 0);
    assert_eq!(&source[result..], "</script>");
}

#[test]
fn at_found_value() {
    let source = r#"{"org": 10, "items":[4, { "name": "Ben" }, 6]}"#;

    let mut values = 2;
    let result = parse_with_exit_signal(
        source,
        |keys, value| {
            if let &[JSONKey::Slice("items"), JSONKey::Index(1), JSONKey::Slice("name")] = keys {
                assert_eq!(value, RootJSONValue::String("Ben"));
                true
            } else {
                values -= 1;
                false
            }
        },
        &ParseOptions::default(),
    )
    .unwrap();

    assert_eq!(values, 0);
    assert_eq!(&source[result..], " }, 6]}");
}

#[test]
fn stops_at_the_delimiter_after_a_number() {
    let source = r#"{"a":1,"b":2}"#;
    let mut seen = 0;
    let result = parse_with_exit_signal(
        source,
        |keys, value| {
            seen += 1;
            assert!(matches!(keys, &[JSONKey::Slice("a")]));
            assert_eq!(value, RootJSONValue::Number("1"));
            true
        },
        &ParseOptions::default(),
    )
    .unwrap();

    assert_eq!(seen, 1);
    assert_eq!(result, 6);
    assert_eq!(&source[result..], r#","b":2}"#);
}

#[test]
fn stops_behind_the_quote_of_a_string() {
    let source = r#"{"a":"x","b":2}"#;
    let result = parse_with_exit_signal(source, |_keys, _value| true, &ParseOptions::default());
    assert_eq!(result, Ok(8));
    assert_eq!(&source[8..], r#","b":2}"#);
}

#[test]
fn stops_behind_a_literal() {
    let options = ParseOptions::default();
    assert_eq!(parse_with_exit_signal("[true, 1]", |_keys, _value| true, &options), Ok(5));
    assert_eq!(parse_with_exit_signal("[null, 1]", |_keys, _value| true, &options), Ok(5));
    assert_eq!(parse_with_exit_signal("[false, 1]", |_keys, _value| true, &options), Ok(6));
}

#[test]
fn stop_skips_what_follows() {
    // What stands behind the value at which the scan stops is not read.
    let source = r#"{"a":1,"b":?}"#;
    let options = ParseOptions::default();
    assert_eq!(parse_with_exit_signal(source, |_keys, _value| true, &options), Ok(6));
    let refused = parse_with_exit_signal(source, |_keys, _value| false, &options).unwrap_err();
    assert_eq!(refused.at, 11);
    assert_eq!(refused.reason, JSONParseErrorReason::ExpectedValue);
}

#[test]
fn exit_on_first_value_counts_the_closer() {
    let options = ParseOptions { exit_on_first_value: true, allow_comments: false };
    let source = r#"{"a":"x"} trailing"#;
    assert_eq!(parse_with_exit_signal(source, |_keys, _value| false, &options), Ok(9));
    let source = r#"["x"]]]]"#;
    assert_eq!(parse_with_exit_signal(source, |_keys, _value| false, &options), Ok(5));
}

#[test]
fn exit_on_first_value_after_a_top_level_string() {
    let options = ParseOptions { exit_on_first_value: true, allow_comments: false };
    // The character behind the value is read before the scan returns.
    assert_eq!(parse_with_exit_signal("\"x\" rest", |_keys, _value| false, &options), Ok(4));
    // A comma does not end the scan.
    let refused = parse_with_exit_signal("\"x\",?", |_keys, _value| false, &options).unwrap_err();
    assert_eq!(refused.at, 4);
    assert_eq!(refused.reason, JSONParseErrorReason::ExpectedKey);
}

#[test]
fn exit_on_first_value_behind_the_closer_of_a_number() {
    // The closer that ends a number also ends the first value.
    let options = ParseOptions { exit_on_first_value: true, allow_comments: false };
    assert_eq!(parse_with_exit_signal("[1] ", |_keys, _value| false, &options), Ok(3));
    assert_eq!(parse_with_exit_signal("[1]<", |_keys, _value| false, &options), Ok(3));
    let source = r#"{"a": 1}</script>"#;
    let result = parse_with_exit_signal(source, |_keys, _value| false, &options).unwrap();
    assert_eq!(&source[result..], "</script>");
}

#[test]
fn exit_on_first_value_behind_a_top_level_number() {
    let options = ParseOptions { exit_on_first_value: true, allow_comments: false };
    // As behind a string, the character behind the number is read.
    assert_eq!(parse_with_exit_signal("42 rest", |_keys, _value| false, &options), Ok(3));
    assert_eq!(parse_with_exit_signal("42", |_keys, _value| false, &options), Ok(2));
    // A comma ends the number and not the scan.
    let refused = parse_with_exit_signal("42,?", |_keys, _value| false, &options).unwrap_err();
    assert_eq!(refused.at, 3);
    assert_eq!(refused.reason, JSONParseErrorReason::ExpectedKey);
}

#[test]
fn without_exit_on_first_value_the_scan_reads_on() {
    let options = ParseOptions::default();
    let refused = parse_with_exit_signal("[1]<", |_keys, _value| false, &options).unwrap_err();
    assert_eq!(refused.at, 3);
    assert_eq!(refused.reason, JSONParseErrorReason::ExpectedEndOfValue);
}
