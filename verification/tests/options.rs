use simple_json_parser::{
    parse, parse_with_exit_signal, JSONKey, JSONParseError, JSONParseErrorReason, ParseOptions,
    RootJSONValue,
};

#[test]
fn disable_comments() {
    let source = r#"{
        // some comment
        "hi": "Ben"
    }"#;

    let with_comments = parse_with_exit_signal(
        source,
        |keys, value| {
            if let &[JSONKey::Slice("hi")] = keys {
                assert_eq!(value, RootJSONValue::String("Ben"));
            } else {
                panic!()
            }
            false
        },
        &ParseOptions {
            allow_comments: true,
            ..Default::default()
        },
    );
    let without_comments = parse_with_exit_signal(
        source,
        |_keys, _value| {
            println!("{:?}", (_keys, _value));
            false
        },
        &ParseOptions {
            allow_comments: false,
            ..Default::default()
        },
    );

    assert!(with_comments.is_ok());
    assert!(without_comments.is_err());
}

#[test]
fn comments_in_every_form() {
    let source = "{\n  # hash\n  \"a\": 1, // line\n  \"b\": [2, /* block * / */ 3]\n}";
    let mut seen: Vec<String> = Vec::new();
    let options = ParseOptions { exit_on_first_value: false, allow_comments: true };
    let result = parse_with_exit_signal(
        source,
        |keys, value| {
            seen.push(format!("{keys:?}={value:?}"));
            false
        },
        &options,
    );
    assert_eq!(result, Ok(source.len()));
    assert_eq!(
        seen,
        vec![
            "[Slice(\"a\")]=Number(\"1\")",
            "[Slice(\"b\"), Index(0)]=Number(\"2\")",
            "[Slice(\"b\"), Index(1)]=Number(\"3\")",
        ]
    );
}

#[test]
fn comment_behind_a_value_separates() {
    // A comment right behind a value stands for the separator.
    let options = ParseOptions { exit_on_first_value: false, allow_comments: true };
    let source = "{\"a\": \"x\" // no comma\n \"b\": \"y\"}";
    let mut seen: Vec<String> = Vec::new();
    let result = parse_with_exit_signal(
        source,
        |keys, value| {
            seen.push(format!("{keys:?}={value:?}"));
            false
        },
        &options,
    );
    assert_eq!(result, Ok(source.len()));
    assert_eq!(seen, vec!["[Slice(\"a\")]=String(\"x\")", "[Slice(\"b\")]=String(\"y\")"]);
}

#[test]
fn hash_never_opens_a_block_comment() {
    let options = ParseOptions { exit_on_first_value: false, allow_comments: true };
    // `#*` is a line comment: the newline ends it.
    let source = "[#* still a line\n1]";
    let mut count = 0;
    let result = parse_with_exit_signal(
        source,
        |_keys, _value| {
            count += 1;
            false
        },
        &options,
    );
    assert_eq!(result, Ok(source.len()));
    assert_eq!(count, 1);
}

#[test]
fn block_comment_needs_its_own_asterisk() {
    let options = ParseOptions { exit_on_first_value: false, allow_comments: true };
    // In `/*/` the asterisk opens the comment and cannot close it as well.
    let refused = parse_with_exit_signal("[/*/ 1]", |_keys, _value| false, &options).unwrap_err();
    assert_eq!(refused.at, 7);
    assert_eq!(refused.reason, JSONParseErrorReason::ExpectedEndOfMultilineComment);
    assert!(parse_with_exit_signal("[/**/ 1]", |_keys, _value| false, &options).is_ok());
}

#[test]
fn comment_refused_with_its_reason() {
    let options = ParseOptions::default();
    let in_object = parse_with_exit_signal("{ // c\n\"a\": 1}", |_k, _v| false, &options);
    assert_eq!(
        in_object,
        Err(JSONParseError { at: 2, reason: JSONParseErrorReason::ExpectedKey })
    );
    let behind_value = parse_with_exit_signal("[\"a\" // c\n]", |_k, _v| false, &options);
    assert_eq!(
        behind_value,
        Err(JSONParseError { at: 5, reason: JSONParseErrorReason::ExpectedEndOfValue })
    );
    let before_value = parse_with_exit_signal("[ // c\n1]", |_k, _v| false, &options);
    assert_eq!(
        before_value,
        Err(JSONParseError { at: 2, reason: JSONParseErrorReason::ExpectedValue })
    );
}

#[test]
fn default_options_are_off() {
    let options = ParseOptions::default();
    assert!(!options.exit_on_first_value);
    assert!(!options.allow_comments);
}

#[test]
fn simple_form_accepts_comments_and_reads_to_the_end() {
    let source = "[1, /* two */ 2] ";
    let mut count = 0;
    let result = parse(source, |_keys, _value| count += 1);
    assert_eq!(result, Ok(source.len()));
    assert_eq!(count, 2);
}

#[test]
fn without_a_starter_comments_change_nothing() {
    let sources = [
        r#"{"a": [1, true, "x"], "b": null}"#,
        r#"{"a": tru}"#,
        r#"[1, 2"#,
        r#"{"a" 1}"#,
        "",
    ];
    for source in sources {
        for exit_on_first_value in [false, true] {
            let mut with: Vec<String> = Vec::new();
            let mut without: Vec<String> = Vec::new();
            let allowed = parse_with_exit_signal(
                source,
                |keys, value| {
                    with.push(format!("{keys:?}={value:?}"));
                    false
                },
                &ParseOptions { exit_on_first_value, allow_comments: true },
            );
            let refused = parse_with_exit_signal(
                source,
                |keys, value| {
                    without.push(format!("{keys:?}={value:?}"));
                    false
                },
                &ParseOptions { exit_on_first_value, allow_comments: false },
            );
            assert_eq!(allowed, refused);
            assert_eq!(with, without);
        }
    }
}
