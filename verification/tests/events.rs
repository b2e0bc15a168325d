use simple_json_parser::{parse, parse_with_exit_signal, JSONKey, ParseOptions, RootJSONValue};

fn events(source: &str) -> (Vec<String>, Result<usize, String>) {
    let mut seen: Vec<String> = Vec::new();
    let result = parse(source, |keys, value| {
        let mut line = String::new();
        for key in keys {
            match key {
                JSONKey::Slice(name) => line.push_str(&format!("/{name}")),
                JSONKey::Index(n) => line.push_str(&format!("/{n}")),
            }
        }
        match value {
            RootJSONValue::String(content) => line.push_str(&format!(" s:{content}")),
            RootJSONValue::Number(digits) => line.push_str(&format!(" n:{digits}")),
            RootJSONValue::Boolean(b) => line.push_str(&format!(" b:{b}")),
            RootJSONValue::Null => line.push_str(" null"),
        }
        seen.push(line);
    });
    (seen, result.map_err(|e| format!("{:?}@{}", e.reason, e.at)))
}

#[test]
fn nested_path() {
    let source = r#"{"items":[4,{"name":"Ben"},6]}"#;
    let mut found = false;
    let result = parse(source, |keys, value| {
        if let &[JSONKey::Slice("items"), JSONKey::Index(1), JSONKey::Slice("name")] = keys {
            assert_eq!(value, RootJSONValue::String("Ben"));
            found = true;
        }
    });
    assert_eq!(result, Ok(source.len()));
    assert!(found);
}

#[test]
fn every_leaf_once_and_in_order() {
    let source = r#"{"items":[4,{"name":"Ben"},6]}"#;
    let (seen, result) = events(source);
    assert_eq!(seen, vec!["/items/0 n:4", "/items/1/name s:Ben", "/items/2 n:6"]);
    assert_eq!(result, Ok(source.len()));
}

#[test]
fn every_kind_of_scalar() {
    let source = r#"{ "s": "text", "n": -12.5e3, "t": true, "f": false, "z": null, "o": {"i": [[1], "x"]} }"#;
    let (seen, result) = events(source);
    assert_eq!(
        seen,
        vec![
            "/s s:text",
            "/n n:-12.5e3",
            "/t b:true",
            "/f b:false",
            "/z null",
            "/o/i/0/0 n:1",
            "/o/i/1 s:x",
        ]
    );
    assert_eq!(result, Ok(source.len()));
}

#[test]
fn scalar_at_the_root() {
    assert_eq!(events("\"alone\""), (vec![" s:alone".to_string()], Ok(7)));
    assert_eq!(events("true"), (vec![" b:true".to_string()], Ok(4)));
    assert_eq!(events(" null "), (vec![" null".to_string()], Ok(6)));
    assert_eq!(events("42 "), (vec![" n:42".to_string()], Ok(3)));
}

#[test]
fn number_that_the_text_ends() {
    assert_eq!(events("42"), (vec![" n:42".to_string()], Ok(2)));
    // Nothing asks for the closer behind a number that nothing ends.
    assert_eq!(events("[1, 23"), (vec!["/0 n:1".to_string(), "/1 n:23".to_string()], Ok(6)));
}

#[test]
fn last_number_is_handed_out_even_to_a_callback_that_stops() {
    let mut seen = 0;
    let result = parse_with_exit_signal(
        "7",
        |_keys, value| {
            seen += 1;
            assert_eq!(value, RootJSONValue::Number("7"));
            true
        },
        &ParseOptions::default(),
    );
    assert_eq!(result, Ok(1));
    assert_eq!(seen, 1);
}

#[test]
fn numbers_are_not_judged() {
    let (seen, result) = events("[0012, 1.2.3, -, 9abc]");
    assert_eq!(seen, vec!["/0 n:0012", "/1 n:1.2.3", "/2 n:-", "/3 n:9abc"]);
    assert_eq!(result, Ok(22));
}

#[test]
fn strings_keep_their_escapes() {
    let source = r#"{"q\"k": "a\"b\\n"}"#;
    let mut seen = 0;
    let result = parse(source, |keys, value| {
        seen += 1;
        assert!(matches!(keys, &[JSONKey::Slice(r#"q\"k"#)]));
        assert_eq!(value, RootJSONValue::String(r#"a\"b\\n"#));
    });
    assert_eq!(result, Ok(source.len()));
    assert_eq!(seen, 1);
}

#[test]
fn text_beyond_ascii() {
    let source = "{\"gr\u{fc}n\": [\"\u{65e5}\u{672c}\", 1],\u{a0}\"\u{1f600}\":\u{3000}null\u{2003}}";
    let (seen, result) = events(source);
    assert_eq!(
        seen,
        vec!["/gr\u{fc}n/0 s:\u{65e5}\u{672c}", "/gr\u{fc}n/1 n:1", "/\u{1f600} null"]
    );
    assert_eq!(result, Ok(source.len()));
}

#[test]
fn white_space_beyond_ascii_ends_a_number() {
    let (seen, result) = events("[1\u{2028}, 2\u{85}]");
    assert_eq!(seen, vec!["/0 n:1", "/1 n:2"]);
    assert_eq!(result, Ok(11));
}

#[test]
fn what_only_looks_like_white_space_is_none() {
    // U+200B, a space of no width, is not white space.
    assert_eq!(events("[1, \u{200b}2]").1, Err("ExpectedValue@4".to_string()));
    assert_eq!(events("[1\u{200b}]").0, vec!["/0 n:1\u{200b}"]);
}

#[test]
fn index_counts_the_commas() {
    let (seen, result) = events("[[1,2],[3],4]");
    assert_eq!(seen, vec!["/0/0 n:1", "/0/1 n:2", "/1/0 n:3", "/2 n:4"]);
    assert_eq!(result, Ok(13));
}

#[test]
fn object_without_fields_in_an_array() {
    // Behind the closer of an object without fields the scan waits for a value.
    assert_eq!(events("[{}1]"), (vec!["/0 n:1".to_string()], Ok(5)));
    assert_eq!(events("[{}]").1, Err("ExpectedValue@3".to_string()));
}

#[test]
fn trailing_comma_in_an_object() {
    assert_eq!(events(r#"{"a":1,}"#), (vec!["/a n:1".to_string()], Err("ExpectedBracket@8".to_string())));
}

#[test]
fn escaped_backslash_before_the_closing_quote() {
    // The second backslash is the escaped one: the quote behind it is free.
    let source = r#"["a\\"]"#;
    let mut seen = 0;
    let result = parse(source, |keys, value| {
        seen += 1;
        assert!(matches!(keys, &[JSONKey::Index(0)]));
        assert_eq!(value, RootJSONValue::String(r"a\\"));
    });
    assert_eq!(result, Ok(7));
    assert_eq!(seen, 1);
}

#[test]
fn escaped_backslash_at_the_end_of_a_name() {
    let (seen, result) = events(r#"{"k\\": 1, "\\\\": "\\\"\\\\"}"#);
    assert_eq!(seen, vec![r"/k\\ n:1", r#"/\\\\ s:\\\"\\\\"#]);
    assert_eq!(result, Ok(30));
}

#[test]
fn backslashes_pair_up_from_the_left() {
    // Three backslashes and a quote: a pair, then an escaped quote.
    let refused = events(r#"["\\\""#);
    assert_eq!(refused, (vec![], Err("ExpectedQuote@6".to_string())));
    // Four backslashes and a quote: two pairs, then the closing quote.
    let read = events(r#"["\\\\"]"#);
    assert_eq!(read, (vec![r"/0 s:\\\\".to_string()], Ok(8)));
}
