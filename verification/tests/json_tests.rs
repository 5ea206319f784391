use lib::json::{escape, parse_nodes, utf8_seq_len, Node, Parser};

fn num(t: &str) -> Node {
    Node::Number(t.to_string())
}

fn st(t: &str) -> Node {
    Node::Str(t.to_string())
}

fn key(t: &str) -> Node {
    Node::Key(t.to_string())
}

fn err_of(input: &str) -> String {
    match parse_nodes(input) {
        Ok(v) => panic!("{input:?} must be rejected, got {v:?}"),
        Err((m, _)) => m,
    }
}

#[test]
fn object_and_array_nodes() {
    let v = parse_nodes(r#"{"a":1,"b":"hello","c":true,"d":null,"e":[2,3]}"#).unwrap();
    assert_eq!(
        v,
        vec![
            Node::BeginObject,
            key("a"),
            num("1"),
            key("b"),
            st("hello"),
            key("c"),
            Node::Bool(true),
            key("d"),
            Node::Null,
            key("e"),
            Node::BeginArray,
            num("2"),
            num("3"),
            Node::EndArray,
            Node::EndObject,
        ]
    );
}

#[test]
fn whitespace_around_values_is_skipped() {
    let v = parse_nodes(" \t\n[ 1 , { } , [ ] ]\r\n").unwrap();
    assert_eq!(
        v,
        vec![
            Node::BeginArray,
            num("1"),
            Node::BeginObject,
            Node::EndObject,
            Node::BeginArray,
            Node::EndArray,
            Node::EndArray,
        ]
    );
}

#[test]
fn deeply_nested_input_is_rejected_not_overflowed() {
    let depth = 200;
    let src = format!("{}{}", "[".repeat(depth), "]".repeat(depth));
    let e = err_of(&src);
    assert!(e.contains("nesting too deep"), "got {e}");
    assert_eq!(e, "nesting too deep (> 128) at pos 128");
}

#[test]
fn nesting_limit_is_exactly_128_levels() {
    let ok = format!("{}{}", "[".repeat(128), "]".repeat(128));
    assert!(parse_nodes(&ok).is_ok());
    let bad = format!("{}{}", "[".repeat(129), "]".repeat(129));
    assert!(parse_nodes(&bad).is_err());
    let shallow = format!("{}{}", "[".repeat(20), "]".repeat(20));
    assert!(parse_nodes(&shallow).is_ok(), "shallow nesting must still parse");
}

#[test]
fn malformed_numbers_are_rejected() {
    for bad in ["-", "-.", "1e", "1e+", "1e-", "-e5", "01e"] {
        assert_eq!(err_of(bad), "invalid float literal", "input {bad:?}");
    }
    assert_eq!(err_of("."), "unexpected Some(46) at pos 0");
    assert_eq!(err_of("1..2"), "trailing garbage at pos 2");
    assert_eq!(err_of("1.2.3"), "trailing garbage at pos 3");
    for ok in ["0", "-0", "1.5", "1e3", "1E3", "-2.5e-3", "1.0e+2", "123456789", "1.", "-.5"] {
        assert_eq!(parse_nodes(ok).unwrap(), vec![num(ok)], "valid number {ok:?}");
    }
}

#[test]
fn malformed_literals_are_rejected() {
    assert_eq!(err_of("nul"), "invalid literal at pos 0 (expected \"null\")");
    assert_eq!(err_of("nXYZ"), "invalid literal at pos 0 (expected \"null\")");
    assert_eq!(err_of("tru"), "invalid literal at pos 0 (expected \"true\")");
    assert_eq!(err_of("fals"), "invalid literal at pos 0 (expected \"false\")");
    assert_eq!(err_of("truely"), "trailing garbage at pos 4");
    assert_eq!(err_of("[nul,1]"), "invalid literal at pos 1 (expected \"null\")");
    assert_eq!(parse_nodes("true").unwrap(), vec![Node::Bool(true)]);
    assert_eq!(parse_nodes("false").unwrap(), vec![Node::Bool(false)]);
    assert_eq!(parse_nodes("null").unwrap(), vec![Node::Null]);
}

#[test]
fn empty_and_whitespace_only_input_is_rejected() {
    assert_eq!(err_of(""), "unexpected None at pos 0");
    assert_eq!(err_of("   "), "unexpected None at pos 3");
    assert_eq!(err_of("\n\t "), "unexpected None at pos 3");
}

#[test]
fn array_with_leading_or_middle_comma_is_rejected() {
    assert_eq!(err_of("[,1]"), "unexpected Some(44) at pos 1");
    assert_eq!(err_of("[1,,2]"), "unexpected Some(44) at pos 3");
    assert_eq!(err_of("[ , ]"), "unexpected Some(44) at pos 2");
    assert_eq!(err_of("[1 2]"), "expected ',' or ']' got Some(50)");
}

#[test]
fn trailing_comma_is_rejected() {
    assert_eq!(err_of("[1,2,]"), "unexpected Some(93) at pos 5");
    assert_eq!(err_of(r#"{"a":1,}"#), "expected '\"' got Some(125) at pos 7");
    assert!(parse_nodes("[1,2]").is_ok());
    assert!(parse_nodes(r#"{"a":1}"#).is_ok());
}

#[test]
fn object_faults_name_what_was_found() {
    assert_eq!(err_of(r#"{"a" 1}"#), "expected ':' got Some(49) at pos 5");
    assert_eq!(err_of(r#"{"a":1 "b":2}"#), "expected ',' or '}' got Some(34)");
    assert_eq!(err_of("{1:2}"), "expected '\"' got Some(49) at pos 1");
    assert_eq!(err_of("{"), "expected '\"' got None at pos 1");
}

#[test]
fn nodes_read_before_a_fault_are_returned() {
    match parse_nodes("[1,2,x]") {
        Err((m, v)) => {
            assert_eq!(m, "unexpected Some(120) at pos 5");
            assert_eq!(v, vec![Node::BeginArray, num("1"), num("2")]);
        }
        Ok(v) => panic!("must fail, got {v:?}"),
    }
    match parse_nodes("[1e400,nul]") {
        Err((m, v)) => {
            assert!(m.contains("invalid literal"));
            assert_eq!(v, vec![Node::BeginArray, num("1e400")]);
        }
        Ok(v) => panic!("must fail, got {v:?}"),
    }
}

#[test]
fn duplicate_object_keys_are_all_reported_in_order() {
    let v = parse_nodes(r#"{"a":1,"b":2,"a":99}"#).unwrap();
    assert_eq!(
        v,
        vec![
            Node::BeginObject,
            key("a"),
            num("1"),
            key("b"),
            num("2"),
            key("a"),
            num("99"),
            Node::EndObject,
        ]
    );
}

#[test]
fn invalid_escape_is_rejected_not_silently_doubled() {
    assert_eq!(err_of(r#""a\qb""#), "invalid escape \\q at pos 3");
    assert_eq!(parse_nodes(r#""a\nb""#).unwrap(), vec![st("a\nb")]);
    assert_eq!(parse_nodes(r#""a\\b""#).unwrap(), vec![st("a\\b")]);
    assert_eq!(parse_nodes(r#""a\"b""#).unwrap(), vec![st("a\"b")]);
    assert_eq!(parse_nodes(r#""a\/b\r\t""#).unwrap(), vec![st("a/b\r\t")]);
    assert_eq!(err_of("\"a\\"), "unterminated string: trailing backslash");
    assert_eq!(err_of("\"abc"), "unterminated string");
}

#[test]
fn unicode_escapes() {
    assert_eq!(parse_nodes(r#""\u00e9\u0041""#).unwrap(), vec![st("éA")]);
    assert_eq!(parse_nodes(r#""\u+041""#).unwrap(), vec![st("A")]);
    assert_eq!(err_of(r#""\u12""#), "bad \\u escape: 12\"0");
    assert_eq!(err_of(r#""\u-041""#), "bad \\u escape: -041");
    assert_eq!(err_of(r#""\uzzzz""#), "bad \\u escape: zzzz");
}

#[test]
fn unicode_surrogate_escape_becomes_replacement_char() {
    assert_eq!(parse_nodes(r#""\uD800""#).unwrap(), vec![st("\u{FFFD}")]);
    assert_eq!(parse_nodes("\"\\uD83D\\uDE00\"").unwrap(), vec![st("\u{FFFD}\u{FFFD}")]);
}

#[test]
fn multibyte_utf8_strings_roundtrip() {
    for original in ["日本語のテスト", "emoji 🎲 mix", "café résumé", "混在 ascii 123"] {
        let quoted = format!("\"{original}\"");
        assert_eq!(parse_nodes(&quoted).unwrap(), vec![st(original)]);
        let escaped = format!("\"{}\"", escape(original));
        assert_eq!(parse_nodes(&escaped).unwrap(), vec![st(original)]);
    }
    // UTF-8 keys and values of an object survive too.
    let doc = format!("{{\"{}\":\"{}\"}}", escape("名前"), escape("立方体 🧊"));
    assert_eq!(doc, "{\"名前\":\"立方体 🧊\"}");
    assert_eq!(
        parse_nodes(&doc).unwrap(),
        vec![Node::BeginObject, key("名前"), st("立方体 🧊"), Node::EndObject]
    );
}

#[test]
fn escape_then_parse_gives_the_text_back() {
    for t in [
        "",
        "plain",
        "quote \" and backslash \\",
        "key\twith\ttabs",
        "key\rwith\rCR",
        "line\nbreak",
        "bell \u{7} nul \u{0} esc \u{1b} us \u{1f}",
        "slash / é 🧊",
    ] {
        let doc = format!("\"{}\"", escape(t));
        assert_eq!(parse_nodes(&doc).unwrap(), vec![st(t)], "text {t:?}");
    }
}

#[test]
fn escape_writes_control_characters_as_short_or_hex_escapes() {
    assert_eq!(escape("a\"b\\c"), "a\\\"b\\\\c");
    assert_eq!(escape("\n\r\t"), "\\n\\r\\t");
    assert_eq!(escape("\u{1}\u{1f}\u{0}"), "\\u0001\\u001f\\u0000");
    assert_eq!(escape("é/🎲"), "é/🎲");
    let out = escape("key\twith\u{2}ctl\r");
    assert!(!out.chars().any(|c| (c as u32) < 0x20), "got {out:?}");
}

#[test]
fn utf8_sequence_lengths() {
    assert_eq!(utf8_seq_len(b'a'), 1);
    assert_eq!(utf8_seq_len(0xc3), 2);
    assert_eq!(utf8_seq_len(0xe6), 3);
    assert_eq!(utf8_seq_len(0xf0), 4);
    assert_eq!(utf8_seq_len(0x80), 1);
    assert_eq!(utf8_seq_len(0xff), 1);
}

#[test]
fn parser_cursor_steps() {
    let mut p = Parser::new("  x:");
    assert_eq!(p.peek(), Some(b' '));
    p.skip_ws();
    assert_eq!(p.peek(), Some(b'x'));
    p.advance();
    assert!(p.expect(b':').is_ok());
    assert_eq!(p.peek(), None);
    assert_eq!(p.expect(b','), Err("expected ',' got None at pos 4".to_string()));
    let mut q = Parser::new(" \"k\\u0041\" rest");
    assert_eq!(q.parse_string(), Ok("kA".to_string()));
    assert_eq!(q.peek(), Some(b' '));
}
