use json_text::{AccessError, Error, ErrorKind, FileType, JsonLexer, JsonParser, JsonValue, JSON};

fn num(x: f64) -> JsonValue {
    JsonValue::Number(x.to_string())
}

fn text(s: &str) -> JsonValue {
    JsonValue::String(s.to_string())
}

fn number_of(t: &str) -> f64 {
    t.parse::<f64>().unwrap()
}

/// Equality of value trees with numbers compared as floats and members in any order.
fn same(a: &JsonValue, b: &JsonValue) -> bool {
    match (a, b) {
        (JsonValue::Null, JsonValue::Null) => true,
        (JsonValue::Boolean(x), JsonValue::Boolean(y)) => x == y,
        (JsonValue::String(x), JsonValue::String(y)) => x == y,
        (JsonValue::Number(x), JsonValue::Number(y)) => number_of(x) == number_of(y),
        (JsonValue::Array(x), JsonValue::Array(y)) => {
            x.len() == y.len() && x.iter().zip(y.iter()).all(|(p, q)| same(p, q))
        },
        (JsonValue::Object(x), JsonValue::Object(y)) => {
            x.len() == y.len()
                && x.iter().all(|(k, v)| y.iter().any(|(k2, v2)| k == k2 && same(v, v2)))
        },
        _ => false,
    }
}

fn parse(s: &str) -> JsonValue {
    JSON::parse(s.to_string()).unwrap()
}

fn fault(s: &str) -> (ErrorKind, usize) {
    let e = JSON::parse(s.to_string()).unwrap_err();
    (e.kind, e.index)
}

fn strip(s: &str) -> String {
    s.chars().filter(|c| !c.is_whitespace()).collect()
}

#[test]
fn json_parse_null() {
    let result = parse("null");
    assert_eq!(result, JsonValue::Null);
}

#[test]
fn json_parse_boolean() {
    let result = parse("true");
    assert_eq!(result, JsonValue::Boolean(true));
    let result = parse("false");
    assert_eq!(result, JsonValue::Boolean(false));
}

#[test]
fn json_parse_number() {
    let result = parse("123");
    assert!(same(&result, &num(123.0)));
    let result = parse("-123.456e+3");
    assert!(same(&result, &num(-123456.0)));
}

#[test]
fn json_parse_string() {
    let result = parse(r#""hello""#);
    assert_eq!(result, text(r#"hello"#));
    let result = parse(r#""hello\\ world""#);
    assert_eq!(result, text(r#"hello\ world"#));
}

#[test]
fn json_parse_array() {
    let result = parse("[null,true,123,\"hello\"]");
    let expected = JsonValue::Array(vec![
        JsonValue::Null,
        JsonValue::Boolean(true),
        num(123.0),
        text("hello"),
    ]);
    assert!(same(&result, &expected));
    let result = parse("[42,[true],\"a\"]");
    let expected = JsonValue::Array(vec![
        num(42.0),
        JsonValue::Array(vec![JsonValue::Boolean(true)]),
        text("a"),
    ]);
    assert!(same(&result, &expected));
}

#[test]
fn json_parse_object() {
    let result = parse(r#"{"a":null,"b":true,"c":123,"d":"hello"}"#);
    let expected = JsonValue::Object(vec![
        ("a".to_string(), JsonValue::Null),
        ("b".to_string(), JsonValue::Boolean(true)),
        ("c".to_string(), num(123.0)),
        ("d".to_string(), text("hello")),
    ]);
    assert!(same(&result, &expected));
    let result = parse(r#"{"a":42,"b":[true],"c":"a"}"#);
    let expected = JsonValue::Object(vec![
        ("a".to_string(), num(42.0)),
        ("b".to_string(), JsonValue::Array(vec![JsonValue::Boolean(true)])),
        ("c".to_string(), text("a")),
    ]);
    assert!(same(&result, &expected));
}

#[test]
fn json_stringify_null() {
    let result = JSON::stringify(JsonValue::Null, 0);
    assert_eq!(result, "null");
}

#[test]
fn json_stringify_boolean() {
    let result = JSON::stringify(JsonValue::Boolean(true), 0);
    assert_eq!(result, "true");
    let result = JSON::stringify(JsonValue::Boolean(false), 0);
    assert_eq!(result, "false");
}

#[test]
fn json_stringify_number() {
    let result = JSON::stringify(num(123.0), 0);
    assert_eq!(result, "123");
    let result = JSON::stringify(num(-123.456), 0);
    assert_eq!(result, "-123.456");
}

#[test]
fn json_stringify_string() {
    let result = JSON::stringify(text("hello"), 0);
    assert_eq!(result, "\"hello\"");
    let result = JSON::stringify(text("hello\\ world\n"), 0);
    assert_eq!(result, "\"hello\\\\ world\\n\"");
}

#[test]
fn json_stringify_array() {
    let result = JSON::stringify(
        JsonValue::Array(vec![
            JsonValue::Null,
            JsonValue::Boolean(true),
            num(123.0),
            text("hello"),
        ]),
        0,
    );
    assert_eq!(result, "[null,true,123,\"hello\"]");
    let result = JSON::stringify(
        JsonValue::Array(vec![
            num(42.0),
            JsonValue::Array(vec![JsonValue::Boolean(true)]),
            text("a"),
        ]),
        0,
    );
    assert_eq!(result, "[42,[true],\"a\"]");
}

#[test]
fn json_stringify_object_keeps_member_order() {
    let v = parse(r#"{"a":null,"b":true,"c":123,"d":"hello"}"#);
    assert_eq!(JSON::stringify(v, 0), r#"{"a":null,"b":true,"c":123,"d":"hello"}"#);
    let v = parse(r#"{"a":42,"b":[true],"c":"a"}"#);
    assert_eq!(JSON::stringify(v, 0), r#"{"a":42,"b":[true],"c":"a"}"#);
}

#[test]
fn scalars_round_trip() {
    for v in [JsonValue::Null, JsonValue::Boolean(true), JsonValue::Boolean(false), num(1.5), num(-0.25), num(7.0)] {
        let s = JSON::stringify(
            match &v {
                JsonValue::Number(t) => JsonValue::Number(t.clone()),
                JsonValue::Boolean(b) => JsonValue::Boolean(*b),
                _ => JsonValue::Null,
            },
            0,
        );
        assert_eq!(parse(&s), v);
    }
}

#[test]
fn compact_stringify_is_exact() {
    let v = parse("[null,true,123,\"hello\"]");
    assert_eq!(JSON::stringify(v, 0), "[null,true,123,\"hello\"]");
}

#[test]
fn nested_structures() {
    let v = parse("[42,[true],\"a\"]");
    let expected = JsonValue::Array(vec![
        num(42.0),
        JsonValue::Array(vec![JsonValue::Boolean(true)]),
        text("a"),
    ]);
    assert!(same(&v, &expected));
}

#[test]
fn duplicate_key_is_rejected_at_second_key() {
    assert_eq!(fault("{\"a\":1,\"a\":2}"), (ErrorKind::DuplicateKey, 7));
}

#[test]
fn escapes_are_decoded_and_written() {
    assert_eq!(parse("\"hello\\\\ world\""), text("hello\\ world"));
    assert_eq!(parse(r#""a\"b\/c\b\f\n\r\t""#), text("a\"b/c\u{8}\u{c}\n\r\t"));
    assert_eq!(JSON::stringify(text("line\n"), 0), "\"line\\n\"");
    assert_eq!(JSON::stringify(text("a/b\"c\u{8}\u{c}\r\t"), 0), "\"a\\/b\\\"c\\b\\f\\r\\t\"");
}

#[test]
fn formatting_modes_differ_only_in_white_space() {
    let v = || parse(r#"{"k":[1,{"x":null},[]],"e":{},"s":"t"}"#);
    let compact = JSON::stringify(v(), 0);
    assert_eq!(strip(&JSON::stringify(v(), 1)), compact);
    assert_eq!(strip(&JSON::stringify(v(), 2)), compact);
}

#[test]
fn spaced_and_indented_output() {
    let v = || parse("[1,[true],{\"a\":null}]");
    assert_eq!(JSON::stringify(v(), 1), "[ 1, [ true ], { \"a\": null } ]");
    assert_eq!(
        JSON::stringify(v(), 2),
        "[\n  1,\n  [\n    true\n  ],\n  {\n    \"a\": null\n  }\n]"
    );
    assert_eq!(JSON::stringify(parse("[]"), 2), "[]");
    assert_eq!(JSON::stringify(parse("{}"), 1), "{}");
}

#[test]
fn indexing_faults() {
    let n = num(3.0);
    assert_eq!(n.index(0).unwrap_err(), AccessError::TypeMismatch);
    assert_eq!(n.index_key("a").unwrap_err(), AccessError::TypeMismatch);
    let a = parse("[1,2]");
    assert_eq!(a.index(2).unwrap_err(), AccessError::IndexOutOfBounds);
    assert!(same(a.index(1).unwrap(), &num(2.0)));
    let o = parse(r#"{"a":true}"#);
    assert_eq!(o.index_key("b").unwrap_err(), AccessError::KeyNotFound);
    assert_eq!(*o.index_key("a").unwrap(), JsonValue::Boolean(true));
    assert_eq!(o.index(0).unwrap_err(), AccessError::TypeMismatch);
}

#[test]
fn numeric_edge_cases() {
    assert!(same(&parse("-123.456e+3"), &num(-123456.0)));
    assert!(same(&parse("1E-3"), &num(0.001)));
    assert!(same(&parse("1e10"), &num(1e10)));
    assert_eq!(parse("-0"), JsonValue::Number("-0".to_string()));
    assert_eq!(fault("1.2.3"), (ErrorKind::InvalidNumber, 0));
    assert_eq!(fault("[1,-]"), (ErrorKind::InvalidNumber, 3));
    assert_eq!(fault("1e"), (ErrorKind::InvalidNumber, 0));
}

#[test]
fn lexical_faults() {
    assert_eq!(fault(r#""\q""#), (ErrorKind::InvalidEscape, 2));
    assert_eq!(fault("\"abc"), (ErrorKind::UnexpectedEof, 4));
    assert_eq!(fault("\"ab\\"), (ErrorKind::UnexpectedEof, 4));
    assert_eq!(fault("nul"), (ErrorKind::UnexpectedToken, 0));
    assert_eq!(fault("@"), (ErrorKind::UnexpectedToken, 0));
    assert_eq!(fault("[true, x]"), (ErrorKind::UnexpectedToken, 7));
}

#[test]
fn unicode_escapes() {
    assert_eq!(parse("\"\\u0041\\u00e9\""), text("A\u{e9}"));
    assert_eq!(parse("\"x\\uD83D\\uDE00y\""), text("x\u{1F600}y"));
    assert_eq!(fault("\"\\uDC00\""), (ErrorKind::InvalidEscape, 2));
    assert_eq!(fault("\"\\uD800x\""), (ErrorKind::InvalidEscape, 2));
    assert_eq!(fault("\"\\uD800\\u0041\""), (ErrorKind::InvalidEscape, 8));
    assert_eq!(fault("\"\\u12g4\""), (ErrorKind::InvalidEscape, 2));
    assert_eq!(fault("\"\\u12"), (ErrorKind::UnexpectedEof, 5));
}

#[test]
fn grammar_faults() {
    assert_eq!(fault(""), (ErrorKind::UnexpectedEof, 0));
    assert_eq!(fault("[1,2"), (ErrorKind::UnexpectedEof, 4));
    assert_eq!(fault("{\"a\":1"), (ErrorKind::UnexpectedEof, 6));
    assert_eq!(fault("{\"a\" 1}"), (ErrorKind::ExpectedColon, 5));
    assert_eq!(fault("{\"a\":1 2}"), (ErrorKind::ExpectedCommaOrBrace, 7));
    assert_eq!(fault("[1 2]"), (ErrorKind::ExpectedCommaOrBracket, 3));
    assert_eq!(fault("[,1]"), (ErrorKind::ExpectedValue, 1));
    assert_eq!(fault("{1:2}"), (ErrorKind::UnexpectedToken, 1));
    assert_eq!(fault("]"), (ErrorKind::UnexpectedToken, 0));
    assert_eq!(fault("true false"), (ErrorKind::UnexpectedToken, 5));
}

#[test]
fn surrounding_white_space_is_trimmed() {
    assert_eq!(parse(" \n\t null \r\n"), JsonValue::Null);
    assert_eq!(fault("  [1,2"), (ErrorKind::UnexpectedEof, 4));
    assert_eq!(parse("[ 1 ,\n 2 ]").index(1).map(|v| same(v, &num(2.0))), Ok(true));
}

#[test]
fn fault_description() {
    let e = JSON::parse("[1 2]".to_string()).unwrap_err();
    assert_eq!(e.describe(), "ERROR: Expected ',' or ']' in JSON at index 3");
    let e = JSON::parse("[1,2,3,4,5 6]".to_string()).unwrap_err();
    assert_eq!(e.describe(), "ERROR: Expected ',' or ']' in JSON at index 11");
    assert_eq!(e.filetype.name(), "JSON");
}

#[test]
fn lexer_and_parser_directly() {
    let mut lexer = JsonLexer::new("  [true, \"a\"] ".to_string());
    assert_eq!(lexer.current(), Some('['));
    assert_eq!(lexer.advance(), Some('t'));
    lexer.index = 0;
    let tokens = lexer.lex().unwrap();
    assert_eq!(tokens.len(), 5);
    let mut parser = JsonParser::new("{\"k\": [null]}".to_string());
    let v = parser.parse().unwrap();
    assert_eq!(*v.index_key("k").unwrap().index(0).unwrap(), JsonValue::Null);
    let e = Error::json(ErrorKind::DuplicateKey, "m".to_string(), 4);
    assert_eq!((e.kind, e.index, e.filetype), (ErrorKind::DuplicateKey, 4, FileType::JSON));
}

fn message(s: &str) -> (ErrorKind, usize, String) {
    let e = JSON::parse(s.to_string()).unwrap_err();
    (e.kind, e.index, e.message)
}

#[test]
fn fault_messages_quote_the_offending_text() {
    assert_eq!(message("[truex]"), (ErrorKind::UnexpectedToken, 1, "Unexpected 'truex'".to_string()));
    assert_eq!(message("--2"), (ErrorKind::InvalidNumber, 0, "Invalid number '--2'".to_string()));
    assert_eq!(message("@"), (ErrorKind::UnexpectedToken, 0, "Unexpected '@'".to_string()));
    assert_eq!(message("  [\"é\",@]"), (ErrorKind::UnexpectedToken, 5, "Unexpected '@'".to_string()));
    assert_eq!(
        message(r#""\q""#),
        (ErrorKind::InvalidEscape, 2, "Invalid escape sequence '\\q'".to_string())
    );
    assert_eq!(
        message("\"\\uDC00\""),
        (ErrorKind::InvalidEscape, 2, "Invalid escape sequence '\\u'".to_string())
    );
    assert_eq!(
        message("{\"a\":1,\"a\":2}"),
        (ErrorKind::DuplicateKey, 7, "Duplicate key 'a'".to_string())
    );
    assert_eq!(message("]"), (ErrorKind::UnexpectedToken, 0, "Unexpected ']'".to_string()));
    assert_eq!(message("{1:2}"), (ErrorKind::UnexpectedToken, 1, "Expected string".to_string()));
    assert_eq!(
        message("true false"),
        (ErrorKind::UnexpectedToken, 5, "Unexpected content after the value".to_string())
    );
    assert_eq!(message("\"abc"), (ErrorKind::UnexpectedEof, 4, "Unexpected end of string".to_string()));
    assert_eq!(message("[1,2"), (ErrorKind::UnexpectedEof, 4, "Unexpected end of input".to_string()));
    assert_eq!(message("{\"a\" 1}"), (ErrorKind::ExpectedColon, 5, "Expected ':'".to_string()));
    assert_eq!(message("[,1]"), (ErrorKind::ExpectedValue, 1, "Expected a value".to_string()));
    assert_eq!(
        message("{\"a\":1 2}"),
        (ErrorKind::ExpectedCommaOrBrace, 7, "Expected ',' or '}'".to_string())
    );
    let e = JSON::parse("[truex]".to_string()).unwrap_err();
    assert_eq!(e.describe(), "ERROR: Unexpected 'truex' in JSON at index 1");
}

#[test]
fn number_fault_leaves_index_after_the_run() {
    let mut lexer = JsonLexer::new("--2]".to_string());
    let e = lexer.make_number().unwrap_err();
    assert_eq!((e.kind, e.index, e.message.as_str()), (ErrorKind::InvalidNumber, 0, "Invalid number '--2'"));
    assert_eq!(lexer.index, 3);
    let mut lexer = JsonLexer::new("truex".to_string());
    let e = lexer.make_keyword().unwrap_err();
    assert_eq!(e.message, "Unexpected 'truex'");
    assert_eq!(lexer.index, 5);
}

#[test]
fn first_member_of_a_repeated_key_is_found() {
    let o = JsonValue::Object(vec![
        ("a".to_string(), JsonValue::Boolean(true)),
        ("a".to_string(), JsonValue::Boolean(false)),
    ]);
    assert_eq!(*o.index_key("a").unwrap(), JsonValue::Boolean(true));
}
