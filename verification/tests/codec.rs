//! The value codec: rendering, parsing, and the round trip.

use miio_core::parser::{json_str_to_vec, parse, parse_string, Value};

fn round_trips(v: Value) {
    let text = v.render();
    let parsed = parse(&text).expect("canonical text must parse");
    assert_eq!(parsed.len(), 1);
    assert_eq!(parsed[0], v);
}

#[test]
fn render_integer() {
    assert_eq!(Value::Integer(42).render(), "42");
    assert_eq!(Value::Integer(0).render(), "0");
    assert_eq!(Value::Integer(4294967295).render(), "4294967295");
}

#[test]
fn render_boolean() {
    assert_eq!(Value::Boolean(true).render(), "true");
    assert_eq!(Value::Boolean(false).render(), "false");
}

#[test]
fn render_string_escapes() {
    assert_eq!(Value::String("a\nb".to_string()).render(), "\"a\\nb\"");
    assert_eq!(Value::String("t\ta".to_string()).render(), "\"t\\ta\"");
    assert_eq!(Value::String("q\"w".to_string()).render(), "\"q\\\"w\"");
    assert_eq!(Value::String("b\\s".to_string()).render(), "\"b\\\\s\"");
    assert_eq!(Value::String(String::new()).render(), "\"\"");
}

#[test]
fn parse_mixed_literals() {
    let parsed = parse("true 42 \"hello\\nworld\"").expect("well-formed input");
    assert_eq!(
        parsed,
        vec![
            Value::Boolean(true),
            Value::Integer(42),
            Value::String("hello\nworld".to_string()),
        ]
    );
}

#[test]
fn parse_empty_input() {
    assert_eq!(parse(""), Some(vec![]));
    assert_eq!(parse("   \t "), Some(vec![]));
}

#[test]
fn parse_rejects_overflow() {
    assert_eq!(parse("4294967295"), Some(vec![Value::Integer(4294967295)]));
    assert_eq!(parse("4294967296"), None);
}

#[test]
fn parse_rejects_bad_tokens() {
    assert_eq!(parse("tru"), None);
    assert_eq!(parse("12a"), None);
    assert_eq!(parse("\"unterminated"), None);
    assert_eq!(parse("1 2 oops"), None);
    assert_eq!(parse("truefalse"), None);
}

#[test]
fn parse_requires_separation() {
    assert_eq!(parse("\"a\"\"b\""), None);
    assert_eq!(parse("\"a\" \"b\""), Some(vec![
        Value::String("a".to_string()),
        Value::String("b".to_string()),
    ]));
}

#[test]
fn parse_permissive_unescape() {
    // an unrecognized escape drops the backslash and keeps the character
    assert_eq!(parse("\"a\\qb\""), Some(vec![Value::String("aqb".to_string())]));
}

#[test]
fn parse_string_strips_and_unescapes() {
    assert_eq!(parse_string("\"x\\ty\""), "x\ty");
    assert_eq!(parse_string("\"plain\""), "plain");
    assert_eq!(parse_string("\"a\\\\b\""), "a\\b");
}

#[test]
fn round_trip_integers() {
    round_trips(Value::Integer(0));
    round_trips(Value::Integer(7));
    round_trips(Value::Integer(1000000));
    round_trips(Value::Integer(4294967295));
}

#[test]
fn round_trip_booleans() {
    round_trips(Value::Boolean(true));
    round_trips(Value::Boolean(false));
}

#[test]
fn round_trip_strings() {
    round_trips(Value::String(String::new()));
    round_trips(Value::String("plain".to_string()));
    round_trips(Value::String("with space".to_string()));
    round_trips(Value::String("a\"b\\c\nd\te".to_string()));
    round_trips(Value::String("héllo wörld".to_string()));
    round_trips(Value::String("\\".to_string()));
}

#[test]
fn json_list_decodes() {
    let v = json_str_to_vec("[\"a\",\"b c\"]").expect("a JSON array of strings");
    assert_eq!(v, vec!["a".to_string(), "b c".to_string()]);
}

#[test]
fn json_list_rejects_other_shapes() {
    assert!(json_str_to_vec("not json").is_err());
    assert!(json_str_to_vec("{\"a\":1}").is_err());
    assert!(json_str_to_vec("[1,2]").is_err());
}
