use json_reordering::json::{is_well_formed, JsonValue};
use json_reordering::json_text::{json_line, json_lines, parse_json_value, parse_jsonl, JsonlError};
use json_reordering::number::JsonNumber;

fn num(s: &str) -> JsonValue {
    let v = parse_json_value(s).unwrap();
    assert!(matches!(v, JsonValue::Number(_)));
    v
}

fn number_text(v: &JsonValue) -> String {
    match v {
        JsonValue::Number(n) => n.to_text(),
        _ => panic!("not a number"),
    }
}

fn text(s: &str) -> JsonValue {
    JsonValue::Str(s.to_string())
}

fn obj(members: Vec<(&str, JsonValue)>) -> JsonValue {
    JsonValue::Object(members.into_iter().map(|(k, v)| (k.to_string(), v)).collect())
}

#[test]
fn parses_nested_values_keeping_member_order() {
    let v = parse_json_value(r#" {"z": [1, true, null], "a": {"y": "s", "b": -2.5}} "#).unwrap();
    assert_eq!(
        v,
        obj(vec![
            ("z", JsonValue::Array(vec![num("1"), JsonValue::Bool(true), JsonValue::Null])),
            ("a", obj(vec![("y", text("s")), ("b", num("-2.5"))])),
        ])
    );
    assert!(is_well_formed(&v));
}

#[test]
fn numbers_keep_the_text_serde_json_writes() {
    assert_eq!(number_text(&parse_json_value("1e3").unwrap()), "1000.0");
    assert_eq!(number_text(&parse_json_value("-0").unwrap()), "-0.0");
    assert_eq!(number_text(&parse_json_value("12345678901234567890").unwrap()), "12345678901234567890");
    assert_eq!(number_text(&parse_json_value("-42").unwrap()), "-42");
    assert_eq!(parse_json_value("-42").unwrap(), JsonValue::Number(JsonNumber::from_i64(-42)));
    assert_eq!(parse_json_value("7").unwrap(), JsonValue::Number(JsonNumber::from_u64(7)));
}

#[test]
fn strings_are_unescaped() {
    assert_eq!(parse_json_value(r#""a\nb\u00e9""#).unwrap(), text("a\nb\u{e9}"));
}

#[test]
fn a_repeated_key_keeps_its_place_and_the_last_value() {
    let v = parse_json_value(r#"{"a": 1, "b": 2, "a": 3}"#).unwrap();
    assert_eq!(v, obj(vec![("a", num("3")), ("b", num("2"))]));
    assert!(is_well_formed(&v));
}

#[test]
fn text_that_is_not_one_json_value_is_refused() {
    assert!(parse_json_value("").is_err());
    assert!(parse_json_value("{\"a\":}").is_err());
    assert!(parse_json_value("1 2").is_err());
}

#[test]
fn jsonl_gives_one_value_per_record() {
    let data = b"{\"a\":1}\n\n  [2, 3]  \r\n\"x\"\n";
    let values = parse_jsonl(data).unwrap();
    assert_eq!(
        values,
        vec![obj(vec![("a", num("1"))]), JsonValue::Array(vec![num("2"), num("3")]), text("x")]
    );
    assert_eq!(parse_jsonl(b"").unwrap(), Vec::<JsonValue>::new());
}

#[test]
fn jsonl_refuses_bytes_that_are_not_utf8() {
    assert!(matches!(parse_jsonl(b"{\"a\":1}\n\xff\n"), Err(JsonlError::NotUtf8)));
    assert!(matches!(parse_jsonl(b"{\"a\":1}\n\xff"), Err(JsonlError::NotUtf8)));
}

#[test]
fn jsonl_names_the_first_record_that_is_not_json() {
    match parse_jsonl(b"{\"a\":1}\n\n{oops}\nnot json either\n") {
        Err(JsonlError::InvalidJson { record, error }) => {
            assert_eq!(record, 1);
            assert!(error.is_syntax());
        }
        other => panic!("unexpected result: {:?}", other.map(|v| v.len())),
    }
}

#[test]
fn values_are_written_as_compact_json_in_member_order() {
    let v = obj(vec![
        ("b", num("1")),
        ("a", JsonValue::Array(vec![JsonValue::Bool(true), JsonValue::Null, text("x\"y\n")])),
        ("c", obj(vec![])),
    ]);
    let line = json_line(&v);
    assert_eq!(String::from_utf8(line).unwrap(), r#"{"b":1,"a":[true,null,"x\"y\n"],"c":{}}"#);
}

#[test]
fn numbers_are_written_as_read() {
    assert_eq!(json_line(&num("1e3")), b"1000.0".to_vec());
    assert_eq!(json_line(&num("-7")), b"-7".to_vec());
    assert_eq!(json_line(&num("0.5")), b"0.5".to_vec());
    assert_eq!(json_line(&JsonValue::Number(JsonNumber::from_i64(-9))), b"-9".to_vec());
    assert_eq!(json_line(&JsonValue::Number(JsonNumber::from_u64(u64::MAX))), b"18446744073709551615".to_vec());
}

#[test]
fn floats_are_written_exactly_as_serde_json_writes_the_value_read() {
    for text in ["0.1", "2.2250738585072014e-308", "1.7976931348623157e308", "-123.456e-7", "9007199254740993", "0.30000000000000004"] {
        let read: serde_json::Value = serde_json::from_str(text).unwrap();
        assert_eq!(json_line(&num(text)), serde_json::to_vec(&read).unwrap());
    }
}

#[test]
fn lines_are_written_one_per_value() {
    let lines = json_lines(&[num("1"), text("a"), JsonValue::Null]);
    assert_eq!(lines, vec![b"1".to_vec(), b"\"a\"".to_vec(), b"null".to_vec()]);
}

#[test]
fn a_parsed_line_is_written_back_compactly() {
    let v = parse_json_value(r#" { "k" : [ 1 , 2.50 , "s" ] , "e" : false } "#).unwrap();
    assert_eq!(json_line(&v), br#"{"k":[1,2.5,"s"],"e":false}"#.to_vec());
}

#[test]
fn jsonl_reports_the_error_of_the_first_bad_line() {
    match parse_jsonl(b"{oops}\n\xff\n") {
        Err(JsonlError::InvalidJson { record, .. }) => assert_eq!(record, 0),
        other => panic!("unexpected result: {:?}", other.map(|v| v.len())),
    }
    assert!(matches!(parse_jsonl(b"1\n\xfe\n{oops}\n"), Err(JsonlError::NotUtf8)));
}

#[test]
fn jsonl_takes_a_last_line_without_newline_and_crlf_endings() {
    let values = parse_jsonl(b"1\r\n\r\n 2").unwrap();
    assert_eq!(values, vec![num("1"), num("2")]);
}
