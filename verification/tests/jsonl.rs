use json_reordering::json::JsonValue;
use json_reordering::json_text::{json_lines, parse_jsonl};
use json_reordering::jsonl::write_jsonl;

fn text(s: &str) -> JsonValue {
    JsonValue::Str(s.to_string())
}

#[test]
fn write_jsonl_frames_each_record() {
    let records = vec![b"{\"a\":1}".to_vec(), b"[]".to_vec()];
    assert_eq!(write_jsonl(&records), b"{\"a\":1}\n[]\n".to_vec());
    let none: Vec<Vec<u8>> = Vec::new();
    assert_eq!(write_jsonl(&none), Vec::<u8>::new());
}

#[test]
fn records_are_trimmed_and_blank_lines_skipped() {
    let values = parse_jsonl("  \"a\"  \r\n\n\t\n\"b\"".as_bytes()).unwrap();
    assert_eq!(values, vec![text("a"), text("b")]);
}

#[test]
fn records_handle_crlf_and_unicode_space() {
    assert_eq!(parse_jsonl(b"\"x\"\r\n").unwrap(), vec![text("x")]);
    assert_eq!(parse_jsonl("\u{3000}\"y\"\u{a0}\n".as_bytes()).unwrap(), vec![text("y")]);
    assert_eq!(parse_jsonl(b"").unwrap(), Vec::<JsonValue>::new());
    assert_eq!(parse_jsonl(b"\n\n").unwrap(), Vec::<JsonValue>::new());
}

#[test]
fn records_read_back_what_was_written() {
    let values = vec![text("k\nv"), JsonValue::Null, text("\u{e9}")];
    let written = write_jsonl(&json_lines(&values));
    assert_eq!(parse_jsonl(&written).unwrap(), values);
}

#[test]
fn records_are_trimmed_as_str_trim_trims() {
    let spaces: Vec<char> = (0u32..=0x3000).filter_map(char::from_u32).filter(|c| c.is_whitespace()).collect();
    assert_eq!(spaces.len(), 25);
    let line: String = spaces.iter().chain(['7'].iter()).chain(spaces.iter()).collect();
    assert_eq!(parse_jsonl(line.as_bytes()).unwrap().len(), 1);
    let kept = "\u{200b}1";
    assert!(parse_jsonl(kept.as_bytes()).is_err());
}
