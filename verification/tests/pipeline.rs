use json_reordering::json::JsonValue;
use json_reordering::number::JsonNumber;
use json_reordering::pipeline::{benchmark_corpus, reorder_variants, size_change};
use json_reordering::reorder::sort_keys_recursive;

fn keys(v: &JsonValue) -> Vec<String> {
    match v {
        JsonValue::Object(m) => m.iter().map(|(k, _)| k.clone()).collect(),
        _ => panic!("not an object"),
    }
}

#[test]
fn benchmark_corpus_has_three_versions_of_each_record() {
    let c = benchmark_corpus(5, 42);
    assert_eq!(c.default_objects.len(), 5);
    assert_eq!(c.sorted_objects.len(), 5);
    assert_eq!(c.random_objects.len(), 5);
    for i in 0..5 {
        assert_eq!(keys(&c.default_objects[i])[0], "account_id");
        let mut k = keys(&c.sorted_objects[i]);
        let before = k.clone();
        k.sort();
        assert_eq!(k, before);
        assert_eq!(sort_keys_recursive(&c.random_objects[i]), c.sorted_objects[i]);
        assert_eq!(sort_keys_recursive(&c.default_objects[i]), c.sorted_objects[i]);
    }
}

#[test]
fn benchmark_corpus_is_deterministic() {
    let a = benchmark_corpus(4, 42);
    let b = benchmark_corpus(4, 42);
    assert_eq!(a.default_objects, b.default_objects);
    assert_eq!(a.random_objects, b.random_objects);
    let c = benchmark_corpus(4, 43);
    assert_ne!(a.default_objects, c.default_objects);
}

#[test]
fn reorder_variants_of_records() {
    let v = JsonValue::Object(vec![
        ("z".to_string(), JsonValue::Number(JsonNumber::from_u64(1))),
        ("a".to_string(), JsonValue::Array(vec![JsonValue::Null])),
    ]);
    let values = vec![v.clone(), JsonValue::Bool(false)];
    let r = reorder_variants(&values);
    assert_eq!(r.original, values);
    assert_eq!(keys(&r.sorted[0]), vec!["a".to_string(), "z".to_string()]);
    assert_eq!(r.sorted[1], JsonValue::Bool(false));
    assert_eq!(sort_keys_recursive(&r.random[0]), r.sorted[0]);
    assert_eq!(r.random[1], JsonValue::Bool(false));
}

#[test]
fn size_change_is_signed_difference() {
    assert_eq!(size_change(10, 25), -15);
    assert_eq!(size_change(25, 10), 15);
    assert_eq!(size_change(0, 0), 0);
}

#[test]
fn records_share_key_order_within_each_version() {
    let c = benchmark_corpus(6, 42);
    for i in 1..6 {
        assert_eq!(keys(&c.sorted_objects[i]), keys(&c.sorted_objects[0]));
        assert_eq!(keys(&c.default_objects[i]), keys(&c.default_objects[0]));
    }
}

#[test]
fn every_version_of_a_generated_record_is_written() {
    let corpus = benchmark_corpus(20, 5);
    for objects in [&corpus.default_objects, &corpus.sorted_objects, &corpus.random_objects] {
        let lines = json_reordering::json_text::json_lines(objects);
        assert_eq!(lines.len(), 20);
        for (line, object) in lines.iter().zip(objects.iter()) {
            let back = json_reordering::json_text::parse_json_value(std::str::from_utf8(line).unwrap());
            assert_eq!(&back.unwrap(), object);
        }
    }
}
