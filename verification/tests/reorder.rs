use json_reordering::json::{is_well_formed, key_precedes, same_key, JsonValue};
use json_reordering::reorder::{
    object_in_order, preserve_keys_recursive, randomize_keys_recursive, sort_keys_recursive,
};
use rand::rngs::StdRng;
use rand::seq::SliceRandom;
use rand::{Rng, SeedableRng};

fn text(s: &str) -> JsonValue {
    JsonValue::Str(s.to_string())
}

fn num(s: &str) -> JsonValue {
    let v = json_reordering::json_text::parse_json_value(s).unwrap();
    assert!(matches!(v, JsonValue::Number(_)));
    v
}

fn obj(members: Vec<(&str, JsonValue)>) -> JsonValue {
    JsonValue::Object(members.into_iter().map(|(k, v)| (k.to_string(), v)).collect())
}

fn keys_of(v: &JsonValue) -> Vec<String> {
    match v {
        JsonValue::Object(m) => m.iter().map(|(k, _)| k.clone()).collect(),
        _ => panic!("not an object"),
    }
}

fn sample() -> JsonValue {
    obj(vec![
        ("b", num("1")),
        (
            "a",
            obj(vec![
                ("d", JsonValue::Array(vec![obj(vec![("z", num("1")), ("y", num("2"))])])),
                ("c", JsonValue::Null),
            ]),
        ),
    ])
}

#[test]
fn sort_keys_orders_every_level() {
    let sorted = sort_keys_recursive(&sample());
    let expected = obj(vec![
        (
            "a",
            obj(vec![
                ("c", JsonValue::Null),
                ("d", JsonValue::Array(vec![obj(vec![("y", num("2")), ("z", num("1"))])])),
            ]),
        ),
        ("b", num("1")),
    ]);
    assert_eq!(sorted, expected);
}

#[test]
fn sort_keys_compares_utf8_bytes() {
    let v = obj(vec![
        ("z", num("1")),
        ("\u{e9}", num("2")),
        ("a", num("3")),
        ("B", num("4")),
        ("ab", num("5")),
    ]);
    let sorted = sort_keys_recursive(&v);
    assert_eq!(keys_of(&sorted), vec!["B", "a", "ab", "z", "\u{e9}"]);
}

#[test]
fn sort_keys_leaves_scalars_alone() {
    assert_eq!(sort_keys_recursive(&text("x")), text("x"));
    assert_eq!(sort_keys_recursive(&num("-1.5e3")), num("-1.5e3"));
    assert_eq!(sort_keys_recursive(&JsonValue::Bool(true)), JsonValue::Bool(true));
    assert_eq!(sort_keys_recursive(&JsonValue::Null), JsonValue::Null);
}

#[test]
fn sort_keys_is_idempotent() {
    let once = sort_keys_recursive(&sample());
    let twice = sort_keys_recursive(&once);
    assert_eq!(once, twice);
}

#[test]
fn preserve_keys_gives_back_the_value() {
    let v = sample();
    assert_eq!(preserve_keys_recursive(&v), v);
    assert_eq!(keys_of(&preserve_keys_recursive(&v)), vec!["b", "a"]);
}

#[test]
fn randomize_keys_keeps_content() {
    let v = sample();
    let mut rng = StdRng::seed_from_u64(7);
    let shuffled = randomize_keys_recursive(&v, &mut rng);
    assert!(is_well_formed(&shuffled));
    assert_eq!(sort_keys_recursive(&shuffled), sort_keys_recursive(&v));
}

#[test]
fn randomize_keys_is_reproducible_from_the_seed() {
    let v = obj((0..20).map(|i| (["k0", "k1", "k2", "k3", "k4", "k5", "k6", "k7", "k8", "k9", "l0", "l1", "l2", "l3", "l4", "l5", "l6", "l7", "l8", "l9"][i], num("0"))).collect());
    let a = randomize_keys_recursive(&v, &mut StdRng::seed_from_u64(42));
    let b = randomize_keys_recursive(&v, &mut StdRng::seed_from_u64(42));
    assert_eq!(a, b);
}

#[test]
fn randomize_keys_shuffles_as_rand_shuffles_the_keys() {
    let names = ["alpha", "beta", "gamma", "delta", "epsilon", "zeta", "eta", "theta"];
    let v = obj(names.iter().map(|k| (*k, num("1"))).collect());
    let shuffled = randomize_keys_recursive(&v, &mut StdRng::seed_from_u64(42));
    let mut expected: Vec<&str> = names.to_vec();
    let mut rng = StdRng::seed_from_u64(42);
    expected.shuffle(&mut rng);
    assert_eq!(keys_of(&shuffled), expected);
}

#[test]
fn key_order_helpers() {
    assert!(key_precedes("a", "b"));
    assert!(key_precedes("a", "ab"));
    assert!(!key_precedes("ab", "a"));
    assert!(!key_precedes("a", "a"));
    assert!(key_precedes("Z", "a"));
    assert!(same_key("k", "k"));
    assert!(!same_key("k", "K"));
}

#[test]
fn well_formed_detects_repeated_keys() {
    assert!(is_well_formed(&sample()));
    let dup = obj(vec![("a", num("1")), ("a", num("2"))]);
    assert!(!is_well_formed(&dup));
    let nested = JsonValue::Array(vec![dup]);
    assert!(!is_well_formed(&nested));
}

#[test]
fn clone_copies_the_value() {
    let v = sample();
    assert_eq!(v.clone(), v);
}

#[test]
fn object_in_order_places_keys_by_position() {
    let members = vec![
        ("a".to_string(), num("1")),
        ("b".to_string(), num("2")),
        ("c".to_string(), num("3")),
    ];
    let order = vec![2usize, 0, 1];
    let values = vec![text("x"), text("y"), JsonValue::Null];
    let r = object_in_order(&members, &order, values);
    assert_eq!(r, obj(vec![("c", text("x")), ("a", text("y")), ("b", JsonValue::Null)]));
}

#[test]
fn object_in_order_of_no_positions_is_empty() {
    let members = vec![("a".to_string(), num("1"))];
    let r = object_in_order(&members, &Vec::new(), Vec::new());
    assert_eq!(r, JsonValue::Object(Vec::new()));
}

#[test]
fn randomize_keys_leaves_scalars_and_generator_alone() {
    let mut rng = StdRng::seed_from_u64(9);
    let v = num("5");
    assert_eq!(randomize_keys_recursive(&v, &mut rng), v);
    assert_eq!(randomize_keys_recursive(&text("s"), &mut rng), text("s"));
    let mut fresh = StdRng::seed_from_u64(9);
    assert_eq!(rng.gen::<u64>(), fresh.gen::<u64>());
}
