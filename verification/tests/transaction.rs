use json_reordering::json::JsonValue;
use json_reordering::number::JsonNumber;
use json_reordering::sorted_object::SortedObject;
use json_reordering::transaction::{
    generate_json_object, to_default_json, to_json_in_order, to_random_json, to_sorted_json,
    transaction_object,
    TransactionDraws,
};
use rand::rngs::StdRng;
use rand::{Rng, SeedableRng};

const SCHEMA: [&str; 15] = [
    "account_id",
    "timestamp",
    "user_email",
    "transaction_type",
    "amount_cents",
    "currency_code",
    "merchant_name",
    "merchant_category",
    "card_last_four",
    "authorization_code",
    "is_international",
    "processing_fee",
    "status",
    "ip_address",
    "user_agent",
];

fn members(v: &JsonValue) -> Vec<(String, JsonValue)> {
    match v {
        JsonValue::Object(m) => m.iter().map(|(k, v)| (k.clone(), v.clone())).collect(),
        _ => panic!("not an object"),
    }
}

fn get<'a>(m: &'a [(String, JsonValue)], k: &str) -> &'a JsonValue {
    &m.iter().find(|(key, _)| key == k).unwrap().1
}

fn str_of(v: &JsonValue) -> String {
    match v {
        JsonValue::Str(s) => s.clone(),
        JsonValue::Number(n) => n.to_text(),
        _ => panic!("not text"),
    }
}

fn draws() -> TransactionDraws {
    TransactionDraws {
        account_number: 0xbeef,
        month: 3,
        day: 9,
        hour: 0,
        minute: 5,
        second: 59,
        user_number: 1234,
        transaction_type: 1,
        amount_cents: 100,
        currency: 3,
        merchant: 5,
        merchant_category: 4,
        card_last_four: 42,
        authorization_code: 7,
        is_international: true,
        processing_fee: 0,
        status: 2,
        ip_first: 10,
        ip_second: 0,
        ip_third: 254,
        ip_fourth: 1,
        user_agent: 3,
    }
}

#[test]
fn record_values_follow_the_formats() {
    let obj = transaction_object(&draws());
    let m = members(&to_default_json(&obj));
    assert_eq!(str_of(get(&m, "account_id")), "acc_0000beef");
    assert_eq!(str_of(get(&m, "timestamp")), "2024-03-09T00:05:59Z");
    assert_eq!(str_of(get(&m, "user_email")), "user1234@example.com");
    assert_eq!(str_of(get(&m, "transaction_type")), "refund");
    assert_eq!(get(&m, "amount_cents"), &JsonValue::Number(JsonNumber::from_u64(100)));
    assert_eq!(str_of(get(&m, "currency_code")), "JPY");
    assert_eq!(str_of(get(&m, "merchant_name")), "Home Depot");
    assert_eq!(str_of(get(&m, "merchant_category")), "entertainment");
    assert_eq!(str_of(get(&m, "card_last_four")), "0042");
    assert_eq!(str_of(get(&m, "authorization_code")), "000007");
    assert_eq!(get(&m, "is_international"), &JsonValue::Bool(true));
    assert_eq!(get(&m, "processing_fee"), &JsonValue::Number(JsonNumber::from_u64(0)));
    assert_eq!(str_of(get(&m, "status")), "declined");
    assert_eq!(str_of(get(&m, "ip_address")), "10.0.254.1");
    assert_eq!(
        str_of(get(&m, "user_agent")),
        "Mozilla/5.0 (Linux; Android 14) Chrome/120.0.0.0 Mobile"
    );
}

#[test]
fn default_json_uses_schema_order() {
    let obj = transaction_object(&draws());
    let keys: Vec<String> = members(&to_default_json(&obj)).into_iter().map(|(k, _)| k).collect();
    assert_eq!(keys, SCHEMA.to_vec());
}

#[test]
fn sorted_json_uses_alphabetical_order() {
    let obj = transaction_object(&draws());
    let keys: Vec<String> = members(&to_sorted_json(&obj)).into_iter().map(|(k, _)| k).collect();
    let mut expected: Vec<String> = SCHEMA.iter().map(|k| k.to_string()).collect();
    expected.sort();
    assert_eq!(keys, expected);
}

#[test]
fn random_json_holds_the_same_members() {
    let obj = transaction_object(&draws());
    let mut random = members(&to_random_json(&obj, &mut StdRng::seed_from_u64(3)));
    let mut sorted = members(&to_sorted_json(&obj));
    random.sort_by(|a, b| a.0.cmp(&b.0));
    sorted.sort_by(|a, b| a.0.cmp(&b.0));
    assert_eq!(random, sorted);
}

/// The generator as the benchmark writes it, drawing straight from `rand`.
fn reference_record(rng: &mut StdRng) -> Vec<(String, JsonValue)> {
    let mut out = Vec::new();
    for key in SCHEMA {
        let value = match key {
            "account_id" => JsonValue::Str(format!("acc_{:08x}", rng.gen::<u32>())),
            "timestamp" => JsonValue::Str(format!(
                "2024-{:02}-{:02}T{:02}:{:02}:{:02}Z",
                rng.gen_range(1..=12),
                rng.gen_range(1..=28),
                rng.gen_range(0..24),
                rng.gen_range(0..60),
                rng.gen_range(0..60)
            )),
            "user_email" => JsonValue::Str(format!("user{}@example.com", rng.gen_range(1000..9999))),
            "transaction_type" => {
                let types = ["purchase", "refund", "withdrawal", "deposit", "transfer"];
                JsonValue::Str(types[rng.gen_range(0..types.len())].to_string())
            }
            "amount_cents" => JsonValue::Number(JsonNumber::from_u64(rng.gen_range(100i32..100000) as u64)),
            "currency_code" => {
                let c = ["USD", "EUR", "GBP", "JPY", "CAD"];
                JsonValue::Str(c[rng.gen_range(0..c.len())].to_string())
            }
            "merchant_name" => {
                let m = ["Amazon", "Walmart", "Target", "Best Buy", "Costco", "Home Depot", "Starbucks"];
                JsonValue::Str(m[rng.gen_range(0..m.len())].to_string())
            }
            "merchant_category" => {
                let c = ["retail", "grocery", "restaurant", "travel", "entertainment"];
                JsonValue::Str(c[rng.gen_range(0..c.len())].to_string())
            }
            "card_last_four" => JsonValue::Str(format!("{:04}", rng.gen_range(0..10000))),
            "authorization_code" => JsonValue::Str(format!("{:06}", rng.gen_range(0..1000000))),
            "is_international" => JsonValue::Bool(rng.gen_bool(0.1)),
            "processing_fee" => JsonValue::Number(JsonNumber::from_u64(rng.gen_range(0i32..500) as u64)),
            "status" => {
                let s = ["approved", "pending", "declined", "cancelled"];
                JsonValue::Str(s[rng.gen_range(0..s.len())].to_string())
            }
            "ip_address" => JsonValue::Str(format!(
                "{}.{}.{}.{}",
                rng.gen_range(1..255),
                rng.gen_range(0..255),
                rng.gen_range(0..255),
                rng.gen_range(1..255)
            )),
            _ => {
                let a = [
                    "Mozilla/5.0 (Windows NT 10.0; Win64; x64) Chrome/120.0.0.0",
                    "Mozilla/5.0 (Macintosh; Intel Mac OS X 10_15_7) Safari/605.1.15",
                    "Mozilla/5.0 (iPhone; CPU iPhone OS 17_0) Mobile/15E148",
                    "Mozilla/5.0 (Linux; Android 14) Chrome/120.0.0.0 Mobile",
                ];
                JsonValue::Str(a[rng.gen_range(0..a.len())].to_string())
            }
        };
        out.push((key.to_string(), value));
    }
    out
}

#[test]
fn generated_records_match_the_reference_generator() {
    let mut ours = StdRng::seed_from_u64(42);
    let mut reference = StdRng::seed_from_u64(42);
    for _ in 0..200 {
        let obj = generate_json_object(&mut ours);
        let expected = reference_record(&mut reference);
        assert_eq!(members(&to_default_json(&obj)), expected);
    }
}

#[test]
fn sorted_object_insert_replaces_and_orders() {
    let mut obj = SortedObject::new();
    assert_eq!(obj.insert("b".to_string(), JsonValue::Null), None);
    assert_eq!(obj.insert("a".to_string(), JsonValue::Bool(false)), None);
    assert_eq!(obj.insert("b".to_string(), JsonValue::Bool(true)), Some(JsonValue::Null));
    assert_eq!(obj.keys(), vec!["a".to_string(), "b".to_string()]);
    assert_eq!(obj.get("b"), Some(&JsonValue::Bool(true)));
    assert_eq!(obj.get("c"), None);
    assert_eq!(
        obj.to_object(),
        JsonValue::Object(vec![
            ("a".to_string(), JsonValue::Bool(false)),
            ("b".to_string(), JsonValue::Bool(true)),
        ])
    );
}

#[test]
fn json_in_order_takes_members_by_position() {
    let obj = transaction_object(&draws());
    let sorted = members(&to_sorted_json(&obj));
    let picked = members(&to_json_in_order(&obj, &vec![14, 0, 7]));
    assert_eq!(picked, vec![sorted[14].clone(), sorted[0].clone(), sorted[7].clone()]);
    assert_eq!(to_json_in_order(&obj, &Vec::new()), JsonValue::Object(Vec::new()));
}

#[test]
fn json_in_order_of_every_position_is_the_sorted_record() {
    let obj = transaction_object(&draws());
    let all: Vec<usize> = (0..15).collect();
    assert_eq!(to_json_in_order(&obj, &all), to_sorted_json(&obj));
}
