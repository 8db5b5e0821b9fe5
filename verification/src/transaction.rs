//! Synthetic payment-transaction records and the three key orders they are written in.
use vstd::prelude::*;
use rand::rngs::StdRng;
use crate::json::{
    Json, JsonValue, has_key, key_position, value_under, keys_distinct,
    members_model, lemma_ascending_distinct, lemma_value_under_member,
};
use crate::jsonl::string_texts;
use crate::number::JsonNumber;
use crate::sorted_object::SortedObject;
use crate::ordered_map::{
    index_map_entries, entries_have_key, ordered_map_new, ordered_map_insert,
    ordered_map_into_members,
};
use crate::random::{shuffle_positions, positions_up_to, holds_position, lemma_reordered_positions};
use crate::digits::{decimal, fixed_decimal, fixed_hex, push_decimal, push_fixed_decimal, push_fixed_hex};
use crate::random::{random_u32, random_i32_in, random_index, random_ratio};

verus! {

// ---------------------------------------------------------------------------
// The schema.
/// Default key ordering as defined in the schema.
pub open spec fn default_key_order() -> Seq<Seq<char>> {
    seq![
        "account_id"@,
        "timestamp"@,
        "user_email"@,
        "transaction_type"@,
        "amount_cents"@,
        "currency_code"@,
        "merchant_name"@,
        "merchant_category"@,
        "card_last_four"@,
        "authorization_code"@,
        "is_international"@,
        "processing_fee"@,
        "status"@,
        "ip_address"@,
        "user_agent"@,
    ]
}

/// The number of keys in the schema.
pub const KEY_COUNT: usize = 15;

/// The key at position `i` of the schema's order.
pub fn default_key(i: usize) -> (k: &'static str)
    requires
        i < KEY_COUNT,
    ensures
        k@ == default_key_order()[i as int],
{
    match i {
        0 => "account_id",
        1 => "timestamp",
        2 => "user_email",
        3 => "transaction_type",
        4 => "amount_cents",
        5 => "currency_code",
        6 => "merchant_name",
        7 => "merchant_category",
        8 => "card_last_four",
        9 => "authorization_code",
        10 => "is_international",
        11 => "processing_fee",
        12 => "status",
        13 => "ip_address",
        _ => "user_agent",
    }
}

/// The schema's keys are distinct.
pub proof fn lemma_default_keys_distinct()
    ensures
        default_key_order().len() == KEY_COUNT,
        forall|i: int, j: int|
            0 <= i < KEY_COUNT && 0 <= j < KEY_COUNT && i != j ==> default_key_order()[i]
                != default_key_order()[j],
{
    reveal_strlit("account_id");
    reveal_strlit("timestamp");
    reveal_strlit("user_email");
    reveal_strlit("transaction_type");
    reveal_strlit("amount_cents");
    reveal_strlit("currency_code");
    reveal_strlit("merchant_name");
    reveal_strlit("merchant_category");
    reveal_strlit("card_last_four");
    reveal_strlit("authorization_code");
    reveal_strlit("is_international");
    reveal_strlit("processing_fee");
    reveal_strlit("status");
    reveal_strlit("ip_address");
    reveal_strlit("user_agent");
    let k = default_key_order();
    assert forall|i: int, j: int|
        0 <= i < KEY_COUNT && 0 <= j < KEY_COUNT && i != j implies #[trigger] k[i] != #[trigger] k[j] by {
        assert(key_tag(k[i]) != key_tag(k[j]));
    }
}

/// A key's length with its first and sixth characters: enough to tell the schema's keys apart.
spec fn key_tag(key: Seq<char>) -> (nat, char, char) {
    (key.len(), key[0], key[5])
}

/// The transaction types a record can have.
pub open spec fn transaction_types() -> Seq<Seq<char>> {
    seq!["purchase"@, "refund"@, "withdrawal"@, "deposit"@, "transfer"@]
}

/// The currency codes a record can have.
pub open spec fn currencies() -> Seq<Seq<char>> {
    seq!["USD"@, "EUR"@, "GBP"@, "JPY"@, "CAD"@]
}

/// The merchant names a record can have.
pub open spec fn merchants() -> Seq<Seq<char>> {
    seq![
        "Amazon"@,
        "Walmart"@,
        "Target"@,
        "Best Buy"@,
        "Costco"@,
        "Home Depot"@,
        "Starbucks"@,
    ]
}

/// The merchant categories a record can have.
pub open spec fn merchant_categories() -> Seq<Seq<char>> {
    seq!["retail"@, "grocery"@, "restaurant"@, "travel"@, "entertainment"@]
}

/// The statuses a record can have.
pub open spec fn statuses() -> Seq<Seq<char>> {
    seq!["approved"@, "pending"@, "declined"@, "cancelled"@]
}

/// The user agents a record can have.
pub open spec fn user_agents() -> Seq<Seq<char>> {
    seq![
        "Mozilla/5.0 (Windows NT 10.0; Win64; x64) Chrome/120.0.0.0"@,
        "Mozilla/5.0 (Macintosh; Intel Mac OS X 10_15_7) Safari/605.1.15"@,
        "Mozilla/5.0 (iPhone; CPU iPhone OS 17_0) Mobile/15E148"@,
        "Mozilla/5.0 (Linux; Android 14) Chrome/120.0.0.0 Mobile"@,
    ]
}

/// The transaction type at position `i` of its list.
fn transaction_type_name(i: usize) -> (s: &'static str)
    requires
        i < 5,
    ensures
        s@ == transaction_types()[i as int],
{
    match i {
        0 => "purchase",
        1 => "refund",
        2 => "withdrawal",
        3 => "deposit",
        _ => "transfer",
    }
}

/// The currency code at position `i` of its list.
fn currency_name(i: usize) -> (s: &'static str)
    requires
        i < 5,
    ensures
        s@ == currencies()[i as int],
{
    match i {
        0 => "USD",
        1 => "EUR",
        2 => "GBP",
        3 => "JPY",
        _ => "CAD",
    }
}

/// The merchant name at position `i` of its list.
fn merchant_name(i: usize) -> (s: &'static str)
    requires
        i < 7,
    ensures
        s@ == merchants()[i as int],
{
    match i {
        0 => "Amazon",
        1 => "Walmart",
        2 => "Target",
        3 => "Best Buy",
        4 => "Costco",
        5 => "Home Depot",
        _ => "Starbucks",
    }
}

/// The merchant category at position `i` of its list.
fn merchant_category_name(i: usize) -> (s: &'static str)
    requires
        i < 5,
    ensures
        s@ == merchant_categories()[i as int],
{
    match i {
        0 => "retail",
        1 => "grocery",
        2 => "restaurant",
        3 => "travel",
        _ => "entertainment",
    }
}

/// The status at position `i` of its list.
fn status_name(i: usize) -> (s: &'static str)
    requires
        i < 4,
    ensures
        s@ == statuses()[i as int],
{
    match i {
        0 => "approved",
        1 => "pending",
        2 => "declined",
        _ => "cancelled",
    }
}

/// The user agent at position `i` of its list.
fn user_agent_name(i: usize) -> (s: &'static str)
    requires
        i < 4,
    ensures
        s@ == user_agents()[i as int],
{
    match i {
        0 => "Mozilla/5.0 (Windows NT 10.0; Win64; x64) Chrome/120.0.0.0",
        1 => "Mozilla/5.0 (Macintosh; Intel Mac OS X 10_15_7) Safari/605.1.15",
        2 => "Mozilla/5.0 (iPhone; CPU iPhone OS 17_0) Mobile/15E148",
        _ => "Mozilla/5.0 (Linux; Android 14) Chrome/120.0.0.0 Mobile",
    }
}

// ---------------------------------------------------------------------------
// Random draws and the record made of them.
/// The random numbers one record is made of, in the order they are drawn.
#[derive(Debug, Clone, Copy, PartialEq, Eq)]
pub struct TransactionDraws {
    pub account_number: u32,
    pub month: i32,
    pub day: i32,
    pub hour: i32,
    pub minute: i32,
    pub second: i32,
    pub user_number: i32,
    pub transaction_type: usize,
    pub amount_cents: i32,
    pub currency: usize,
    pub merchant: usize,
    pub merchant_category: usize,
    pub card_last_four: i32,
    pub authorization_code: i32,
    pub is_international: bool,
    pub processing_fee: i32,
    pub status: usize,
    pub ip_first: i32,
    pub ip_second: i32,
    pub ip_third: i32,
    pub ip_fourth: i32,
    pub user_agent: usize,
}

impl TransactionDraws {
    /// Every draw lies in the range it is drawn from.
    pub open spec fn in_range(&self) -> bool {
        &&& 1 <= self.month <= 12
        &&& 1 <= self.day <= 28
        &&& 0 <= self.hour < 24
        &&& 0 <= self.minute < 60
        &&& 0 <= self.second < 60
        &&& 1000 <= self.user_number < 9999
        &&& self.transaction_type < 5
        &&& 100 <= self.amount_cents < 100000
        &&& self.currency < 5
        &&& self.merchant < 7
        &&& self.merchant_category < 5
        &&& 0 <= self.card_last_four < 10000
        &&& 0 <= self.authorization_code < 1000000
        &&& 0 <= self.processing_fee < 500
        &&& self.status < 4
        &&& 1 <= self.ip_first < 255
        &&& 0 <= self.ip_second < 255
        &&& 0 <= self.ip_third < 255
        &&& 1 <= self.ip_fourth < 255
        &&& self.user_agent < 4
    }
}

/// The value of each schema key for the draws `d`, in the schema's order.
pub open spec fn transaction_values(d: TransactionDraws) -> Seq<Json> {
    seq![
        Json::Str("acc_"@ + fixed_hex(d.account_number as nat, 8)),
        Json::Str(
            "2024-"@ + fixed_decimal(d.month as nat, 2) + "-"@ + fixed_decimal(d.day as nat, 2)
                + "T"@ + fixed_decimal(d.hour as nat, 2) + ":"@ + fixed_decimal(d.minute as nat, 2)
                + ":"@ + fixed_decimal(d.second as nat, 2) + "Z"@,
        ),
        Json::Str("user"@ + decimal(d.user_number as nat) + "@example.com"@),
        Json::Str(transaction_types()[d.transaction_type as int]),
        Json::Number(decimal(d.amount_cents as nat)),
        Json::Str(currencies()[d.currency as int]),
        Json::Str(merchants()[d.merchant as int]),
        Json::Str(merchant_categories()[d.merchant_category as int]),
        Json::Str(fixed_decimal(d.card_last_four as nat, 4)),
        Json::Str(fixed_decimal(d.authorization_code as nat, 6)),
        Json::Bool(d.is_international),
        Json::Number(decimal(d.processing_fee as nat)),
        Json::Str(statuses()[d.status as int]),
        Json::Str(
            decimal(d.ip_first as nat) + "."@ + decimal(d.ip_second as nat) + "."@ + decimal(
                d.ip_third as nat,
            ) + "."@ + decimal(d.ip_fourth as nat),
        ),
        Json::Str(user_agents()[d.user_agent as int]),
    ]
}

/// The members of the record for the draws `d`, in the schema's order.
pub open spec fn transaction_members(d: TransactionDraws) -> Seq<(Seq<char>, Json)> {
    Seq::new(KEY_COUNT as nat, |i: int| (default_key_order()[i], transaction_values(d)[i]))
}

/// `a` and `b` hold the same members, each once (they are reorderings of each other).
pub open spec fn same_members(a: Seq<(Seq<char>, Json)>, b: Seq<(Seq<char>, Json)>) -> bool {
    &&& keys_distinct(a)
    &&& keys_distinct(b)
    &&& forall|i: int| 0 <= i < a.len() ==> b.contains(#[trigger] a[i])
    &&& forall|j: int| 0 <= j < b.len() ==> a.contains(#[trigger] b[j])
}

/// Draws the numbers of one record, in the order the record's fields are generated.
pub fn draw_transaction(rng: &mut StdRng) -> (d: TransactionDraws)
    ensures
        d.in_range(),
{
    let account_number = random_u32(rng);
    let month = random_i32_in(rng, 1, 13);
    let day = random_i32_in(rng, 1, 29);
    let hour = random_i32_in(rng, 0, 24);
    let minute = random_i32_in(rng, 0, 60);
    let second = random_i32_in(rng, 0, 60);
    let user_number = random_i32_in(rng, 1000, 9999);
    let transaction_type = random_index(rng, 5);
    let amount_cents = random_i32_in(rng, 100, 100000);
    let currency = random_index(rng, 5);
    let merchant = random_index(rng, 7);
    let merchant_category = random_index(rng, 5);
    let card_last_four = random_i32_in(rng, 0, 10000);
    let authorization_code = random_i32_in(rng, 0, 1000000);
    let is_international = random_ratio(rng, 1, 10);
    let processing_fee = random_i32_in(rng, 0, 500);
    let status = random_index(rng, 4);
    let ip_first = random_i32_in(rng, 1, 255);
    let ip_second = random_i32_in(rng, 0, 255);
    let ip_third = random_i32_in(rng, 0, 255);
    let ip_fourth = random_i32_in(rng, 1, 255);
    let user_agent = random_index(rng, 4);
    TransactionDraws {
        account_number,
        month,
        day,
        hour,
        minute,
        second,
        user_number,
        transaction_type,
        amount_cents,
        currency,
        merchant,
        merchant_category,
        card_last_four,
        authorization_code,
        is_international,
        processing_fee,
        status,
        ip_first,
        ip_second,
        ip_third,
        ip_fourth,
        user_agent,
    }
}

/// The value of the schema key at position `i` for the draws `d`.
fn transaction_value(d: &TransactionDraws, i: usize) -> (v: JsonValue)
    requires
        d.in_range(),
        i < KEY_COUNT,
    ensures
        v.model() == transaction_values(*d)[i as int],
{
    match i {
        0 => {
            let mut s = String::from_str("acc_");
            push_fixed_hex(&mut s, d.account_number, 8);
            JsonValue::Str(s)
        },
        1 => {
            let mut s = String::from_str("2024-");
            push_fixed_decimal(&mut s, d.month as u32, 2);
            s.append("-");
            push_fixed_decimal(&mut s, d.day as u32, 2);
            s.append("T");
            push_fixed_decimal(&mut s, d.hour as u32, 2);
            s.append(":");
            push_fixed_decimal(&mut s, d.minute as u32, 2);
            s.append(":");
            push_fixed_decimal(&mut s, d.second as u32, 2);
            s.append("Z");
            JsonValue::Str(s)
        },
        2 => {
            let mut s = String::from_str("user");
            push_decimal(&mut s, d.user_number as u32);
            s.append("@example.com");
            JsonValue::Str(s)
        },
        3 => JsonValue::Str(String::from_str(transaction_type_name(d.transaction_type))),
        4 => {
            JsonValue::Number(JsonNumber::from_u64(d.amount_cents as u64))
        },
        5 => JsonValue::Str(String::from_str(currency_name(d.currency))),
        6 => JsonValue::Str(String::from_str(merchant_name(d.merchant))),
        7 => JsonValue::Str(String::from_str(merchant_category_name(d.merchant_category))),
        8 => {
            let mut s = String::new();
            push_fixed_decimal(&mut s, d.card_last_four as u32, 4);
            JsonValue::Str(s)
        },
        9 => {
            let mut s = String::new();
            push_fixed_decimal(&mut s, d.authorization_code as u32, 6);
            JsonValue::Str(s)
        },
        10 => JsonValue::Bool(d.is_international),
        11 => {
            JsonValue::Number(JsonNumber::from_u64(d.processing_fee as u64))
        },
        12 => JsonValue::Str(String::from_str(status_name(d.status))),
        13 => {
            let mut s = String::new();
            push_decimal(&mut s, d.ip_first as u32);
            s.append(".");
            push_decimal(&mut s, d.ip_second as u32);
            s.append(".");
            push_decimal(&mut s, d.ip_third as u32);
            s.append(".");
            push_decimal(&mut s, d.ip_fourth as u32);
            JsonValue::Str(s)
        },
        _ => JsonValue::Str(String::from_str(user_agent_name(d.user_agent))),
    }
}

/// The record for the draws `d`: the schema's keys with their values, kept in ascending key
/// order.
pub fn transaction_object(d: &TransactionDraws) -> (obj: SortedObject)
    requires
        d.in_range(),
    ensures
        same_members(obj.model(), transaction_members(*d)),
{
    let ghost tm = transaction_members(*d);
    proof {
        lemma_default_keys_distinct();
    }
    let mut obj = SortedObject::new();
    for i in 0..KEY_COUNT
        invariant
            d.in_range(),
            tm == transaction_members(*d),
            forall|a: int, b: int|
                0 <= a < KEY_COUNT && 0 <= b < KEY_COUNT && a != b ==> default_key_order()[a]
                    != default_key_order()[b],
            forall|q: int|
                0 <= q < obj.model().len() ==> tm.take(i as int).contains(#[trigger] obj.model()[q]),
            forall|q: int| 0 <= q < i ==> obj.model().contains(#[trigger] tm[q]),
    {
        let value = transaction_value(d, i);
        let key = String::from_str(default_key(i));
        let ghost before = obj.model();
        proof {
            assert(tm[i as int] == (key@, value.model()));
            if has_key(before, key@) {
                let q = key_position(before, key@);
                assert(tm.take(i as int).contains(before[q]));
                let j = choose|j: int| 0 <= j < i && tm.take(i as int)[j] == before[q];
                assert(tm[j].0 == default_key_order()[j]);
            }
        }
        obj.insert(key, value);
        proof {
            let p = choose|p: int|
                0 <= p <= before.len() && obj.model() == before.insert(p, (key@, value.model()));
            let after = obj.model();
            assert forall|q: int| 0 <= q < after.len() implies tm.take(i + 1).contains(
                #[trigger] after[q],
            ) by {
                if q == p {
                    assert(tm.take(i + 1)[i as int] == tm[i as int]);
                } else {
                    let q0 = if q < p {
                        q
                    } else {
                        q - 1
                    };
                    assert(after[q] == before[q0]);
                    assert(tm.take(i as int).contains(before[q0]));
                    let j = choose|j: int| 0 <= j < i && tm.take(i as int)[j] == before[q0];
                    assert(tm.take(i + 1)[j] == tm.take(i as int)[j]);
                }
            }
            assert forall|q: int| 0 <= q < i + 1 implies after.contains(#[trigger] tm[q]) by {
                if q == i {
                    assert(after[p] == tm[q]);
                } else {
                    assert(before.contains(tm[q]));
                    let r = choose|r: int| 0 <= r < before.len() && before[r] == tm[q];
                    if r < p {
                        assert(after[r] == before[r]);
                    } else {
                        assert(after[r + 1] == before[r]);
                    }
                }
            }
        }
    }
    proof {
        use_type_invariant(&obj);
        assert(tm.take(KEY_COUNT as int) =~= tm);
        lemma_ascending_distinct(obj.model());
        assert forall|a: int, b: int|
            #![trigger tm[a], tm[b]]
            0 <= a < tm.len() && 0 <= b < tm.len() && a != b implies tm[a].0 != tm[b].0 by {
            assert(tm[a].0 == default_key_order()[a]);
            assert(tm[b].0 == default_key_order()[b]);
        }
    }
    obj
}

/// Generate a JSON object with 15 keys and random values.
///
/// Whatever the generator draws, the object holds exactly the schema's keys, with the values
/// that `transaction_values` makes of draws in their ranges.
pub fn generate_json_object(rng: &mut StdRng) -> (obj: SortedObject)
    ensures
        exists|d: TransactionDraws|
            d.in_range() && same_members(obj.model(), #[trigger] transaction_members(d)),
{
    let d = draw_transaction(rng);
    transaction_object(&d)
}

/// Convert the record to a JSON object with sorted keys (alphabetical).
pub fn to_sorted_json(obj: &SortedObject) -> (r: JsonValue)
    ensures
        r.model() == Json::Object(obj.model()),
{
    obj.to_object()
}

/// The members of `m` whose keys are among the first `n` keys of the schema, in the
/// schema's order.
pub open spec fn default_order_members(m: Seq<(Seq<char>, Json)>, n: nat) -> Seq<
    (Seq<char>, Json),
>
    decreases n,
{
    if n == 0 {
        Seq::empty()
    } else {
        let earlier = default_order_members(m, (n - 1) as nat);
        let k = default_key_order()[n - 1];
        if has_key(m, k) {
            earlier.push((k, value_under(m, k)))
        } else {
            earlier
        }
    }
}

/// The keys of `default_order_members(m, n)` are among the first `n` keys of the schema.
proof fn lemma_default_order_keys(m: Seq<(Seq<char>, Json)>, n: nat)
    requires
        n <= KEY_COUNT,
    ensures
        forall|q: int|
            0 <= q < default_order_members(m, n).len() ==> exists|j: int|
                0 <= j < n && (#[trigger] default_order_members(m, n)[q]).0
                    == default_key_order()[j],
    decreases n,
{
    if n > 0 {
        lemma_default_order_keys(m, (n - 1) as nat);
        let prev = default_order_members(m, (n - 1) as nat);
        let cur = default_order_members(m, n);
        assert forall|q: int| 0 <= q < cur.len() implies exists|j: int|
            0 <= j < n && (#[trigger] cur[q]).0 == default_key_order()[j] by {
            if q < prev.len() {
                assert(cur[q] == prev[q]);
                let j = choose|j: int| 0 <= j < n - 1 && prev[q].0 == default_key_order()[j];
            } else {
                assert(cur[q].0 == default_key_order()[n - 1]);
            }
        }
    }
}

/// Convert the record to a JSON object with default key order (as defined in the schema).
pub fn to_default_json(obj: &SortedObject) -> (r: JsonValue)
    ensures
        r.model() == Json::Object(default_order_members(obj.model(), KEY_COUNT as nat)),
{
    proof {
        use_type_invariant(obj);
    }
    let ghost m = obj.model();
    proof {
        lemma_default_keys_distinct();
    }
    let mut map = ordered_map_new();
    for i in 0..KEY_COUNT
        invariant
            obj.well_formed(),
            m == obj.model(),
            forall|a: int, b: int|
                0 <= a < KEY_COUNT && 0 <= b < KEY_COUNT && a != b ==> default_key_order()[a]
                    != default_key_order()[b],
            members_model(index_map_entries(map)) == default_order_members(m, i as nat),
    {
        let key = default_key(i);
        let ghost before = index_map_entries(map);
        match obj.get(key) {
            Some(value) => {
                let v = value.clone();
                proof {
                    lemma_default_order_keys(m, i as nat);
                    if entries_have_key(before, key@) {
                        let q = choose|q: int|
                            0 <= q < before.len() && #[trigger] before[q].0@ == key@;
                        assert(members_model(before)[q].0 == key@);
                        let j = choose|j: int|
                            0 <= j < i && (#[trigger] default_order_members(m, i as nat)[q]).0
                                == default_key_order()[j];
                    }
                }
                ordered_map_insert(&mut map, String::from_str(key), v);
                proof {
                    assert(members_model(index_map_entries(map)) =~= default_order_members(
                        m,
                        (i + 1) as nat,
                    ));
                }
            },
            None => {},
        }
    }
    let out = ordered_map_into_members(map);
    JsonValue::Object(out)
}

/// The record's members in the order `order` gives (member `order[q]` goes to position
/// `q`), each looked up by its key, as a JSON object built through an insertion-ordered map.
pub fn to_json_in_order(obj: &SortedObject, order: &Vec<usize>) -> (r: JsonValue)
    requires
        order@.no_duplicates(),
        forall|q: int| 0 <= q < order.len() ==> #[trigger] order@[q] < obj.model().len(),
    ensures
        r.model() == Json::Object(
            Seq::new(order.len() as nat, |q: int| obj.model()[order@[q] as int]),
        ),
{
    proof {
        use_type_invariant(obj);
    }
    let ghost m = obj.model();
    proof {
        lemma_ascending_distinct(m);
    }
    let keys = obj.keys();
    let n = order.len();
    proof {
        assert(string_texts(keys@).len() == m.len());
    }
    let mut map = ordered_map_new();
    for p in 0..n
        invariant
            obj.well_formed(),
            m == obj.model(),
            keys_distinct(m),
            n == order.len(),
            keys@.len() == m.len(),
            string_texts(keys@) == m.map_values(|e: (Seq<char>, Json)| e.0),
            order@.no_duplicates(),
            forall|q: int| 0 <= q < n ==> #[trigger] order@[q] < m.len(),
            index_map_entries(map).len() == p,
            forall|q: int|
                0 <= q < p ==> #[trigger] members_model(index_map_entries(map))[q]
                    == m[order@[q] as int],
    {
        let idx = order[p];
        let key = keys[idx].clone();
        proof {
            assert(string_texts(keys@)[idx as int] == key@);
            assert(m[idx as int].0 == key@);
            lemma_value_under_member(m, idx as int);
        }
        let value = match obj.get(key.as_str()) {
            Some(v) => v.clone(),
            None => {
                proof {
                    assert(false);
                }
                JsonValue::Null
            },
        };
        let ghost before = index_map_entries(map);
        proof {
            if entries_have_key(before, key@) {
                let q = choose|q: int| 0 <= q < before.len() && #[trigger] before[q].0@ == key@;
                assert(members_model(before)[q] == m[order@[q] as int]);
                assert(order@[q] != order@[p as int]);
            }
        }
        ordered_map_insert(&mut map, key, value);
        proof {
            let after = members_model(index_map_entries(map));
            assert forall|q: int| 0 <= q < p + 1 implies #[trigger] after[q] == m[order@[q] as int] by {
                if q < p {
                    assert(index_map_entries(map)[q] == before[q]);
                    assert(members_model(before)[q] == m[order@[q] as int]);
                }
            }
        }
    }
    let out = ordered_map_into_members(map);
    proof {
        assert(members_model(out@) =~= Seq::new(n as nat, |q: int| m[order@[q] as int]));
    }
    JsonValue::Object(out)
}

/// Convert the record to a JSON object with randomized key order.
///
/// Whatever order the generator picks, the object holds the record's members, each once; the
/// order is the shuffled order of the keys, as `to_json_in_order` builds it. A record of two
/// or more members is shuffled with draws from the generator, which is moved on; a smaller one
/// draws nothing and comes back as it is.
pub fn to_random_json(obj: &SortedObject, rng: &mut StdRng) -> (r: JsonValue)
    ensures
        r.model() is Object,
        same_members(r.model()->Object_0, obj.model()),
        obj.model().len() <= 1 ==> r.model() == Json::Object(obj.model()) && *final(rng) == *old(
            rng,
        ),
        obj.model().len() >= 2 ==> *final(rng) != *old(rng),
{
    proof {
        use_type_invariant(obj);
    }
    let ghost m = obj.model();
    proof {
        lemma_ascending_distinct(m);
    }
    let keys = obj.keys();
    let n = keys.len();
    proof {
        assert(string_texts(keys@).len() == m.len());
    }
    let mut order: Vec<usize> = Vec::new();
    for i in 0..n
        invariant
            order@ == positions_up_to(i as nat),
    {
        order.push(i);
        assert(order@ =~= positions_up_to((i + 1) as nat));
    }
    assert(order@.len() == n);
    shuffle_positions(&mut order, rng);
    proof {
        lemma_reordered_positions(order@, n as nat);
    }
    let r = to_json_in_order(obj, &order);
    proof {
        let rm = r.model()->Object_0;
        assert(rm.len() == n);
        if n <= 1 {
            assert(rm =~= m) by {
                assert forall|q: int| 0 <= q < n implies rm[q] == m[q] by {
                    assert(order@[q] == positions_up_to(n as nat)[q]);
                }
            }
        }
        assert forall|a: int, b: int|
            #![trigger rm[a], rm[b]]
            0 <= a < rm.len() && 0 <= b < rm.len() && a != b implies rm[a].0 != rm[b].0 by {
            assert(rm[a] == m[order@[a] as int]);
            assert(rm[b] == m[order@[b] as int]);
            assert(order@[a] != order@[b]);
        }
        assert forall|q: int| 0 <= q < rm.len() implies m.contains(#[trigger] rm[q]) by {
            assert(rm[q] == m[order@[q] as int]);
        }
        assert forall|i: int| 0 <= i < m.len() implies rm.contains(#[trigger] m[i]) by {
            assert(holds_position(order@, i));
            let q = choose|q: int| 0 <= q < order@.len() && #[trigger] order@[q] == i;
            assert(rm[q] == m[i]);
        }
    }
    r
}

/// A record holding the schema's members gives them back in the schema's order.
pub proof fn lemma_default_order_of_record(m: Seq<(Seq<char>, Json)>, d: TransactionDraws, n: nat)
    requires
        same_members(m, transaction_members(d)),
        n <= KEY_COUNT,
    ensures
        default_order_members(m, n) == transaction_members(d).take(n as int),
    decreases n,
{
    let tm = transaction_members(d);
    if n == 0 {
        assert(tm.take(0) =~= Seq::<(Seq<char>, Json)>::empty());
    } else {
        lemma_default_order_of_record(m, d, (n - 1) as nat);
        let k = default_key_order()[n - 1];
        assert(tm[n - 1].0 == k);
        assert(m.contains(tm[n - 1]));
        let r = choose|r: int| 0 <= r < m.len() && m[r] == tm[n - 1];
        assert(has_key(m, k));
        lemma_value_under_member(m, r);
        assert(tm.take(n as int) =~= tm.take(n - 1).push(tm[n - 1]));
    }
}

} // verus!
