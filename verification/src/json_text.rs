//! JSON text through `serde_json`: reading it, and JSON Lines documents, into `JsonValue`s,
//! and writing `JsonValue`s back as compact JSON.
use vstd::prelude::*;
use vstd::utf8::{valid_utf8, decode_utf8};
use serde_json::Value;
use crate::json::{
    Json, JsonValue, items_model, members_model, well_formed, keys_distinct,
    lemma_well_formed_array, lemma_well_formed_object,
};
use crate::jsonl::{string_texts, line_record, without_cr, byte_line_scan, byte_lines, byte_records};
use crate::number::{JsonNumber, serde_clone};

verus! {

#[verifier::external_type_specification]
#[verifier::external_body]
pub struct ExSerdeValue(Value);

#[verifier::external_type_specification]
#[verifier::external_body]
pub struct ExSerdeJsonError(serde_json::Error);

/// What a `serde_json::Value` holds, as a model: its variant and contents, with a number held
/// by the text its `Display` writes and object members in the map's iteration order (its
/// insertion order, with the `preserve_order` feature).
pub uninterp spec fn serde_value_model(v: Value) -> Json;

/// What `serde_json::from_str::<Value>` makes of `text`: the model of the parsed value, or
/// `None` where `text` is not one JSON value (with optional surrounding white space).
pub uninterp spec fn json_parse(text: Seq<char>) -> Option<Json>;

/// The variants of a JSON value.
enum ValueKind {
    Null,
    Bool,
    Number,
    Str,
    Array,
    Object,
}

/// The variant of a model.
spec fn kind_of(j: Json) -> ValueKind {
    match j {
        Json::Null => ValueKind::Null,
        Json::Bool(_) => ValueKind::Bool,
        Json::Number(_) => ValueKind::Number,
        Json::Str(_) => ValueKind::Str,
        Json::Array(_) => ValueKind::Array,
        Json::Object(_) => ValueKind::Object,
    }
}

/// `serde_json::from_str::<Value>`: succeeds exactly on JSON text, with the value parsed.
#[verifier::external_body]
fn serde_parse(text: &str) -> (r: Result<Value, serde_json::Error>)
    ensures
        r is Ok <==> json_parse(text@) is Some,
        r matches Ok(v) ==> json_parse(text@) == Some(serde_value_model(v)),
{
    serde_json::from_str(text)
}

/// The variant of a `serde_json::Value`.
#[verifier::external_body]
fn serde_kind(v: &Value) -> (k: ValueKind)
    ensures
        k == kind_of(serde_value_model(*v)),
{
    match v {
        Value::Null => ValueKind::Null,
        Value::Bool(_) => ValueKind::Bool,
        Value::Number(_) => ValueKind::Number,
        Value::String(_) => ValueKind::Str,
        Value::Array(_) => ValueKind::Array,
        Value::Object(_) => ValueKind::Object,
    }
}

/// The boolean a `Value::Bool` holds.
#[verifier::external_body]
fn serde_bool(v: &Value) -> (b: bool)
    requires
        serde_value_model(*v) is Bool,
    ensures
        Json::Bool(b) == serde_value_model(*v),
{
    match v {
        Value::Bool(b) => *b,
        _ => false,
    }
}

/// The string a `Value::String` holds.
#[verifier::external_body]
fn serde_string(v: &Value) -> (s: String)
    requires
        serde_value_model(*v) is Str,
    ensures
        Json::Str(s@) == serde_value_model(*v),
{
    match v {
        Value::String(s) => s.clone(),
        _ => String::new(),
    }
}

/// The elements a `Value::Array` holds, in order.
#[verifier::external_body]
fn serde_items(v: &Value) -> (items: Vec<&Value>)
    requires
        serde_value_model(*v) is Array,
    ensures
        items@.len() == serde_value_model(*v)->Array_0.len(),
        forall|i: int|
            0 <= i < items@.len() ==> serde_value_model(*items@[i]) == serde_value_model(
                *v,
            )->Array_0[i],
{
    match v {
        Value::Array(a) => a.iter().collect(),
        _ => Vec::new(),
    }
}

/// The members a `Value::Object` holds, in the map's order; a map holds each key once.
#[verifier::external_body]
fn serde_members(v: &Value) -> (members: Vec<(&String, &Value)>)
    requires
        serde_value_model(*v) is Object,
    ensures
        members@.len() == serde_value_model(*v)->Object_0.len(),
        forall|i: int|
            0 <= i < members@.len() ==> members@[i].0@ == serde_value_model(*v)->Object_0[i].0
                && serde_value_model(*members@[i].1) == serde_value_model(*v)->Object_0[i].1,
        forall|i: int, j: int|
            0 <= i < members@.len() && 0 <= j < members@.len() && i != j ==> members@[i].0@
                != members@[j].0@,
{
    match v {
        Value::Object(m) => m.iter().collect(),
        _ => Vec::new(),
    }
}

/// The library's value for a parsed `serde_json::Value`: the same model, and well formed.
fn value_from_serde(v: &Value) -> (r: JsonValue)
    ensures
        r.model() == serde_value_model(*v),
        well_formed(r.model()),
    decreases serde_value_model(*v),
{
    let ghost j = serde_value_model(*v);
    match serde_kind(v) {
        ValueKind::Null => JsonValue::Null,
        ValueKind::Bool => JsonValue::Bool(serde_bool(v)),
        ValueKind::Number => JsonValue::Number(JsonNumber::from_serde(serde_clone(v))),
        ValueKind::Str => JsonValue::Str(serde_string(v)),
        ValueKind::Array => {
            let items = serde_items(v);
            let ghost xs = j->Array_0;
            let n = items.len();
            let mut out: Vec<JsonValue> = Vec::new();
            for i in 0..n
                invariant
                    n == items@.len(),
                    j == serde_value_model(*v),
                    j is Array,
                    xs == j->Array_0,
                    n == xs.len(),
                    forall|q: int| 0 <= q < n ==> serde_value_model(*items@[q]) == xs[q],
                    out.len() == i,
                    forall|q: int| 0 <= q < i ==> (#[trigger] items_model(out@)[q]) == xs[q],
                    forall|q: int| 0 <= q < i ==> well_formed(#[trigger] xs[q]),
            {
                assert(decreases_to!(j => xs[i as int])) by {
                    assert(decreases_to!(j => j->Array_0));
                }
                let x = value_from_serde(items[i]);
                let ghost before = out@;
                out.push(x);
                proof {
                    assert forall|q: int| 0 <= q < i + 1 implies (#[trigger] items_model(out@)[q])
                        == xs[q] by {
                        if q < i {
                            assert(items_model(out@)[q] == items_model(before)[q]);
                        }
                    }
                }
            }
            proof {
                assert(items_model(out@) =~= xs);
                lemma_well_formed_array(xs);
                assert(j == Json::Array(xs));
            }
            JsonValue::Array(out)
        },
        ValueKind::Object => {
            let members = serde_members(v);
            let ghost ms = j->Object_0;
            let n = members.len();
            let mut out: Vec<(String, JsonValue)> = Vec::new();
            for i in 0..n
                invariant
                    n == members@.len(),
                    j == serde_value_model(*v),
                    j is Object,
                    ms == j->Object_0,
                    n == ms.len(),
                    forall|q: int|
                        0 <= q < n ==> members@[q].0@ == ms[q].0 && serde_value_model(
                            *members@[q].1,
                        ) == ms[q].1,
                    out.len() == i,
                    forall|q: int| 0 <= q < i ==> (#[trigger] members_model(out@)[q]) == ms[q],
                    forall|q: int| 0 <= q < i ==> well_formed(#[trigger] ms[q].1),
            {
                assert(decreases_to!(j => ms[i as int].1)) by {
                    assert(decreases_to!(j => j->Object_0));
                    assert(decreases_to!(ms => ms[i as int]));
                }
                let x = value_from_serde(members[i].1);
                let k = members[i].0.clone();
                let ghost before = out@;
                out.push((k, x));
                proof {
                    assert forall|q: int| 0 <= q < i + 1 implies (#[trigger] members_model(out@)[q])
                        == ms[q] by {
                        if q < i {
                            assert(members_model(out@)[q] == members_model(before)[q]);
                        }
                    }
                }
            }
            proof {
                assert(members_model(out@) =~= ms);
                assert forall|a: int, b: int|
                    #![trigger ms[a], ms[b]]
                    0 <= a < ms.len() && 0 <= b < ms.len() && a != b implies ms[a].0 != ms[b].0 by {
                    assert(members@[a].0@ != members@[b].0@);
                }
                lemma_well_formed_object(ms);
                assert(j == Json::Object(ms));
            }
            JsonValue::Object(out)
        },
    }
}

/// Parse one JSON value from `text` with `serde_json`: succeeds exactly on JSON text, with a
/// well-formed value whose model is what the text holds.
pub fn parse_json_value(text: &str) -> (r: Result<JsonValue, serde_json::Error>)
    ensures
        r is Ok <==> json_parse(text@) is Some,
        r matches Ok(v) ==> json_parse(text@) == Some(v.model()) && well_formed(v.model()),
{
    match serde_parse(text) {
        Ok(v) => Ok(value_from_serde(&v)),
        Err(e) => Err(e),
    }
}

/// The bytes `serde_json::to_vec` writes for a value with model `v`: compact JSON, members in
/// the order held.
pub uninterp spec fn json_compact(v: Json) -> Seq<u8>;

/// `serde_json::Value::Null`.
#[verifier::external_body]
fn serde_null() -> (v: Value)
    ensures
        serde_value_model(v) == Json::Null,
{
    Value::Null
}

/// `serde_json::Value::Bool`.
#[verifier::external_body]
fn serde_from_bool(b: bool) -> (v: Value)
    ensures
        serde_value_model(v) == Json::Bool(b),
{
    Value::Bool(b)
}

/// `serde_json::Value::String`.
#[verifier::external_body]
fn serde_from_string(s: String) -> (v: Value)
    ensures
        serde_value_model(v) == Json::Str(s@),
{
    Value::String(s)
}

/// `serde_json::Value::Array` of the given elements, in order.
#[verifier::external_body]
fn serde_from_items(items: Vec<Value>) -> (v: Value)
    ensures
        serde_value_model(v) == Json::Array(
            Seq::new(items@.len(), |i: int| serde_value_model(items@[i])),
        ),
{
    Value::Array(items)
}

/// `serde_json::Value::Object` collected from members with distinct keys: an insertion-ordered
/// map (the `preserve_order` feature) holds them in the order given.
#[verifier::external_body]
fn serde_from_members(members: Vec<(String, Value)>) -> (v: Value)
    requires
        forall|i: int, j: int|
            0 <= i < members@.len() && 0 <= j < members@.len() && i != j ==> members@[i].0@
                != members@[j].0@,
    ensures
        serde_value_model(v) == Json::Object(
            Seq::new(
                members@.len(),
                |i: int| (members@[i].0@, serde_value_model(members@[i].1)),
            ),
        ),
{
    Value::Object(members.into_iter().collect())
}

/// `serde_json::to_vec` of a `Value`, which holds only string keys and finite numbers, so
/// the write into memory succeeds.
#[verifier::external_body]
fn serde_to_vec(v: &Value) -> (r: Result<Vec<u8>, serde_json::Error>)
    ensures
        r is Ok,
        r matches Ok(bytes) ==> bytes@ == json_compact(serde_value_model(*v)),
{
    serde_json::to_vec(v)
}

/// The `serde_json::Value` for a well-formed value, with the same model.
fn value_to_serde(v: &JsonValue) -> (r: Value)
    requires
        well_formed(v.model()),
    ensures
        serde_value_model(r) == v.model(),
    decreases v,
{
    match v {
        JsonValue::Null => serde_null(),
        JsonValue::Bool(b) => serde_from_bool(*b),
        JsonValue::Number(n) => n.to_serde(),
        JsonValue::Str(s) => serde_from_string(s.clone()),
        JsonValue::Array(items) => {
            let ghost xs = items_model(items@);
            let n = items.len();
            let mut out: Vec<Value> = Vec::new();
            for i in 0..n
                invariant
                    n == items@.len(),
                    xs == items_model(items@),
                    v.model() == Json::Array(xs),
                    well_formed(v.model()),
                    *v == JsonValue::Array(*items),
                    out@.len() == i,
                    forall|q: int| 0 <= q < i ==> serde_value_model(#[trigger] out@[q]) == xs[q],
            {
                assert(xs[i as int] == items@[i as int].model());
                proof {
                    crate::json::lemma_well_formed_element(xs, i as int);
                }
                assert(decreases_to!(*v => items@[i as int])) by {
                    assert(decreases_to!(*items => items@));
                }
                let x = value_to_serde(&items[i]);
                out.push(x);
            }
            let ghost outs = out@;
            let r = serde_from_items(out);
            proof {
                assert(Seq::new(outs.len(), |i: int| serde_value_model(outs[i])) =~= xs);
            }
            r
        },
        JsonValue::Object(members) => {
            let ghost mm = members_model(members@);
            let n = members.len();
            let mut out: Vec<(String, Value)> = Vec::new();
            for i in 0..n
                invariant
                    n == members@.len(),
                    mm == members_model(members@),
                    v.model() == Json::Object(mm),
                    well_formed(v.model()),
                    *v == JsonValue::Object(*members),
                    out@.len() == i,
                    forall|q: int|
                        0 <= q < i ==> (#[trigger] out@[q]).0@ == mm[q].0 && serde_value_model(
                            out@[q].1,
                        ) == mm[q].1,
            {
                assert(mm[i as int] == (members@[i as int].0@, members@[i as int].1.model()));
                proof {
                    lemma_well_formed_object(mm);
                }
                assert(well_formed(mm[i as int].1));
                assert(decreases_to!(*v => members@[i as int].1)) by {
                    assert(decreases_to!(*members => members@));
                    assert(decreases_to!(members@ => members@[i as int]));
                }
                let x = value_to_serde(&members[i].1);
                let k = members[i].0.clone();
                out.push((k, x));
            }
            let ghost outs = out@;
            proof {
                lemma_well_formed_object(mm);
                assert forall|a: int, b: int|
                    0 <= a < outs.len() && 0 <= b < outs.len() && a != b implies outs[a].0@
                    != outs[b].0@ by {
                    assert(outs[a].0@ == mm[a].0);
                    assert(outs[b].0@ == mm[b].0);
                }
            }
            let r = serde_from_members(out);
            proof {
                assert(Seq::new(outs.len(), |i: int| (outs[i].0@, serde_value_model(outs[i].1)))
                    =~= mm);
            }
            r
        },
    }
}

/// One line of compact JSON for a well-formed value, as `serde_json` writes it.
pub fn json_line(v: &JsonValue) -> (bytes: Vec<u8>)
    requires
        well_formed(v.model()),
    ensures
        bytes@ == json_compact(v.model()),
{
    let s = value_to_serde(v);
    match serde_to_vec(&s) {
        Ok(bytes) => bytes,
        Err(_) => {
            proof {
                assert(false);
            }
            Vec::new()
        },
    }
}

/// One line of compact JSON for each well-formed value, in order.
pub fn json_lines(values: &[JsonValue]) -> (lines: Vec<Vec<u8>>)
    requires
        forall|i: int| 0 <= i < values@.len() ==> well_formed(#[trigger] values@[i].model()),
    ensures
        lines@.len() == values@.len(),
        forall|i: int|
            0 <= i < lines@.len() ==> (#[trigger] lines@[i])@ == json_compact(values@[i].model()),
{
    let n = values.len();
    let mut lines: Vec<Vec<u8>> = Vec::new();
    for i in 0..n
        invariant
            n == values@.len(),
            forall|q: int| 0 <= q < n ==> well_formed(#[trigger] values@[q].model()),
            lines@.len() == i,
            forall|q: int|
                0 <= q < i ==> (#[trigger] lines@[q])@ == json_compact(values@[q].model()),
    {
        let line = json_line(&values[i]);
        lines.push(line);
    }
    lines
}

/// `std::str::from_utf8`: the text, exactly where the bytes are valid UTF-8.
#[verifier::external_body]
fn utf8_text(data: &[u8]) -> (r: Option<&str>)
    ensures
        r is Some <==> valid_utf8(data@),
        r matches Some(t) ==> t@ == decode_utf8(data@),
{
    std::str::from_utf8(data).ok()
}

/// Why a JSON Lines document could not be read.
#[derive(Debug)]
pub enum JsonlError {
    /// A line is not UTF-8 text.
    NotUtf8,
    /// The record at position `record` (counting the non-blank lines) is not JSON.
    InvalidJson { record: usize, error: serde_json::Error },
}

/// A line reads without error: it is UTF-8 text, and its record, where it has one, is JSON.
pub open spec fn line_reads(l: Seq<u8>) -> bool {
    &&& valid_utf8(l)
    &&& forall|i: int|
        0 <= i < line_record(decode_utf8(l)).len() ==> (#[trigger] json_parse(
            line_record(decode_utf8(l))[i],
        )) is Some
}

/// `a` is the start of `b`.
pub open spec fn starts(a: Seq<Seq<u8>>, b: Seq<Seq<u8>>) -> bool {
    a.len() <= b.len() && forall|i: int| 0 <= i < a.len() ==> #[trigger] b[i] == a[i]
}

/// The lines ended before a position stay the first lines of the whole.
proof fn lemma_scan_prefix(d: Seq<u8>, j: int)
    requires
        0 <= j <= d.len(),
    ensures
        starts(byte_line_scan(d.take(j)).0, byte_lines(d)),
    decreases d.len() - j,
{
    if j == d.len() {
        assert(d.take(j) =~= d);
    } else {
        lemma_scan_prefix(d, j + 1);
        assert(d.take(j + 1).drop_last() =~= d.take(j));
    }
}

/// What reading one line gives.
enum LineOutcome {
    Blank,
    Read(JsonValue),
    NotUtf8,
    NotJson(serde_json::Error),
}

/// Reads one line: not UTF-8, blank once trimmed, or a record that is read as JSON or is not.
fn read_line(line: &[u8]) -> (r: LineOutcome)
    ensures
        r is NotUtf8 <==> !valid_utf8(line@),
        r is Blank ==> line_reads(line@) && line_record(decode_utf8(line@)).len() == 0,
        r matches LineOutcome::Read(v) ==> line_reads(line@) && line_record(decode_utf8(line@))
            == seq![line_record(decode_utf8(line@))[0]] && json_parse(
            line_record(decode_utf8(line@))[0],
        ) == Some(v.model()) && well_formed(v.model()),
        r is NotJson ==> valid_utf8(line@) && !line_reads(line@),
{
    let text = match utf8_text(line) {
        Some(t) => t,
        None => {
            return LineOutcome::NotUtf8;
        },
    };
    let ghost rec = line_record(decode_utf8(line@));
    let chars = crate::paths::chars_of(text);
    let mut found: Vec<String> = Vec::new();
    crate::jsonl::finish_line(&chars, &mut found);
    assert(string_texts(found@) =~= rec);
    if found.len() == 0 {
        return LineOutcome::Blank;
    }
    assert(found@[0]@ == rec[0]);
    match parse_json_value(found[0].as_str()) {
        Ok(v) => {
            assert(rec =~= seq![rec[0]]);
            LineOutcome::Read(v)
        },
        Err(e) => {
            assert(json_parse(rec[0]) is None);
            LineOutcome::NotJson(e)
        },
    }
}

/// Parse JSONL data into a vector of JSON values, line by line as `BufRead::lines` reads it:
/// each non-blank line, trimmed, is one JSON value. Fails at the first line that is not UTF-8
/// text or whose record is not JSON, with the matching error.
pub fn parse_jsonl(data: &[u8]) -> (r: Result<Vec<JsonValue>, JsonlError>)
    ensures
        r is Ok <==> forall|i: int|
            0 <= i < byte_lines(data@).len() ==> line_reads(#[trigger] byte_lines(data@)[i]),
        r matches Ok(values) ==> values.len() == byte_records(byte_lines(data@)).len() && forall|
            i: int,
        |
            0 <= i < values.len() ==> json_parse(byte_records(byte_lines(data@))[i]) == Some(
                (#[trigger] values@[i]).model(),
            ) && well_formed(values@[i].model()),
        r matches Err(JsonlError::NotUtf8) ==> exists|k: int|
            0 <= k < byte_lines(data@).len() && !valid_utf8(#[trigger] byte_lines(data@)[k])
                && forall|i: int| 0 <= i < k ==> line_reads(byte_lines(data@)[i]),
        r matches Err(JsonlError::InvalidJson { record, error }) ==> exists|k: int|
            0 <= k < byte_lines(data@).len() && valid_utf8(#[trigger] byte_lines(data@)[k])
                && !line_reads(byte_lines(data@)[k]) && (forall|i: int|
                0 <= i < k ==> line_reads(byte_lines(data@)[i])) && record == byte_records(
                byte_lines(data@).take(k),
            ).len(),
{
    let ghost ls = byte_lines(data@);
    let n = data.len();
    let mut values: Vec<JsonValue> = Vec::new();
    let mut start: usize = 0;
    let mut j: usize = 0;
    let ghost mut done: Seq<Seq<u8>> = Seq::empty();
    assert(data@.take(0) =~= Seq::<u8>::empty());
    while j < n
        invariant
            n == data@.len(),
            ls == byte_lines(data@),
            start <= j <= n,
            byte_line_scan(data@.take(j as int)) == (done, data@.subrange(start as int, j as int)),
            forall|i: int| 0 <= i < done.len() ==> line_reads(#[trigger] done[i]),
            values.len() == byte_records(done).len(),
            forall|q: int|
                0 <= q < values.len() ==> json_parse(byte_records(done)[q]) == Some(
                    (#[trigger] values@[q]).model(),
                ) && well_formed(values@[q].model()),
        decreases n - j,
    {
        let ghost open = data@.subrange(start as int, j as int);
        assert(data@.take(j + 1).drop_last() =~= data@.take(j as int));
        if data[j] == 10 {
            let end: usize = if j > start && data[j - 1] == 13 {
                j - 1
            } else {
                j
            };
            let line = vstd::slice::slice_subrange(data, start, end);
            assert(line@ =~= without_cr(open));
            let ghost next = done.push(line@);
            proof {
                lemma_scan_prefix(data@, j + 1);
                assert(next.drop_last() =~= done);
                assert(ls[done.len() as int] == line@);
                assert forall|i: int| 0 <= i < done.len() implies ls[i] == done[i] by {
                    assert(next[i] == done[i]);
                }
            }
            match read_line(line) {
                LineOutcome::NotUtf8 => {
                    return Err(JsonlError::NotUtf8);
                },
                LineOutcome::NotJson(error) => {
                    proof {
                        assert(ls.take(done.len() as int) =~= done);
                    }
                    return Err(JsonlError::InvalidJson { record: values.len(), error });
                },
                LineOutcome::Blank => {
                    proof {
                        assert(byte_records(next) =~= byte_records(done));
                    }
                },
                LineOutcome::Read(v) => {
                    let ghost before = values@;
                    values.push(v);
                    proof {
                        assert(byte_records(next) =~= byte_records(done).push(
                            line_record(decode_utf8(line@))[0],
                        ));
                        assert forall|q: int| 0 <= q < values.len() implies json_parse(
                            byte_records(next)[q],
                        ) == Some((#[trigger] values@[q]).model()) && well_formed(
                            values@[q].model(),
                        ) by {
                            if q < before.len() {
                                assert(values@[q] == before[q]);
                            }
                        }
                    }
                },
            }
            proof {
                done = next;
            }
            start = j + 1;
            assert(data@.subrange(start as int, j + 1) =~= Seq::<u8>::empty());
        } else {
            assert(data@.subrange(start as int, j + 1) =~= open.push(data@[j as int]));
        }
        j += 1;
    }
    assert(data@.take(n as int) =~= data@);
    if start < n {
        let line = vstd::slice::slice_subrange(data, start, n);
        let ghost next = done.push(line@);
        assert(ls =~= next);
        match read_line(line) {
            LineOutcome::NotUtf8 => {
                return Err(JsonlError::NotUtf8);
            },
            LineOutcome::NotJson(error) => {
                proof {
                    assert(ls.take(done.len() as int) =~= done);
                }
                return Err(JsonlError::InvalidJson { record: values.len(), error });
            },
            LineOutcome::Blank => {
                proof {
                    assert(next.drop_last() =~= done);
                    assert(byte_records(next) =~= byte_records(done));
                }
            },
            LineOutcome::Read(v) => {
                let ghost before = values@;
                values.push(v);
                proof {
                    assert(next.drop_last() =~= done);
                    assert(byte_records(next) =~= byte_records(done).push(
                        line_record(decode_utf8(line@))[0],
                    ));
                    assert forall|q: int| 0 <= q < values.len() implies json_parse(
                        byte_records(next)[q],
                    ) == Some((#[trigger] values@[q]).model()) && well_formed(values@[q].model()) by {
                        if q < before.len() {
                            assert(values@[q] == before[q]);
                        }
                    }
                }
            },
        }
        proof {
            done = next;
        }
    } else {
        assert(ls =~= done);
    }
    Ok(values)
}

} // verus!
