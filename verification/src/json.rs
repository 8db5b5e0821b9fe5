//! JSON values, their mathematical model, and the order in which object keys sort.
use vstd::prelude::*;
use vstd::utf8::*;
use crate::number::JsonNumber;

verus! {

/// The mathematical model of a JSON value: what a reader of the document sees.
/// Object members keep the order in which they appear.
pub enum Json {
    Null,
    Bool(bool),
    /// A number, held by its textual JSON form.
    Number(Seq<char>),
    Str(Seq<char>),
    Array(Seq<Json>),
    Object(Seq<(Seq<char>, Json)>),
}

/// A JSON value whose objects keep their members in a chosen order.
#[derive(Debug, PartialEq, Eq)]
pub enum JsonValue {
    Null,
    Bool(bool),
    /// A number, held as `serde_json` holds it.
    Number(JsonNumber),
    Str(String),
    Array(Vec<JsonValue>),
    /// The members of an object, in document order.
    Object(Vec<(String, JsonValue)>),
}

impl JsonValue {
    /// The model of this value.
    pub open spec fn model(self) -> Json
        decreases self,
    {
        match self {
            JsonValue::Null => Json::Null,
            JsonValue::Bool(b) => Json::Bool(b),
            JsonValue::Number(n) => Json::Number(n.text()),
            JsonValue::Str(s) => Json::Str(s@),
            JsonValue::Array(items) => Json::Array(items_model(items@)),
            JsonValue::Object(members) => Json::Object(members_model(members@)),
        }
    }
}

impl Clone for JsonValue {
    /// A copy holding the same model.
    fn clone(&self) -> (r: Self)
        ensures
            r.model() == self.model(),
        decreases self,
    {
        match self {
            JsonValue::Null => JsonValue::Null,
            JsonValue::Bool(b) => JsonValue::Bool(*b),
            JsonValue::Number(n) => JsonValue::Number(n.duplicate()),
            JsonValue::Str(s) => JsonValue::Str(s.clone()),
            JsonValue::Array(items) => {
                let mut out: Vec<JsonValue> = Vec::new();
                let n = items.len();
                for i in 0..n
                    invariant
                        n == items.len(),
                        *self == JsonValue::Array(*items),
                        out.len() == i,
                        forall|q: int|
                            0 <= q < i ==> (#[trigger] items_model(out@)[q]) == items_model(
                                items@,
                            )[q],
                {
                    assert(decreases_to!(*self => items@[i as int])) by {
                        assert((*self)->Array_0 == *items);
                        assert(decreases_to!(*self => (*self)->Array_0));
                        assert(decreases_to!(*items => items@));
                        assert(decreases_to!(items@ => items@[i as int]));
                    }
                    let c = items[i].clone();
                    let ghost before = out@;
                    out.push(c);
                    proof {
                        assert forall|q: int| 0 <= q < i + 1 implies (#[trigger] items_model(
                            out@,
                        )[q]) == items_model(items@)[q] by {
                            if q < i {
                                assert(items_model(out@)[q] == items_model(before)[q]);
                            }
                        }
                    }
                }
                proof {
                    assert(items_model(out@) =~= items_model(items@));
                }
                JsonValue::Array(out)
            },
            JsonValue::Object(members) => {
                let mut out: Vec<(String, JsonValue)> = Vec::new();
                let n = members.len();
                for i in 0..n
                    invariant
                        n == members.len(),
                        *self == JsonValue::Object(*members),
                        out.len() == i,
                        forall|q: int|
                            0 <= q < i ==> (#[trigger] members_model(out@)[q]) == members_model(
                                members@,
                            )[q],
                {
                    assert(decreases_to!(*self => members@[i as int].1)) by {
                        assert((*self)->Object_0 == *members);
                        assert(decreases_to!(*self => (*self)->Object_0));
                        assert(decreases_to!(*members => members@));
                        assert(decreases_to!(members@ => members@[i as int]));
                    }
                    let c = members[i].1.clone();
                    let k = members[i].0.clone();
                    let ghost before = out@;
                    out.push((k, c));
                    proof {
                        assert forall|q: int| 0 <= q < i + 1 implies (#[trigger] members_model(
                            out@,
                        )[q]) == members_model(members@)[q] by {
                            if q < i {
                                assert(members_model(out@)[q] == members_model(before)[q]);
                            }
                        }
                    }
                }
                proof {
                    assert(members_model(out@) =~= members_model(members@));
                }
                JsonValue::Object(out)
            },
        }
    }
}

/// The models of a sequence of values.
pub open spec fn items_model(items: Seq<JsonValue>) -> Seq<Json>
    decreases items,
{
    Seq::new(
        items.len(),
        |i: int|
            if 0 <= i < items.len() {
                items[i].model()
            } else {
                Json::Null
            },
    )
}

/// The models of a sequence of object members.
pub open spec fn members_model(members: Seq<(String, JsonValue)>) -> Seq<(Seq<char>, Json)>
    decreases members,
{
    Seq::new(
        members.len(),
        |i: int|
            if 0 <= i < members.len() {
                (members[i].0@, members[i].1.model())
            } else {
                (Seq::empty(), Json::Null)
            },
    )
}

// ---------------------------------------------------------------------------
// The order of keys: Rust orders `String`s by their UTF-8 bytes.
/// Lexicographic comparison of `a` and `b` from position `i` on.
pub open spec fn lex_less_from(a: Seq<u8>, b: Seq<u8>, i: nat) -> bool
    decreases a.len() - i,
{
    if i >= a.len() {
        i < b.len()
    } else if i >= b.len() {
        false
    } else if a[i as int] != b[i as int] {
        a[i as int] < b[i as int]
    } else {
        lex_less_from(a, b, i + 1)
    }
}

/// `a` comes strictly before `b` in lexicographic byte order.
pub open spec fn bytes_less(a: Seq<u8>, b: Seq<u8>) -> bool {
    lex_less_from(a, b, 0)
}

/// Key `a` sorts strictly before key `b` (by the UTF-8 encodings, as `String`'s `Ord` does).
pub open spec fn key_less(a: Seq<char>, b: Seq<char>) -> bool {
    bytes_less(encode_utf8(a), encode_utf8(b))
}

proof fn lemma_lex_irreflexive(a: Seq<u8>, i: nat)
    ensures
        !lex_less_from(a, a, i),
    decreases a.len() - i,
{
    if i < a.len() {
        lemma_lex_irreflexive(a, i + 1);
    }
}

proof fn lemma_lex_transitive(a: Seq<u8>, b: Seq<u8>, c: Seq<u8>, i: nat)
    requires
        lex_less_from(a, b, i),
        lex_less_from(b, c, i),
    ensures
        lex_less_from(a, c, i),
    decreases a.len() - i,
{
    if i < a.len() && i < b.len() && i < c.len() && a[i as int] == b[i as int] && b[i as int] == c[
        i as int] {
        lemma_lex_transitive(a, b, c, i + 1);
    }
}

proof fn lemma_lex_total(a: Seq<u8>, b: Seq<u8>, i: nat)
    requires
        i <= a.len(),
        i <= b.len(),
        forall|k: int| 0 <= k < i ==> a[k] == b[k],
        !lex_less_from(a, b, i),
        !lex_less_from(b, a, i),
    ensures
        a == b,
    decreases a.len() - i,
{
    if i < a.len() {
        lemma_lex_total(a, b, i + 1);
    } else {
        assert(a =~= b);
    }
}

/// `key_less` is irreflexive.
pub proof fn lemma_key_less_irreflexive(a: Seq<char>)
    ensures
        !key_less(a, a),
{
    lemma_lex_irreflexive(encode_utf8(a), 0);
}

/// `key_less` is transitive.
pub proof fn lemma_key_less_transitive(a: Seq<char>, b: Seq<char>, c: Seq<char>)
    requires
        key_less(a, b),
        key_less(b, c),
    ensures
        key_less(a, c),
{
    lemma_lex_transitive(encode_utf8(a), encode_utf8(b), encode_utf8(c), 0);
}

/// Two distinct keys are ordered one way or the other.
pub proof fn lemma_key_less_total(a: Seq<char>, b: Seq<char>)
    ensures
        a == b || key_less(a, b) || key_less(b, a),
{
    if !key_less(a, b) && !key_less(b, a) {
        lemma_lex_total(encode_utf8(a), encode_utf8(b), 0);
        encode_utf8_decode_utf8(a);
        encode_utf8_decode_utf8(b);
    }
}

/// `key_less` is asymmetric.
pub proof fn lemma_key_less_asymmetric(a: Seq<char>, b: Seq<char>)
    requires
        key_less(a, b),
    ensures
        !key_less(b, a),
{
    if key_less(b, a) {
        lemma_key_less_transitive(a, b, a);
        lemma_key_less_irreflexive(a);
    }
}

/// Whether `a` sorts strictly before `b`, comparing the UTF-8 bytes as `str`'s `Ord` does.
pub fn key_precedes(a: &str, b: &str) -> (r: bool)
    ensures
        r == key_less(a@, b@),
{
    let x = a.as_bytes();
    let y = b.as_bytes();
    let mut i: usize = 0;
    while i < x.len() && i < y.len() && x[i] == y[i]
        invariant
            i <= x.len(),
            i <= y.len(),
            x@ == encode_utf8(a@),
            y@ == encode_utf8(b@),
            bytes_less(x@, y@) == lex_less_from(x@, y@, i as nat),
        decreases x.len() - i,
    {
        i += 1;
    }
    if i < x.len() && i < y.len() {
        x[i] < y[i]
    } else {
        i == x.len() && i < y.len()
    }
}

/// Whether `a` and `b` are the same key.
pub fn same_key(a: &str, b: &str) -> (r: bool)
    ensures
        r == (a@ == b@),
{
    proof {
        lemma_key_less_total(a@, b@);
        lemma_key_less_irreflexive(a@);
    }
    !key_precedes(a, b) && !key_precedes(b, a)
}

// ---------------------------------------------------------------------------
// Shape predicates.
/// No two members of the object share a key.
pub open spec fn keys_distinct(m: Seq<(Seq<char>, Json)>) -> bool {
    forall|i: int, j: int|
        #![trigger m[i], m[j]]
        0 <= i < m.len() && 0 <= j < m.len() && i != j ==> m[i].0 != m[j].0
}

/// The members' keys strictly ascend.
pub open spec fn keys_ascending(m: Seq<(Seq<char>, Json)>) -> bool {
    forall|i: int, j: int| #![trigger m[i], m[j]] 0 <= i < j < m.len() ==> key_less(m[i].0, m[j].0)
}

/// Every object, at any depth, has distinct keys (as every parsed JSON object does).
pub open spec fn well_formed(j: Json) -> bool
    decreases j,
{
    match j {
        Json::Array(items) => forall|i: int| 0 <= i < items.len() ==> well_formed(#[trigger] items[i]),
        Json::Object(m) => keys_distinct(m) && forall|i: int|
            0 <= i < m.len() ==> well_formed(#[trigger] m[i].1),
        _ => true,
    }
}

/// Every object, at any depth, has its keys in ascending order.
pub open spec fn keys_sorted_everywhere(j: Json) -> bool
    decreases j,
{
    match j {
        Json::Array(items) => forall|i: int|
            0 <= i < items.len() ==> keys_sorted_everywhere(#[trigger] items[i]),
        Json::Object(m) => keys_ascending(m) && forall|i: int|
            0 <= i < m.len() ==> keys_sorted_everywhere(#[trigger] m[i].1),
        _ => true,
    }
}

/// Some member of `m` has key `k`.
pub open spec fn has_key(m: Seq<(Seq<char>, Json)>, k: Seq<char>) -> bool {
    exists|j: int| 0 <= j < m.len() && #[trigger] m[j].0 == k
}

/// The position of a member of `m` with key `k` (meaningful when `has_key(m, k)`).
pub open spec fn key_position(m: Seq<(Seq<char>, Json)>, k: Seq<char>) -> int {
    choose|j: int| 0 <= j < m.len() && #[trigger] m[j].0 == k
}

/// The value that `m` holds under key `k` (meaningful when `has_key(m, k)`).
pub open spec fn value_under(m: Seq<(Seq<char>, Json)>, k: Seq<char>) -> Json {
    m[key_position(m, k)].1
}

/// `a` and `b` hold the same data: equal scalars, arrays with the same content
/// element by element, and objects with the same keys whose values hold the same content,
/// whatever the order of the members.
pub open spec fn same_content(a: Json, b: Json) -> bool
    decreases a,
{
    match a {
        Json::Array(xs) => match b {
            Json::Array(ys) => xs.len() == ys.len() && forall|i: int|
                0 <= i < xs.len() ==> same_content(#[trigger] xs[i], ys[i]),
            _ => false,
        },
        Json::Object(ms) => match b {
            Json::Object(ns) => (forall|i: int|
                0 <= i < ms.len() ==> has_key(ns, (#[trigger] ms[i]).0) && same_content(
                    ms[i].1,
                    value_under(ns, ms[i].0),
                )) && (forall|j: int| 0 <= j < ns.len() ==> has_key(ms, (#[trigger] ns[j]).0)),
            _ => false,
        },
        _ => a == b,
    }
}

// ---------------------------------------------------------------------------
// Laws of the model.
/// Ascending keys are distinct keys.
pub proof fn lemma_ascending_distinct(m: Seq<(Seq<char>, Json)>)
    requires
        keys_ascending(m),
    ensures
        keys_distinct(m),
{
    assert forall|i: int, j: int|
        #![trigger m[i], m[j]]
        0 <= i < m.len() && 0 <= j < m.len() && i != j implies m[i].0 != m[j].0 by {
        if i < j {
            lemma_key_less_irreflexive(m[i].0);
        } else {
            lemma_key_less_irreflexive(m[j].0);
        }
    }
}

/// In a member list with distinct keys, the value under the key of member `i` is that
/// member's value.
pub proof fn lemma_value_under_member(m: Seq<(Seq<char>, Json)>, i: int)
    requires
        keys_distinct(m),
        0 <= i < m.len(),
    ensures
        has_key(m, m[i].0),
        key_position(m, m[i].0) == i,
        value_under(m, m[i].0) == m[i].1,
{
    assert(has_key(m, m[i].0));
    let j = key_position(m, m[i].0);
    assert(m[j].0 == m[i].0);
}

/// Inserting a member with a new key keeps every other key and the value under it.
pub proof fn lemma_value_under_insert(
    m: Seq<(Seq<char>, Json)>,
    p: int,
    x: (Seq<char>, Json),
    k: Seq<char>,
)
    requires
        0 <= p <= m.len(),
        keys_distinct(m.insert(p, x)),
        has_key(m, k),
    ensures
        has_key(m.insert(p, x), k),
        value_under(m.insert(p, x), k) == value_under(m, k),
{
    let m2 = m.insert(p, x);
    let q = key_position(m, k);
    let q2 = if q < p {
        q
    } else {
        q + 1
    };
    assert(m2[q2] == m[q]);
    lemma_value_under_member(m2, q2);
}

/// The elements of a well-formed array are well formed.
pub proof fn lemma_well_formed_element(items: Seq<Json>, i: int)
    requires
        well_formed(Json::Array(items)),
        0 <= i < items.len(),
    ensures
        well_formed(items[i]),
{
    let a = Json::Array(items);
    assert(a->Array_0 == items);
    assert(well_formed(a->Array_0[i]));
}

/// What well-formedness of an array means.
pub proof fn lemma_well_formed_array(items: Seq<Json>)
    ensures
        well_formed(Json::Array(items)) <==> forall|i: int|
            0 <= i < items.len() ==> well_formed(#[trigger] items[i]),
{
    let a = Json::Array(items);
    assert(a->Array_0 == items);
    if well_formed(a) {
        assert forall|i: int| 0 <= i < items.len() implies well_formed(#[trigger] items[i]) by {
            assert(well_formed(a->Array_0[i]));
        }
    }
}

/// What well-formedness of an object means.
pub proof fn lemma_well_formed_object(m: Seq<(Seq<char>, Json)>)
    ensures
        well_formed(Json::Object(m)) <==> keys_distinct(m) && forall|i: int|
            0 <= i < m.len() ==> well_formed(#[trigger] m[i].1),
{
    let a = Json::Object(m);
    assert(a->Object_0 == m);
    if well_formed(a) {
        assert forall|i: int| 0 <= i < m.len() implies well_formed(#[trigger] m[i].1) by {
            assert(well_formed(a->Object_0[i].1));
        }
    }
}

/// Whether every object in `value`, at any depth, has distinct keys.
pub fn is_well_formed(value: &JsonValue) -> (r: bool)
    ensures
        r == well_formed(value.model()),
    decreases value,
{
    match value {
        JsonValue::Array(items) => {
            let ghost xs = items_model(items@);
            proof {
                lemma_well_formed_array(xs);
            }
            let n = items.len();
            for i in 0..n
                invariant
                    n == items.len(),
                    xs == items_model(items@),
                    *value == JsonValue::Array(*items),
                    forall|q: int| 0 <= q < i ==> well_formed(#[trigger] xs[q]),
            {
                assert(decreases_to!(*value => items@[i as int])) by {
                    assert((*value)->Array_0 == *items);
                    assert(decreases_to!(*value => (*value)->Array_0));
                    assert(decreases_to!(*items => items@));
                }
                assert(xs[i as int] == items@[i as int].model());
                if !is_well_formed(&items[i]) {
                    proof {
                        lemma_well_formed_array(xs);
                        assert(value.model() == Json::Array(xs));
                    }
                    return false;
                }
            }
            true
        },
        JsonValue::Object(members) => {
            let ghost mm = members_model(members@);
            proof {
                lemma_well_formed_object(mm);
            }
            let n = members.len();
            for i in 0..n
                invariant
                    n == members.len(),
                    mm == members_model(members@),
                    *value == JsonValue::Object(*members),
                    forall|a: int, b: int|
                        #![trigger mm[a], mm[b]]
                        0 <= a < i && 0 <= b < i && a != b ==> mm[a].0 != mm[b].0,
                    forall|q: int| 0 <= q < i ==> well_formed(#[trigger] mm[q].1),
            {
                for j in 0..i
                    invariant
                        j <= i < n,
                        n == members.len(),
                        mm == members_model(members@),
                        *value == JsonValue::Object(*members),
                        forall|b: int| 0 <= b < j ==> (#[trigger] mm[b]).0 != mm[i as int].0,
                {
                    if same_key(members[i].0.as_str(), members[j].0.as_str()) {
                        proof {
                            assert(mm[i as int].0 == mm[j as int].0);
                            assert(!keys_distinct(mm));
                            lemma_well_formed_object(mm);
                            assert(value.model() == Json::Object(mm));
                        }
                        return false;
                    }
                }
                assert(decreases_to!(*value => members@[i as int].1)) by {
                    assert((*value)->Object_0 == *members);
                    assert(decreases_to!(*value => (*value)->Object_0));
                    assert(decreases_to!(*members => members@));
                    assert(decreases_to!(members@ => members@[i as int]));
                }
                assert(mm[i as int].1 == members@[i as int].1.model());
                if !is_well_formed(&members[i].1) {
                    proof {
                        lemma_well_formed_object(mm);
                        assert(value.model() == Json::Object(mm));
                    }
                    return false;
                }
            }
            true
        },
        _ => true,
    }
}

/// A value whose keys are sorted everywhere is well formed.
pub proof fn lemma_sorted_is_well_formed(a: Json)
    requires
        keys_sorted_everywhere(a),
    ensures
        well_formed(a),
    decreases a,
{
    match a {
        Json::Array(items) => {
            assert forall|i: int| 0 <= i < items.len() implies well_formed(#[trigger] items[i]) by {
                lemma_sorted_is_well_formed(items[i]);
            }
        },
        Json::Object(m) => {
            lemma_ascending_distinct(m);
            assert forall|i: int| 0 <= i < m.len() implies well_formed(#[trigger] m[i].1) by {
                lemma_sorted_is_well_formed(m[i].1);
            }
        },
        _ => {},
    }
}

/// A well-formed value holds the same content as itself.
pub proof fn lemma_same_content_reflexive(a: Json)
    requires
        well_formed(a),
    ensures
        same_content(a, a),
    decreases a,
{
    match a {
        Json::Array(xs) => {
            assert forall|i: int| 0 <= i < xs.len() implies same_content(#[trigger] xs[i], xs[i]) by {
                lemma_same_content_reflexive(xs[i]);
            }
        },
        Json::Object(ms) => {
            assert forall|i: int| 0 <= i < ms.len() implies has_key(ms, (#[trigger] ms[i]).0)
                && same_content(ms[i].1, value_under(ms, ms[i].0)) by {
                lemma_value_under_member(ms, i);
                lemma_same_content_reflexive(ms[i].1);
            }
        },
        _ => {},
    }
}

/// Holding the same content is symmetric on well-formed values.
pub proof fn lemma_same_content_symmetric(a: Json, b: Json)
    requires
        well_formed(a),
        well_formed(b),
        same_content(a, b),
    ensures
        same_content(b, a),
    decreases a,
{
    match a {
        Json::Array(xs) => {
            let ys = b->Array_0;
            assert forall|i: int| 0 <= i < ys.len() implies same_content(#[trigger] ys[i], xs[i]) by {
                assert(same_content(xs[i], ys[i]));
                lemma_same_content_symmetric(xs[i], ys[i]);
            }
        },
        Json::Object(ms) => {
            let ns = b->Object_0;
            assert forall|j: int| 0 <= j < ns.len() implies has_key(ms, (#[trigger] ns[j]).0)
                && same_content(ns[j].1, value_under(ms, ns[j].0)) by {
                assert(has_key(ms, ns[j].0));
                let i = key_position(ms, ns[j].0);
                assert(has_key(ns, ms[i].0) && same_content(ms[i].1, value_under(ns, ms[i].0)));
                lemma_value_under_member(ns, j);
                lemma_same_content_symmetric(ms[i].1, ns[j].1);
            }
            assert forall|i: int| 0 <= i < ms.len() implies has_key(ns, (#[trigger] ms[i]).0) by {
                assert(has_key(ns, ms[i].0));
            }
        },
        _ => {},
    }
}

/// Holding the same content is transitive.
pub proof fn lemma_same_content_transitive(a: Json, b: Json, c: Json)
    requires
        same_content(a, b),
        same_content(b, c),
    ensures
        same_content(a, c),
    decreases a,
{
    match a {
        Json::Array(xs) => {
            let ys = b->Array_0;
            let zs = c->Array_0;
            assert forall|i: int| 0 <= i < xs.len() implies same_content(#[trigger] xs[i], zs[i]) by {
                assert(same_content(xs[i], ys[i]));
                assert(same_content(ys[i], zs[i]));
                lemma_same_content_transitive(xs[i], ys[i], zs[i]);
            }
        },
        Json::Object(ms) => {
            let ns = b->Object_0;
            let ps = c->Object_0;
            assert forall|i: int| 0 <= i < ms.len() implies has_key(ps, (#[trigger] ms[i]).0)
                && same_content(ms[i].1, value_under(ps, ms[i].0)) by {
                assert(has_key(ns, ms[i].0) && same_content(ms[i].1, value_under(ns, ms[i].0)));
                let j = key_position(ns, ms[i].0);
                assert(has_key(ps, ns[j].0) && same_content(ns[j].1, value_under(ps, ns[j].0)));
                lemma_same_content_transitive(ms[i].1, ns[j].1, value_under(ps, ns[j].0));
            }
            assert forall|k: int| 0 <= k < ps.len() implies has_key(ms, (#[trigger] ps[k]).0) by {
                assert(has_key(ns, ps[k].0));
                let j = key_position(ns, ps[k].0);
                assert(has_key(ms, ns[j].0));
            }
        },
        _ => {},
    }
}

/// Two member lists with ascending keys and the same set of keys have the same keys,
/// position by position.
pub proof fn lemma_ascending_keys_align(ms: Seq<(Seq<char>, Json)>, ns: Seq<(Seq<char>, Json)>)
    requires
        keys_ascending(ms),
        keys_ascending(ns),
        forall|i: int| 0 <= i < ms.len() ==> has_key(ns, (#[trigger] ms[i]).0),
        forall|j: int| 0 <= j < ns.len() ==> has_key(ms, (#[trigger] ns[j]).0),
    ensures
        ms.len() == ns.len(),
        forall|i: int| 0 <= i < ms.len() ==> (#[trigger] ms[i]).0 == ns[i].0,
    decreases ms.len(),
{
    if ms.len() == 0 {
        if ns.len() > 0 {
            assert(has_key(ms, ns[0].0));
        }
    } else if ns.len() == 0 {
        assert(has_key(ns, ms[0].0));
    } else {
        assert(has_key(ns, ms[0].0));
        assert(has_key(ms, ns[0].0));
        let j0 = key_position(ns, ms[0].0);
        let i0 = key_position(ms, ns[0].0);
        if j0 > 0 {
            assert(key_less(ns[0].0, ns[j0].0));
            if i0 > 0 {
                assert(key_less(ms[0].0, ms[i0].0));
                lemma_key_less_asymmetric(ms[0].0, ms[i0].0);
            } else {
                lemma_key_less_irreflexive(ms[0].0);
            }
        }
        assert(ms[0].0 == ns[0].0);
        let ms2 = ms.drop_first();
        let ns2 = ns.drop_first();
        assert forall|i: int| 0 <= i < ms2.len() implies has_key(ns2, (#[trigger] ms2[i]).0) by {
            assert(ms2[i] == ms[i + 1]);
            assert(has_key(ns, ms[i + 1].0));
            let j = key_position(ns, ms[i + 1].0);
            assert(key_less(ms[0].0, ms[i + 1].0));
            if j == 0 {
                lemma_key_less_irreflexive(ms[0].0);
            }
            assert(ns2[j - 1] == ns[j]);
        }
        assert forall|j: int| 0 <= j < ns2.len() implies has_key(ms2, (#[trigger] ns2[j]).0) by {
            assert(ns2[j] == ns[j + 1]);
            assert(has_key(ms, ns[j + 1].0));
            let i = key_position(ms, ns[j + 1].0);
            assert(key_less(ns[0].0, ns[j + 1].0));
            if i == 0 {
                lemma_key_less_irreflexive(ns[0].0);
            }
            assert(ms2[i - 1] == ms[i]);
        }
        lemma_ascending_keys_align(ms2, ns2);
        assert forall|i: int| 0 <= i < ms.len() implies (#[trigger] ms[i]).0 == ns[i].0 by {
            if i > 0 {
                assert(ms2[i - 1] == ms[i]);
                assert(ns2[i - 1] == ns[i]);
            }
        }
    }
}

/// The sorted form is unique: two values whose keys are sorted everywhere and which hold
/// the same content are the same value.
pub proof fn lemma_sorted_form_unique(a: Json, b: Json)
    requires
        keys_sorted_everywhere(a),
        keys_sorted_everywhere(b),
        same_content(a, b),
    ensures
        a == b,
    decreases a,
{
    match a {
        Json::Array(xs) => {
            let ys = b->Array_0;
            assert forall|i: int| 0 <= i < xs.len() implies xs[i] == ys[i] by {
                assert(same_content(xs[i], ys[i]));
                assert(keys_sorted_everywhere(xs[i]));
                assert(keys_sorted_everywhere(ys[i]));
                lemma_sorted_form_unique(xs[i], ys[i]);
            }
            assert(xs =~= ys);
        },
        Json::Object(ms) => {
            let ns = b->Object_0;
            lemma_ascending_keys_align(ms, ns);
            lemma_ascending_distinct(ns);
            assert forall|i: int| 0 <= i < ms.len() implies ms[i] == ns[i] by {
                assert(has_key(ns, ms[i].0) && same_content(ms[i].1, value_under(ns, ms[i].0)));
                assert(ms[i].0 == ns[i].0);
                lemma_value_under_member(ns, i);
                assert(keys_sorted_everywhere(ms[i].1));
                assert(keys_sorted_everywhere(ns[i].1));
                lemma_sorted_form_unique(ms[i].1, ns[i].1);
            }
            assert(ms =~= ns);
        },
        _ => {},
    }
}

} // verus!
