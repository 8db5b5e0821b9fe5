//! The three key orderings of a JSON value: sorted, preserved, and shuffled.
use vstd::prelude::*;
use crate::json::{
    Json, JsonValue, items_model, members_model, well_formed, keys_sorted_everywhere,
    keys_ascending, keys_distinct, same_content, has_key, value_under, lemma_ascending_distinct,
    lemma_value_under_member, lemma_value_under_insert, lemma_sorted_is_well_formed,
    lemma_same_content_symmetric, lemma_same_content_transitive, lemma_sorted_form_unique,
};
use crate::sorted_object::{insert_sorted, lemma_members_model_insert};
use crate::ordered_map::{
    index_map_entries, entries_have_key, ordered_map_new, ordered_map_insert,
    ordered_map_into_members,
};
use crate::random::{shuffle_positions, positions_up_to, holds_position, lemma_reordered_positions};
use rand::rngs::StdRng;

verus! {

/// Recursively sort all keys in a JSON value alphabetically.
/// For objects, sorts keys and recurses into nested values.
/// For arrays, recurses into each element.
///
/// The result holds the same content as `value`, with the keys of every object in
/// ascending order; a value that is sorted already comes back unchanged.
pub fn sort_keys_recursive(value: &JsonValue) -> (r: JsonValue)
    requires
        well_formed(value.model()),
    ensures
        keys_sorted_everywhere(r.model()),
        same_content(value.model(), r.model()),
        keys_sorted_everywhere(value.model()) ==> r.model() == value.model(),
    decreases value,
{
    let r = match value {
        JsonValue::Object(members) => {
            let n = members.len();
            let ghost mm = members_model(members@);
            let mut sorted: Vec<(String, JsonValue)> = Vec::new();
            for i in 0..n
                invariant
                    n == members.len(),
                    mm == members_model(members@),
                    well_formed(value.model()),
                    *value == JsonValue::Object(*members),
                    sorted.len() == i,
                    keys_ascending(members_model(sorted@)),
                    forall|q: int|
                        0 <= q < sorted.len() ==> keys_sorted_everywhere(
                            (#[trigger] members_model(sorted@)[q]).1,
                        ),
                    forall|q: int|
                        0 <= q < sorted.len() ==> has_key(
                            mm.take(i as int),
                            (#[trigger] members_model(sorted@)[q]).0,
                        ),
                    forall|k: int|
                        0 <= k < i ==> has_key(members_model(sorted@), (#[trigger] mm[k]).0)
                            && same_content(mm[k].1, value_under(members_model(sorted@), mm[k].0)),
            {
                assert(mm[i as int].1 == members@[i as int].1.model());
                assert(decreases_to!(*value => members@[i as int].1)) by {
                    assert(decreases_to!(*members => members@));
                    assert(decreases_to!(members@ => members@[i as int]));
                }
                let child = sort_keys_recursive(&members[i].1);
                let key = members[i].0.clone();
                let ghost before = sorted@;
                let ghost s = members_model(before);
                proof {
                    assert(!has_key(s, key@)) by {
                        if has_key(s, key@) {
                            let q = crate::json::key_position(s, key@);
                            assert(has_key(mm.take(i as int), s[q].0));
                            let k = crate::json::key_position(mm.take(i as int), key@);
                            assert(mm.take(i as int)[k] == mm[k]);
                            assert(mm[k].0 == mm[i as int].0);
                        }
                    }
                }
                insert_sorted(&mut sorted, key, child);
                proof {
                    let p = choose|p: int|
                        0 <= p <= before.len() && sorted@ == before.insert(p, (key, child));
                    lemma_members_model_insert(before, p, (key, child));
                    let s2 = members_model(sorted@);
                    assert(s2 == s.insert(p, (key@, child.model())));
                    lemma_ascending_distinct(s2);
                    assert forall|q: int| 0 <= q < sorted.len() implies keys_sorted_everywhere(
                        (#[trigger] s2[q]).1,
                    ) by {
                        if q < p {
                            assert(s2[q] == s[q]);
                        } else if q > p {
                            assert(s2[q] == s[q - 1]);
                        }
                    }
                    assert forall|q: int| 0 <= q < sorted.len() implies has_key(
                        mm.take(i + 1),
                        (#[trigger] s2[q]).0,
                    ) by {
                        if q == p {
                            assert(mm.take(i + 1)[i as int] == mm[i as int]);
                        } else {
                            let q0 = if q < p {
                                q
                            } else {
                                q - 1
                            };
                            assert(s2[q] == s[q0]);
                            assert(has_key(mm.take(i as int), s[q0].0));
                            let k = crate::json::key_position(mm.take(i as int), s[q0].0);
                            assert(mm.take(i + 1)[k] == mm.take(i as int)[k]);
                        }
                    }
                    assert forall|k: int| 0 <= k < i + 1 implies has_key(s2, (#[trigger] mm[k]).0)
                        && same_content(mm[k].1, value_under(s2, mm[k].0)) by {
                        if k < i {
                            lemma_value_under_insert(s, p, (key@, child.model()), mm[k].0);
                        } else {
                            assert(s2[p] == (key@, child.model()));
                            lemma_value_under_member(s2, p);
                        }
                    }
                }
            }
            proof {
                let s = members_model(sorted@);
                assert(mm.take(n as int) == mm);
                assert forall|q: int| 0 <= q < s.len() implies has_key(mm, (#[trigger] s[q]).0) by {
                    assert(has_key(mm.take(n as int), s[q].0));
                }
                assert(value.model() == Json::Object(mm));
                assert(JsonValue::Object(sorted).model() == Json::Object(s));
                assert(same_content(Json::Object(mm), Json::Object(s)));
                assert(keys_sorted_everywhere(Json::Object(s)));
            }
            JsonValue::Object(sorted)
        },
        JsonValue::Array(items) => {
            let n = items.len();
            let ghost xs = items_model(items@);
            let mut out: Vec<JsonValue> = Vec::new();
            for i in 0..n
                invariant
                    n == items.len(),
                    xs == items_model(items@),
                    well_formed(value.model()),
                    *value == JsonValue::Array(*items),
                    out.len() == i,
                    forall|q: int|
                        0 <= q < i ==> keys_sorted_everywhere((#[trigger] items_model(out@)[q]))
                            && same_content(xs[q], items_model(out@)[q]),
            {
                assert(xs[i as int] == items@[i as int].model());
                assert(value.model() == Json::Array(xs));
                proof {
                    crate::json::lemma_well_formed_element(xs, i as int);
                }
                assert(decreases_to!(*value => items@[i as int])) by {
                    assert(decreases_to!(*items => items@));
                }
                let child = sort_keys_recursive(&items[i]);
                let ghost before = out@;
                out.push(child);
                proof {
                    assert forall|q: int| 0 <= q < i + 1 implies keys_sorted_everywhere(
                        (#[trigger] items_model(out@)[q]),
                    ) && same_content(xs[q], items_model(out@)[q]) by {
                        if q < i {
                            assert(items_model(out@)[q] == items_model(before)[q]);
                        }
                    }
                }
            }
            proof {
                let ys = items_model(out@);
                assert(value.model() == Json::Array(xs));
                assert(JsonValue::Array(out).model() == Json::Array(ys));
                assert(same_content(Json::Array(xs), Json::Array(ys)));
                assert(keys_sorted_everywhere(Json::Array(ys)));
            }
            JsonValue::Array(out)
        },
        JsonValue::Null => JsonValue::Null,
        JsonValue::Bool(b) => JsonValue::Bool(*b),
        JsonValue::Number(n) => JsonValue::Number(n.duplicate()),
        JsonValue::Str(s) => JsonValue::Str(s.clone()),
    };
    proof {
        if keys_sorted_everywhere(value.model()) {
            lemma_sorted_form_unique(value.model(), r.model());
        }
    }
    r
}

/// Recursively preserve original key ordering (for arrays, need to recurse).
/// This ensures arrays with nested objects are properly handled.
///
/// The result is `value` itself, rebuilt through an insertion-ordered map.
pub fn preserve_keys_recursive(value: &JsonValue) -> (r: JsonValue)
    requires
        well_formed(value.model()),
    ensures
        r.model() == value.model(),
    decreases value,
{
    match value {
        JsonValue::Object(members) => {
            let n = members.len();
            let ghost mm = members_model(members@);
            let mut preserved = ordered_map_new();
            for i in 0..n
                invariant
                    n == members.len(),
                    mm == members_model(members@),
                    well_formed(value.model()),
                    *value == JsonValue::Object(*members),
                    index_map_entries(preserved).len() == i,
                    forall|q: int|
                        0 <= q < i ==> (#[trigger] index_map_entries(preserved)[q]).0@ == mm[q].0
                            && index_map_entries(preserved)[q].1.model() == mm[q].1,
            {
                assert(mm[i as int].1 == members@[i as int].1.model());
                assert(decreases_to!(*value => members@[i as int].1)) by {
                    assert(decreases_to!(*members => members@));
                    assert(decreases_to!(members@ => members@[i as int]));
                }
                let child = preserve_keys_recursive(&members[i].1);
                let key = members[i].0.clone();
                let ghost before = index_map_entries(preserved);
                proof {
                    assert(keys_distinct(mm));
                    if entries_have_key(before, key@) {
                        let q = choose|q: int|
                            0 <= q < before.len() && #[trigger] before[q].0@ == key@;
                        assert(mm[q].0 == mm[i as int].0);
                    }
                }
                ordered_map_insert(&mut preserved, key, child);
                proof {
                    assert forall|q: int| 0 <= q < i + 1 implies (#[trigger] index_map_entries(
                        preserved,
                    )[q]).0@ == mm[q].0 && index_map_entries(preserved)[q].1.model() == mm[q].1 by {
                        if q < i {
                            assert(index_map_entries(preserved)[q] == before[q]);
                        }
                    }
                }
            }
            let out = ordered_map_into_members(preserved);
            proof {
                assert(members_model(out@) =~= mm);
            }
            JsonValue::Object(out)
        },
        JsonValue::Array(items) => {
            let n = items.len();
            let ghost xs = items_model(items@);
            let mut out: Vec<JsonValue> = Vec::new();
            for i in 0..n
                invariant
                    n == items.len(),
                    xs == items_model(items@),
                    well_formed(value.model()),
                    *value == JsonValue::Array(*items),
                    out.len() == i,
                    forall|q: int| 0 <= q < i ==> (#[trigger] items_model(out@)[q]) == xs[q],
            {
                assert(xs[i as int] == items@[i as int].model());
                assert(value.model() == Json::Array(xs));
                proof {
                    crate::json::lemma_well_formed_element(xs, i as int);
                }
                assert(decreases_to!(*value => items@[i as int])) by {
                    assert(decreases_to!(*items => items@));
                }
                let child = preserve_keys_recursive(&items[i]);
                let ghost before = out@;
                out.push(child);
                proof {
                    assert forall|q: int| 0 <= q < i + 1 implies (#[trigger] items_model(out@)[q])
                        == xs[q] by {
                        if q < i {
                            assert(items_model(out@)[q] == items_model(before)[q]);
                        }
                    }
                }
            }
            proof {
                assert(items_model(out@) =~= xs);
            }
            JsonValue::Array(out)
        },
        JsonValue::Null => JsonValue::Null,
        JsonValue::Bool(b) => JsonValue::Bool(*b),
        JsonValue::Number(n) => JsonValue::Number(n.duplicate()),
        JsonValue::Str(s) => JsonValue::Str(s.clone()),
    }
}

/// The object whose member at position `q` has the key of member `order[q]` of `members`
/// and the value `values[q]`, built through an insertion-ordered map.
pub fn object_in_order(
    members: &Vec<(String, JsonValue)>,
    order: &Vec<usize>,
    values: Vec<JsonValue>,
) -> (r: JsonValue)
    requires
        keys_distinct(members_model(members@)),
        order@.no_duplicates(),
        forall|q: int| 0 <= q < order.len() ==> #[trigger] order@[q] < members.len(),
        values.len() == order.len(),
    ensures
        r.model() == Json::Object(
            Seq::new(
                order.len() as nat,
                |q: int| (members_model(members@)[order@[q] as int].0, values@[q].model()),
            ),
        ),
{
    let n = order.len();
    let ghost mm = members_model(members@);
    let ghost given = values@;
    // Take the values out last first, then hand them on first first.
    let mut rest = values;
    let mut reversed: Vec<JsonValue> = Vec::new();
    while rest.len() > 0
        invariant
            n == given.len(),
            rest@ == given.take(rest.len() as int),
            reversed.len() + rest.len() == n,
            forall|k: int| 0 <= k < reversed.len() ==> #[trigger] reversed@[k] == given[n - 1 - k],
        decreases rest.len(),
    {
        let ghost before = reversed@;
        let v = rest.pop().unwrap();
        reversed.push(v);
        proof {
            assert(rest@ =~= given.take(rest.len() as int));
            assert forall|k: int| 0 <= k < reversed.len() implies #[trigger] reversed@[k] == given[n
                - 1 - k] by {
                if k < before.len() {
                    assert(reversed@[k] == before[k]);
                }
            }
        }
    }
    let mut map = ordered_map_new();
    for p in 0..n
        invariant
            n == order.len(),
            n == given.len(),
            mm == members_model(members@),
            keys_distinct(mm),
            order@.no_duplicates(),
            forall|q: int| 0 <= q < n ==> #[trigger] order@[q] < members.len(),
            reversed.len() == n - p,
            forall|k: int| 0 <= k < reversed.len() ==> #[trigger] reversed@[k] == given[n - 1 - k],
            index_map_entries(map).len() == p,
            forall|q: int|
                0 <= q < p ==> #[trigger] members_model(index_map_entries(map))[q] == (
                    mm[order@[q] as int].0,
                    given[q].model(),
                ),
    {
        let idx = order[p];
        assert(reversed@[reversed.len() - 1] == given[p as int]);
        let v = reversed.pop().unwrap();
        let key = members[idx].0.clone();
        let ghost before = index_map_entries(map);
        proof {
            assert(mm[idx as int].0 == key@);
            if entries_have_key(before, key@) {
                let q = choose|q: int| 0 <= q < before.len() && #[trigger] before[q].0@ == key@;
                assert(members_model(before)[q].0 == mm[order@[q] as int].0);
                assert(order@[q] != order@[p as int]);
            }
        }
        ordered_map_insert(&mut map, key, v);
        proof {
            let after = members_model(index_map_entries(map));
            assert forall|q: int| 0 <= q < p + 1 implies #[trigger] after[q] == (
                mm[order@[q] as int].0,
                given[q].model(),
            ) by {
                if q < p {
                    assert(index_map_entries(map)[q] == before[q]);
                    assert(members_model(before)[q] == (mm[order@[q] as int].0, given[q].model()));
                }
            }
        }
    }
    let out = ordered_map_into_members(map);
    proof {
        assert(members_model(out@) =~= Seq::new(
            n as nat,
            |q: int| (mm[order@[q] as int].0, given[q].model()),
        ));
    }
    JsonValue::Object(out)
}

/// No object in `j`, at any depth, has two or more members: shuffling the keys of its objects
/// draws nothing from the generator.
pub open spec fn draws_nothing(j: Json) -> bool
    decreases j,
{
    match j {
        Json::Array(items) => forall|i: int|
            0 <= i < items.len() ==> draws_nothing(#[trigger] items[i]),
        Json::Object(m) => m.len() <= 1 && forall|i: int|
            0 <= i < m.len() ==> draws_nothing(#[trigger] m[i].1),
        _ => true,
    }
}

/// Exactly one object in `j`, at any depth, has two or more members: shuffling the keys of its
/// objects makes exactly one shuffle that draws from the generator.
pub open spec fn draws_once(j: Json) -> bool
    decreases j,
{
    match j {
        Json::Array(items) => exists|k: int|
            0 <= k < items.len() && draws_once(#[trigger] items[k]) && forall|i: int|
                0 <= i < items.len() && i != k ==> draws_nothing(#[trigger] items[i]),
        Json::Object(m) => (m.len() >= 2 && forall|i: int|
            0 <= i < m.len() ==> draws_nothing(#[trigger] m[i].1)) || (m.len() == 1 && draws_once(
            m[0].1,
        )),
        _ => false,
    }
}

/// Recursively randomize all keys in a JSON value.
/// For objects, shuffles keys and recurses into nested values.
/// For arrays, recurses into each element.
///
/// Whatever order the generator picks, the result holds the same content as `value`. Every
/// object at every depth, array elements included, is shuffled from the one generator: where
/// no object has two or more members nothing is drawn and the generator is left as it was, and
/// where exactly one has, its shuffle draws and the generator is moved on.
pub fn randomize_keys_recursive(value: &JsonValue, rng: &mut StdRng) -> (r: JsonValue)
    requires
        well_formed(value.model()),
    ensures
        well_formed(r.model()),
        same_content(value.model(), r.model()),
        !(value is Array || value is Object) ==> r.model() == value.model() && *final(rng) == *old(
            rng,
        ),
        draws_nothing(value.model()) ==> *final(rng) == *old(rng),
        draws_once(value.model()) ==> *final(rng) != *old(rng),
    decreases value,
{
    let ghost s0 = *rng;
    assert(s0 == *old(rng));
    match value {
        JsonValue::Object(members) => {
            let n = members.len();
            let ghost mm = members_model(members@);
            let mut order: Vec<usize> = Vec::new();
            for i in 0..n
                invariant
                    order@ == positions_up_to(i as nat),
            {
                order.push(i);
                assert(order@ =~= positions_up_to((i + 1) as nat));
            }
            assert(order@.len() == n);
            shuffle_positions(&mut order, rng);
            let ghost s1 = *rng;
            proof {
                lemma_reordered_positions(order@, n as nat);
            }
            let mut children: Vec<JsonValue> = Vec::new();
            for p in 0..n
                invariant
                    (forall|i: int| 0 <= i < n ==> draws_nothing(#[trigger] mm[i].1)) ==> *rng == s1,
                    n == 1 && p == 1 && draws_once(mm[0].1) ==> *rng != s1,
                    p == 0 ==> *rng == s1,
                    n <= 1 ==> s1 == s0,
                    n >= 2 ==> s1 != s0,
                    n == members.len(),
                    mm == members_model(members@),
                    well_formed(value.model()),
                    *value == JsonValue::Object(*members),
                    order.len() == n,
                    order@.no_duplicates(),
                    forall|q: int| 0 <= q < n ==> #[trigger] order@[q] < n,
                    children.len() == p,
                    forall|q: int|
                        0 <= q < p ==> same_content(
                            mm[order@[q] as int].1,
                            (#[trigger] children@[q]).model(),
                        ) && well_formed(children@[q].model()),
            {
                let idx = order[p];
                assert(idx < n);
                assert(mm[idx as int].1 == members@[idx as int].1.model());
                assert(decreases_to!(*value => members@[idx as int].1)) by {
                    assert(decreases_to!(*members => members@));
                    assert(decreases_to!(members@ => members@[idx as int]));
                }
                let ghost before_child = *rng;
                let child = randomize_keys_recursive(&members[idx].1, rng);
                proof {
                    if n == 1 {
                        assert(idx == 0);
                    }
                }
                let ghost before = children@;
                children.push(child);
                proof {
                    assert forall|q: int| 0 <= q < p + 1 implies same_content(
                        mm[order@[q] as int].1,
                        (#[trigger] children@[q]).model(),
                    ) && well_formed(children@[q].model()) by {
                        if q < p {
                            assert(children@[q] == before[q]);
                        }
                    }
                }
            }
            let ghost kids = children@;
            proof {
                assert(keys_distinct(mm));
                assert(value.model() == Json::Object(mm));
                if n == 0 {
                    assert(*rng == s1);
                }
                assert(mm.len() == n);
                if draws_nothing(Json::Object(mm)) {
                    assert(n <= 1);
                    assert(forall|i: int| 0 <= i < n ==> draws_nothing(#[trigger] mm[i].1));
                    assert(*rng == s1);
                    assert(s1 == s0);
                }
                if draws_once(Json::Object(mm)) {
                    if n >= 2 {
                        assert(forall|i: int| 0 <= i < n ==> draws_nothing(#[trigger] mm[i].1));
                        assert(*rng == s1);
                    } else {
                        assert(n == 1);
                        assert(draws_once(mm[0].1));
                        assert(*rng != s1);
                    }
                }
            }
            let out = object_in_order(members, &order, children);
            proof {
                let rm = out.model()->Object_0;
                assert(rm.len() == n);
                assert forall|q: int| 0 <= q < n implies #[trigger] rm[q] == (
                    mm[order@[q] as int].0,
                    kids[q].model(),
                ) by {}
                assert forall|a: int, b: int|
                    #![trigger rm[a], rm[b]]
                    0 <= a < rm.len() && 0 <= b < rm.len() && a != b implies rm[a].0 != rm[b].0 by {
                    assert(rm[a] == (mm[order@[a] as int].0, kids[a].model()));
                    assert(rm[b] == (mm[order@[b] as int].0, kids[b].model()));
                    assert(order@[a] != order@[b]);
                }
                assert forall|q: int| 0 <= q < rm.len() implies well_formed(#[trigger] rm[q].1) by {
                    assert(rm[q] == (mm[order@[q] as int].0, kids[q].model()));
                }
                assert forall|i: int| 0 <= i < mm.len() implies has_key(rm, (#[trigger] mm[i]).0)
                    && same_content(mm[i].1, value_under(rm, mm[i].0)) by {
                    assert(holds_position(order@, i));
                    let q = choose|q: int| 0 <= q < order@.len() && #[trigger] order@[q] == i;
                    assert(rm[q] == (mm[order@[q] as int].0, kids[q].model()));
                    assert(rm[q].0 == mm[i].0);
                    lemma_value_under_member(rm, q);
                }
                assert forall|q: int| 0 <= q < rm.len() implies has_key(mm, (#[trigger] rm[q]).0) by {
                    assert(rm[q] == (mm[order@[q] as int].0, kids[q].model()));
                    let i = order@[q] as int;
                    assert(mm[i].0 == rm[q].0);
                }
                assert(value.model() == Json::Object(mm));
                assert(same_content(Json::Object(mm), Json::Object(rm)));
                assert(well_formed(Json::Object(rm)));
            }
            proof {
                if draws_nothing(value.model()) {
                    assert(*rng == s0);
                }
                if draws_once(value.model()) {
                    assert(*rng != s0);
                }
            }
            out
        },
        JsonValue::Array(items) => {
            let n = items.len();
            let ghost xs = items_model(items@);
            let mut out: Vec<JsonValue> = Vec::new();
            for i in 0..n
                invariant
                    n == items.len(),
                    xs == items_model(items@),
                    well_formed(value.model()),
                    *value == JsonValue::Array(*items),
                    out.len() == i,
                    forall|q: int|
                        0 <= q < i ==> well_formed((#[trigger] items_model(out@)[q]))
                            && same_content(xs[q], items_model(out@)[q]),
                    (forall|q: int| 0 <= q < i ==> draws_nothing(#[trigger] xs[q])) ==> *rng == s0,
                    forall|k: int|
                        0 <= k < i && draws_once(#[trigger] xs[k]) && (forall|q: int|
                            0 <= q < i && q != k ==> draws_nothing(#[trigger] xs[q])) ==> *rng != s0,
            {
                assert(xs[i as int] == items@[i as int].model());
                assert(value.model() == Json::Array(xs));
                proof {
                    crate::json::lemma_well_formed_element(xs, i as int);
                }
                assert(decreases_to!(*value => items@[i as int])) by {
                    assert(decreases_to!(*items => items@));
                }
                let ghost before_child = *rng;
                let child = randomize_keys_recursive(&items[i], rng);
                proof {
                    assert forall|k: int|
                        0 <= k < i + 1 && draws_once(#[trigger] xs[k]) && (forall|q: int|
                            0 <= q < i + 1 && q != k ==> draws_nothing(#[trigger] xs[q])) implies *rng
                        != s0 by {
                        if k < i {
                            assert(draws_nothing(xs[i as int]));
                            assert(forall|q: int| 0 <= q < i && q != k ==> draws_nothing(#[trigger] xs[q]));
                        } else {
                            assert(forall|q: int| 0 <= q < i ==> draws_nothing(#[trigger] xs[q]));
                        }
                    }
                }
                let ghost before = out@;
                out.push(child);
                proof {
                    assert forall|q: int| 0 <= q < i + 1 implies well_formed(
                        (#[trigger] items_model(out@)[q]),
                    ) && same_content(xs[q], items_model(out@)[q]) by {
                        if q < i {
                            assert(items_model(out@)[q] == items_model(before)[q]);
                        }
                    }
                }
            }
            proof {
                let ys = items_model(out@);
                assert(value.model() == Json::Array(xs));
                if draws_once(Json::Array(xs)) {
                    let k = choose|k: int|
                        0 <= k < xs.len() && draws_once(#[trigger] xs[k]) && forall|q: int|
                            0 <= q < xs.len() && q != k ==> draws_nothing(#[trigger] xs[q]);
                    assert(draws_once(xs[k]));
                }
                assert(JsonValue::Array(out).model() == Json::Array(ys));
                assert(same_content(Json::Array(xs), Json::Array(ys)));
                assert(well_formed(Json::Array(ys)));
            }
            JsonValue::Array(out)
        },
        JsonValue::Null => JsonValue::Null,
        JsonValue::Bool(b) => JsonValue::Bool(*b),
        JsonValue::Number(n) => JsonValue::Number(n.duplicate()),
        JsonValue::Str(s) => JsonValue::Str(s.clone()),
    }
}

/// Sorting forgets the order in which keys came: two well-formed values that hold the same
/// content (a value and any reordering of its keys, such as `randomize_keys_recursive` or
/// `preserve_keys_recursive` makes) have the same sorted form, whatever values with sorted keys
/// and that content are taken for them.
pub proof fn law_sorting_forgets_key_order(a: Json, b: Json, sorted_a: Json, sorted_b: Json)
    requires
        well_formed(a),
        well_formed(b),
        same_content(a, b),
        keys_sorted_everywhere(sorted_a),
        same_content(a, sorted_a),
        keys_sorted_everywhere(sorted_b),
        same_content(b, sorted_b),
    ensures
        sorted_a == sorted_b,
{
    lemma_sorted_is_well_formed(sorted_a);
    lemma_same_content_symmetric(a, sorted_a);
    lemma_same_content_transitive(sorted_a, a, b);
    lemma_same_content_transitive(sorted_a, b, sorted_b);
    lemma_sorted_form_unique(sorted_a, sorted_b);
}

} // verus!
