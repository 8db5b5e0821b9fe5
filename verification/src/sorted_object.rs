//! Member lists kept in ascending key order, with the insertion rule of an ordered map.
use vstd::prelude::*;
use crate::json::{
    Json, JsonValue, members_model, keys_ascending, has_key, key_position, key_less,
    value_under, key_precedes, same_key, lemma_key_less_total, lemma_key_less_transitive,
    lemma_key_less_irreflexive, lemma_ascending_distinct, lemma_value_under_member,
};
use crate::jsonl::string_texts;

verus! {

/// The model of `s` after inserting `x` at `p` is the model with `x`'s model inserted at `p`.
pub proof fn lemma_members_model_insert(s: Seq<(String, JsonValue)>, p: int, x: (String, JsonValue))
    requires
        0 <= p <= s.len(),
    ensures
        members_model(s.insert(p, x)) == members_model(s).insert(p, (x.0@, x.1.model())),
{
    assert(members_model(s.insert(p, x)) =~= members_model(s).insert(p, (x.0@, x.1.model())));
}

/// The model of `s` after replacing member `p` by `x` is the model with member `p` replaced.
pub proof fn lemma_members_model_update(s: Seq<(String, JsonValue)>, p: int, x: (String, JsonValue))
    requires
        0 <= p < s.len(),
    ensures
        members_model(s.update(p, x)) == members_model(s).update(p, (x.0@, x.1.model())),
{
    assert(members_model(s.update(p, x)) =~= members_model(s).update(p, (x.0@, x.1.model())));
}

/// The model of `s` with `x` pushed at the end.
pub proof fn lemma_members_model_push(s: Seq<(String, JsonValue)>, x: (String, JsonValue))
    ensures
        members_model(s.push(x)) == members_model(s).push((x.0@, x.1.model())),
{
    assert(members_model(s.push(x)) =~= members_model(s).push((x.0@, x.1.model())));
}

/// Inserts `value` under `key` into members whose keys ascend, keeping them ascending.
/// When a member has that key already, its value is replaced (the key itself stays) and the
/// old value is returned; otherwise the new member goes where its key belongs and `None` is
/// returned.
pub fn insert_sorted(entries: &mut Vec<(String, JsonValue)>, key: String, value: JsonValue) -> (r:
    Option<JsonValue>)
    requires
        keys_ascending(members_model(old(entries)@)),
    ensures
        keys_ascending(members_model(final(entries)@)),
        has_key(members_model(old(entries)@), key@) ==> {
            let p = key_position(members_model(old(entries)@), key@);
            &&& final(entries)@ == old(entries)@.update(p, (old(entries)@[p].0, value))
            &&& r == Some(old(entries)@[p].1)
        },
        !has_key(members_model(old(entries)@), key@) ==> {
            &&& r is None
            &&& exists|p: int|
                0 <= p <= old(entries)@.len() && final(entries)@ == old(entries)@.insert(
                    p,
                    (key, value),
                )
        },
{
    let ghost old_entries = entries@;
    let ghost m = members_model(entries@);
    let mut p: usize = 0;
    while p < entries.len() && key_precedes(entries[p].0.as_str(), key.as_str())
        invariant
            p <= entries.len(),
            entries@ == old_entries,
            m == members_model(entries@),
            forall|q: int| 0 <= q < p ==> key_less(#[trigger] m[q].0, key@),
        decreases entries.len() - p,
    {
        p += 1;
    }
    let found = p < entries.len() && entries[p].0 == key;
    // Where the key is absent, every later member sorts after it.
    proof {
        if p < m.len() && m[p as int].0 != key@ {
            lemma_key_less_total(m[p as int].0, key@);
        }
        if has_key(m, key@) {
            let j = key_position(m, key@);
            if j < p {
                lemma_key_less_irreflexive(key@);
            } else if j > p {
                if m[p as int].0 != key@ {
                    lemma_key_less_transitive(key@, m[p as int].0, m[j].0);
                    lemma_key_less_irreflexive(key@);
                }
            }
        }
    }
    if found {
        proof {
            assert(has_key(m, key@));
            assert(key_position(m, key@) == p) by {
                let j = key_position(m, key@);
                if j != p {
                    if j < p {
                        lemma_key_less_irreflexive(key@);
                    } else {
                        assert(key_less(m[p as int].0, m[j].0));
                        lemma_key_less_irreflexive(key@);
                    }
                }
            }
        }
        let (k, old_value) = entries.remove(p);
        entries.insert(p, (k, value));
        proof {
            assert(entries@ =~= old_entries.update(p as int, (old_entries[p as int].0, value)));
            lemma_members_model_update(old_entries, p as int, (old_entries[p as int].0, value));
            let m2 = members_model(entries@);
            assert forall|a: int, b: int|
                #![trigger m2[a], m2[b]]
                0 <= a < b < m2.len() implies key_less(m2[a].0, m2[b].0) by {
                assert(m2[a].0 == m[a].0);
                assert(m2[b].0 == m[b].0);
            }
        }
        Some(old_value)
    } else {
        proof {
            assert(!has_key(m, key@));
        }
        entries.insert(p, (key, value));
        proof {
            lemma_members_model_insert(old_entries, p as int, (key, value));
            let m2 = members_model(entries@);
            assert(m2 == m.insert(p as int, (key@, value.model())));
            assert forall|a: int, b: int|
                #![trigger m2[a], m2[b]]
                0 <= a < b < m2.len() implies key_less(m2[a].0, m2[b].0) by {
                if b < p {
                } else if b == p {
                    assert(m2[a] == m[a]);
                } else if a < p {
                    assert(m2[b] == m[b - 1]);
                    assert(key_less(m[a].0, key@));
                    assert(key_less(key@, m[p as int].0));
                    if b - 1 > p {
                        lemma_key_less_transitive(key@, m[p as int].0, m[b - 1].0);
                    }
                    lemma_key_less_transitive(m[a].0, key@, m[b - 1].0);
                } else if a == p {
                    assert(m2[b] == m[b - 1]);
                    if b - 1 > p {
                        lemma_key_less_transitive(key@, m[p as int].0, m[b - 1].0);
                    }
                } else {
                    assert(m2[a] == m[a - 1]);
                    assert(m2[b] == m[b - 1]);
                }
            }
        }
        None
    }
}

/// An object whose members are kept in ascending key order, as in a `BTreeMap` from keys to
/// values.
#[derive(Debug)]
pub struct SortedObject {
    entries: Vec<(String, JsonValue)>,
}

impl SortedObject {
    /// The members, in ascending key order.
    pub closed spec fn model(&self) -> Seq<(Seq<char>, Json)> {
        members_model(self.entries@)
    }

    /// The keys ascend: every `SortedObject` keeps this.
    #[verifier::type_invariant]
    pub open spec fn well_formed(&self) -> bool {
        keys_ascending(self.model())
    }

    /// An object with no members.
    pub fn new() -> (r: Self)
        ensures
            r.model() == Seq::<(Seq<char>, Json)>::empty(),
    {
        let r = SortedObject { entries: Vec::new() };
        assert(r.model() =~= Seq::<(Seq<char>, Json)>::empty());
        r
    }

    /// Inserts `value` under `key`. Where a member has that key, its value is replaced and the
    /// old value returned; otherwise the member goes where its key belongs and `None` is
    /// returned.
    pub fn insert(&mut self, key: String, value: JsonValue) -> (r: Option<JsonValue>)
        ensures
            has_key(old(self).model(), key@) ==> {
                &&& final(self).model() == old(self).model().update(
                    key_position(old(self).model(), key@),
                    (key@, value.model()),
                )
                &&& r matches Some(v) && v.model() == value_under(old(self).model(), key@)
            },
            !has_key(old(self).model(), key@) ==> {
                &&& r is None
                &&& exists|p: int|
                    0 <= p <= old(self).model().len() && final(self).model() == old(
                        self,
                    ).model().insert(p, (key@, value.model()))
            },
    {
        proof {
            use_type_invariant(&*self);
        }
        let ghost before = self.entries@;
        let ghost key_text = key@;
        let ghost value_model = value.model();
        let mut entries: Vec<(String, JsonValue)> = Vec::new();
        std::mem::swap(&mut entries, &mut self.entries);
        let r = insert_sorted(&mut entries, key, value);
        proof {
            let m = members_model(before);
            if has_key(m, key_text) {
                let p = key_position(m, key_text);
                lemma_members_model_update(before, p, (before[p].0, value));
                assert(m[p].0 == key_text);
            } else {
                let p = choose|p: int|
                    0 <= p <= before.len() && entries@ == before.insert(p, (key, value));
                lemma_members_model_insert(before, p, (key, value));
            }
        }
        self.entries = entries;
        r
    }

    /// The value under `key`, if a member has that key.
    pub fn get(&self, key: &str) -> (r: Option<&JsonValue>)
        ensures
            r is Some <==> has_key(self.model(), key@),
            r matches Some(v) ==> v.model() == value_under(self.model(), key@),
    {
        proof {
            use_type_invariant(self);
        }
        let n = self.entries.len();
        let ghost m = self.model();
        let mut i: usize = 0;
        while i < n
            invariant
                i <= n,
                n == self.entries@.len(),
                m == self.model(),
                keys_ascending(m),
                forall|j: int| 0 <= j < i ==> (#[trigger] m[j]).0 != key@,
            decreases n - i,
        {
            if same_key(self.entries[i].0.as_str(), key) {
                proof {
                    lemma_ascending_distinct(m);
                    assert(m[i as int].0 == key@);
                    lemma_value_under_member(m, i as int);
                }
                return Some(&self.entries[i].1);
            }
            i += 1;
        }
        proof {
            if has_key(m, key@) {
                let j = key_position(m, key@);
                assert(m[j].0 == key@);
            }
        }
        None
    }

    /// The keys, in ascending order.
    pub fn keys(&self) -> (r: Vec<String>)
        ensures
            string_texts(r@) == self.model().map_values(|m: (Seq<char>, Json)| m.0),
    {
        let n = self.entries.len();
        let mut out: Vec<String> = Vec::new();
        for i in 0..n
            invariant
                n == self.entries@.len(),
                string_texts(out@) == self.model().take(i as int).map_values(
                    |m: (Seq<char>, Json)| m.0,
                ),
        {
            let ghost before = out@;
            out.push(self.entries[i].0.clone());
            proof {
                let keys_after = self.model().take(i + 1).map_values(|m: (Seq<char>, Json)| m.0);
                let keys_before = self.model().take(i as int).map_values(
                    |m: (Seq<char>, Json)| m.0,
                );
                assert(keys_after =~= keys_before.push(self.model()[i as int].0));
                assert(string_texts(out@) =~= string_texts(before).push(self.entries@[i as int].0@));
            }
        }
        assert(self.model().take(n as int) =~= self.model());
        out
    }

    /// The members, in ascending key order, as a JSON object.
    pub fn to_object(&self) -> (r: JsonValue)
        ensures
            r.model() == Json::Object(self.model()),
    {
        let mut out: Vec<(String, JsonValue)> = Vec::new();
        let n = self.entries.len();
        for i in 0..n
            invariant
                n == self.entries@.len(),
                members_model(out@) == self.model().take(i as int),
        {
            let k = self.entries[i].0.clone();
            let v = self.entries[i].1.clone();
            let ghost before = out@;
            out.push((k, v));
            proof {
                lemma_members_model_push(before, (k, v));
                assert(self.model().take(i + 1) =~= self.model().take(i as int).push(
                    self.model()[i as int],
                ));
            }
        }
        assert(self.model().take(n as int) =~= self.model());
        JsonValue::Object(out)
    }
}

} // verus!
