//! The insertion-ordered map of the `indexmap` crate, as the reordering code uses it.
use vstd::prelude::*;
use indexmap::IndexMap;
use crate::json::JsonValue;

verus! {

#[verifier::external_type_specification]
#[verifier::external_body]
#[verifier::reject_recursive_types(K)]
#[verifier::reject_recursive_types(V)]
#[verifier::reject_recursive_types(S)]
pub struct ExIndexMap<K, V, S>(IndexMap<K, V, S>);

/// The entries of an `IndexMap`, in its iteration (insertion) order.
pub uninterp spec fn index_map_entries(m: IndexMap<String, JsonValue>) -> Seq<(String, JsonValue)>;

/// Some entry of `entries` has a key equal to `k`.
pub open spec fn entries_have_key(entries: Seq<(String, JsonValue)>, k: Seq<char>) -> bool {
    exists|i: int| 0 <= i < entries.len() && #[trigger] entries[i].0@ == k
}

/// `IndexMap::new`: the new map has no entries.
#[verifier::external_body]
pub(crate) fn ordered_map_new() -> (m: IndexMap<String, JsonValue>)
    ensures
        index_map_entries(m) == Seq::<(String, JsonValue)>::empty(),
{
    IndexMap::new()
}

/// `IndexMap::insert`: where an entry with an equal key exists, its key stays in its place
/// and its value is replaced, the old value being returned; otherwise the entry is appended
/// last in order and `None` is returned.
#[verifier::external_body]
pub(crate) fn ordered_map_insert(
    m: &mut IndexMap<String, JsonValue>,
    key: String,
    value: JsonValue,
) -> (r: Option<JsonValue>)
    ensures
        entries_have_key(index_map_entries(*old(m)), key@) ==> {
            let e = index_map_entries(*old(m));
            let i = choose|i: int| 0 <= i < e.len() && #[trigger] e[i].0@ == key@;
            &&& index_map_entries(*final(m)) == e.update(i, (e[i].0, value))
            &&& r == Some(e[i].1)
        },
        !entries_have_key(index_map_entries(*old(m)), key@) ==> {
            &&& index_map_entries(*final(m)) == index_map_entries(*old(m)).push((key, value))
            &&& r is None
        },
{
    m.insert(key, value)
}

/// `IndexMap::into_iter`, collected: the entries in the map's order.
#[verifier::external_body]
pub(crate) fn ordered_map_into_members(m: IndexMap<String, JsonValue>) -> (r: Vec<(String, JsonValue)>)
    ensures
        r@ == index_map_entries(m),
{
    m.into_iter().collect()
}

} // verus!
