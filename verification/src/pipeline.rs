//! The computations of the two reordering programs, between reading and writing.
use vstd::prelude::*;
use crate::json::{JsonValue, well_formed, keys_sorted_everywhere, same_content, keys_ascending};
use crate::transaction::{
    TransactionDraws, transaction_members, transaction_values, default_order_members,
    same_members, KEY_COUNT,
    generate_json_object, to_default_json, to_sorted_json, to_random_json,
    lemma_default_order_of_record,
};
use crate::reorder::{sort_keys_recursive, preserve_keys_recursive, randomize_keys_recursive};
use crate::random::seeded_rng;
use crate::json::{Json, has_key, lemma_ascending_keys_align, lemma_well_formed_object};

verus! {

/// The seed of the generator that shuffles the keys of the records read from a file.
pub const SHUFFLE_SEED: u64 = 42;

/// How much the seed of the shuffling generator of a benchmark exceeds the seed of the
/// generator that makes its records.
pub const SHUFFLE_SEED_OFFSET: u64 = 1000;

/// The three versions of one generated record: in the schema's key order, with sorted keys,
/// and with shuffled keys.
pub open spec fn record_versions(d: TransactionDraws, default: Json, sorted: Json, random: Json) -> bool {
    &&& default == Json::Object(transaction_members(d))
    &&& sorted is Object
    &&& keys_ascending(sorted->Object_0)
    &&& same_members(sorted->Object_0, transaction_members(d))
    &&& random is Object
    &&& same_members(random->Object_0, transaction_members(d))
}

/// An object whose members are those of a record, each once, is well formed.
proof fn lemma_reordered_record_well_formed(d: TransactionDraws, m: Seq<(Seq<char>, Json)>)
    requires
        d.in_range(),
        same_members(m, transaction_members(d)),
    ensures
        well_formed(Json::Object(m)),
{
    let tm = transaction_members(d);
    assert forall|i: int| 0 <= i < m.len() implies well_formed(#[trigger] m[i].1) by {
        assert(tm.contains(m[i]));
        let j = choose|j: int| 0 <= j < tm.len() && tm[j] == m[i];
        assert(tm[j].1 == transaction_values(d)[j]);
    }
    lemma_well_formed_object(m);
}

/// Each version of a generated record is well formed (its objects have distinct keys), so it
/// can be written as JSON.
pub proof fn law_record_versions_are_well_formed(
    d: TransactionDraws,
    default: Json,
    sorted: Json,
    random: Json,
)
    requires
        d.in_range(),
        record_versions(d, default, sorted, random),
    ensures
        well_formed(default),
        well_formed(sorted),
        well_formed(random),
{
    let tm = transaction_members(d);
    crate::transaction::lemma_default_keys_distinct();
    assert forall|a: int, b: int|
        #![trigger tm[a], tm[b]]
        0 <= a < tm.len() && 0 <= b < tm.len() && a != b implies tm[a].0 != tm[b].0 by {
        assert(tm[a].0 == crate::transaction::default_key_order()[a]);
        assert(tm[b].0 == crate::transaction::default_key_order()[b]);
    }
    lemma_reordered_record_well_formed(d, tm);
    lemma_reordered_record_well_formed(d, sorted->Object_0);
    lemma_reordered_record_well_formed(d, random->Object_0);
}

/// The records of a benchmark run, in three key orders.
#[derive(Debug)]
pub struct BenchmarkCorpus {
    pub default_objects: Vec<JsonValue>,
    pub sorted_objects: Vec<JsonValue>,
    pub random_objects: Vec<JsonValue>,
}

/// Generates `num_objects` records from a generator seeded with `seed` (deterministic based
/// on the seed), and writes each in the schema's key order, with sorted keys, and with keys
/// shuffled by a generator seeded with `seed + 1000` (different per object).
pub fn benchmark_corpus(num_objects: usize, seed: u64) -> (c: BenchmarkCorpus)
    requires
        seed <= u64::MAX - SHUFFLE_SEED_OFFSET,
    ensures
        c.default_objects.len() == num_objects,
        c.sorted_objects.len() == num_objects,
        c.random_objects.len() == num_objects,
        forall|i: int|
            #![trigger c.default_objects@[i]]
            0 <= i < num_objects ==> exists|d: TransactionDraws|
                d.in_range() && #[trigger] record_versions(
                    d,
                    c.default_objects@[i].model(),
                    c.sorted_objects@[i].model(),
                    c.random_objects@[i].model(),
                ),
{
    let mut rng = seeded_rng(seed);
    let mut base: Vec<crate::sorted_object::SortedObject> = Vec::new();
    let mut i: usize = 0;
    while i < num_objects
        invariant
            i <= num_objects,
            base.len() == i,
            forall|q: int|
                #![trigger base@[q]]
                0 <= q < i ==> base@[q].well_formed() && exists|d: TransactionDraws|
                    d.in_range() && same_members(base@[q].model(), #[trigger] transaction_members(d)),
        decreases num_objects - i,
    {
        let obj = generate_json_object(&mut rng);
        proof {
            use_type_invariant(&obj);
        }
        let ghost before = base@;
        base.push(obj);
        proof {
            assert forall|q: int|
                #![trigger base@[q]]
                0 <= q < i + 1 implies base@[q].well_formed() && exists|d: TransactionDraws|
                    d.in_range() && same_members(base@[q].model(), #[trigger] transaction_members(d)) by {
                if q < i {
                    assert(base@[q] == before[q]);
                    assert(before[q].well_formed());
                } else {
                    assert(base@[q] == obj);
                }
            }
        }
        i += 1;
    }
    let mut default_objects: Vec<JsonValue> = Vec::new();
    let mut sorted_objects: Vec<JsonValue> = Vec::new();
    for i in 0..num_objects
        invariant
            base.len() == num_objects,
            forall|q: int| 0 <= q < num_objects ==> (#[trigger] base@[q]).well_formed(),
            default_objects.len() == i,
            sorted_objects.len() == i,
            forall|q: int|
                0 <= q < i ==> (#[trigger] default_objects@[q]).model() == Json::Object(
                    default_order_members(base@[q].model(), KEY_COUNT as nat),
                ) && sorted_objects@[q].model() == Json::Object(base@[q].model()),
    {
        let dj = to_default_json(&base[i]);
        let sj = to_sorted_json(&base[i]);
        default_objects.push(dj);
        sorted_objects.push(sj);
        assert(default_objects@[i as int] == dj);
    }
    let mut rng2 = seeded_rng(seed + SHUFFLE_SEED_OFFSET);
    let mut random_objects: Vec<JsonValue> = Vec::new();
    for i in 0..num_objects
        invariant
            base.len() == num_objects,
            forall|q: int| 0 <= q < num_objects ==> (#[trigger] base@[q]).well_formed(),
            random_objects.len() == i,
            forall|q: int|
                0 <= q < i ==> (#[trigger] random_objects@[q]).model() is Object && same_members(
                    random_objects@[q].model()->Object_0,
                    base@[q].model(),
                ),
    {
        let rj = to_random_json(&base[i], &mut rng2);
        random_objects.push(rj);
        assert(random_objects@[i as int] == rj);
    }
    proof {
        assert forall|i: int|
            #![trigger default_objects@[i]]
            0 <= i < num_objects implies exists|d: TransactionDraws|
            d.in_range() && #[trigger] record_versions(
                d,
                default_objects@[i].model(),
                sorted_objects@[i].model(),
                random_objects@[i].model(),
            ) by {
            let b = base@[i].model();
            assert(base@[i].well_formed());
            let d = choose|d: TransactionDraws|
                d.in_range() && same_members(b, #[trigger] transaction_members(d));
            lemma_default_order_of_record(b, d, KEY_COUNT as nat);
            let tm = transaction_members(d);
            assert(tm.take(KEY_COUNT as int) =~= tm);
            let rm = random_objects@[i].model()->Object_0;
            assert(same_members(rm, b));
            assert forall|q: int| 0 <= q < rm.len() implies tm.contains(#[trigger] rm[q]) by {
                assert(b.contains(rm[q]));
                let r = choose|r: int| 0 <= r < b.len() && b[r] == rm[q];
                assert(tm.contains(b[r]));
            }
            assert forall|j: int| 0 <= j < tm.len() implies rm.contains(#[trigger] tm[j]) by {
                assert(b.contains(tm[j]));
                let r = choose|r: int| 0 <= r < b.len() && b[r] == tm[j];
                assert(rm.contains(b[r]));
            }
            assert(record_versions(
                d,
                default_objects@[i].model(),
                sorted_objects@[i].model(),
                random_objects@[i].model(),
            ));
        }
    }
    BenchmarkCorpus { default_objects, sorted_objects, random_objects }
}

/// The three versions of the records of a file.
#[derive(Debug)]
pub struct ReorderedRecords {
    pub original: Vec<JsonValue>,
    pub sorted: Vec<JsonValue>,
    pub random: Vec<JsonValue>,
}

/// The three variants of the records read from a file: with the key ordering of the input,
/// with keys sorted alphabetically (recursively), and with keys randomized (recursively) by
/// a generator seeded with 42 (for reproducibility).
pub fn reorder_variants(values: &Vec<JsonValue>) -> (r: ReorderedRecords)
    requires
        forall|i: int| 0 <= i < values.len() ==> well_formed(#[trigger] values@[i].model()),
    ensures
        r.original.len() == values.len(),
        r.sorted.len() == values.len(),
        r.random.len() == values.len(),
        forall|i: int|
            0 <= i < values.len() ==> (#[trigger] r.original@[i]).model() == values@[i].model(),
        forall|i: int|
            0 <= i < values.len() ==> keys_sorted_everywhere((#[trigger] r.sorted@[i]).model())
                && same_content(values@[i].model(), r.sorted@[i].model()),
        forall|i: int|
            0 <= i < values.len() ==> well_formed((#[trigger] r.random@[i]).model())
                && same_content(values@[i].model(), r.random@[i].model()),
{
    let n = values.len();
    let mut original: Vec<JsonValue> = Vec::new();
    let mut sorted: Vec<JsonValue> = Vec::new();
    for i in 0..n
        invariant
            n == values.len(),
            forall|q: int| 0 <= q < n ==> well_formed(#[trigger] values@[q].model()),
            original.len() == i,
            sorted.len() == i,
            forall|q: int| 0 <= q < i ==> (#[trigger] original@[q]).model() == values@[q].model(),
            forall|q: int|
                0 <= q < i ==> keys_sorted_everywhere((#[trigger] sorted@[q]).model())
                    && same_content(values@[q].model(), sorted@[q].model()),
    {
        let o = preserve_keys_recursive(&values[i]);
        let s = sort_keys_recursive(&values[i]);
        original.push(o);
        sorted.push(s);
        assert(original@[i as int] == o);
        assert(sorted@[i as int] == s);
    }
    let mut rng = seeded_rng(SHUFFLE_SEED);
    let mut random: Vec<JsonValue> = Vec::new();
    for i in 0..n
        invariant
            n == values.len(),
            forall|q: int| 0 <= q < n ==> well_formed(#[trigger] values@[q].model()),
            random.len() == i,
            forall|q: int|
                0 <= q < i ==> well_formed((#[trigger] random@[q]).model()) && same_content(
                    values@[q].model(),
                    random@[q].model(),
                ),
    {
        let x = randomize_keys_recursive(&values[i], &mut rng);
        random.push(x);
        assert(random@[i as int] == x);
    }
    ReorderedRecords { original, sorted, random }
}

/// The change in size from `reference` bytes to `size` bytes.
pub fn size_change(size: u64, reference: u64) -> (r: i64)
    requires
        size <= i64::MAX,
        reference <= i64::MAX,
    ensures
        r == size - reference,
{
    size as i64 - reference as i64
}

/// Sorted keys are consistent across all objects: the sorted versions of any two generated
/// records list the same keys in the same order.
pub proof fn law_sorted_records_share_key_order(
    d1: TransactionDraws,
    d2: TransactionDraws,
    m1: Seq<(Seq<char>, Json)>,
    m2: Seq<(Seq<char>, Json)>,
)
    requires
        keys_ascending(m1),
        same_members(m1, transaction_members(d1)),
        keys_ascending(m2),
        same_members(m2, transaction_members(d2)),
    ensures
        m1.len() == m2.len(),
        forall|i: int| 0 <= i < m1.len() ==> (#[trigger] m1[i]).0 == m2[i].0,
{
    let t1 = transaction_members(d1);
    let t2 = transaction_members(d2);
    assert forall|i: int| 0 <= i < m1.len() implies has_key(m2, (#[trigger] m1[i]).0) by {
        assert(t1.contains(m1[i]));
        let j = choose|j: int| 0 <= j < t1.len() && t1[j] == m1[i];
        assert(t2[j].0 == t1[j].0);
        assert(m2.contains(t2[j]));
        let k = choose|k: int| 0 <= k < m2.len() && m2[k] == t2[j];
        assert(m2[k].0 == m1[i].0);
    }
    assert forall|i: int| 0 <= i < m2.len() implies has_key(m1, (#[trigger] m2[i]).0) by {
        assert(t2.contains(m2[i]));
        let j = choose|j: int| 0 <= j < t2.len() && t2[j] == m2[i];
        assert(t1[j].0 == t2[j].0);
        assert(m1.contains(t1[j]));
        let k = choose|k: int| 0 <= k < m1.len() && m1[k] == t1[j];
        assert(m1[k].0 == m2[i].0);
    }
    lemma_ascending_keys_align(m1, m2);
}

/// Default keys are consistent across all objects: the schema-order versions of any two
/// generated records list the same keys in the same order, the schema's.
pub proof fn law_default_records_share_key_order(d1: TransactionDraws, d2: TransactionDraws)
    ensures
        transaction_members(d1).len() == transaction_members(d2).len(),
        forall|i: int|
            0 <= i < transaction_members(d1).len() ==> (#[trigger] transaction_members(d1)[i]).0
                == transaction_members(d2)[i].0 && transaction_members(d1)[i].0
                == crate::transaction::default_key_order()[i],
{
}

} // verus!
