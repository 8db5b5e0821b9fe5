//! The seeded random number generator of the `rand` crate, and what the library draws from it.
use vstd::prelude::*;
use rand::rngs::StdRng;
use rand::seq::SliceRandom;
use rand::{Rng, RngCore, SeedableRng};

verus! {

#[verifier::external_type_specification]
#[verifier::external_body]
pub struct ExStdRng(StdRng);

/// `StdRng::seed_from_u64`: a generator whose draws are fixed by `seed`.
#[verifier::external_body]
pub(crate) fn seeded_rng(seed: u64) -> StdRng {
    StdRng::seed_from_u64(seed)
}

/// `SliceRandom::shuffle`: the positions come back in some order, each exactly as often as
/// before. Fewer than two positions are left as they are and draw nothing. Two or more draw at
/// least once (`gen_index` for each position from the last down to the second), and every
/// draw of the block generator moves it on (its index within the block, or its block
/// counter), so the generator is left in another state.
#[verifier::external_body]
pub(crate) fn shuffle_positions(positions: &mut Vec<usize>, rng: &mut StdRng)
    ensures
        final(positions)@.to_multiset() == old(positions)@.to_multiset(),
        old(positions)@.len() <= 1 ==> final(positions)@ == old(positions)@ && *final(rng) == *old(
            rng,
        ),
        old(positions)@.len() >= 2 ==> *final(rng) != *old(rng),
{
    positions.shuffle(rng);
}

/// `RngCore::next_u32`: any `u32` (this is what `Rng::gen::<u32>` draws).
#[verifier::external_body]
pub(crate) fn random_u32(rng: &mut StdRng) -> u32 {
    rng.next_u32()
}

/// `Rng::gen_range(low..high)` on `i32`: a number in `[low, high)`. (For integers, `rand`
/// draws `low..=high` exactly as it draws `low..high + 1`.)
#[verifier::external_body]
pub(crate) fn random_i32_in(rng: &mut StdRng, low: i32, high: i32) -> (r: i32)
    requires
        low < high,
    ensures
        low <= r < high,
{
    rng.gen_range(low..high)
}

/// `Rng::gen_range(0..len)` on `usize`: an index below `len`.
#[verifier::external_body]
pub(crate) fn random_index(rng: &mut StdRng, len: usize) -> (r: usize)
    requires
        0 < len,
    ensures
        r < len,
{
    rng.gen_range(0..len)
}

/// `Rng::gen_ratio`: `true` with probability `numerator / denominator`. (`gen_ratio(1, 10)`
/// draws exactly as `gen_bool(0.1)` does.)
#[verifier::external_body]
pub(crate) fn random_ratio(rng: &mut StdRng, numerator: u32, denominator: u32) -> bool
    requires
        0 < denominator,
        numerator <= denominator,
{
    rng.gen_ratio(numerator, denominator)
}

/// The sequence `0, 1, ..., n - 1`.
pub open spec fn positions_up_to(n: nat) -> Seq<usize> {
    Seq::new(n, |i: int| i as usize)
}

/// Position `i` occurs somewhere in `s`.
pub open spec fn holds_position(s: Seq<usize>, i: int) -> bool {
    exists|q: int| 0 <= q < s.len() && #[trigger] s[q] == i
}

/// A reordering of `0, 1, ..., n - 1` holds each position below `n` exactly once.
pub proof fn lemma_reordered_positions(after: Seq<usize>, n: nat)
    requires
        n <= usize::MAX + 1,
        after.to_multiset() == positions_up_to(n).to_multiset(),
    ensures
        after.len() == n,
        after.no_duplicates(),
        forall|q: int| 0 <= q < after.len() ==> #[trigger] after[q] < n,
        forall|i: int| 0 <= i < n ==> #[trigger] holds_position(after, i),
{
    broadcast use vstd::seq_lib::group_to_multiset_ensures;

    let before = positions_up_to(n);
    assert(after.to_multiset().len() == before.to_multiset().len());
    assert(after.len() == before.len());
    assert forall|q: int| 0 <= q < after.len() implies #[trigger] after[q] < n by {
        assert(after.contains(after[q]));
        assert(after.to_multiset().count(after[q]) > 0);
        assert(before.to_multiset().count(after[q]) > 0);
        assert(before.contains(after[q]));
    }
    before.lemma_multiset_has_no_duplicates();
    after.lemma_multiset_has_no_duplicates_conv();
    assert forall|i: int| 0 <= i < n implies #[trigger] holds_position(after, i) by {
        assert(before[i] == i as usize);
        assert(before.contains(i as usize));
        assert(before.to_multiset().count(i as usize) > 0);
        assert(after.to_multiset().count(i as usize) > 0);
        assert(after.contains(i as usize));
    }
}

} // verus!
