//! The calls into `rand` that board generation makes. Each function makes one
//! call; what its contract states holds of every outcome.
use vstd::prelude::*;
#[allow(unused_imports)]
use rand::seq::{IndexedRandom, IteratorRandom, SliceRandom};
#[allow(unused_imports)]
use rand::{RngExt, SeedableRng};
#[allow(unused_imports)]
use rand::rngs::Xoshiro128PlusPlus;

verus! {

#[verifier::external_type_specification]
#[verifier::external_body]
pub struct ExXoshiro128PlusPlus(rand::rngs::Xoshiro128PlusPlus);

/// `RngExt::random_range` over `0..n`: its result lies in the range (the
/// empty range, which it refuses, is left out).
#[verifier::external_body]
pub(crate) fn random_below(rng: &mut Xoshiro128PlusPlus, n: usize) -> (r: usize)
    requires
        n > 0,
    ensures
        r < n,
{
    rng.random_range(0..n)
}

/// `SliceRandom::shuffle`: the vector ends up as a permutation of itself.
#[verifier::external_body]
pub(crate) fn shuffle_indices(rng: &mut Xoshiro128PlusPlus, v: &mut Vec<usize>)
    ensures
        final(v)@.to_multiset() == old(v)@.to_multiset(),
{
    v.shuffle(rng)
}

/// `IndexedRandom::sample` on a slice: `min(amount, v.len())` elements of `v`
/// taken at distinct indices (so, as a multiset, part of `v`).
#[verifier::external_body]
pub(crate) fn sample_slice(rng: &mut Xoshiro128PlusPlus, v: &Vec<usize>, amount: usize) -> (r: Vec<usize>)
    ensures
        r.len() == (if amount < v.len() { amount } else { v.len() }),
        r@.to_multiset().subset_of(v@.to_multiset()),
{
    v.sample(rng, amount).copied().collect()
}

/// `IteratorRandom::sample` on `v`'s items: `min(amount, v.len())` of them,
/// taken at distinct positions (so, as a multiset, part of `v`).
#[verifier::external_body]
pub(crate) fn sample_iter(rng: &mut Xoshiro128PlusPlus, v: Vec<usize>, amount: usize) -> (r: Vec<usize>)
    ensures
        r.len() == (if amount < v.len() { amount } else { v.len() }),
        r@.to_multiset().subset_of(v@.to_multiset()),
{
    v.into_iter().sample(rng, amount)
}

/// The generator that `SeedableRng::seed_from_u64` makes from `seed`.
pub uninterp spec fn seeded_generator(seed: u64) -> Xoshiro128PlusPlus;

/// `SeedableRng::seed_from_u64` for `Xoshiro128PlusPlus`: the generator's
/// state is a fixed function of `seed` (the same seed gives the same
/// generator); nothing more is stated of it.
#[verifier::external_body]
pub(crate) fn seeded_xoshiro(seed: u64) -> (r: Xoshiro128PlusPlus)
    ensures
        r == seeded_generator(seed),
{
    Xoshiro128PlusPlus::seed_from_u64(seed)
}

} // verus!
