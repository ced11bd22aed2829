//! The random source. Every sampling operation of the library takes the
//! generator as an explicit parameter, so that runs are deterministic per
//! seed. The generator itself and the draws come from the `rand` crates,
//! behind the small trusted surface below; everything that interprets a
//! draw is verified code.

use vstd::prelude::*;

verus! {

use crate::NodeId;

#[verifier::external_type_specification]
#[verifier::external_body]
pub struct ExStdRng(rand::rngs::StdRng);

/// Relies on rand's `SeedableRng::seed_from_u64`: a generator derived
/// deterministically from the seed.
#[verifier::external_body]
pub(crate) fn rng_from_seed(seed: u64) -> rand::rngs::StdRng {
    <rand::rngs::StdRng as rand::SeedableRng>::seed_from_u64(seed)
}

/// Relies on rand's `Rng::gen_range` on `0..n`: a value below `n`. The call
/// panics only on an empty range, which `n >= 1` rules out.
#[verifier::external_body]
pub(crate) fn gen_range_u64(rng: &mut rand::rngs::StdRng, n: u64) -> (r: u64)
    requires
        n >= 1,
    ensures
        r < n,
{
    rand::Rng::gen_range(rng, 0..n)
}

/// Relies on rand's `SliceRandom::shuffle`: the slice afterwards holds the
/// same identities, permuted in place.
#[verifier::external_body]
pub(crate) fn shuffle_ids(rng: &mut rand::rngs::StdRng, v: &mut Vec<NodeId>)
    ensures
        final(v)@.len() == old(v)@.len(),
        final(v)@.to_multiset() == old(v)@.to_multiset(),
{
    rand::seq::SliceRandom::shuffle(&mut v[..], rng)
}

/// Relies on rand's `SliceRandom::choose`: `None` exactly on an empty
/// slice, otherwise one of its elements.
#[verifier::external_body]
pub(crate) fn choose_id(rng: &mut rand::rngs::StdRng, v: &Vec<NodeId>) -> (r: Option<NodeId>)
    ensures
        (r is Some) == (v@.len() > 0),
        r matches Some(x) ==> v@.contains(x),
{
    rand::seq::SliceRandom::choose(&v[..], rng).copied()
}

/// Relies on rand's `SliceRandom::choose_multiple`: `min(amount, len)`
/// elements of the slice, drawn from distinct positions, in random order —
/// so each is an element of the slice, and distinct slice elements stay
/// distinct.
#[verifier::external_body]
pub(crate) fn choose_multiple_strings(
    rng: &mut rand::rngs::StdRng,
    v: &Vec<String>,
    amount: usize,
) -> (r: Vec<String>)
    ensures
        r@.len() == vstd::math::min(amount as int, v@.len() as int),
        forall|k: int| 0 <= k < r@.len() ==> v@.contains(#[trigger] r@[k]),
        v@.no_duplicates() ==> r@.no_duplicates(),
{
    rand::seq::SliceRandom::choose_multiple(&v[..], rng, amount).cloned().collect()
}

} // verus!
