//! The random source used by the maze generators, behind trusted
//! declarations: randomness cannot be specified, so each item states only
//! what holds of every outcome.

use vstd::prelude::*;
use rand::RngExt;
use rand::seq::SliceRandom;

verus! {

/// rand's thread-local generator, carried opaquely through the maze
/// builders.
#[verifier::external_type_specification]
#[verifier::external_body]
pub struct ExThreadRng(rand::rngs::ThreadRng);

/// Relies on rand::rng: a handle to the thread-local generator. Nothing
/// is promised of the values it will produce. (It aborts only if the
/// operating system cannot seed the generator at all.)
#[verifier::external_body]
pub(crate) fn new_rng() -> rand::rngs::ThreadRng {
    rand::rng()
}

/// Relies on rand's SliceRandom::shuffle: reorders the elements in
/// place, so the result holds exactly the elements it started with.
#[verifier::external_body]
pub(crate) fn shuffle_vec<T>(v: &mut Vec<T>, rng: &mut rand::rngs::ThreadRng)
    ensures
        final(v)@.to_multiset() == old(v)@.to_multiset(),
{
    v.shuffle(rng);
}

/// Relies on rand's RngExt::random_range: a value drawn from the range,
/// so below `n`. It panics on an empty range, which the bound excludes.
#[verifier::external_body]
pub(crate) fn random_below(rng: &mut rand::rngs::ThreadRng, n: usize) -> (r: usize)
    requires
        n > 0,
    ensures
        r < n,
{
    rng.random_range(0..n)
}

} // verus!
