//! Randomness, drawn from the generator of the running thread.

use vstd::prelude::*;
use rand::Rng;
use rand::seq::SliceRandom;

verus! {

/// Calls `rand::seq::SliceRandom::shuffle` on the list, with
/// `rand::thread_rng()` as the generator. The shuffle swaps elements of the
/// slice in place, so the list afterwards holds the same positions, each as
/// often as before; in which order is not known.
#[verifier::external_body]
pub(crate) fn shuffle(neighbors: &mut Vec<(usize, usize)>)
    ensures
        final(neighbors)@.to_multiset() == old(neighbors)@.to_multiset(),
{
    neighbors.shuffle(&mut rand::thread_rng());
}

/// Calls `rand::Rng::gen_range` on `rand::thread_rng()` with the half-open
/// range `low..high`. The call panics on an empty range, which `requires`
/// leaves out; the number drawn lies in the range.
#[verifier::external_body]
pub(crate) fn random_between(low: usize, high: usize) -> (n: usize)
    requires
        low < high,
    ensures
        low <= n < high,
{
    rand::thread_rng().gen_range(low..high)
}

} // verus!
