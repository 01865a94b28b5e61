use rand::seq::SliceRandom;
use vstd::prelude::*;

verus! {

/// Relies on rand's `SliceRandom::shuffle` over the thread-local generator:
/// it only swaps elements, so the same elements stay, in a random order.
#[verifier::external_body]
pub(crate) fn shuffle<T>(v: &mut Vec<T>)
    ensures
        final(v)@.to_multiset() == old(v)@.to_multiset(),
{
    v.shuffle(&mut rand::thread_rng());
}

/// Relies on `rand::random`: a uniformly drawn `usize`; nothing is promised
/// of its value.
#[verifier::external_body]
pub(crate) fn random_usize() -> usize {
    rand::random::<usize>()
}

} // verus!
