//! Random draws.

use vstd::prelude::*;

verus! {

/// Draws a `u32` through `rand::random`, which samples the thread-local
/// generator. Nothing is claimed of the value: every `u32` can come back.
#[verifier::external_body]
pub(crate) fn random_u32() -> u32 {
    rand::random::<u32>()
}

/// Reorders the vector in place through `rand::seq::SliceRandom::shuffle`
/// with the thread-local generator. The shuffle only exchanges elements, so
/// the vector holds the same items as before, each as often as before.
#[verifier::external_body]
pub(crate) fn shuffle_cells(cells: &mut Vec<(i32, i32)>)
    ensures
        final(cells)@.to_multiset() == old(cells)@.to_multiset(),
{
    rand::seq::SliceRandom::shuffle(cells.as_mut_slice(), &mut rand::thread_rng());
}

} // verus!
