//! The caller-supplied pseudo-random generator, and the one randomized
//! operation the library performs with it: shuffling a candidate list.
//!
//! The generator stays explicit (never a hidden global) so that callers can
//! reproduce a maze from its seed.

use vstd::prelude::*;

verus! {

#[verifier::external_type_specification]
#[verifier::external_body]
pub struct ExSmallRng(rand::rngs::SmallRng);

/// Relies on rand's `SliceRandom::shuffle`: a Fisher–Yates pass of in-place
/// swaps, so the slice afterwards holds exactly the elements it held before,
/// rearranged. Which arrangement comes out depends on the generator's state,
/// so nothing more is claimed.
#[verifier::external_body]
pub(crate) fn shuffle_cells(cells: &mut Vec<usize>, rng: &mut rand::rngs::SmallRng)
    ensures
        final(cells)@.to_multiset() == old(cells)@.to_multiset(),
        final(cells)@.len() == old(cells)@.len(),
        forall|x: usize| old(cells)@.contains(x) <==> final(cells)@.contains(x),
{
    rand::seq::SliceRandom::shuffle(cells.as_mut_slice(), rng);
}

} // verus!
