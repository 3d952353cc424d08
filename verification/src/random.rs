//! The random choices that the tour search makes, drawn from the generator
//! of the running thread.

use rand::rngs::ThreadRng;
use rand::seq::SliceRandom;
use rand::Rng;
use vstd::prelude::*;

verus! {

/// The handle to a thread's random number generator, `rand::rngs::ThreadRng`.
/// Nothing is known of what it will produce.
#[verifier::external_type_specification]
#[verifier::external_body]
pub struct ExThreadRng(rand::rngs::ThreadRng);

/// Calls `rand::rng`, which hands out the handle to the generator of the
/// running thread. Nothing is claimed of the handle. The generator is seeded
/// from the operating system when a thread first asks for it, and `rand`
/// panics if the system cannot provide the seed.
#[verifier::external_body]
pub(crate) fn thread_rng() -> ThreadRng {
    rand::rng()
}

/// Calls `rand::seq::SliceRandom::shuffle` on the items. The claim is that
/// the items are the same afterwards, each as often as before, in some order:
/// `rand` shuffles a slice by swapping pairs of its elements and does nothing
/// else to it. Which order comes out is not stated.
#[verifier::external_body]
pub(crate) fn shuffle(rng: &mut ThreadRng, items: &mut Vec<usize>)
    ensures
        final(items)@.to_multiset() == old(items)@.to_multiset(),
{
    items.shuffle(rng);
}

/// Calls `rand::Rng::random_range` with the half-open range from `low` to
/// `high`. The claim is that the number drawn lies in that range; which one
/// it is is not stated. `rand` panics on an empty range, so the range must
/// hold a number.
#[verifier::external_body]
pub(crate) fn random_below(rng: &mut ThreadRng, low: usize, high: usize) -> (drawn: usize)
    requires
        low < high,
    ensures
        low <= drawn < high,
{
    rng.random_range(low..high)
}

} // verus!
