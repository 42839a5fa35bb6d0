use vstd::prelude::*;
use rand::SeedableRng;
use rand::seq::SliceRandom;
use rand::rngs::StdRng;

verus! {

#[verifier::external_type_specification]
#[verifier::external_body]
pub struct ExStdRng(rand::rngs::StdRng);

/// `rand::rngs::StdRng::from_os_rng`: a generator seeded by the operating system. Nothing
/// is claimed of the generator.
#[verifier::external_body]
pub(crate) fn fresh_rng() -> (r: StdRng) {
    StdRng::from_os_rng()
}

/// `SliceRandom::shuffle` on the vector's slice: the elements end up in a random order.
/// Claimed: the vector holds the same elements as before, as many times each.
#[verifier::external_body]
pub(crate) fn shuffle_in_place<T>(v: &mut Vec<T>, rng: &mut StdRng)
    ensures
        final(v)@.to_multiset() == old(v)@.to_multiset(),
{
    v.as_mut_slice().shuffle(rng);
}

} // verus!
