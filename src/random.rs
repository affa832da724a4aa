use vstd::prelude::*;

verus! {

#[verifier::external_type_specification]
#[verifier::external_body]
pub struct ExRng(fastrand::Rng);

/// Relies on `fastrand::Rng::usize` with the range `0..bound`: a number below `bound`.
/// The range must not be empty, or the call panics.
#[verifier::external_body]
pub(crate) fn draw_below(rng: &mut fastrand::Rng, bound: usize) -> (r: usize)
    requires
        bound > 0,
    ensures
        r < bound,
{
    rng.usize(0..bound)
}

/// Relies on `fastrand::Rng::shuffle`: the items are permuted, none added or lost.
#[verifier::external_body]
pub(crate) fn shuffle_ids(rng: &mut fastrand::Rng, v: &mut Vec<usize>)
    ensures
        final(v)@.to_multiset() == old(v)@.to_multiset(),
        final(v)@.len() == old(v)@.len(),
{
    rng.shuffle(v.as_mut_slice())
}

} // verus!
