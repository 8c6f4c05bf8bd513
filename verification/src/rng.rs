use rand::rngs::StdRng;
use rand::Rng;
use vstd::prelude::*;

verus! {

/// The seeded generator of `rand`; its state is opaque here.
#[verifier::external_type_specification]
#[verifier::external_body]
pub struct ExStdRng(StdRng);

/// Calls `rand::Rng::random_range` with the half-open range `lo..hi`.
/// The crate documents that the draw lies in the range and that an empty
/// range panics; the value itself depends on the generator's state, so
/// nothing more is claimed.
#[verifier::external_body]
pub(crate) fn random_below(rng: &mut StdRng, lo: usize, hi: usize) -> (r: usize)
    requires
        lo < hi,
    ensures
        lo <= r < hi,
{
    rng.random_range(lo..hi)
}

/// Calls `rand::Rng::random_range` with the inclusive range `lo..=hi`.
/// The draw lies in the range; which value comes out depends on the
/// generator's state and is not claimed.
#[verifier::external_body]
pub(crate) fn random_between(rng: &mut StdRng, lo: usize, hi: usize) -> (r: usize)
    requires
        lo <= hi,
    ensures
        lo <= r <= hi,
{
    rng.random_range(lo..=hi)
}

} // verus!
