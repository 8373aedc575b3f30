//! The pseudo-random generator that picks slots, from the rand crate.
use vstd::prelude::*;
use rand::rngs::StdRng;

verus! {

#[verifier::external_type_specification]
#[verifier::external_body]
pub struct ExStdRng(StdRng);

/// Relies on rand's `SeedableRng::from_rng` over `OsRng`: a generator seeded
/// from the platform's entropy source, or `None` where that source reports
/// an error. Nothing is known of the seed.
#[verifier::external_body]
pub(crate) fn rng_from_os() -> (r: Option<StdRng>) {
    <StdRng as rand::SeedableRng>::from_rng(rand::rngs::OsRng).ok()
}

/// Relies on rand's `Rng::gen_range` over `0..n`: a value below `n`. It
/// panics on an empty range, which `n > 0` rules out.
#[verifier::external_body]
pub(crate) fn gen_below(rng: &mut StdRng, n: usize) -> (r: usize)
    requires
        n > 0,
    ensures
        r < n,
{
    rand::Rng::gen_range(rng, 0..n)
}

} // verus!
