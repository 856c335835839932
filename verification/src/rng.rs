//! Random draws of the mutation operators.
use vstd::prelude::*;
use rand::rngs::StdRng;

verus! {

/// `rand`'s standard generator, carried through the mutation operators.
#[verifier::external_type_specification]
#[verifier::external_body]
pub struct ExStdRng(StdRng);

/// Calls `rand::SeedableRng::seed_from_u64`: the generator that `seed`
/// determines. Nothing is stated of its state, which only the generator
/// reads.
#[verifier::external_body]
pub(crate) fn seeded_rng(seed: u64) -> StdRng {
    <StdRng as rand::SeedableRng>::seed_from_u64(seed)
}

/// Calls `rand::Rng::gen_range(rng, low..high)` on `usize`. `rand`
/// documents that the value lies in `low..high` and that an empty range
/// panics; which value comes is up to the generator's state.
#[verifier::external_body]
pub(crate) fn random_index(rng: &mut StdRng, low: usize, high: usize) -> (r: usize)
    requires
        low < high,
    ensures
        low <= r < high,
{
    rand::Rng::gen_range(rng, low..high)
}

} // verus!
