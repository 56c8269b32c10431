//! The boundary to the `rand` crate: the only items of this library whose
//! contracts are taken on trust rather than proved.

use rand::rngs::StdRng;
use rand::Rng;
use rand::SeedableRng;
use vstd::prelude::*;

verus! {

/// `rand::rngs::StdRng`, the generator that every table is drawn from. Its
/// state is opaque to the proofs: nothing is claimed about the stream it
/// produces.
#[verifier::external_type_specification]
#[verifier::external_body]
pub struct ExStdRng(rand::rngs::StdRng);

/// Calls `StdRng::from_entropy`, which seeds a fresh generator from the
/// operating system and panics if the system has no entropy to give. Nothing
/// is claimed about the generator returned.
#[verifier::external_body]
pub(crate) fn entropy_rng() -> StdRng {
    StdRng::from_entropy()
}

/// Calls `StdRng::seed_from_u64`, which expands `seed` into a full seed and
/// builds the generator from it. Nothing is claimed about the generator
/// returned.
#[verifier::external_body]
pub(crate) fn seeded_rng(seed: u64) -> StdRng {
    StdRng::seed_from_u64(seed)
}

/// Calls `Rng::gen_range(0, bound)` on `rng`. The call panics when the range
/// is empty, hence the precondition; for a non-empty range the sampler
/// returns `0 + hi` where `hi` is the high word of a product with `bound`,
/// so the value drawn is below `bound`. Which value is drawn is left open.
#[verifier::external_body]
pub(crate) fn draw_below(rng: &mut StdRng, bound: usize) -> (r: usize)
    requires
        bound > 0,
    ensures
        r < bound,
{
    rng.gen_range(0, bound)
}

} // verus!
