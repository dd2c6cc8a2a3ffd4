//! The random source of the search.

use vstd::prelude::*;

verus! {

/// rand's seedable generator, carried through the search as an opaque value.
#[verifier::external_type_specification]
#[verifier::external_body]
pub struct ExStdRng(rand::rngs::StdRng);

/// Relies on `rand::Rng::gen_range` (rand 0.7): a value drawn from `[0, n)`;
/// it panics when the range is empty, which `requires` excludes.
#[verifier::external_body]
pub(crate) fn indice_aleatorio(rng: &mut rand::rngs::StdRng, n: usize) -> (r: usize)
    requires
        n > 0,
    ensures
        r < n,
{
    rand::Rng::gen_range(rng, 0, n)
}

} // verus!
