use rand::rngs::StdRng;
use rand::Rng;
use vstd::prelude::*;

verus! {

/// The seedable generator that placement and targeting draw from.
#[verifier::external_type_specification]
#[verifier::external_body]
pub struct ExStdRng(StdRng);

/// Relies on rand's `Rng::gen::<bool>`: a fair coin.
#[verifier::external_body]
pub(crate) fn random_bool(rng: &mut StdRng) -> (r: bool) {
    rng.gen::<bool>()
}

/// Relies on rand's `Rng::gen_range(0, n)`: a value in `[0, n)`; it panics when `n == 0`.
#[verifier::external_body]
pub(crate) fn random_below(rng: &mut StdRng, n: usize) -> (r: usize)
    requires
        n > 0,
    ensures
        r < n,
{
    rng.gen_range(0, n)
}

} // verus!
