//! The source of chance that the solvers draw from.

use rand::rngs::StdRng;
use rand::{Rng, RngCore};
use vstd::prelude::*;

verus! {

/// `rand::rngs::StdRng`, of which Verus is told that it exists and no more.
#[verifier::external_type_specification]
#[verifier::external_body]
pub struct ExStdRng(StdRng);

/// `Rng::gen_range` over `0..n`: a number below `n`, drawn from `rng`.
/// The crate samples it uniformly; that is not stated here.
#[verifier::external_body]
pub(crate) fn random_below(rng: &mut StdRng, n: usize) -> (drawn: usize)
    requires
        n > 0,
    ensures
        drawn < n,
{
    rng.gen_range(0..n)
}

/// `RngCore::next_u32`: 32 bits drawn from `rng`.  Nothing is stated of
/// them.
#[verifier::external_body]
pub(crate) fn random_word(rng: &mut StdRng) -> u32 {
    rng.next_u32()
}

} // verus!
