//! The random source of a layout run: nanorand's `WyRand`.

use nanorand::Rng;
use vstd::prelude::*;

verus! {

#[verifier::external_type_specification]
#[verifier::external_body]
pub struct ExWyRand(nanorand::WyRand);

/// Relies on nanorand's `Rng::generate_range` over the inclusive range
/// `0..=hi`: the number drawn is at most `hi`.
#[verifier::external_body]
pub(crate) fn draw_at_most(rng: &mut nanorand::WyRand, hi: u64) -> (r: u64)
    ensures
        r <= hi,
{
    rng.generate_range(0..=hi)
}

/// Relies on nanorand's `Rng::generate` for `u8`: any byte may come.
#[verifier::external_body]
pub(crate) fn draw_byte(rng: &mut nanorand::WyRand) -> (r: u8) {
    rng.generate::<u8>()
}

} // verus!
