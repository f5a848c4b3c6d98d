//! The random source of a split.
use rand::rngs::SmallRng;
use rand::Rng;
use vstd::prelude::*;

verus! {

/// `rand::rngs::SmallRng`, the generator that a chain draws from. Nothing
/// is said of its state.
#[verifier::external_type_specification]
#[verifier::external_body]
pub struct ExSmallRng(SmallRng);

/// Draws an index below `len`: `Rng::gen_range` on the range `0..len`.
/// `gen_range` panics on an empty range, so `len` is not zero; what it
/// returns lies in the range. Which index comes is not stated.
#[verifier::external_body]
pub(crate) fn draw_index(rng: &mut SmallRng, len: usize) -> (i: usize)
    requires
        len > 0,
    ensures
        i < len,
{
    rng.gen_range(0..len)
}

} // verus!
