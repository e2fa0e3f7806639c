//! The random source that map generation draws from.

use vstd::prelude::*;

verus! {

/// The seedable generator of `rltk`. Its state is opaque here.
#[verifier::external_type_specification]
#[verifier::external_body]
pub struct ExRandomNumberGenerator(rltk::RandomNumberGenerator);

/// Calls `RandomNumberGenerator::roll_dice`, which adds up `n` draws, each
/// from `1` to `die_type` inclusive. The contract claims only the range of the
/// total; which total comes depends on the generator's state. The `requires`
/// keeps every draw's range non-empty and the sum inside an `i32`.
#[verifier::external_body]
pub(crate) fn roll_dice(rng: &mut rltk::RandomNumberGenerator, n: i32, die_type: i32) -> (total: i32)
    requires
        0 <= n,
        1 <= die_type < i32::MAX,
        n * die_type <= i32::MAX,
    ensures
        n <= total <= n * die_type,
{
    rng.roll_dice(n, die_type)
}

} // verus!
