//! The small generator of the `rand` crate.

use rand::rngs::SmallRng;
use rand::SeedableRng;
use vstd::prelude::*;

verus! {

/// The small generator, whose state is not looked into.
#[verifier::external_type_specification]
#[verifier::external_body]
pub struct ExSmallRng(SmallRng);

/// The state in which the small generator starts from `seed` on a machine whose pointers
/// have `width` bits.
pub uninterp spec fn seeded(seed: u64, width: u32) -> SmallRng;

/// Calls `rand::SeedableRng::seed_from_u64` of `rand::rngs::SmallRng`.
///
/// The claim is that the state depends on the seed and on the pointer width alone: the
/// crate runs one algorithm where pointers have 64 bits and another elsewhere, and seeds
/// either of them by hashing the seed.
#[verifier::external_body]
pub(crate) fn seed_generator(seed: u64) -> (r: SmallRng)
    ensures
        r == seeded(seed, usize::BITS),
{
    SmallRng::seed_from_u64(seed)
}

} // verus!
