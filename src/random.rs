use vstd::prelude::*;

use rand::{Rng, SeedableRng};
use rand_pcg::Pcg32;

verus! {

#[verifier::external_type_specification]
#[verifier::external_body]
pub struct ExPcg32(rand_pcg::Lcg64Xsh32);

/// Relies on `rand_core::SeedableRng::seed_from_u64` for `rand_pcg::Pcg32`:
/// a generator whose stream is fixed by the seed.
#[verifier::external_body]
pub(crate) fn seeded_rng(seed: u64) -> Pcg32 {
    Pcg32::seed_from_u64(seed)
}

/// Relies on `rand::Rng::gen_range` (rand 0.7): a value in `[low, high)`; it
/// panics when `low >= high`, which `requires` rules out.
#[verifier::external_body]
pub(crate) fn draw_range(rng: &mut Pcg32, low: u64, high: u64) -> (r: u64)
    requires
        low < high,
    ensures
        low <= r < high,
{
    rng.gen_range(low, high)
}

/// Relies on `rand::Rng::gen::<bool>`: a fair coin.
#[verifier::external_body]
pub(crate) fn draw_bool(rng: &mut Pcg32) -> bool {
    rng.gen::<bool>()
}

} // verus!
