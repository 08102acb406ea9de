//! The seeded random source used to populate a page.
use rand::distributions::{IndependentSample, Range};
use rand::{Rng, SeedableRng, StdRng};
use vstd::prelude::*;

verus! {

#[verifier::external_type_specification]
#[verifier::external_body]
pub struct ExStdRng(StdRng);

/// Relies on `rand::StdRng::from_seed` for `&[usize]` seeds: builds the
/// generator from the seed words (same seed, same stream).
#[verifier::external_body]
pub(crate) fn seeded_rng(seed: &Vec<usize>) -> StdRng {
    SeedableRng::from_seed(seed.as_slice())
}

/// Relies on `rand::distributions::Range::new(low, high).ind_sample`: a value
/// drawn from `[low, high)`; `Range::new` panics unless `low < high`.
#[verifier::external_body]
pub(crate) fn draw_range(rng: &mut StdRng, low: u32, high: u32) -> (r: u32)
    requires
        low < high,
    ensures
        low <= r < high,
{
    Range::new(low, high).ind_sample(rng)
}

/// Relies on `rand::Rng::gen::<bool>`: a fair coin.
#[verifier::external_body]
pub(crate) fn draw_bool(rng: &mut StdRng) -> bool {
    rng.gen()
}

} // verus!
