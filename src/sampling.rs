//! Randomness: the generator the encoder draws from, and the seeded index
//! sampler that encoder and decoder share.
use vstd::prelude::*;
use rand::distributions::Distribution;
use rand::rngs::StdRng;
use rand::{Rng, SeedableRng};

verus! {

#[verifier::external_type_specification]
#[verifier::external_body]
pub struct ExStdRng(StdRng);

/// Relies on `rand::rngs::StdRng::from_entropy`: a generator seeded by the system.
#[verifier::external_body]
pub(crate) fn entropy_rng() -> (r: StdRng) {
    StdRng::from_entropy()
}

/// Relies on `rand::Rng::gen::<u32>`: any 32-bit value.
#[verifier::external_body]
pub(crate) fn draw_u32(rng: &mut StdRng) -> (r: u32) {
    rng.gen::<u32>()
}

/// Relies on `rand::Rng::gen::<u64>`: any 64-bit value.
#[verifier::external_body]
pub(crate) fn draw_u64(rng: &mut StdRng) -> (r: u64) {
    rng.gen::<u64>()
}

/// The chunk indices that a generator seeded with `seed` draws, `degree` of them,
/// uniformly from `[0, k)`.
pub uninterp spec fn seeded_indices(seed: u64, k: usize, degree: usize) -> Seq<usize>;

/// Relies on `rand::rngs::StdRng::seed_from_u64` and `rand::distributions::Uniform`
/// (rand 0.8): a generator seeded from `seed` yields a fixed sequence, and each
/// draw of `Uniform::new(0, k)` lies in `[0, k)`. Draws are made on `u64`, so the
/// sequence does not depend on the width of `usize`.
#[verifier::external_body]
fn draw_seeded(seed: u64, k: usize, degree: usize) -> (r: Vec<usize>)
    requires
        0 < k,
    ensures
        r@ == seeded_indices(seed, k, degree),
        r@.len() == degree,
        forall|j: int| 0 <= j < r@.len() ==> #[trigger] r@[j] < k,
{
    let rng = rand::rngs::StdRng::seed_from_u64(seed);
    let range = rand::distributions::Uniform::new(0u64, k as u64);
    range.sample_iter(rng).take(degree).map(|i| i as usize).collect()
}

/// The `degree` chunk indices, each below `k`, that `seed` stands for. Encoder and
/// decoder both go through this function, so that they agree on every droplet.
pub fn get_sample_from_rng_by_seed(seed: u64, k: usize, degree: usize) -> (r: Vec<usize>)
    requires
        0 < k,
    ensures
        r@ == seeded_indices(seed, k, degree),
        r@.len() == degree,
        forall|j: int| 0 <= j < r@.len() ==> #[trigger] r@[j] < k,
{
    draw_seeded(seed, k, degree)
}

} // verus!
