//! The random noise that parameterises the MinHash functions of a tree.
use vstd::prelude::*;
use rand::rngs::StdRng;
use rand::Rng;
use rand::SeedableRng;

verus! {

/// The seed from which every tree draws its noise.
pub const NOISE_SEED: u64 = 72;

/// Noise values are drawn from `0..NOISE_BOUND`.
pub const NOISE_BOUND: u64 = 100;

#[verifier::external_type_specification]
#[verifier::external_body]
pub struct ExStdRng(rand::rngs::StdRng);

/// Calls `rand::SeedableRng::seed_from_u64` for `rand::rngs::StdRng`.
/// Trusted: nothing is stated of the generator that comes back.
#[verifier::external_body]
fn seeded_rng(seed: u64) -> StdRng {
    StdRng::seed_from_u64(seed)
}

/// Calls `rand::Rng::gen_range(0..bound)` on `rng`.
/// Trusted: the value lies in `0..bound`, which the crate documents; which value comes out is
/// not stated. The range must not be empty, else the call panics.
#[verifier::external_body]
fn draw_below(rng: &mut StdRng, bound: u64) -> (value: u64)
    requires
        bound > 0,
    ensures
        value < bound,
{
    rng.gen_range(0..bound)
}

/// `count` values drawn one after the other from `rng`, each below `NOISE_BOUND`.
fn draw_noise(rng: &mut StdRng, count: usize) -> (noise: Vec<u64>)
    ensures
        noise@.len() == count,
        forall|i: int| 0 <= i < count ==> #[trigger] noise@[i] < NOISE_BOUND,
{
    let mut noise: Vec<u64> = Vec::new();
    let mut i: usize = 0;
    while i < count
        invariant
            i <= count,
            noise@.len() == i,
            forall|j: int| 0 <= j < i ==> #[trigger] noise@[j] < NOISE_BOUND,
        decreases count - i,
    {
        let value = draw_below(rng, NOISE_BOUND);
        noise.push(value);
        i = i + 1;
    }
    noise
}

/// The multiplier and offset noise of `num_hashes` hash functions: two runs of `num_hashes`
/// draws below `NOISE_BOUND` from a generator seeded with `NOISE_SEED`.
/// The contract states the lengths and the bound of the values; it does not state the seed,
/// the bound handed to each draw or the order of the draws, since nothing is stated of the
/// generator's state.
pub fn seeded_noise(num_hashes: usize) -> (noise: (Vec<u64>, Vec<u64>))
    ensures
        noise.0@.len() == num_hashes,
        noise.1@.len() == num_hashes,
        forall|i: int| 0 <= i < num_hashes ==> #[trigger] noise.0@[i] < NOISE_BOUND,
        forall|i: int| 0 <= i < num_hashes ==> #[trigger] noise.1@[i] < NOISE_BOUND,
{
    let mut rng = seeded_rng(NOISE_SEED);
    let multipliers = draw_noise(&mut rng, num_hashes);
    let offsets = draw_noise(&mut rng, num_hashes);
    (multipliers, offsets)
}

} // verus!
