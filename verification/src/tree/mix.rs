//! The pseudo-random choice between the two neighbours of a key.

use vstd::prelude::*;

verus! {

/// The first seed, and the step from one seed to the next.
pub const GOLDEN_GAMMA: u64 = 0x9E3779B97F4A7C15;

/// The number that is mixed out of a seed.
pub open spec fn spec_mix(seed: u64) -> u64 {
    let a = (seed ^ (seed >> 30)).wrapping_mul(0xBF58476D1CE4E5B9);
    let b = (a ^ (a >> 27)).wrapping_mul(0x94D049BB133111EB);
    b ^ (b >> 31)
}

/// The seed that follows `seed`.
pub open spec fn spec_next_seed(seed: u64) -> u64 {
    seed.wrapping_add(GOLDEN_GAMMA)
}

/// Steps the seed and returns the number mixed out of the new seed. The
/// numbers look random and are not: the same seed gives the same number.
pub fn split_mix_64(seed: &mut u64) -> (r: usize)
    ensures
        *final(seed) == spec_next_seed(*old(seed)),
        r == spec_mix(*final(seed)) as usize,
{
    *seed = seed.wrapping_add(GOLDEN_GAMMA);
    let mut z: u64 = *seed;
    z = (z ^ (z >> 30)).wrapping_mul(0xBF58476D1CE4E5B9);
    z = (z ^ (z >> 27)).wrapping_mul(0x94D049BB133111EB);
    #[verifier::truncate]
    ((z ^ (z >> 31)) as usize)
}

pub fn is_even(x: usize) -> (r: bool)
    ensures
        r == (x % 2 == 0),
{
    x % 2 == 0
}

/// Steps the seed and says from which side the replacement for a removed
/// key with two children is taken.
pub fn start_right(seed: &mut u64) -> (r: bool)
    ensures
        *final(seed) == spec_next_seed(*old(seed)),
        r == ((spec_mix(*final(seed)) as usize) % 2 == 0),
{
    is_even(split_mix_64(seed))
}

} // verus!
