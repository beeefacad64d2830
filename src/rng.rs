//! The random source that the engines draw from.

use rand::Rng;
use rand::SeedableRng;
use vstd::prelude::*;

verus! {

#[verifier::external_type_specification]
#[verifier::external_body]
pub struct ExStdRng(rand::rngs::StdRng);

/// Relies on rand's `SeedableRng::seed_from_u64` for `StdRng`: a generator
/// whose draws are fixed by `seed`.
#[verifier::external_body]
fn seeded_generator(seed: u64) -> rand::rngs::StdRng {
    rand::rngs::StdRng::seed_from_u64(seed)
}

/// Relies on rand's `SeedableRng::from_rng` for `StdRng`, fed by `OsRng`: a
/// generator seeded by the operating system, or `None` when the operating
/// system gives no entropy (the call reports that as an error and does not
/// panic).
#[verifier::external_body]
fn os_generator() -> Option<rand::rngs::StdRng> {
    rand::rngs::StdRng::from_rng(rand::rngs::OsRng).ok()
}

/// Relies on rand's `Rng::gen_range` over `0..bound`: its result lies in the
/// range, and it panics only when the range is empty.
#[verifier::external_body]
fn draw_below(rng: &mut rand::rngs::StdRng, bound: usize) -> (r: usize)
    requires
        bound > 0,
    ensures
        r < bound,
{
    rng.gen_range(0..bound)
}

/// The seed used when the operating system gives no entropy.
pub const FALLBACK_SEED: u64 = 0x5eed;

/// An owned pseudo-random generator. Seeded, it makes a run reproducible.
pub struct RandomSource {
    rng: rand::rngs::StdRng,
}

impl RandomSource {
    /// A generator whose draws depend on `seed` alone.
    pub fn from_seed(seed: u64) -> (r: RandomSource) {
        RandomSource { rng: seeded_generator(seed) }
    }

    /// A generator seeded from the operating system's entropy; seeded with
    /// `FALLBACK_SEED` when the operating system gives none.
    pub fn from_entropy() -> (r: RandomSource) {
        match os_generator() {
            Some(rng) => RandomSource { rng },
            None => RandomSource::from_seed(FALLBACK_SEED),
        }
    }

    /// A uniform draw from `0..bound`.
    pub fn below(&mut self, bound: usize) -> (r: usize)
        requires
            bound > 0,
        ensures
            r < bound,
    {
        draw_below(&mut self.rng, bound)
    }
}

} // verus!
