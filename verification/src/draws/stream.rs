use rand::rngs::ChaCha8Rng;
use rand::{RngExt, SeedableRng};
use vstd::prelude::*;

use super::chacha8_draw;

verus! {

/// A `ChaCha8Rng` together with the seed it was built from, the bound of its
/// draws and the number of values it has drawn. The seed and the count are
/// ghost and the fields are private to this module, where only the two
/// functions below make or change a stream: a stream is made only by seeding
/// its generator, and its count grows only when its generator draws.
pub struct DrawStream {
    rng: ChaCha8Rng,
    seed: Ghost<u64>,
    bound: usize,
    drawn: Ghost<nat>,
}

impl DrawStream {
    /// The seed the generator was built from.
    pub closed spec fn seed(&self) -> u64 {
        self.seed@
    }

    /// The bound of every draw.
    pub closed spec fn bound(&self) -> usize {
        self.bound
    }

    /// How many values the generator has drawn.
    pub closed spec fn drawn(&self) -> nat {
        self.drawn@
    }
}

/// Calls `SeedableRng::seed_from_u64(seed)` for `ChaCha8Rng`: the stream's
/// generator is seeded with `seed`, draws below `bound` and has drawn nothing.
#[verifier::external_body]
pub(super) fn seeded_stream(seed: u64, bound: usize) -> (s: DrawStream)
    ensures
        s.seed() == seed,
        s.bound() == bound,
        s.drawn() == 0,
{
    DrawStream { rng: ChaCha8Rng::seed_from_u64(seed), seed: Ghost(seed), bound, drawn: Ghost(0) }
}

/// Calls `RngExt::random_range(0..bound)` on the stream's generator. The
/// result is value number `drawn` of the generator seeded with `seed`, which
/// the documentation places in `0 .. bound`, and the generator has then
/// drawn one value more; `random_range` panics on an empty range, so `bound`
/// must be positive.
#[verifier::external_body]
pub(super) fn take_draw(s: &mut DrawStream) -> (r: usize)
    requires
        old(s).bound() > 0,
        old(s).drawn() < usize::MAX,
    ensures
        r == chacha8_draw(old(s).seed(), old(s).bound(), old(s).drawn() as usize),
        r < old(s).bound(),
        final(s).seed() == old(s).seed(),
        final(s).bound() == old(s).bound(),
        final(s).drawn() == old(s).drawn() + 1,
{
    s.rng.random_range(0..s.bound)
}

} // verus!
