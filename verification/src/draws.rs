use rand::rngs::ChaCha8Rng;
use vstd::prelude::*;

mod stream;

pub use self::stream::DrawStream;
use self::stream::{seeded_stream, take_draw};

verus! {

/// The type of the seeded generator that draws block indices.
#[verifier::external_type_specification]
#[verifier::external_body]
pub struct ExChaCha8Rng(ChaCha8Rng);

/// Value number `index` (counting from 0) that `RngExt::random_range(0..bound)`
/// returns on a `ChaCha8Rng` made by `SeedableRng::seed_from_u64(seed)`, when
/// every earlier value was drawn below the same `bound`. Seeding is
/// reproducible and ChaCha8 is portable, so the value depends on these
/// three numbers alone.
pub uninterp spec fn chacha8_draw(seed: u64, bound: usize, index: usize) -> usize;

/// The first `n` values drawn below `bound` from the generator seeded with `seed`.
pub open spec fn chacha8_draws(seed: u64, bound: usize, n: nat) -> Seq<usize> {
    Seq::new(n, |k: int| chacha8_draw(seed, bound, k as usize))
}

impl DrawStream {
    /// A fresh generator seeded with `seed`, drawing below `bound`.
    pub fn new(seed: u64, bound: usize) -> (s: DrawStream)
        ensures
            s.seed() == seed,
            s.bound() == bound,
            s.drawn() == 0,
    {
        seeded_stream(seed, bound)
    }

    /// The next value of the seeded generator, below the bound.
    pub fn draw(&mut self) -> (r: usize)
        requires
            old(self).bound() > 0,
            old(self).drawn() < usize::MAX,
        ensures
            r == chacha8_draw(old(self).seed(), old(self).bound(), old(self).drawn() as usize),
            r < old(self).bound(),
            final(self).seed() == old(self).seed(),
            final(self).bound() == old(self).bound(),
            final(self).drawn() == old(self).drawn() + 1,
    {
        take_draw(self)
    }
}

/// One draw as `DrawStream::draw` promises it: `r` is the value of the
/// generator at `before`'s count, and `after` has counted one value more.
pub open spec fn draws_once(before: DrawStream, r: usize, after: DrawStream) -> bool {
    &&& r == chacha8_draw(before.seed(), before.bound(), before.drawn() as usize)
    &&& after.seed() == before.seed()
    &&& after.bound() == before.bound()
    &&& after.drawn() == before.drawn() + 1
}

/// `vals` are the values of successive draws on one stream that went
/// through the states `states`, starting fresh from `DrawStream::new`.
pub open spec fn fresh_history(states: Seq<DrawStream>, vals: Seq<usize>) -> bool {
    &&& states.len() == vals.len() + 1
    &&& states[0].drawn() == 0
    &&& forall|k: int| 0 <= k < vals.len() ==> #[trigger] draws_once(states[k], vals[k], states[k + 1])
}

/// Successive draws on one freshly seeded stream are the successive values
/// of one generator seeded once with the stream's seed: draw number `k`
/// gives value number `k`, never the first value of a generator seeded
/// again, and the stream has counted every draw.
pub proof fn lemma_successive_draws(states: Seq<DrawStream>, vals: Seq<usize>)
    requires
        fresh_history(states, vals),
    ensures
        vals == chacha8_draws(states[0].seed(), states[0].bound(), vals.len()),
        states.last().drawn() == vals.len(),
        states.last().seed() == states[0].seed(),
        states.last().bound() == states[0].bound(),
    decreases vals.len(),
{
    if vals.len() > 0 {
        let n = vals.len() - 1;
        let s2 = states.take(states.len() - 1);
        let v2 = vals.take(n);
        assert forall|k: int| 0 <= k < v2.len() implies #[trigger] draws_once(s2[k], v2[k], s2[k + 1]) by {
            assert(draws_once(states[k], vals[k], states[k + 1]));
        }
        lemma_successive_draws(s2, v2);
        assert(draws_once(states[n], vals[n], states[n + 1]));
        assert(s2.last() == states[n]);
        assert(vals =~= chacha8_draws(states[0].seed(), states[0].bound(), vals.len())) by {
            assert forall|k: int| 0 <= k < vals.len() implies vals[k] == chacha8_draws(
                states[0].seed(),
                states[0].bound(),
                vals.len(),
            )[k] by {
                if k < n {
                    assert(vals[k] == v2[k]);
                }
            }
        }
    }
}

/// The values a stream draws depend on its seed and bound alone: two
/// freshly seeded streams with the same seed and bound give the same value
/// at every draw that both make.
pub proof fn lemma_same_seed_same_draws(
    a_states: Seq<DrawStream>,
    a_vals: Seq<usize>,
    b_states: Seq<DrawStream>,
    b_vals: Seq<usize>,
    k: int,
)
    requires
        fresh_history(a_states, a_vals),
        fresh_history(b_states, b_vals),
        a_states[0].seed() == b_states[0].seed(),
        a_states[0].bound() == b_states[0].bound(),
        0 <= k < a_vals.len(),
        k < b_vals.len(),
    ensures
        a_vals[k] == b_vals[k],
{
    lemma_successive_draws(a_states, a_vals);
    lemma_successive_draws(b_states, b_vals);
}

} // verus!
