//! The generator that resampling draws its indices from.

use rand::rngs::OsRng;
use rand::Rng;
use rand::SeedableRng;
use rand_chacha::ChaCha8Rng;
use vstd::prelude::*;

verus! {

/// The generator of the crate `rand_chacha`, whose inside the library never reads.
#[verifier::external_type_specification]
#[verifier::external_body]
pub struct ExChaCha8Rng(ChaCha8Rng);

/// The words that a generator has yet to hand out: the one at zero is the next.
pub uninterp spec fn words_left(rng: ChaCha8Rng) -> Map<nat, u32>;

/// The words that a generator made by `ChaCha8Rng::seed_from_u64` has to hand out.
pub uninterp spec fn seeded_words(seed: u64) -> Map<nat, u32>;

/// What `Rng::gen_range` makes of the words at hand for the range `0..n` on a machine with
/// pointers of `width` bits: the index, and the words that are left after it.
pub uninterp spec fn index_drawn(words: Map<nat, u32>, n: usize, width: u32) -> (
    usize,
    Map<nat, u32>,
);

/// Calls `ChaCha8Rng::seed_from_u64`. The words that the new generator hands out depend on the
/// seed alone.
#[verifier::external_body]
pub(crate) fn seeded_generator(seed: u64) -> (rng: ChaCha8Rng)
    ensures
        words_left(rng) == seeded_words(seed),
{
    ChaCha8Rng::seed_from_u64(seed)
}

/// Calls `ChaCha8Rng::from_rng` with `OsRng`, which takes the seed from the operating system, and
/// gives nothing where the system has no seed to give. Nothing is claimed of the words of the new
/// generator: they differ from call to call.
#[verifier::external_body]
pub(crate) fn entropy_generator() -> (rng: Option<ChaCha8Rng>) {
    ChaCha8Rng::from_rng(OsRng).ok()
}

/// Calls `Rng::gen_range` with the range `0..n`. The index lies in the range; it and the words that
/// are left follow from the words that were at hand, from `n` and from the width of a pointer. An
/// empty range makes the call panic.
#[verifier::external_body]
pub(crate) fn draw_index(rng: &mut ChaCha8Rng, n: usize) -> (index: usize)
    requires
        n > 0,
    ensures
        index < n,
        (index, words_left(*final(rng))) == index_drawn(words_left(*old(rng)), n, usize::BITS),
{
    rng.gen_range(0..n)
}

/// The words that are left after `count` indices below `n` were drawn.
pub open spec fn words_after(words: Map<nat, u32>, n: usize, count: nat) -> Map<nat, u32>
    decreases count,
{
    if count == 0 {
        words
    } else {
        index_drawn(words_after(words, n, (count - 1) as nat), n, usize::BITS).1
    }
}

/// The index below `n` that is drawn after `k` others.
pub open spec fn nth_index(words: Map<nat, u32>, n: usize, k: nat) -> usize {
    index_drawn(words_after(words, n, k), n, usize::BITS).0
}

/// Each index is drawn from what the draws before it have left, and nothing is left out in between.
pub proof fn draws_follow_each_other(words: Map<nat, u32>, n: usize, k: nat)
    ensures
        words_after(words, n, 0) == words,
        nth_index(words, n, k) == index_drawn(words_after(words, n, k), n, usize::BITS).0,
        words_after(words, n, k + 1) == index_drawn(
            words_after(words, n, k),
            n,
            usize::BITS,
        ).1,
        nth_index(words, n, 0) == index_drawn(words, n, usize::BITS).0,
        nth_index(words, n, k + 1) == nth_index(
            index_drawn(words, n, usize::BITS).1,
            n,
            k,
        ),
{
    lemma_later_draws(words, n, k);
}

/// What is left after one draw and `k` more is what is left after `k + 1` draws.
proof fn lemma_later_draws(words: Map<nat, u32>, n: usize, k: nat)
    ensures
        words_after(words, n, k + 1) == words_after(
            index_drawn(words, n, usize::BITS).1,
            n,
            k,
        ),
    decreases k,
{
    if k == 0 {
        reveal_with_fuel(words_after, 2);
    } else {
        lemma_later_draws(words, n, (k - 1) as nat);
    }
}

} // verus!
