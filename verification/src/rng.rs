//! The seeded source of random words.
//!
//! A generator is modelled by the words that it will hand out, in order. They
//! are a function of the seed, which is what makes runs reproducible.

use rand::rngs::StdRng;
use rand::{Rng, SeedableRng};
use vstd::prelude::*;

use crate::bits;

verus! {

/// The generator of the `rand` crate.
#[verifier::external_type_specification]
#[verifier::external_body]
pub struct ExStdRng(StdRng);

/// The 32-bit words that a generator will hand out.
pub uninterp spec fn rng_words(rng: StdRng) -> Map<int, u32>;

/// The 32-bit words that a generator with the given seed will hand out.
pub uninterp spec fn seeded_words(seed: u64) -> Map<int, u32>;

/// The number below `bound` that the words give, and how many words it takes.
pub uninterp spec fn below_of(words: Map<int, u32>, bound: u32) -> (u32, int);

/// What is left of a stream of words after the first `n`.
pub open spec fn skip_words(words: Map<int, u32>, n: int) -> Map<int, u32> {
    Map::new(|i: int| i >= 0, |i: int| words[i + n])
}

/// The number from 0 to below 1 that a word stands for: its upper 24 bits,
/// divided by `2^24`.
pub open spec fn uniform_of(word: u32) -> u32 {
    bits::scaled_24_of(word / 256)
}

/// A generator with the given seed.
///
/// Calls `SeedableRng::seed_from_u64` of `rand` on `StdRng`. The state is
/// computed from the seed alone, so that the words to come are a function of it.
#[verifier::external_body]
fn seed_rng(seed: u64) -> (rng: StdRng)
    ensures
        rng_words(rng) == seeded_words(seed),
{
    StdRng::seed_from_u64(seed)
}

/// A second generator in the same state.
///
/// Calls `Clone::clone` of `rand` on `StdRng`, which copies the state, so that
/// the clone will hand out the same words.
#[verifier::external_body]
fn clone_rng(rng: &StdRng) -> (r: StdRng)
    ensures
        rng_words(r) == rng_words(*rng),
{
    rng.clone()
}

/// The next 32-bit word.
///
/// Calls `Rng::gen` of `rand` for `u32`, which hands out the next word of the
/// stream and moves past it.
#[verifier::external_body]
fn next_word(rng: &mut StdRng) -> (word: u32)
    ensures
        word == rng_words(*old(rng))[0],
        rng_words(*final(rng)) == skip_words(rng_words(*old(rng)), 1),
{
    rng.gen()
}

/// The next number below `bound`.
///
/// Calls `Rng::gen_range` of `rand` for a range of `u32`, which panics on an
/// empty range. It takes words from the stream until one is accepted, so that
/// both the number and how many words it takes follow from the words and the
/// bound.
#[verifier::external_body]
fn next_below(rng: &mut StdRng, bound: u32) -> (r: u32)
    requires
        bound > 0,
    ensures
        r < bound,
        r == below_of(rng_words(*old(rng)), bound).0,
        rng_words(*final(rng)) == skip_words(
            rng_words(*old(rng)),
            below_of(rng_words(*old(rng)), bound).1,
        ),
{
    rng.gen_range(0..bound)
}

/// A source of random words.
#[derive(Debug)]
pub struct Generator {
    rng: StdRng,
}

impl Generator {
    /// The words to come.
    pub closed spec fn words(self) -> Map<int, u32> {
        rng_words(self.rng)
    }

    /// A generator with the given seed.
    pub fn new(seed: u64) -> (g: Generator)
        ensures
            g.words() == seeded_words(seed),
    {
        Generator { rng: seed_rng(seed) }
    }

    /// The next word.
    pub fn next_word(&mut self) -> (word: u32)
        ensures
            word == old(self).words()[0],
            final(self).words() == skip_words(old(self).words(), 1),
    {
        next_word(&mut self.rng)
    }

    /// The next number below `bound`.
    pub fn next_below(&mut self, bound: u32) -> (r: u32)
        requires
            bound > 0,
        ensures
            r < bound,
            r == below_of(old(self).words(), bound).0,
            final(self).words() == skip_words(
                old(self).words(),
                below_of(old(self).words(), bound).1,
            ),
    {
        next_below(&mut self.rng, bound)
    }
}

impl Clone for Generator {
    fn clone(&self) -> (g: Generator)
        ensures
            g.words() == self.words(),
    {
        Generator { rng: clone_rng(&self.rng) }
    }
}

/// The number from 0 to below 1 that a word stands for.
pub fn uniform(word: u32) -> (r: u32)
    ensures
        r == uniform_of(word),
        r < bits::ONE,
{
    bits::scaled_24(word / 256)
}

/// A word stands for a number from 0 to below 1.
pub proof fn lemma_uniform_range(word: u32)
    ensures
        uniform_of(word) < bits::ONE,
{
    bits::lemma_scaled_24(word / 256);
}

/// The words left before number `i` of a prompt of random tokens.
pub open spec fn words_before(words: Map<int, u32>, vocab: u32, i: int) -> Map<int, u32>
    decreases i,
{
    if i <= 0 {
        words
    } else {
        let w = words_before(words, vocab, i - 1);
        skip_words(w, below_of(w, vocab).1)
    }
}

/// A prompt of `len` random tokens, reproducible for a given seed.
pub fn random_prompt(seed: u64, len: usize, vocab: u32) -> (tokens: Vec<u32>)
    requires
        len > 0 ==> vocab > 0,
    ensures
        tokens@.len() == len,
        forall|i: int| 0 <= i < len ==> #[trigger] tokens@[i] < vocab,
        forall|i: int|
            0 <= i < len ==> #[trigger] tokens@[i] == below_of(
                words_before(seeded_words(seed), vocab, i),
                vocab,
            ).0,
{
    let mut source = Generator::new(seed);
    let mut tokens: Vec<u32> = Vec::with_capacity(len);
    while tokens.len() < len
        invariant
            tokens@.len() <= len,
            len > 0 ==> vocab > 0,
            source.words() == words_before(seeded_words(seed), vocab, tokens@.len() as int),
            forall|i: int| 0 <= i < tokens@.len() ==> #[trigger] tokens@[i] < vocab,
            forall|i: int|
                0 <= i < tokens@.len() ==> #[trigger] tokens@[i] == below_of(
                    words_before(seeded_words(seed), vocab, i),
                    vocab,
                ).0,
        decreases len - tokens@.len(),
    {
        let token: u32 = source.next_below(vocab);
        tokens.push(token);
    }
    tokens
}

} // verus!
