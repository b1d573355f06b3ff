//! Token sampling: greedy, temperature, top-k and top-p (nucleus).
//!
//! The sampler is seeded so that runs are reproducible, which matters both for
//! tests and for benchmarks.

use vstd::prelude::*;
use vstd::relations::*;
use vstd::seq_lib::*;

use crate::arith;
use crate::arith::Arith;
use crate::bits;
use crate::rng;
use crate::rng::Generator;
use crate::tensor;

verus! {

/// The index of the largest of the first `n` logits; ties resolve to the lowest
/// index.
pub open spec fn argmax_upto(logits: Seq<u32>, n: int) -> int
    decreases n,
{
    if n <= 1 {
        0
    } else {
        let best = argmax_upto(logits, n - 1);
        if bits::total_rank(logits[n - 1]) > bits::total_rank(logits[best]) {
            n - 1
        } else {
            best
        }
    }
}

/// The index of the largest logit.
pub open spec fn argmax_of(logits: Seq<u32>) -> int {
    argmax_upto(logits, logits.len() as int)
}

/// No logit is larger than the one that greedy sampling picks, and those before
/// it are smaller.
pub proof fn law_argmax(logits: Seq<u32>, n: int, i: int)
    requires
        0 <= i < n <= logits.len(),
    ensures
        0 <= argmax_upto(logits, n) < n,
        bits::total_rank(logits[i]) <= bits::total_rank(logits[argmax_upto(logits, n)]),
        i < argmax_upto(logits, n) ==> bits::total_rank(logits[i]) < bits::total_rank(
            logits[argmax_upto(logits, n)],
        ),
    decreases n,
{
    if n > 1 {
        if i < n - 1 {
            law_argmax(logits, n - 1, i);
        } else {
            law_argmax(logits, n - 1, 0);
        }
    }
}

/// Index of the largest logit; ties resolve to the lowest index.
pub fn argmax(logits: &[u32]) -> (r: u32)
    ensures
        logits@.len() == 0 ==> r == 0,
        logits@.len() > 0 ==> r == argmax_of(logits@) as u32,
{
    if logits.len() == 0 {
        return 0;
    }
    let mut best: usize = 0;
    let mut i: usize = 1;
    while i < logits.len()
        invariant
            1 <= i <= logits@.len(),
            best < i,
            best == argmax_upto(logits@, i as int),
        decreases logits@.len() - i,
    {
        if bits::total_key(logits[i]) > bits::total_key(logits[best]) {
            best = i;
        }
        i += 1;
    }
    best as u32
}

/// Whether index `a` comes no later than index `b` in the ranking: larger
/// probabilities first, and lower indices first among equal ones.
pub open spec fn ranks_before(probs: Seq<u32>, a: usize, b: usize) -> bool {
    ||| bits::total_rank(probs[a as int]) > bits::total_rank(probs[b as int])
    ||| bits::total_rank(probs[a as int]) == bits::total_rank(probs[b as int]) && a <= b
}

/// The order of the ranking.
pub open spec fn rank_order(probs: Seq<u32>) -> spec_fn(usize, usize) -> bool {
    |a: usize, b: usize| ranks_before(probs, a, b)
}

/// The indices from `from` to below `to`.
pub open spec fn index_range(from: int, to: int) -> Seq<usize> {
    Seq::new((to - from) as nat, |i: int| (from + i) as usize)
}

/// All indices, ranked.
pub open spec fn ranking(probs: Seq<u32>) -> Seq<usize> {
    index_range(0, probs.len() as int).sort_by(rank_order(probs))
}

proof fn lemma_rank_order_total(probs: Seq<u32>)
    ensures
        total_ordering(rank_order(probs)),
{
}

/// Merges two ranked lists of indices.
fn merge(keys: &Vec<u32>, left: &Vec<usize>, right: &Vec<usize>, Ghost(probs): Ghost<Seq<u32>>) -> (out:
    Vec<usize>)
    requires
        keys@.len() == probs.len(),
        forall|i: int| 0 <= i < probs.len() ==> keys@[i] == bits::total_rank(probs[i]) + bits::SIGN,
        forall|i: int| 0 <= i < left@.len() ==> #[trigger] left@[i] < probs.len(),
        forall|i: int| 0 <= i < right@.len() ==> #[trigger] right@[i] < probs.len(),
        sorted_by(left@, rank_order(probs)),
        sorted_by(right@, rank_order(probs)),
        left@.len() + right@.len() <= usize::MAX,
    ensures
        sorted_by(out@, rank_order(probs)),
        out@.to_multiset() == left@.to_multiset().add(right@.to_multiset()),
        out@.len() == left@.len() + right@.len(),
        forall|i: int| 0 <= i < out@.len() ==> #[trigger] out@[i] < probs.len(),
{
    broadcast use vstd::seq_lib::group_to_multiset_ensures;

    let mut out: Vec<usize> = Vec::with_capacity(left.len() + right.len());
    let mut i: usize = 0;
    let mut j: usize = 0;
    proof {
        assert(left@.subrange(0, 0) =~= Seq::empty());
        assert(right@.subrange(0, 0) =~= Seq::empty());
        assert(out@.to_multiset() =~= left@.subrange(0, 0).to_multiset().add(
            right@.subrange(0, 0).to_multiset(),
        ));
    }
    while i < left.len() || j < right.len()
        invariant
            i <= left@.len(),
            j <= right@.len(),
            out@.len() == i + j,
            keys@.len() == probs.len(),
            forall|i: int|
                0 <= i < probs.len() ==> keys@[i] == bits::total_rank(probs[i]) + bits::SIGN,
            forall|i: int| 0 <= i < left@.len() ==> #[trigger] left@[i] < probs.len(),
            forall|i: int| 0 <= i < right@.len() ==> #[trigger] right@[i] < probs.len(),
            forall|i: int| 0 <= i < out@.len() ==> #[trigger] out@[i] < probs.len(),
            sorted_by(left@, rank_order(probs)),
            sorted_by(right@, rank_order(probs)),
            sorted_by(out@, rank_order(probs)),
            forall|x: int, y: int|
                0 <= x < out@.len() && i <= y < left@.len() ==> ranks_before(
                    probs,
                    #[trigger] out@[x],
                    #[trigger] left@[y],
                ),
            forall|x: int, y: int|
                0 <= x < out@.len() && j <= y < right@.len() ==> ranks_before(
                    probs,
                    #[trigger] out@[x],
                    #[trigger] right@[y],
                ),
            out@.to_multiset() == left@.subrange(0, i as int).to_multiset().add(
                right@.subrange(0, j as int).to_multiset(),
            ),
        decreases left@.len() + right@.len() - i - j,
    {
        let from_left: bool = if i == left.len() {
            false
        } else if j == right.len() {
            true
        } else {
            let a: usize = left[i];
            let b: usize = right[j];
            keys[a] > keys[b] || (keys[a] == keys[b] && a <= b)
        };
        let ghost before = out@;
        let ghost order = rank_order(probs);
        let next: usize = if from_left {
            left[i]
        } else {
            right[j]
        };
        proof {
            // The next index ranks before all that is left of both lists.
            assert forall|y: int| i <= y < left@.len() implies ranks_before(
                probs,
                next,
                #[trigger] left@[y],
            ) by {
                if y > i {
                    assert(order(left@[i as int], left@[y]));
                }
                if !from_left {
                    assert(ranks_before(probs, next, left@[i as int]));
                }
            }
            assert forall|y: int| j <= y < right@.len() implies ranks_before(
                probs,
                next,
                #[trigger] right@[y],
            ) by {
                if y > j {
                    assert(order(right@[j as int], right@[y]));
                }
                if from_left {
                    assert(ranks_before(probs, next, right@[j as int]));
                }
            }
        }
        out.push(next);
        proof {
            assert forall|x: int, y: int| 0 <= x < y < out@.len() implies #[trigger] order(
                out@[x],
                out@[y],
            ) by {
                if y < before.len() {
                    assert(order(before[x], before[y]));
                } else if from_left {
                    assert(ranks_before(probs, before[x], left@[i as int]));
                } else {
                    assert(ranks_before(probs, before[x], right@[j as int]));
                }
            }
            let l = left@.subrange(0, i as int);
            let r = right@.subrange(0, j as int);
            to_multiset_build(before, next);
            if from_left {
                assert(left@.subrange(0, i + 1) =~= l.push(next));
                to_multiset_build(l, next);
            } else {
                assert(right@.subrange(0, j + 1) =~= r.push(next));
                to_multiset_build(r, next);
            }
        }
        if from_left {
            i += 1;
        } else {
            j += 1;
        }
        assert(out@.to_multiset() =~= left@.subrange(0, i as int).to_multiset().add(
            right@.subrange(0, j as int).to_multiset(),
        ));
    }
    assert(left@.subrange(0, i as int) =~= left@);
    assert(right@.subrange(0, j as int) =~= right@);
    out
}

/// Ranks the indices from `from` to below `to`.
fn merge_sort(keys: &Vec<u32>, from: usize, to: usize, Ghost(probs): Ghost<Seq<u32>>) -> (out: Vec<usize>)
    requires
        from <= to <= probs.len(),
        keys@.len() == probs.len(),
        forall|i: int| 0 <= i < probs.len() ==> keys@[i] == bits::total_rank(probs[i]) + bits::SIGN,
    ensures
        sorted_by(out@, rank_order(probs)),
        out@.to_multiset() == index_range(from as int, to as int).to_multiset(),
        out@.len() == to - from,
        forall|i: int| 0 <= i < out@.len() ==> #[trigger] out@[i] < probs.len(),
    decreases to - from,
{
    if to - from <= 1 {
        let mut out: Vec<usize> = Vec::new();
        if from < to {
            out.push(from);
        }
        assert(out@ =~= index_range(from as int, to as int));
        return out;
    }
    let middle: usize = from + (to - from) / 2;
    let left = merge_sort(keys, from, middle, Ghost(probs));
    let right = merge_sort(keys, middle, to, Ghost(probs));
    let out = merge(keys, &left, &right, Ghost(probs));
    proof {
        let l = index_range(from as int, middle as int);
        let r = index_range(middle as int, to as int);
        assert(l + r =~= index_range(from as int, to as int));
        lemma_multiset_commutative(l, r);
    }
    out
}

/// Ranks all indices.
fn rank(probs: &Vec<u32>) -> (out: Vec<usize>)
    ensures
        out@ == ranking(probs@),
        out@.len() == probs@.len(),
        forall|i: int| 0 <= i < out@.len() ==> #[trigger] out@[i] < probs@.len(),
{
    let mut keys: Vec<u32> = Vec::with_capacity(probs.len());
    while keys.len() < probs.len()
        invariant
            keys@.len() <= probs@.len(),
            forall|i: int|
                0 <= i < keys@.len() ==> keys@[i] == bits::total_rank(probs@[i]) + bits::SIGN,
        decreases probs@.len() - keys@.len(),
    {
        let i: usize = keys.len();
        keys.push(bits::total_key(probs[i]));
    }
    let out = merge_sort(&keys, 0, probs.len(), Ghost(probs@));
    proof {
        lemma_rank_order_total(probs@);
        index_range(0, probs@.len() as int).lemma_sort_by_ensures(rank_order(probs@));
        lemma_sorted_unique(out@, ranking(probs@), rank_order(probs@));
    }
    out
}

/// The scaled distribution: the softmax of the logits over the temperature.
pub open spec fn distribution<A: Arith>(logits: Seq<u32>, temperature: u32) -> Seq<u32> {
    tensor::softmax_of::<A>(
        Seq::new(logits.len(), |i: int| arith::div_of::<A>(logits[i], temperature)),
    )
}

/// How many of the ranked indices it takes for their probabilities to reach
/// `top_p`, when the first `n` come to `reached`; all of them if they never do.
pub open spec fn nucleus_from<A: Arith>(
    probs: Seq<u32>,
    ranked: Seq<usize>,
    top_p: u32,
    reached: u32,
    n: int,
) -> int
    decreases ranked.len() - n,
{
    if n >= ranked.len() {
        ranked.len() as int
    } else {
        let next = arith::add_of::<A>(reached, probs[ranked[n] as int]);
        if bits::le_of(top_p, next) {
            n + 1
        } else {
            nucleus_from::<A>(probs, ranked, top_p, next, n + 1)
        }
    }
}

/// The sum of the probabilities of the first `n` candidates.
pub open spec fn mass_upto<A: Arith>(probs: Seq<u32>, candidates: Seq<usize>, n: int) -> u32
    decreases n,
{
    if n <= 0 {
        bits::NEG_ZERO
    } else {
        arith::add_of::<A>(
            mass_upto::<A>(probs, candidates, n - 1),
            probs[candidates[n - 1] as int],
        )
    }
}

/// The candidate at which the remainder `r`, less the probabilities of the
/// candidates from `n` on, one after the other, is used up; the last one if it
/// never is.
pub open spec fn draw_from<A: Arith>(probs: Seq<u32>, candidates: Seq<usize>, r: u32, n: int) -> usize
    decreases candidates.len() - n,
{
    if n >= candidates.len() {
        candidates.last()
    } else {
        let left = arith::sub_of::<A>(r, probs[candidates[n] as int]);
        if bits::le_of(left, bits::ZERO) {
            candidates[n]
        } else {
            draw_from::<A>(probs, candidates, left, n + 1)
        }
    }
}

/// The settings of a sampler.
pub struct Settings {
    pub temperature: u32,
    pub top_k: usize,
    pub top_p: u32,
}

impl Settings {
    /// Whether the largest logit is taken without drawing.
    pub open spec fn is_greedy(self) -> bool {
        bits::le_of(self.temperature, bits::ZERO) || self.top_k == 1
    }

    /// Whether neither filter is active for a vocabulary of `n` tokens.
    pub open spec fn unfiltered(self, n: int) -> bool {
        (self.top_k == 0 || self.top_k >= n) && bits::le_of(bits::ONE, self.top_p)
    }

    /// The indices that top-k keeps, ranked.
    pub open spec fn top(self, probs: Seq<u32>) -> Seq<usize> {
        if self.top_k == 0 || self.top_k >= probs.len() {
            ranking(probs)
        } else {
            ranking(probs).subrange(0, self.top_k as int)
        }
    }

    /// The candidates for a draw: those that top-k keeps, up to the top-p cutoff.
    pub open spec fn candidates<A: Arith>(self, probs: Seq<u32>) -> Seq<usize> {
        let top = self.top(probs);
        top.subrange(0, nucleus_from::<A>(probs, top, self.top_p, bits::ZERO, 0))
    }

    /// The token that is picked from a distribution when `r` is drawn from 0 to
    /// below 1.
    pub open spec fn drawn<A: Arith>(self, probs: Seq<u32>, r: u32) -> u32 {
        if self.unfiltered(probs.len() as int) {
            draw_from::<A>(probs, index_range(0, probs.len() as int), r, 0) as u32
        } else {
            let candidates = self.candidates::<A>(probs);
            let total = mass_upto::<A>(probs, candidates, candidates.len() as int);
            draw_from::<A>(probs, candidates, arith::mul_of::<A>(r, total), 0) as u32
        }
    }

    /// The token that is picked from the logits when the next random word is
    /// `word`.
    pub open spec fn picked<A: Arith>(self, logits: Seq<u32>, word: u32) -> u32 {
        if logits.len() == 0 {
            0
        } else if self.is_greedy() {
            argmax_of(logits) as u32
        } else {
            self.drawn::<A>(distribution::<A>(logits, self.temperature), rng::uniform_of(word))
        }
    }

    /// How many random words it takes to pick a token.
    pub open spec fn words_used(self, logits: Seq<u32>) -> int {
        if logits.len() == 0 || self.is_greedy() {
            0
        } else {
            1
        }
    }

    /// The tokens that are picked from consecutive logits.
    pub open spec fn picked_all<A: Arith>(
        self,
        logits: Seq<Seq<u32>>,
        words: Map<int, u32>,
    ) -> Seq<u32>
        decreases logits.len(),
    {
        if logits.len() == 0 {
            Seq::empty()
        } else {
            let first = logits[0];
            let left = if self.words_used(first) == 0 {
                words
            } else {
                rng::skip_words(words, 1)
            };
            seq![self.picked::<A>(first, words[0])] + self.picked_all::<A>(
                logits.subrange(1, logits.len() as int),
                left,
            )
        }
    }
}

/// Configuration and generator state for next-token sampling.
#[derive(Debug)]
pub struct Sampler {
    /// `<= 0` means greedy (argmax).
    pub temperature: u32,
    /// Keep only the k highest-probability tokens; `0` disables the filter.
    pub top_k: usize,
    /// Nucleus threshold in `(0, 1]`; `1.0` disables the filter.
    pub top_p: u32,
    /// The source of random words.
    pub rng: Generator,
}

impl Sampler {
    /// The random words to come.
    pub open spec fn words(self) -> Map<int, u32> {
        self.rng.words()
    }

    /// The settings.
    pub open spec fn settings(self) -> Settings {
        Settings { temperature: self.temperature, top_k: self.top_k, top_p: self.top_p }
    }

    /// A sampler with a generator of its own.
    pub fn new(temperature: u32, top_k: usize, top_p: u32, seed: u64) -> (s: Sampler)
        ensures
            s.settings() == (Settings { temperature, top_k, top_p }),
            s.words() == rng::seeded_words(seed),
    {
        Sampler { temperature, top_k, top_p, rng: Generator::new(seed) }
    }

    /// Greedy sampler (temperature 0).
    pub fn greedy() -> (s: Sampler)
        ensures
            s.settings() == (Settings { temperature: bits::ZERO, top_k: 0, top_p: bits::ONE }),
            s.settings().is_greedy(),
            s.words() == rng::seeded_words(0),
    {
        Sampler::new(bits::ZERO, 0, bits::ONE, 0)
    }

    /// Picks the next token from a logits vector.
    pub fn sample<A: Arith>(&mut self, logits: &[u32]) -> (token: u32)
        ensures
            final(self).settings() == old(self).settings(),
            final(self).words() == (if old(self).settings().words_used(logits@) == 0 {
                old(self).words()
            } else {
                rng::skip_words(old(self).words(), 1)
            }),
            logits@.len() == 0 ==> token == 0,
            0 < logits@.len() <= 0x1_0000_0000 ==> token < logits@.len(),
            logits@.len() > 0 && old(self).settings().is_greedy() ==> token == argmax_of(
                logits@,
            ) as u32,
            arith::deterministic::<A>() ==> token == old(self).settings().picked::<A>(
                logits@,
                old(self).words()[0],
            ),
    {
        if logits.len() == 0 {
            return 0;
        }
        if bits::less_eq(self.temperature, bits::ZERO) || self.top_k == 1 {
            proof {
                law_argmax(logits@, logits@.len() as int, 0);
            }
            return argmax(logits);
        }
        let word: u32 = self.rng.next_word();
        self.pick::<A>(logits, word)
    }

    /// Picks the next token by the given random word.
    pub fn pick<A: Arith>(&self, logits: &[u32], word: u32) -> (token: u32)
        requires
            logits@.len() > 0,
            !self.settings().is_greedy(),
        ensures
            logits@.len() <= 0x1_0000_0000 ==> token < logits@.len(),
            arith::deterministic::<A>() ==> token == self.settings().picked::<A>(logits@, word),
    {
        // 1. temperature scaling + softmax
        let mut probs: Vec<u32> = Vec::with_capacity(logits.len());
        while probs.len() < logits.len()
            invariant
                probs@.len() <= logits@.len(),
                arith::deterministic::<A>() ==> forall|i: int|
                    0 <= i < probs@.len() ==> probs@[i] == arith::div_of::<A>(
                        logits@[i],
                        self.temperature,
                    ),
            decreases logits@.len() - probs@.len(),
        {
            let i: usize = probs.len();
            probs.push(A::div32(logits[i], self.temperature));
        }
        proof {
            if arith::deterministic::<A>() {
                assert(probs@ =~= Seq::new(
                    logits@.len(),
                    |i: int| arith::div_of::<A>(logits@[i], self.temperature),
                ));
            }
        }
        tensor::softmax::<A>(probs.as_mut_slice());
        // 2. the draw
        self.draw::<A>(&probs, rng::uniform(word))
    }

    /// Picks a token from a distribution by a number drawn from 0 to below 1.
    pub fn draw<A: Arith>(&self, probs: &Vec<u32>, r: u32) -> (token: u32)
        requires
            probs@.len() > 0,
        ensures
            probs@.len() <= 0x1_0000_0000 ==> token < probs@.len(),
            arith::deterministic::<A>() ==> token == self.settings().drawn::<A>(probs@, r),
    {
        let n: usize = probs.len();
        // Without filters the draw needs no ranking.
        if (self.top_k == 0 || self.top_k >= n) && bits::less_eq(bits::ONE, self.top_p) {
            let mut all: Vec<usize> = Vec::with_capacity(n);
            while all.len() < n
                invariant
                    all@.len() <= n,
                    forall|i: int| 0 <= i < all@.len() ==> #[trigger] all@[i] == i,
                decreases n - all@.len(),
            {
                let i: usize = all.len();
                all.push(i);
            }
            assert(all@ =~= index_range(0, probs@.len() as int));
            return draw_candidate::<A>(probs, &all, r) as u32;
        }
        let mut ranked = rank(probs);
        if self.top_k != 0 && self.top_k < n {
            ranked.truncate(self.top_k);
        }
        assert(ranked@ =~= self.settings().top(probs@));
        // The top-p (nucleus) cutoff within the top-k set.
        let cutoff: usize = nucleus::<A>(probs, &ranked, self.top_p);
        ranked.truncate(cutoff);
        proof {
            if arith::deterministic::<A>() {
                assert(ranked@ =~= self.settings().candidates::<A>(probs@));
            }
        }
        // Renormalize and draw.
        let mut total: u32 = bits::NEG_ZERO;
        let mut i: usize = 0;
        while i < ranked.len()
            invariant
                i <= ranked@.len(),
                forall|j: int| 0 <= j < ranked@.len() ==> #[trigger] ranked@[j] < probs@.len(),
                arith::deterministic::<A>() ==> total == mass_upto::<A>(
                    probs@,
                    ranked@,
                    i as int,
                ),
            decreases ranked@.len() - i,
        {
            total = A::add32(total, probs[ranked[i]]);
            i += 1;
        }
        draw_candidate::<A>(probs, &ranked, A::mul32(r, total)) as u32
    }
}

impl Clone for Sampler {
    fn clone(&self) -> (s: Sampler)
        ensures
            s.settings() == self.settings(),
            s.words() == self.words(),
    {
        Sampler {
            temperature: self.temperature,
            top_k: self.top_k,
            top_p: self.top_p,
            rng: self.rng.clone(),
        }
    }
}

/// How many ranked indices make up the nucleus.
fn nucleus<A: Arith>(probs: &Vec<u32>, ranked: &Vec<usize>, top_p: u32) -> (n: usize)
    requires
        ranked@.len() > 0,
        forall|j: int| 0 <= j < ranked@.len() ==> #[trigger] ranked@[j] < probs@.len(),
    ensures
        1 <= n <= ranked@.len(),
        arith::deterministic::<A>() ==> n == nucleus_from::<A>(
            probs@,
            ranked@,
            top_p,
            bits::ZERO,
            0,
        ),
{
    let mut reached: u32 = bits::ZERO;
    let mut n: usize = 0;
    while n < ranked.len()
        invariant
            n <= ranked@.len(),
            ranked@.len() > 0,
            forall|j: int| 0 <= j < ranked@.len() ==> #[trigger] ranked@[j] < probs@.len(),
            arith::deterministic::<A>() ==> nucleus_from::<A>(
                probs@,
                ranked@,
                top_p,
                reached,
                n as int,
            ) == nucleus_from::<A>(probs@, ranked@, top_p, bits::ZERO, 0),
        decreases ranked@.len() - n,
    {
        reached = A::add32(reached, probs[ranked[n]]);
        n += 1;
        if bits::less_eq(top_p, reached) {
            return n;
        }
    }
    n
}

/// Walks the candidates until the remainder is used up.
fn draw_candidate<A: Arith>(probs: &Vec<u32>, candidates: &Vec<usize>, r: u32) -> (i: usize)
    requires
        candidates@.len() > 0,
        forall|j: int| 0 <= j < candidates@.len() ==> #[trigger] candidates@[j] < probs@.len(),
    ensures
        i < probs@.len(),
        candidates@.contains(i),
        arith::deterministic::<A>() ==> i == draw_from::<A>(probs@, candidates@, r, 0),
{
    let mut left: u32 = r;
    let mut n: usize = 0;
    while n < candidates.len()
        invariant
            n <= candidates@.len(),
            candidates@.len() > 0,
            forall|j: int| 0 <= j < candidates@.len() ==> #[trigger] candidates@[j] < probs@.len(),
            arith::deterministic::<A>() ==> draw_from::<A>(probs@, candidates@, left, n as int)
                == draw_from::<A>(probs@, candidates@, r, 0),
        decreases candidates@.len() - n,
    {
        let i: usize = candidates[n];
        left = A::sub32(left, probs[i]);
        if bits::less_eq(left, bits::ZERO) {
            assert(candidates@[n as int] == i);
            return i;
        }
        n += 1;
    }
    assert(candidates@[candidates@.len() - 1] == candidates@.last());
    candidates[candidates.len() - 1]
}

/// Top-k with one survivor is greedy sampling.
pub proof fn law_top_k_one_is_greedy<A: Arith>(s: Settings, logits: Seq<u32>, word: u32)
    requires
        s.top_k == 1,
        logits.len() > 0,
    ensures
        s.picked::<A>(logits, word) == argmax_of(logits) as u32,
        s.words_used(logits) == 0,
{
}

/// Sampling at temperature zero is greedy sampling.
pub proof fn law_temperature_zero_is_greedy<A: Arith>(s: Settings, logits: Seq<u32>, word: u32)
    requires
        bits::magnitude(s.temperature) == 0,
        logits.len() > 0,
    ensures
        s.picked::<A>(logits, word) == argmax_of(logits) as u32,
        s.words_used(logits) == 0,
{
}

/// Sampling at a temperature of 0 or below takes the token with the largest logit,
/// the first of those that tie, and uses no random word.
pub proof fn law_cold_sampling_takes_the_largest<A: Arith>(
    s: Settings,
    logits: Seq<u32>,
    word: u32,
    i: int,
)
    requires
        bits::le_of(s.temperature, bits::ZERO) || s.top_k == 1,
        0 <= i < logits.len() <= 0x1_0000_0000,
    ensures
        ({
            let token = s.picked::<A>(logits, word) as int;
            &&& 0 <= token < logits.len()
            &&& bits::total_rank(logits[i]) <= bits::total_rank(logits[token])
            &&& i < token ==> bits::total_rank(logits[i]) < bits::total_rank(logits[token])
        }),
        s.words_used(logits) == 0,
{
    law_argmax(logits, logits.len() as int, i);
}

/// Samplers with the same settings and the same words to come pick the same
/// tokens from the same logits.
pub proof fn law_reproducible<A: Arith>(a: Sampler, b: Sampler, logits: Seq<Seq<u32>>)
    requires
        a.settings() == b.settings(),
        a.words() == b.words(),
    ensures
        a.settings().picked_all::<A>(logits, a.words()) == b.settings().picked_all::<A>(
            logits,
            b.words(),
        ),
{
}

pub(crate) proof fn lemma_nucleus_range<A: Arith>(
    probs: Seq<u32>,
    ranked: Seq<usize>,
    top_p: u32,
    reached: u32,
    n: int,
)
    requires
        0 <= n < ranked.len(),
    ensures
        n < nucleus_from::<A>(probs, ranked, top_p, reached, n) <= ranked.len(),
    decreases ranked.len() - n,
{
    reveal_with_fuel(nucleus_from, 2);
    let next = arith::add_of::<A>(reached, probs[ranked[n] as int]);
    if !bits::le_of(top_p, next) && n + 1 < ranked.len() {
        lemma_nucleus_range::<A>(probs, ranked, top_p, next, n + 1);
    }
}

pub(crate) proof fn lemma_ranking(probs: Seq<u32>)
    requires
        probs.len() <= usize::MAX,
    ensures
        ranking(probs).len() == probs.len(),
        ranking(probs).to_multiset() == index_range(0, probs.len() as int).to_multiset(),
        sorted_by(ranking(probs), rank_order(probs)),
        forall|i: int| 0 <= i < probs.len() ==> #[trigger] ranking(probs)[i] < probs.len(),
{
    broadcast use vstd::seq_lib::group_to_multiset_ensures;

    let all = index_range(0, probs.len() as int);
    lemma_rank_order_total(probs);
    all.lemma_sort_by_ensures(rank_order(probs));
    assert(all.to_multiset().len() == all.len());
    assert(ranking(probs).to_multiset().len() == ranking(probs).len());
    assert forall|i: int| 0 <= i < probs.len() implies #[trigger] ranking(probs)[i]
        < probs.len() by {
        let x = ranking(probs)[i];
        assert(ranking(probs).contains(x));
        assert(all.contains(x));
    }
}

/// The candidates are never empty, no matter how small `top_p` is; the first is
/// an index with the largest probability, and each ranks before the next.
pub proof fn law_candidates<A: Arith>(s: Settings, probs: Seq<u32>, i: int)
    requires
        0 < probs.len() <= usize::MAX,
        0 <= i < probs.len(),
    ensures
        1 <= s.candidates::<A>(probs).len() <= probs.len(),
        s.candidates::<A>(probs)[0] == ranking(probs)[0],
        bits::total_rank(probs[i]) <= bits::total_rank(probs[ranking(probs)[0] as int]),
        s.top_k != 0 ==> s.candidates::<A>(probs).len() <= s.top_k,
        sorted_by(s.candidates::<A>(probs), rank_order(probs)),
{
    broadcast use vstd::seq_lib::group_to_multiset_ensures;

    lemma_ranking(probs);
    let all = index_range(0, probs.len() as int);
    let ranked = ranking(probs);
    let top = s.top(probs);
    lemma_nucleus_range::<A>(probs, top, s.top_p, bits::ZERO, 0);
    let k = nucleus_from::<A>(probs, top, s.top_p, bits::ZERO, 0);
    let candidates = s.candidates::<A>(probs);
    assert(candidates =~= ranked.subrange(0, k));
    assert(all[i] == i as usize);
    assert(all.contains(i as usize));
    assert(ranked.to_multiset().count(i as usize) > 0);
    assert(ranked.contains(i as usize));
    let at = ranked.index_of(i as usize);
    let order = rank_order(probs);
    if at > 0 {
        assert(order(ranked[0], ranked[at]));
    }
    assert forall|x: int, y: int| 0 <= x < y < candidates.len() implies #[trigger] order(
        candidates[x],
        candidates[y],
    ) by {
        assert(order(ranked[x], ranked[y]));
    }
}

/// An index that the filters leave out is no more probable than any that they
/// keep.
pub proof fn law_left_out<A: Arith>(s: Settings, probs: Seq<u32>, i: usize, j: int)
    requires
        probs.len() <= usize::MAX,
        i < probs.len(),
        !s.candidates::<A>(probs).contains(i),
        0 <= j < s.candidates::<A>(probs).len(),
    ensures
        ranks_before(probs, s.candidates::<A>(probs)[j], i),
{
    broadcast use vstd::seq_lib::group_to_multiset_ensures;

    lemma_ranking(probs);
    let all = index_range(0, probs.len() as int);
    let ranked = ranking(probs);
    let top = s.top(probs);
    lemma_nucleus_range::<A>(probs, top, s.top_p, bits::ZERO, 0);
    let k = nucleus_from::<A>(probs, top, s.top_p, bits::ZERO, 0);
    let candidates = s.candidates::<A>(probs);
    assert(candidates =~= ranked.subrange(0, k));
    assert(all[i as int] == i);
    assert(all.contains(i));
    assert(ranked.to_multiset().count(i) > 0);
    assert(ranked.contains(i));
    let at = ranked.index_of(i);
    if at < k {
        assert(candidates[at] == i);
    }
    let order = rank_order(probs);
    assert(order(ranked[j], ranked[at]));
}

proof fn lemma_draw_from<A: Arith>(probs: Seq<u32>, candidates: Seq<usize>, r: u32, n: int)
    requires
        candidates.len() > 0,
        0 <= n,
    ensures
        candidates.contains(draw_from::<A>(probs, candidates, r, n)),
    decreases candidates.len() - n,
{
    if n >= candidates.len() {
        assert(candidates[candidates.len() - 1] == candidates.last());
    } else {
        let left = arith::sub_of::<A>(r, probs[candidates[n] as int]);
        if bits::le_of(left, bits::ZERO) {
            assert(candidates.contains(candidates[n]));
        } else {
            lemma_draw_from::<A>(probs, candidates, left, n + 1);
        }
    }
}

/// Whatever is drawn, the token is one that the filters keep.
pub proof fn law_only_candidates_are_drawn<A: Arith>(s: Settings, probs: Seq<u32>, r: u32)
    requires
        0 < probs.len() <= usize::MAX,
        !s.unfiltered(probs.len() as int),
    ensures
        exists|i: usize|
            #[trigger] s.candidates::<A>(probs).contains(i) && s.drawn::<A>(probs, r) == i as u32,
{
    law_candidates::<A>(s, probs, 0);
    let candidates = s.candidates::<A>(probs);
    let total = mass_upto::<A>(probs, candidates, candidates.len() as int);
    let left = arith::mul_of::<A>(r, total);
    lemma_draw_from::<A>(probs, candidates, left, 0);
    let i = draw_from::<A>(probs, candidates, left, 0);
    assert(s.drawn::<A>(probs, r) == i as u32);
}

/// A token is picked from those that there are logits for.
pub proof fn law_picked_is_in_range<A: Arith>(s: Settings, logits: Seq<u32>, word: u32)
    requires
        0 < logits.len() <= 0x1_0000_0000,
        logits.len() <= usize::MAX,
    ensures
        s.picked::<A>(logits, word) < logits.len(),
{
    if s.is_greedy() {
        law_argmax(logits, logits.len() as int, 0);
    } else {
        let probs = distribution::<A>(logits, s.temperature);
        let r = rng::uniform_of(word);
        assert(probs.len() == logits.len());
        if s.unfiltered(probs.len() as int) {
            let all = index_range(0, probs.len() as int);
            lemma_draw_from::<A>(probs, all, r, 0);
            let i = choose|i: int|
                0 <= i < all.len() && all[i] == draw_from::<A>(probs, all, r, 0);
            assert(all[i] == i as usize);
        } else {
            law_only_candidates_are_drawn::<A>(s, probs, r);
            law_candidates::<A>(s, probs, 0);
            lemma_ranking(probs);
            let candidates = s.candidates::<A>(probs);
            let i = choose|i: usize| #[trigger]
                candidates.contains(i) && s.drawn::<A>(probs, r) == i as u32;
            let j = choose|j: int| 0 <= j < candidates.len() && candidates[j] == i;
            lemma_nucleus_range::<A>(probs, s.top(probs), s.top_p, bits::ZERO, 0);
            assert(candidates[j] == ranking(probs)[j]);
            assert(ranking(probs)[j] < probs.len());
        }
    }
}

} // verus!
