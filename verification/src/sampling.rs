//! What a draw means: the distribution that tokens are drawn from, and which token a
//! number between 0 and 1 stands for.

use vstd::arithmetic::power2::pow2;
use vstd::prelude::*;

use crate::arith;
use crate::arith::Arith;
use crate::bits;
use crate::formulas;
use crate::nearest::{
    finite, lemma_even, lemma_powers, near_product, near_sum, rounds_to_nearest, size, PARTS,
};
use crate::quantize::distance;
use crate::ring::{lemma_sum_equal, sum_of, Ring};
use crate::rng;
use crate::sampler;
use crate::sampler::Settings;

verus! {

impl Ring {
    /// Whether `s` are the logits over the temperature.
    pub open spec fn cooled(self, logits: Seq<u32>, temperature: u32, s: spec_fn(int) -> int) -> bool {
        forall|i: int|
            0 <= i < logits.len() ==> self.eq(
                #[trigger] s(i) * self.val(temperature),
                self.val(logits[i]),
            )
    }

    /// Whether `probs` is the distribution of logits at a temperature: the probability
    /// of each token, times the sum of the exponentials of all logits over the
    /// temperature, is the exponential of its own.
    pub open spec fn tempered(self, logits: Seq<u32>, temperature: u32, probs: Seq<u32>) -> bool {
        &&& probs.len() == logits.len()
        &&& exists|s: spec_fn(int) -> int|
            {
                let total = sum_of(|j: int| self.exp(s(j)), logits.len() as int);
                &&& #[trigger] self.cooled(logits, temperature, s)
                &&& self.unit(total) ==> forall|i: int|
                    0 <= i < probs.len() ==> self.eq(
                        self.val(#[trigger] probs[i]) * total,
                        self.exp(s(i)),
                    )
            }
    }
}

/// Without rounding, the distribution that tokens are drawn from is that of the logits
/// over the temperature.
pub proof fn law_temperature<A: Arith>(ring: Ring, logits: Seq<u32>, temperature: u32)
    requires
        ring.of::<A>(),
        logits.len() > 0,
        ring.unit(ring.val(temperature)),
    ensures
        ring.tempered(logits, temperature, sampler::distribution::<A>(logits, temperature)),
{
    let n = logits.len() as int;
    let scaled = Seq::new(logits.len(), |i: int| arith::div_of::<A>(logits[i], temperature));
    let probs = sampler::distribution::<A>(logits, temperature);
    formulas::law_softmax::<A>(ring, scaled);
    let s = |i: int| ring.val(scaled[i]);
    assert forall|i: int| 0 <= i < n implies ring.eq(
        #[trigger] s(i) * ring.val(temperature),
        ring.val(logits[i]),
    ) by {
        assert(scaled[i] == arith::div_of::<A>(logits[i], temperature));
    }
    assert(ring.cooled(logits, temperature, s));
    lemma_sum_equal(|j: int| ring.exp(ring.val(scaled[j])), |j: int| ring.exp(s(j)), n);
    let total = sum_of(|j: int| ring.exp(s(j)), n);
    if ring.unit(total) {
        assert forall|i: int| 0 <= i < probs.len() implies ring.eq(
            ring.val(#[trigger] probs[i]) * total,
            ring.exp(s(i)),
        ) by {
        }
    }
}

/// Where sampling is not greedy, the token is drawn from the distribution of the
/// logits at the temperature, by the number that the random word stands for.
pub proof fn law_picked_is_drawn<A: Arith>(ring: Ring, s: Settings, logits: Seq<u32>, word: u32)
    requires
        ring.of::<A>(),
        logits.len() > 0,
        !bits::le_of(s.temperature, bits::ZERO),
        s.top_k != 1,
        ring.unit(ring.val(s.temperature)),
    ensures
        exists|probs: Seq<u32>|
            {
                &&& #[trigger] ring.tempered(logits, s.temperature, probs)
                &&& s.picked::<A>(logits, word) == s.drawn::<A>(probs, rng::uniform_of(word))
            },
{
    law_temperature::<A>(ring, logits, s.temperature);
}

/// Whether subtraction rounds to nearest, as in [`rounds_to_nearest`].
pub open spec fn subtracts_to_nearest<A: Arith>() -> bool {
    forall|a: u32, b: u32|
        finite(a) && finite(b) && size(bits::scaled_value(a) - bits::scaled_value(b)) <= pow2(277)
            ==> near_difference(#[trigger] arith::sub_of::<A>(a, b), a, b)
}

/// Whether `r` is finite and close to the difference of `a` and `b`.
pub open spec fn near_difference(r: u32, a: u32, b: u32) -> bool {
    let difference = bits::scaled_value(a) - bits::scaled_value(b);
    &&& finite(r)
    &&& PARTS * distance(bits::scaled_value(r), difference) <= size(difference)
}

/// The sum of the probabilities of the first `n` candidates, without rounding.
pub open spec fn mass_of(probs: Seq<u32>, candidates: Seq<usize>, n: int) -> int {
    sum_of(|j: int| bits::scaled_value(probs[candidates[j] as int]), n)
}

/// Whether candidates are among the indices of a distribution.
pub open spec fn among(probs: Seq<u32>, candidates: Seq<usize>) -> bool {
    &&& forall|i: int|
        0 <= i < probs.len() ==> finite(#[trigger] probs[i]) && 0 <= bits::scaled_value(probs[i])
            <= pow2(150)
    &&& forall|j: int| 0 <= j < candidates.len() ==> (#[trigger] candidates[j]) < probs.len()
}

/// Whether the candidate at index `j` is the one that the remainder `r` falls on, but
/// for four roundings of numbers of size `b` per candidate: the candidates before it
/// have no more mass than `r`, and with it they have no less, unless it is the last.
pub open spec fn falls_on(probs: Seq<u32>, candidates: Seq<usize>, r: int, b: int, j: int) -> bool {
    let slack = 4 * (candidates.len() * b);
    &&& 0 <= j < candidates.len()
    &&& PARTS * (mass_of(probs, candidates, j) - r) <= slack
    &&& j + 1 == candidates.len() || PARTS * (r - mass_of(probs, candidates, j + 1)) <= slack
}

/// A finite number is at most 0 exactly if its value is.
proof fn lemma_sign(a: u32)
    requires
        finite(a),
    ensures
        bits::le_of(a, bits::ZERO) <==> bits::scaled_value(a) <= 0,
{
    lemma_even(a);
    bits::law_magnitudes_order_values(a, a);
}

/// A smaller number has the smaller value.
proof fn lemma_order(a: u32, b: u32)
    requires
        finite(a),
        finite(b),
    ensures
        bits::le_of(a, b) ==> bits::scaled_value(a) <= bits::scaled_value(b),
        !bits::le_of(a, b) ==> bits::scaled_value(b) <= bits::scaled_value(a),
{
    if bits::magnitude(a) <= bits::magnitude(b) {
        bits::law_magnitudes_order_values(a, b);
    }
    if bits::magnitude(b) <= bits::magnitude(a) {
        bits::law_magnitudes_order_values(b, a);
    }
    bits::law_magnitudes_order_values(a, a);
    bits::law_magnitudes_order_values(b, b);
    lemma_even(a);
    lemma_even(b);
}

/// The candidates' mass grows by each one's probability.
proof fn lemma_mass(probs: Seq<u32>, candidates: Seq<usize>, n: int)
    requires
        among(probs, candidates),
        0 <= n <= candidates.len(),
    ensures
        0 <= mass_of(probs, candidates, n) <= n * pow2(150),
        n < candidates.len() ==> mass_of(probs, candidates, n + 1) == mass_of(probs, candidates, n)
            + bits::scaled_value(probs[candidates[n] as int]),
    decreases n,
{
    let unit = pow2(150) as int;
    if n > 0 {
        lemma_mass(probs, candidates, n - 1);
        assert(candidates[n - 1] < probs.len());
        assert(finite(probs[candidates[n - 1] as int]));
        assert(n * unit == (n - 1) * unit + unit) by (nonlinear_arith);
    } else {
        assert(0 * unit == 0);
    }
}

/// Walking the candidates from `k` on, with `left` close to what is left of `r`.
proof fn lemma_walk<A: Arith>(
    probs: Seq<u32>,
    candidates: Seq<usize>,
    r: int,
    b: int,
    left: u32,
    k: int,
) -> (j: int)
    requires
        subtracts_to_nearest::<A>(),
        among(probs, candidates),
        0 < candidates.len() <= 0x10_0000,
        0 <= k <= candidates.len(),
        finite(left),
        pow2(150) <= b <= 0x20_0000 * pow2(150),
        0 <= r <= 2 * b,
        k > 0 ==> bits::scaled_value(left) > 0,
        PARTS * distance(bits::scaled_value(left), r - mass_of(probs, candidates, k)) <= 4 * (k * b),
    ensures
        sampler::draw_from::<A>(probs, candidates, left, k) == candidates[j],
        falls_on(probs, candidates, r, b, j),
    decreases candidates.len() - k,
{
    lemma_powers();
    let unit = pow2(150) as int;
    let n = candidates.len() as int;
    let kb = k * b;
    let nb = n * b;
    assert(0 <= kb <= nb && kb <= 0x10_0000 * b) by (nonlinear_arith)
        requires
            kb == k * b,
            nb == n * b,
            0 <= k <= n <= 0x10_0000,
            b > 0,
    ;
    if k >= n {
        let j = n - 1;
        lemma_mass(probs, candidates, j);
        assert(candidates[j] < probs.len());
        assert(finite(probs[candidates[j] as int]));
        return j;
    }
    lemma_mass(probs, candidates, k);
    assert(candidates[k] < probs.len());
    let p = probs[candidates[k] as int];
    assert(finite(p));
    let v = bits::scaled_value(p);
    let l = bits::scaled_value(left);
    let mass = mass_of(probs, candidates, k);
    assert(16 * kb <= PARTS * b);
    assert(size(l - v) <= 4 * b);
    assert(4 * b <= pow2(277)) by {
        vstd::arithmetic::power2::lemma2_to64();
        vstd::arithmetic::power2::lemma_pow2_strictly_increases(23, 127);
        assert(4 * b <= unit * pow2(127)) by (nonlinear_arith)
            requires
                b <= 0x20_0000 * unit,
                pow2(127) >= 0x80_0000,
                unit > 0,
        ;
    }
    let next = arith::sub_of::<A>(left, p);
    assert(near_difference(next, left, p));
    assert((k + 1) * b == kb + b) by (nonlinear_arith)
        requires
            kb == k * b,
    ;
    assert((k + 1) * b <= nb) by (nonlinear_arith)
        requires
            k + 1 <= n,
            nb == n * b,
            b > 0,
    ;
    lemma_sign(next);
    if bits::le_of(next, bits::ZERO) {
        k
    } else {
        lemma_walk::<A>(probs, candidates, r, b, next, k + 1)
    }
}

/// All indices of a distribution, in their order.
pub open spec fn everyone(n: int) -> Seq<usize> {
    Seq::new(n as nat, |i: int| i as usize)
}

/// Without filters, a number `r` from 0 to 1 draws the token on which it falls: the
/// tokens before it have no more probability than `r` in all, and with it they have no
/// less, up to rounding.
pub proof fn law_unfiltered_draw<A: Arith>(s: Settings, probs: Seq<u32>, r: u32)
    requires
        subtracts_to_nearest::<A>(),
        0 < probs.len() <= 0x10_0000,
        s.top_k == 0 || s.top_k >= probs.len(),
        bits::le_of(bits::ONE, s.top_p),
        among(probs, everyone(probs.len() as int)),
        finite(r),
        0 <= bits::scaled_value(r) <= pow2(150),
    ensures
        exists|j: int|
            {
                &&& #[trigger] falls_on(
                    probs,
                    everyone(probs.len() as int),
                    bits::scaled_value(r),
                    pow2(150) as int,
                    j,
                )
                &&& s.drawn::<A>(probs, r) == j
            },
{
    lemma_powers();
    let all = everyone(probs.len() as int);
    assert(all =~= sampler::index_range(0, probs.len() as int));
    let unit = pow2(150) as int;
    assert(0 * unit == 0);
    let j = lemma_walk::<A>(probs, all, bits::scaled_value(r), unit, r, 0);
    assert(all[j] == j as usize);
}

/// The rounded mass of the first `n` candidates.
proof fn lemma_rounded_mass<A: Arith>(
    probs: Seq<u32>,
    candidates: Seq<usize>,
    sum: u32,
    n: int,
    p: u32,
)
    requires
        rounds_to_nearest::<A>(),
        among(probs, candidates),
        0 <= n < candidates.len() <= 0x10_0000,
        finite(sum),
        PARTS * distance(bits::scaled_value(sum), mass_of(probs, candidates, n)) <= 2 * (n * mass_of(
            probs,
            candidates,
            n,
        )),
        p == probs[candidates[n] as int],
    ensures
        finite(arith::add_of::<A>(sum, p)),
        PARTS * distance(
            bits::scaled_value(arith::add_of::<A>(sum, p)),
            mass_of(probs, candidates, n + 1),
        ) <= 2 * ((n + 1) * mass_of(probs, candidates, n + 1)),
{
    lemma_powers();
    let unit = pow2(150) as int;
    lemma_mass(probs, candidates, n);
    lemma_mass(probs, candidates, n + 1);
    assert(candidates[n] < probs.len());
    assert(finite(p));
    let s = bits::scaled_value(sum);
    let v = bits::scaled_value(p);
    let t = mass_of(probs, candidates, n);
    let u = mass_of(probs, candidates, n + 1);
    let nt = n * t;
    assert(8 * nt <= PARTS * t) by (nonlinear_arith)
        requires
            nt == n * t,
            0 <= n <= 0x10_0000,
            t >= 0,
            PARTS == 0x100_0000,
    ;
    assert(size(s + v) <= 2 * u);
    assert(2 * u <= pow2(277)) by {
        vstd::arithmetic::power2::lemma2_to64();
        vstd::arithmetic::power2::lemma_pow2_strictly_increases(22, 127);
        assert(2 * u <= unit * pow2(127)) by (nonlinear_arith)
            requires
                u <= (n + 1) * unit,
                n <= 0x10_0000,
                pow2(127) >= 0x40_0000,
                unit > 0,
        ;
    }
    assert(near_sum(arith::add_of::<A>(sum, p), sum, p));
    assert(nt <= n * u && (n + 1) * u == n * u + u) by (nonlinear_arith)
        requires
            nt == n * t,
            t <= u,
            n >= 0,
    ;
}

/// How many ranked candidates it takes to reach `top_p`.
proof fn lemma_nucleus<A: Arith>(
    probs: Seq<u32>,
    ranked: Seq<usize>,
    top_p: u32,
    reached: u32,
    n: int,
)
    requires
        rounds_to_nearest::<A>(),
        among(probs, ranked),
        0 <= n < ranked.len() <= 0x10_0000,
        finite(top_p),
        finite(reached),
        PARTS * distance(bits::scaled_value(reached), mass_of(probs, ranked, n)) <= 2 * (n * mass_of(
            probs,
            ranked,
            n,
        )),
        n > 0 ==> bits::scaled_value(reached) <= bits::scaled_value(top_p),
    ensures
        ({
            let c = sampler::nucleus_from::<A>(probs, ranked, top_p, reached, n);
            &&& n < c <= ranked.len()
            &&& c == ranked.len() || reaches(probs, ranked, top_p, c)
            &&& c > 1 ==> short_of(probs, ranked, top_p, c - 1)
        }),
    decreases ranked.len() - n,
{
    reveal_with_fuel(sampler::nucleus_from, 2);
    let p = probs[ranked[n] as int];
    let next = arith::add_of::<A>(reached, p);
    lemma_rounded_mass::<A>(probs, ranked, reached, n, p);
    lemma_order(top_p, next);
    if !bits::le_of(top_p, next) && n + 1 < ranked.len() {
        lemma_nucleus::<A>(probs, ranked, top_p, next, n + 1);
    }
}

/// Whether the first `n` candidates have a mass of `top_p`, but for two roundings each.
pub open spec fn reaches(probs: Seq<u32>, candidates: Seq<usize>, top_p: u32, n: int) -> bool {
    PARTS * (bits::scaled_value(top_p) - mass_of(probs, candidates, n)) <= 2 * (n * mass_of(
        probs,
        candidates,
        n,
    ))
}

/// Whether the first `n` candidates have a mass of no more than `top_p`, but for two
/// roundings each.
pub open spec fn short_of(probs: Seq<u32>, candidates: Seq<usize>, top_p: u32, n: int) -> bool {
    PARTS * (mass_of(probs, candidates, n) - bits::scaled_value(top_p)) <= 2 * (n * mass_of(
        probs,
        candidates,
        n,
    ))
}

/// Whether token `a` is more probable than token `b`, or as probable and the earlier
/// of the two.
pub open spec fn precedes(probs: Seq<u32>, a: usize, b: usize) -> bool {
    let (p, q) = (bits::total_rank(probs[a as int]), bits::total_rank(probs[b as int]));
    p > q || (p == q && a < b)
}

/// Whether candidates are the most probable tokens, in that order: each precedes those
/// after it, and those that are no candidates.
pub open spec fn most_probable(probs: Seq<u32>, candidates: Seq<usize>) -> bool {
    &&& forall|i: int, j: int|
        0 <= i < j < candidates.len() ==> precedes(
            probs,
            #[trigger] candidates[i],
            #[trigger] candidates[j],
        )
    &&& forall|i: int, t: usize|
        0 <= i < candidates.len() && t < probs.len() && !(#[trigger] candidates.contains(t))
            ==> precedes(probs, #[trigger] candidates[i], t)
}

/// How many candidates top-k leaves.
pub open spec fn kept_count(s: Settings, n: int) -> int {
    if s.top_k == 0 || s.top_k >= n {
        n
    } else {
        s.top_k as int
    }
}

/// Whether candidates are what the filters leave of a distribution: the most probable
/// tokens, as many as top-k keeps or as it takes to reach `top_p`, whichever is fewer.
pub open spec fn filtered(s: Settings, probs: Seq<u32>, candidates: Seq<usize>) -> bool {
    let n = candidates.len() as int;
    &&& among(probs, candidates)
    &&& most_probable(probs, candidates)
    &&& 1 <= n <= kept_count(s, probs.len() as int)
    &&& n == kept_count(s, probs.len() as int) || reaches(probs, candidates, s.top_p, n)
    &&& n > 1 ==> short_of(probs, candidates, s.top_p, n - 1)
}

/// A prefix has the mass of that many candidates.
proof fn lemma_prefix_mass(probs: Seq<u32>, a: Seq<usize>, b: Seq<usize>, n: int)
    requires
        n <= a.len(),
        n <= b.len(),
        forall|i: int| 0 <= i < n ==> a[i] == b[i],
    ensures
        mass_of(probs, a, n) == mass_of(probs, b, n),
{
    lemma_sum_equal(
        |j: int| bits::scaled_value(probs[a[j] as int]),
        |j: int| bits::scaled_value(probs[b[j] as int]),
        n,
    );
}

/// The candidates for a draw are what the filters leave of the distribution.
pub proof fn law_filters<A: Arith>(s: Settings, probs: Seq<u32>)
    requires
        rounds_to_nearest::<A>(),
        0 < probs.len() <= 0x10_0000,
        among(probs, everyone(probs.len() as int)),
        finite(s.top_p),
    ensures
        filtered(s, probs, s.candidates::<A>(probs)),
{
    lemma_powers();
    let n = probs.len() as int;
    let all = sampler::index_range(0, n);
    let ranked = sampler::ranking(probs);
    let top = s.top(probs);
    let k = sampler::nucleus_from::<A>(probs, top, s.top_p, bits::ZERO, 0);
    let c = s.candidates::<A>(probs);
    sampler::lemma_ranking(probs);
    sampler::law_candidates::<A>(s, probs, 0);
    assert(top.len() == kept_count(s, n));
    assert forall|j: int| 0 <= j < top.len() implies (#[trigger] top[j]) < probs.len() by {
        assert(top[j] == ranked[j]);
        assert(ranked[j] < probs.len());
    }
    assert(among(probs, top));
    lemma_even(bits::ZERO);
    assert(mass_of(probs, top, 0) == 0);
    lemma_nucleus::<A>(probs, top, s.top_p, bits::ZERO, 0);
    assert(c.len() == k);
    assert forall|j: int| 0 <= j < c.len() implies #[trigger] c[j] == ranked[j] && c[j]
        < probs.len() by {
        assert(c[j] == top[j]);
    }
    lemma_prefix_mass(probs, top, c, k);
    if k > 1 {
        lemma_prefix_mass(probs, top, c, k - 1);
    }
    // No index is ranked twice.
    assert(all.no_duplicates());
    all.lemma_multiset_has_no_duplicates();
    ranked.lemma_multiset_has_no_duplicates_conv();
    assert forall|i: int, j: int| 0 <= i < j < c.len() implies precedes(
        probs,
        #[trigger] c[i],
        #[trigger] c[j],
    ) by {
        let order = sampler::rank_order(probs);
        assert(order(c[i], c[j]));
        assert(ranked[i] != ranked[j]);
    }
    assert forall|i: int, t: usize|
        0 <= i < c.len() && t < probs.len() && !(#[trigger] c.contains(t)) implies precedes(
        probs,
        #[trigger] c[i],
        t,
    ) by {
        sampler::law_left_out::<A>(s, probs, t, i);
        assert(c.contains(c[i]));
    }
}

/// The rounded sum of the probabilities of the candidates.
proof fn lemma_total_mass<A: Arith>(probs: Seq<u32>, candidates: Seq<usize>, n: int)
    requires
        rounds_to_nearest::<A>(),
        among(probs, candidates),
        0 <= n <= candidates.len() <= 0x10_0000,
    ensures
        finite(sampler::mass_upto::<A>(probs, candidates, n)),
        PARTS * distance(
            bits::scaled_value(sampler::mass_upto::<A>(probs, candidates, n)),
            mass_of(probs, candidates, n),
        ) <= 2 * (n * mass_of(probs, candidates, n)),
    decreases n,
{
    if n > 0 {
        lemma_total_mass::<A>(probs, candidates, n - 1);
        lemma_rounded_mass::<A>(
            probs,
            candidates,
            sampler::mass_upto::<A>(probs, candidates, n - 1),
            n - 1,
            probs[candidates[n - 1] as int],
        );
    } else {
        lemma_even(bits::NEG_ZERO);
    }
}

/// Whether `share` is `r` times the mass of the candidates, but for rounding.
pub open spec fn is_share(probs: Seq<u32>, candidates: Seq<usize>, r: u32, share: int) -> bool {
    let n = candidates.len() as int;
    let part = bits::scaled_value(r) * mass_of(probs, candidates, n);
    PARTS * distance(share * pow2(150), part) <= (2 * n + 2) * part + PARTS * pow2(150)
}

/// Whether a token is drawn from candidates by a number `r` from 0 to 1: it is the
/// candidate on which `r` times the mass of all of them falls.
pub open spec fn drawn_by(
    probs: Seq<u32>,
    candidates: Seq<usize>,
    r: u32,
    share: int,
    j: int,
) -> bool {
    &&& is_share(probs, candidates, r, share)
    &&& falls_on(
        probs,
        candidates,
        share,
        pow2(150) + mass_of(probs, candidates, candidates.len() as int),
        j,
    )
}

/// With filters, a number `r` from 0 to 1 draws the candidate on which `r` times the
/// mass of the candidates falls, where the candidates are what the filters leave.
pub proof fn law_filtered_draw<A: Arith>(s: Settings, probs: Seq<u32>, r: u32)
    requires
        rounds_to_nearest::<A>(),
        subtracts_to_nearest::<A>(),
        0 < probs.len() <= 0x10_0000,
        0 < s.top_k < probs.len() || !bits::le_of(bits::ONE, s.top_p),
        among(probs, everyone(probs.len() as int)),
        finite(s.top_p),
        finite(r),
        0 <= bits::scaled_value(r) <= pow2(150),
    ensures
        exists|candidates: Seq<usize>, share: int, j: int|
            {
                &&& #[trigger] drawn_by(probs, candidates, r, share, j)
                &&& filtered(s, probs, candidates)
                &&& s.drawn::<A>(probs, r) == candidates[j]
            },
{
    lemma_powers();
    let unit = pow2(150) as int;
    let c = s.candidates::<A>(probs);
    let n = c.len() as int;
    law_filters::<A>(s, probs);
    lemma_total_mass::<A>(probs, c, n);
    lemma_mass(probs, c, n);
    let total = sampler::mass_upto::<A>(probs, c, n);
    let t = bits::scaled_value(total);
    let v = bits::scaled_value(r);
    let mass = mass_of(probs, c, n);
    let b = unit + mass;
    let nm = n * mass;
    assert(8 * nm <= PARTS * mass) by (nonlinear_arith)
        requires
            nm == n * mass,
            0 <= n <= 0x10_0000,
            mass >= 0,
            PARTS == 0x100_0000,
    ;
    assert(0 <= t <= 2 * mass);
    assert(mass <= 0x10_0000 * unit) by (nonlinear_arith)
        requires
            mass <= n * unit,
            n <= 0x10_0000,
            unit > 0,
    ;
    // The share of the mass.
    let product = arith::mul_of::<A>(r, total);
    let share = bits::scaled_value(product);
    let vt = v * t;
    let vm = v * mass;
    assert(0 <= vt <= 2 * vm && vm <= unit * mass) by (nonlinear_arith)
        requires
            vt == v * t,
            vm == v * mass,
            0 <= t <= 2 * mass,
            0 <= v <= unit,
            mass >= 0,
    ;
    assert(vt <= pow2(427)) by {
        vstd::arithmetic::power2::lemma2_to64();
        vstd::arithmetic::power2::lemma_pow2_strictly_increases(22, 127);
        assert(vt <= (unit * pow2(127)) * unit) by (nonlinear_arith)
            requires
                vt <= 2 * (unit * mass),
                mass <= 0x10_0000 * unit,
                pow2(127) >= 0x40_0000,
                unit > 0,
        ;
    }
    assert(near_product(product, r, total));
    let far = t - mass;
    let vfar = v * far;
    assert(vt == vm + vfar) by (nonlinear_arith)
        requires
            vt == v * t,
            vm == v * mass,
            vfar == v * far,
            far == t - mass,
    ;
    assert(-(2 * (n * vm)) <= PARTS * vfar <= 2 * (n * vm)) by (nonlinear_arith)
        requires
            -(2 * nm) <= PARTS * far <= 2 * nm,
            nm == n * mass,
            vm == v * mass,
            vfar == v * far,
            v >= 0,
    ;
    assert((2 * n + 2) * vm == 2 * (n * vm) + 2 * vm) by (nonlinear_arith);
    assert(is_share(probs, c, r, share));
    // It is not negative, and no more than twice the mass and a bit.
    lemma_even(product);
    assert(share >= -1) by (nonlinear_arith)
        requires
            PARTS * (share * unit - vt) >= -(vt + PARTS * unit),
            PARTS == 0x100_0000,
            vt >= 0,
            unit > 0,
    ;
    assert(share <= 2 * b) by {
        let su = share * unit;
        assert(PARTS * (su - vt) <= vt + PARTS * unit);
        assert(PARTS * su <= PARTS * (2 * (unit * mass)) + 2 * (unit * mass) + PARTS * unit);
        // The mass was doubled generously.
        assert(PARTS * vt <= PARTS * vm + 2 * (n * vm));
        assert(8 * (n * vm) <= PARTS * vm) by (nonlinear_arith)
            requires
                0 <= n <= 0x10_0000,
                PARTS == 0x100_0000,
                vm >= 0,
        ;
        assert(su <= 2 * (unit * mass) + unit);
        assert(share <= 2 * b) by (nonlinear_arith)
            requires
                su == share * unit,
                su <= 2 * (unit * mass) + unit,
                b == unit + mass,
                unit > 0,
                mass >= 0,
        ;
    }
    assert(mass_of(probs, c, 0) == 0);
    assert(0 * b == 0);
    let j = lemma_walk::<A>(probs, c, share, b, product, 0);
    assert(drawn_by(probs, c, r, share, j));
    assert(c[j] < probs.len());
}

/// A larger magnitude is a larger number.
proof fn lemma_larger_magnitude(a: u32, b: u32)
    requires
        bits::magnitude(a) < bits::magnitude(b),
    ensures
        size(bits::scaled_value(a)) < size(bits::scaled_value(b)),
{
    let x = bits::abs_of(a);
    let y = bits::abs_of(b);
    bits::law_magnitudes_order_values(a, a);
    bits::law_magnitudes_order_values(b, b);
    if bits::exponent(x) < bits::exponent(y) {
        bits::lemma_smaller_exponent(x, y);
    } else {
        let p = pow2(bits::exponent(x) as nat) as int;
        vstd::arithmetic::power2::lemma_pow2_pos(bits::exponent(x) as nat);
        let sx = bits::significand(x);
        let sy = bits::significand(y);
        assert(bits::exponent(x) == bits::exponent(y));
        assert(sx < sy);
        assert(sx * p < sy * p) by (nonlinear_arith)
            requires
                sx < sy,
                p > 0,
        ;
    }
}

/// The order of finite numbers is that of their values.
pub proof fn law_order_is_that_of_values(a: u32, b: u32)
    requires
        finite(a),
        finite(b),
    ensures
        bits::le_of(a, b) <==> bits::scaled_value(a) <= bits::scaled_value(b),
{
    lemma_order(a, b);
    lemma_even(a);
    lemma_even(b);
    bits::law_magnitudes_order_values(a, a);
    bits::law_magnitudes_order_values(b, b);
    if bits::magnitude(a) < bits::magnitude(b) {
        lemma_larger_magnitude(a, b);
    } else if bits::magnitude(b) < bits::magnitude(a) {
        lemma_larger_magnitude(b, a);
    }
}

/// Whether nothing is rounded when the probabilities of candidates are subtracted from
/// `r`, one after the other.
pub open spec fn subtracts_exactly<A: Arith>(probs: Seq<u32>, candidates: Seq<usize>, r: int) -> bool {
    forall|k: int, left: u32|
        0 <= k < candidates.len() && finite(left) && bits::scaled_value(left) == r - mass_of(
            probs,
            candidates,
            k,
        ) ==> {
            let next = #[trigger] arith::sub_of::<A>(left, probs[candidates[k] as int]);
            finite(next) && bits::scaled_value(next) == r - mass_of(probs, candidates, k + 1)
        }
}

/// Whether nothing is rounded when the probabilities of candidates are added, one after
/// the other.
pub open spec fn adds_exactly<A: Arith>(probs: Seq<u32>, candidates: Seq<usize>) -> bool {
    forall|k: int, sum: u32|
        0 <= k < candidates.len() && finite(sum) && bits::scaled_value(sum) == mass_of(
            probs,
            candidates,
            k,
        ) ==> {
            let next = #[trigger] arith::add_of::<A>(sum, probs[candidates[k] as int]);
            finite(next) && bits::scaled_value(next) == mass_of(probs, candidates, k + 1)
        }
}

proof fn lemma_exact_walk<A: Arith>(
    probs: Seq<u32>,
    candidates: Seq<usize>,
    r: int,
    left: u32,
    k: int,
) -> (j: int)
    requires
        subtracts_exactly::<A>(probs, candidates, r),
        0 < candidates.len(),
        0 <= k <= candidates.len(),
        finite(left),
        bits::scaled_value(left) == r - mass_of(probs, candidates, k),
        k > 0 ==> mass_of(probs, candidates, k) < r,
        k == candidates.len() ==> mass_of(probs, candidates, k - 1) < r || k == 1,
    ensures
        0 <= j < candidates.len(),
        sampler::draw_from::<A>(probs, candidates, left, k) == candidates[j],
        j > 0 ==> mass_of(probs, candidates, j) < r,
        j + 1 == candidates.len() || r <= mass_of(probs, candidates, j + 1),
    decreases candidates.len() - k,
{
    if k >= candidates.len() {
        return candidates.len() - 1;
    }
    let next = arith::sub_of::<A>(left, probs[candidates[k] as int]);
    assert(finite(next) && bits::scaled_value(next) == r - mass_of(probs, candidates, k + 1));
    lemma_sign(next);
    if bits::le_of(next, bits::ZERO) {
        k
    } else {
        lemma_exact_walk::<A>(probs, candidates, r, next, k + 1)
    }
}

/// Where nothing is rounded, a number drawn without filters falls on the first token
/// that, with those before it, has at least that much probability; on the last, if all
/// together have less.
pub proof fn law_exact_draw<A: Arith>(s: Settings, probs: Seq<u32>, r: u32)
    requires
        0 < probs.len() <= 0x1_0000_0000,
        probs.len() <= usize::MAX,
        s.top_k == 0 || s.top_k >= probs.len(),
        bits::le_of(bits::ONE, s.top_p),
        finite(r),
        subtracts_exactly::<A>(probs, everyone(probs.len() as int), bits::scaled_value(r)),
    ensures
        ({
            let all = everyone(probs.len() as int);
            let v = bits::scaled_value(r);
            let j = s.drawn::<A>(probs, r) as int;
            &&& 0 <= j < probs.len()
            &&& j > 0 ==> mass_of(probs, all, j) < v
            &&& j + 1 == probs.len() || v <= mass_of(probs, all, j + 1)
        }),
{
    let all = everyone(probs.len() as int);
    assert(all =~= sampler::index_range(0, probs.len() as int));
    assert(mass_of(probs, all, 0) == 0);
    let j = lemma_exact_walk::<A>(probs, all, bits::scaled_value(r), r, 0);
    assert(all[j] == j as usize);
}

proof fn lemma_exact_nucleus<A: Arith>(
    probs: Seq<u32>,
    ranked: Seq<usize>,
    top_p: u32,
    reached: u32,
    n: int,
)
    requires
        adds_exactly::<A>(probs, ranked),
        0 <= n < ranked.len(),
        finite(top_p),
        finite(reached),
        bits::scaled_value(reached) == mass_of(probs, ranked, n),
        n > 0 ==> mass_of(probs, ranked, n) < bits::scaled_value(top_p),
    ensures
        ({
            let c = sampler::nucleus_from::<A>(probs, ranked, top_p, reached, n);
            &&& n < c <= ranked.len()
            &&& c == ranked.len() || mass_of(probs, ranked, c) >= bits::scaled_value(top_p)
            &&& c > 1 ==> mass_of(probs, ranked, c - 1) < bits::scaled_value(top_p)
        }),
    decreases ranked.len() - n,
{
    reveal_with_fuel(sampler::nucleus_from, 2);
    let next = arith::add_of::<A>(reached, probs[ranked[n] as int]);
    assert(finite(next) && bits::scaled_value(next) == mass_of(probs, ranked, n + 1));
    law_order_is_that_of_values(top_p, next);
    if !bits::le_of(top_p, next) && n + 1 < ranked.len() {
        lemma_exact_nucleus::<A>(probs, ranked, top_p, next, n + 1);
    }
}

/// Where nothing is rounded, the candidates are the fewest of the most probable tokens
/// whose probabilities reach `top_p`, or all that top-k keeps if these do not.
pub proof fn law_exact_filters<A: Arith>(s: Settings, probs: Seq<u32>)
    requires
        0 < probs.len() <= usize::MAX,
        adds_exactly::<A>(probs, s.top(probs)),
        finite(s.top_p),
    ensures
        ({
            let c = s.candidates::<A>(probs);
            let n = c.len() as int;
            &&& 1 <= n <= kept_count(s, probs.len() as int)
            &&& n == kept_count(s, probs.len() as int) || mass_of(probs, c, n) >= bits::scaled_value(
                s.top_p,
            )
            &&& n > 1 ==> mass_of(probs, c, n - 1) < bits::scaled_value(s.top_p)
        }),
{
    let n = probs.len() as int;
    let top = s.top(probs);
    let c = s.candidates::<A>(probs);
    sampler::lemma_ranking(probs);
    assert(top.len() == kept_count(s, n));
    lemma_even(bits::ZERO);
    assert(mass_of(probs, top, 0) == 0);
    lemma_exact_nucleus::<A>(probs, top, s.top_p, bits::ZERO, 0);
    let k = sampler::nucleus_from::<A>(probs, top, s.top_p, bits::ZERO, 0);
    assert(c.len() == k);
    lemma_prefix_mass(probs, top, c, k);
    if k > 1 {
        lemma_prefix_mass(probs, top, c, k - 1);
    }
}

/// The number that a random word stands for is its upper 24 bits over `2^24`, and so from
/// 0 to below 1.
pub proof fn law_uniform(word: u32)
    ensures
        finite(rng::uniform_of(word)),
        bits::scaled_value(rng::uniform_of(word)) == (word as int / 256) * pow2(126),
        0 <= bits::scaled_value(rng::uniform_of(word)) < pow2(150),
{
    bits::lemma_scaled_24(word / 256);
    vstd::arithmetic::power2::lemma2_to64();
    vstd::arithmetic::power2::lemma_pow2_adds(24, 126);
    vstd::arithmetic::power2::lemma_pow2_pos(126);
    let k = word as int / 256;
    let p = pow2(126) as int;
    assert(0 <= k * p < 0x100_0000 * p) by (nonlinear_arith)
        requires
            0 <= k < 0x100_0000,
            p > 0,
    ;
}

} // verus!
