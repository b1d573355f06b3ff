//! What a perplexity is made of, where nothing is rounded: the negative
//! log-likelihood of a token under logits, and the mean over the scored positions.

use vstd::prelude::*;

use crate::arith;
use crate::arith::Arith;
use crate::bits;
use crate::model::ModelView;
use crate::ppl;
use crate::ring::{lemma_sum_equal, lemma_sum_times, sum_of, Ring};

verus! {

/// A ring in both precisions. `wide` says which number a bit pattern stands for in
/// double precision.
pub struct WideRing {
    pub ring: Ring,
    pub wide: spec_fn(u64) -> int,
}

impl WideRing {
    /// The number that a bit pattern stands for in double precision.
    pub open spec fn val(self, a: u64) -> int {
        (self.wide)(a)
    }

    /// Whether two integers are the same number.
    pub open spec fn eq(self, a: int, b: int) -> bool {
        self.ring.eq(a, b)
    }

    /// Whether `x` is a logarithm of `a`.
    pub open spec fn logarithm(self, x: int, a: int) -> bool {
        self.eq(self.ring.exp(x), a)
    }

    /// The sum of the exponentials of all logits.
    pub open spec fn partition(self, logits: Seq<u32>) -> int {
        sum_of(|j: int| self.ring.exp(self.ring.val(logits[j])), logits.len() as int)
    }

    /// Whether the arithmetic is that of the ring in both precisions.
    pub open spec fn of<A: Arith>(self) -> bool {
        &&& self.ring.of::<A>()
        &&& self.eq(self.val(0), 0)
        &&& self.eq(self.val(ppl::NEG_ZERO_64), 0)
        &&& forall|a: u32| self.eq(self.val(#[trigger] arith::widen_of::<A>(a)), self.ring.val(a))
        &&& forall|a: u64, b: u64|
            self.eq(self.val(#[trigger] arith::add64_of::<A>(a, b)), self.val(a) + self.val(b))
        &&& forall|a: u64, b: u64|
            self.eq(self.val(#[trigger] arith::sub64_of::<A>(a, b)), self.val(a) - self.val(b))
        &&& forall|a: u64, b: u64|
            self.ring.unit(self.val(b)) ==> self.eq(
                self.val(#[trigger] arith::div64_of::<A>(a, b)) * self.val(b),
                self.val(a),
            )
        &&& forall|n: usize| self.eq(self.val(#[trigger] arith::count64_of::<A>(n)), n as int)
        &&& forall|a: u64|
            self.eq(self.val(#[trigger] arith::exp64_of::<A>(a)), self.ring.exp(self.val(a)))
        &&& forall|a: u64, x: int| #[trigger]
            self.logarithm(x, self.val(a)) ==> self.logarithm(
                self.val(arith::ln64_of::<A>(a)),
                self.val(a),
            )
    }
}

/// Without rounding, the negative log-likelihoods of two tokens under the same logits
/// differ as their logits do: each plus its logit is the same.
pub proof fn law_likelihoods_differ<A: Arith>(w: WideRing, logits: Seq<u32>, a: u32, b: u32)
    requires
        w.of::<A>(),
        a < logits.len(),
        b < logits.len(),
    ensures
        w.eq(
            w.val(ppl::nll_of::<A>(logits, a)) + w.ring.val(logits[a as int]),
            w.val(ppl::nll_of::<A>(logits, b)) + w.ring.val(logits[b as int]),
        ),
{
    let total = whole::<A>(logits);
    lemma_nll::<A>(w, logits, a);
    lemma_nll::<A>(w, logits, b);
    let y = w.val(ppl::nll_of::<A>(logits, b)) + w.ring.val(logits[b as int]);
    w.ring.sym(y, w.val(total));
    w.ring.trans(
        w.val(ppl::nll_of::<A>(logits, a)) + w.ring.val(logits[a as int]),
        w.val(total),
        y,
    );
}

/// The logarithm of the sum of all exponentials, as computed.
spec fn whole<A: Arith>(logits: Seq<u32>) -> u64 {
    let max = bits::max_upto(bits::NEG_INFINITY, logits, logits.len() as int);
    arith::add64_of::<A>(
        arith::widen_of::<A>(max),
        arith::ln64_of::<A>(ppl::exp_sum_upto::<A>(logits, max, logits.len() as int)),
    )
}

proof fn lemma_nll<A: Arith>(w: WideRing, logits: Seq<u32>, t: u32)
    requires
        w.of::<A>(),
        t < logits.len(),
    ensures
        w.eq(
            w.val(ppl::nll_of::<A>(logits, t)) + w.ring.val(logits[t as int]),
            w.val(whole::<A>(logits)),
        ),
{
    let total = whole::<A>(logits);
    let logit = arith::widen_of::<A>(logits[t as int]);
    let l = w.ring.val(logits[t as int]);
    let n = w.val(ppl::nll_of::<A>(logits, t));
    assert(ppl::nll_of::<A>(logits, t) == arith::sub64_of::<A>(total, logit));
    w.ring.refl(w.val(total));
    w.ring.same(w.val(total), w.val(total), w.val(logit), l);
    w.ring.trans(n, w.val(total) - w.val(logit), w.val(total) - l);
    w.ring.refl(l);
    w.ring.same(n, w.val(total) - l, l, l);
    assert(w.val(total) - l + l == w.val(total));
}

proof fn lemma_exp_sum<A: Arith>(w: WideRing, logits: Seq<u32>, max: u32, f: spec_fn(int) -> int, n: int)
    requires
        w.of::<A>(),
        0 <= n <= logits.len(),
        forall|j: int|
            0 <= j < n ==> #[trigger] f(j) == w.ring.exp(w.ring.val(logits[j]) - w.ring.val(max)),
    ensures
        w.eq(w.val(ppl::exp_sum_upto::<A>(logits, max, n)), sum_of(f, n)),
    decreases n,
{
    if n > 0 {
        let i = n - 1;
        lemma_exp_sum::<A>(w, logits, max, f, i);
        let d = arith::sub_of::<A>(logits[i], max);
        let x = w.ring.val(logits[i]) - w.ring.val(max);
        w.ring.refl(w.ring.val(logits[i]));
        w.ring.refl(w.ring.val(max));
        w.ring.ops::<A>(logits[i], w.ring.val(logits[i]), max, w.ring.val(max));
        let wd = arith::widen_of::<A>(d);
        w.ring.trans(w.val(wd), w.ring.val(d), x);
        assert(w.ring.respects(w.val(wd), x));
        let e = arith::exp64_of::<A>(wd);
        w.ring.trans(w.val(e), w.ring.exp(w.val(wd)), w.ring.exp(x));
        assert(f(i) == w.ring.exp(x));
        let before = ppl::exp_sum_upto::<A>(logits, max, i);
        w.ring.same(w.val(before), sum_of(f, i), w.val(e), f(i));
        w.ring.trans(
            w.val(arith::add64_of::<A>(before, e)),
            w.val(before) + w.val(e),
            sum_of(f, n),
        );
    }
}

/// Without rounding, the exponential of a negative log-likelihood times that of the
/// token's logit is the sum of the exponentials of all logits, wherever that sum has
/// a logarithm.
pub proof fn law_likelihood<A: Arith>(w: WideRing, logits: Seq<u32>, t: u32)
    requires
        w.of::<A>(),
        t < logits.len(),
        exists|x: int| #[trigger] w.logarithm(x, w.partition(logits)),
    ensures
        w.eq(
            w.ring.exp(w.val(ppl::nll_of::<A>(logits, t))) * w.ring.exp(
                w.ring.val(logits[t as int]),
            ),
            w.partition(logits),
        ),
{
    let ring = w.ring;
    let n = logits.len() as int;
    let max = bits::max_upto(bits::NEG_INFINITY, logits, n);
    let vm = ring.val(max);
    let p = ring.exp(vm);
    let all = w.partition(logits);
    let x = choose|x: int| #[trigger] w.logarithm(x, all);
    let f = |j: int| ring.exp(ring.val(logits[j]) - vm);
    let fp = |j: int| f(j) * p;
    let g = |j: int| ring.exp(ring.val(logits[j]));
    let sum = ppl::exp_sum_upto::<A>(logits, max, n);
    lemma_exp_sum::<A>(w, logits, max, f, n);
    lemma_sum_equal(|j: int| w.ring.exp(w.ring.val(logits[j])), g, n);
    assert forall|j: int| 0 <= j < n implies ring.eq(#[trigger] fp(j), g(j)) by {
        let d = ring.val(logits[j]) - vm;
        assert(ring.multiplies(d, vm));
        assert(d + vm == ring.val(logits[j]));
        ring.sym(ring.exp(d + vm), ring.exp(d) * p);
    }
    ring.sums(fp, g, n);
    lemma_sum_times(f, fp, p, n);
    let s = sum_of(f, n);
    assert(ring.eq(s * p, all));
    // The shifted sum has a logarithm too.
    let shifted = x - vm;
    assert(ring.multiplies(shifted, vm));
    assert(shifted + vm == x);
    ring.sym(ring.exp(x), ring.exp(shifted) * p);
    ring.trans(ring.exp(shifted) * p, ring.exp(x), all);
    ring.sym(s * p, all);
    ring.trans(ring.exp(shifted) * p, all, s * p);
    lemma_power_is_unit::<A>(ring, vm);
    ring.cancel(ring.exp(shifted), s, p);
    ring.sym(w.val(sum), s);
    ring.trans(ring.exp(shifted), s, w.val(sum));
    assert(w.logarithm(shifted, w.val(sum)));
    let ln = arith::ln64_of::<A>(sum);
    let vl = w.val(ln);
    assert(ring.eq(ring.exp(vl), w.val(sum)));
    ring.trans(ring.exp(vl), w.val(sum), s);
    // All together.
    let total = whole::<A>(logits);
    let wm = arith::widen_of::<A>(max);
    ring.refl(vl);
    ring.same(w.val(wm), vm, vl, vl);
    ring.trans(w.val(total), w.val(wm) + vl, vm + vl);
    let nll = w.val(ppl::nll_of::<A>(logits, t));
    let l = ring.val(logits[t as int]);
    lemma_nll::<A>(w, logits, t);
    ring.trans(nll + l, w.val(total), vm + vl);
    assert(ring.respects(nll + l, vm + vl));
    assert(ring.multiplies(nll, l));
    assert(ring.multiplies(vm, vl));
    ring.sym(ring.exp(nll + l), ring.exp(nll) * ring.exp(l));
    ring.trans(ring.exp(nll) * ring.exp(l), ring.exp(nll + l), ring.exp(vm + vl));
    ring.trans(ring.exp(nll) * ring.exp(l), ring.exp(vm + vl), p * ring.exp(vl));
    ring.times(ring.exp(vl), s, p);
    assert(p * s == s * p) by (nonlinear_arith);
    ring.trans(ring.exp(nll) * ring.exp(l), p * ring.exp(vl), s * p);
    ring.trans(ring.exp(nll) * ring.exp(l), s * p, all);
}

/// An exponential can be divided by.
proof fn lemma_power_is_unit<A: Arith>(ring: Ring, x: int)
    requires
        ring.of::<A>(),
    ensures
        ring.unit(ring.exp(x)),
{
    let y = -x;
    assert(ring.multiplies(x, y));
    assert(x + y == 0);
    ring.sym(ring.exp(x + y), ring.exp(x) * ring.exp(y));
    ring.trans(ring.exp(x) * ring.exp(y), ring.exp(0), 1);
    assert(ring.inverse(ring.exp(x), ring.exp(y)));
}

/// The window that holds token `g`: `context` tokens, or those that are left.
pub open spec fn window_around(tokens: Seq<u32>, context: int, g: int) -> Seq<u32> {
    let from = g / context * context;
    tokens.subrange(
        from,
        if from + context <= tokens.len() {
            from + context
        } else {
            tokens.len() as int
        },
    )
}

/// The negative log-likelihood of token `g`, under the logits of the position before
/// it in its window; nothing for the first two tokens of a window.
pub open spec fn score_of<A: Arith>(
    w: WideRing,
    m: ModelView,
    tokens: Seq<u32>,
    context: int,
    g: int,
) -> int {
    if g % context >= 2 {
        w.val(
            ppl::nll_of::<A>(
                m.logits::<A>(
                    m.hidden::<A>(window_around(tokens, context, g), m.depth(), g % context - 1),
                ),
                tokens[g],
            ),
        )
    } else {
        0
    }
}

/// How many of the first `n` tokens are scored: all but the first two of each window.
pub open spec fn count_of_scored(context: int, n: int) -> int {
    sum_of(
        |g: int|
            if g % context >= 2 {
                1int
            } else {
                0
            },
        n,
    )
}

proof fn lemma_window_scores<A: Arith>(
    w: WideRing,
    m: ModelView,
    tokens: Seq<u32>,
    context: int,
    k: int,
    sum: u64,
    f: spec_fn(int) -> int,
    c: spec_fn(int) -> int,
    t: int,
)
    requires
        w.of::<A>(),
        context >= 3,
        0 <= k < ppl::windows(tokens, context),
        0 <= t <= ppl::window_of(tokens, context, k).len(),
        forall|g: int| 0 <= g < tokens.len() ==> #[trigger] f(g) == score_of::<A>(w, m, tokens, context, g),
        forall|g: int|
            0 <= g < tokens.len() ==> #[trigger] c(g) == (if g % context >= 2 {
                1int
            } else {
                0
            }),
        w.eq(w.val(sum), sum_of(f, k * context)),
    ensures
        w.eq(
            w.val(ppl::window_nll::<A>(m, ppl::window_of(tokens, context, k), sum, t - 1)),
            sum_of(f, k * context + t),
        ),
        sum_of(c, k * context + t) == sum_of(c, k * context) + ppl::scored(t),
    decreases t,
{
    let window = ppl::window_of(tokens, context, k);
    ppl::lemma_windows(tokens, context, k);
    if t > 0 {
        lemma_window_scores::<A>(w, m, tokens, context, k, sum, f, c, t - 1);
        let g = k * context + t - 1;
        vstd::arithmetic::div_mod::lemma_fundamental_div_mod_converse(g, context, k, t - 1);
        assert(f(g) == score_of::<A>(w, m, tokens, context, g));
        assert(c(g) == (if g % context >= 2 {
            1int
        } else {
            0
        }));
        if t - 1 >= 2 {
            assert(window_around(tokens, context, g) =~= window);
            assert(window[t - 1] == tokens[g]);
            let before = ppl::window_nll::<A>(m, window, sum, t - 2);
            let nll = ppl::nll_of::<A>(
                m.logits::<A>(m.hidden::<A>(window, m.depth(), t - 2)),
                window[t - 1],
            );
            w.ring.refl(w.val(nll));
            w.ring.same(w.val(before), sum_of(f, g), w.val(nll), w.val(nll));
            w.ring.trans(
                w.val(arith::add64_of::<A>(before, nll)),
                w.val(before) + w.val(nll),
                sum_of(f, g) + w.val(nll),
            );
        }
    }
}

/// Where the first `k` windows end.
pub open spec fn end_of(tokens: Seq<u32>, context: int, k: int) -> int {
    if k * context <= tokens.len() {
        k * context
    } else {
        tokens.len() as int
    }
}

/// Whether `mean` is the mean negative log-likelihood of the scored tokens among the
/// first `n`.
pub open spec fn is_mean<A: Arith>(
    w: WideRing,
    m: ModelView,
    tokens: Seq<u32>,
    context: int,
    n: int,
    mean: int,
) -> bool {
    w.eq(
        mean * count_of_scored(context, n),
        sum_of(|g: int| score_of::<A>(w, m, tokens, context, g), n),
    )
}

/// Without rounding, the sum over the first `k` windows is that of the negative
/// log-likelihoods of all tokens in them but the first two of each window.
pub proof fn law_windows_are_summed<A: Arith>(
    w: WideRing,
    m: ModelView,
    tokens: Seq<u32>,
    context: int,
    k: int,
)
    requires
        w.of::<A>(),
        context >= 3,
        0 <= k <= ppl::windows(tokens, context),
    ensures
        ({
            let end = end_of(tokens, context, k);
            &&& w.eq(
                w.val(ppl::nll_upto::<A>(m, tokens, context, k)),
                sum_of(|g: int| score_of::<A>(w, m, tokens, context, g), end),
            )
            &&& ppl::scored_upto(tokens, context, k) == count_of_scored(context, end)
        }),
    decreases k,
{
    let f = |g: int| score_of::<A>(w, m, tokens, context, g);
    let c = |g: int|
        if g % context >= 2 {
            1int
        } else {
            0
        };
    if k > 0 {
        let i = k - 1;
        law_windows_are_summed::<A>(w, m, tokens, context, i);
        ppl::lemma_windows(tokens, context, i);
        let window = ppl::window_of(tokens, context, i);
        let before = ppl::nll_upto::<A>(m, tokens, context, i);
        lemma_window_scores::<A>(
            w,
            m,
            tokens,
            context,
            i,
            before,
            f,
            c,
            window.len() as int,
        );
    } else {
        assert(0 * context == 0);
    }
}

/// Without rounding, the mean times the number of scored tokens is the sum of their
/// negative log-likelihoods, and the perplexity is the exponential of the mean.
pub proof fn law_perplexity<A: Arith>(
    w: WideRing,
    m: ModelView,
    tokens: Seq<u32>,
    context: int,
)
    requires
        w.of::<A>(),
        context >= 3,
        3 <= tokens.len() <= usize::MAX,
        w.ring.unit(count_of_scored(context, tokens.len() as int)),
    ensures
        is_mean::<A>(
            w,
            m,
            tokens,
            context,
            tokens.len() as int,
            w.val(ppl::mean_nll_of::<A>(m, tokens, context)),
        ),
        w.eq(
            w.val(
                ppl::cumulative_of::<A>(m, tokens, context, ppl::windows(tokens, context)),
            ),
            w.ring.exp(w.val(ppl::mean_nll_of::<A>(m, tokens, context))),
        ),
{
    let k = ppl::windows(tokens, context);
    let n = tokens.len() as int;
    assert(k >= 1) by {
        assert((n + context - 1) / context >= 1) by (nonlinear_arith)
            requires
                n >= 1,
                context >= 1,
        ;
    }
    ppl::lemma_windows(tokens, context, k - 1);
    law_windows_are_summed::<A>(w, m, tokens, context, k);
    ppl::lemma_scored_bound(tokens, context, k);
    let count = ppl::scored_upto(tokens, context, k);
    let total = sum_of(|g: int| score_of::<A>(w, m, tokens, context, g), n);
    assert(count == count_of_scored(context, n));
    let sum = ppl::nll_upto::<A>(m, tokens, context, k);
    let divisor = arith::count64_of::<A>(count as usize);
    let mean = ppl::mean_nll_of::<A>(m, tokens, context);
    assert(w.eq(w.val(divisor), count));
    w.ring.unit_same(w.val(divisor), count);
    let q = w.val(mean);
    w.ring.times(w.val(divisor), count, q);
    w.ring.sym(q * w.val(divisor), q * count);
    w.ring.trans(q * count, q * w.val(divisor), w.val(sum));
    w.ring.trans(q * count, w.val(sum), total);
}

/// Without rounding, the perplexity that is told after `k` windows is the exponential of
/// the mean over the scored tokens of these windows.
pub proof fn law_perplexity_so_far<A: Arith>(
    w: WideRing,
    m: ModelView,
    tokens: Seq<u32>,
    context: int,
    k: int,
)
    requires
        w.of::<A>(),
        context >= 3,
        3 <= tokens.len() <= usize::MAX,
        1 <= k <= ppl::windows(tokens, context),
        w.ring.unit(count_of_scored(context, end_of(tokens, context, k))),
    ensures
        exists|mean: int|
            {
                &&& #[trigger] is_mean::<A>(
                    w,
                    m,
                    tokens,
                    context,
                    end_of(tokens, context, k),
                    mean,
                )
                &&& w.eq(w.val(ppl::cumulative_of::<A>(m, tokens, context, k)), w.ring.exp(mean))
            },
{
    let end = end_of(tokens, context, k);
    law_windows_are_summed::<A>(w, m, tokens, context, k);
    ppl::lemma_scored_bound(tokens, context, k);
    let count = count_of_scored(context, end);
    let total = sum_of(|g: int| score_of::<A>(w, m, tokens, context, g), end);
    let sum = ppl::nll_upto::<A>(m, tokens, context, k);
    let divisor = arith::count64_of::<A>(count as usize);
    let mean = arith::div64_of::<A>(sum, divisor);
    assert(w.eq(w.val(divisor), count));
    w.ring.unit_same(w.val(divisor), count);
    let q = w.val(mean);
    w.ring.times(w.val(divisor), count, q);
    w.ring.sym(q * w.val(divisor), q * count);
    w.ring.trans(q * count, q * w.val(divisor), w.val(sum));
    w.ring.trans(q * count, w.val(sum), total);
    assert(is_mean::<A>(w, m, tokens, context, end, q));
}

} // verus!
