//! Laws of the perplexity: where rounding keeps the order of numbers, it is never
//! below 1.

use vstd::prelude::*;

use crate::arith;
use crate::arith::Arith;
use crate::bits;
use crate::model::ModelView;
use crate::nearest::finite;
use crate::ppl;

verus! {

/// `1.0` in double precision.
pub const ONE_64: u64 = 0x3FF0_0000_0000_0000;

/// `a <= b` on values in double precision: false if either is a NaN.
pub open spec fn le_64(a: u64, b: u64) -> bool {
    !bits::nan_64(a) && !bits::nan_64(b) && bits::rank_64(a) <= bits::rank_64(b)
}

/// Whether a number in double precision is finite.
pub open spec fn finite_64(a: u64) -> bool {
    bits::magnitude_64(a) < bits::INFINITY_64
}

/// Whether rounding in double precision keeps what holds of real numbers: adding
/// what is not negative makes nothing smaller, subtracting what is no larger gives
/// nothing negative, and likewise for quotients, exponentials and logarithms.
pub open spec fn keeps_signs<A: Arith>() -> bool {
    &&& forall|a: u32, b: u32|
        finite(a) && finite(b) && bits::le_of(a, b) ==> le_64(
            #[trigger] arith::widen_of::<A>(a),
            #[trigger] arith::widen_of::<A>(b),
        )
    &&& forall|a: u32| finite(a) ==> finite_64(#[trigger] arith::widen_of::<A>(a))
    &&& forall|a: u32, m: u32|
        finite(a) && finite(m) && bits::le_of(a, m) ==> !bits::nan_64(
            arith::widen_of::<A>(#[trigger] arith::sub_of::<A>(a, m)),
        )
    &&& forall|a: u32|
        finite(a) ==> arith::exp64_of::<A>(
            arith::widen_of::<A>(#[trigger] arith::sub_of::<A>(a, a)),
        ) == ONE_64
    &&& forall|a: u64, b: u64|
        (finite_64(a) || le_64(0, a)) && le_64(0, b) ==> le_64(
            a,
            #[trigger] arith::add64_of::<A>(a, b),
        ) && (le_64(0, a) ==> le_64(b, arith::add64_of::<A>(a, b)))
    &&& forall|a: u64, b: u64|
        finite_64(b) && le_64(b, a) ==> le_64(0, #[trigger] arith::sub64_of::<A>(a, b))
    &&& forall|a: u64, n: usize|
        le_64(0, a) && n > 0 ==> le_64(
            0,
            #[trigger] arith::div64_of::<A>(a, arith::count64_of::<A>(n)),
        )
    &&& forall|a: u64| !bits::nan_64(a) ==> le_64(0, #[trigger] arith::exp64_of::<A>(a))
    &&& forall|a: u64| le_64(0, a) ==> le_64(ONE_64, #[trigger] arith::exp64_of::<A>(a))
    &&& forall|a: u64| le_64(ONE_64, a) ==> le_64(0, #[trigger] arith::ln64_of::<A>(a))
}

/// Whether all numbers are finite.
pub open spec fn all_finite(x: Seq<u32>) -> bool {
    forall|i: int| 0 <= i < x.len() ==> finite(#[trigger] x[i])
}

/// A sum of exponentials is not negative, and at least 1 once it has that of the
/// largest logit.
proof fn lemma_exp_sum<A: Arith>(logits: Seq<u32>, max: u32, top: int, n: int)
    requires
        keeps_signs::<A>(),
        all_finite(logits),
        finite(max),
        0 <= top < logits.len(),
        logits[top] == max,
        forall|i: int| 0 <= i < logits.len() ==> bits::le_of(#[trigger] logits[i], max),
        0 <= n <= logits.len(),
    ensures
        le_64(0, ppl::exp_sum_upto::<A>(logits, max, n)),
        top < n ==> le_64(ONE_64, ppl::exp_sum_upto::<A>(logits, max, n)),
    decreases n,
{
    if n > 0 {
        let i = n - 1;
        lemma_exp_sum::<A>(logits, max, top, i);
        assert(finite(logits[i]) && bits::le_of(logits[i], max));
        let sum = ppl::exp_sum_upto::<A>(logits, max, i);
        let term = arith::exp64_of::<A>(
            arith::widen_of::<A>(arith::sub_of::<A>(logits[i], max)),
        );
        assert(le_64(0, term));
        assert(le_64(sum, arith::add64_of::<A>(sum, term)));
    }
}

/// Where rounding keeps the order of numbers, a negative log-likelihood under finite
/// logits is not negative.
pub proof fn law_nll_is_not_negative<A: Arith>(logits: Seq<u32>, target: u32)
    requires
        keeps_signs::<A>(),
        all_finite(logits),
        target < logits.len(),
    ensures
        le_64(0, ppl::nll_of::<A>(logits, target)),
{
    let n = logits.len() as int;
    let max = bits::max_upto(bits::NEG_INFINITY, logits, n);
    bits::law_max_upto(bits::NEG_INFINITY, logits, n);
    assert(finite(logits[0]));
    assert(bits::le_of(logits[0], max));
    let top = choose|i: int| 0 <= i < n && #[trigger] logits[i] == max;
    assert(finite(logits[top]));
    assert forall|i: int| 0 <= i < n implies bits::le_of(#[trigger] logits[i], max) by {
        assert(finite(logits[i]));
    }
    lemma_exp_sum::<A>(logits, max, top, n);
    let ln = arith::ln64_of::<A>(ppl::exp_sum_upto::<A>(logits, max, n));
    let high = arith::widen_of::<A>(max);
    let sum = arith::add64_of::<A>(high, ln);
    assert(le_64(high, sum));
    let t = logits[target as int];
    assert(finite(t) && bits::le_of(t, max));
    assert(le_64(arith::widen_of::<A>(t), high));
}

/// Whether subtracting more gives less, in double precision.
pub open spec fn subtracts_in_order<A: Arith>() -> bool {
    forall|a: u64, b: u64, c: u64|
        !bits::nan_64(a) && finite_64(b) && finite_64(c) && le_64(b, c) ==> le_64(
            #[trigger] arith::sub64_of::<A>(a, c),
            #[trigger] arith::sub64_of::<A>(a, b),
        )
}

/// Where rounding keeps the order of numbers, of two tokens under the same logits the
/// one with the smaller logit has the larger negative log-likelihood.
pub proof fn law_smaller_logits_are_less_likely<A: Arith>(logits: Seq<u32>, a: u32, b: u32)
    requires
        keeps_signs::<A>(),
        subtracts_in_order::<A>(),
        all_finite(logits),
        a < logits.len(),
        b < logits.len(),
        bits::le_of(logits[a as int], logits[b as int]),
    ensures
        le_64(ppl::nll_of::<A>(logits, b), ppl::nll_of::<A>(logits, a)),
{
    let n = logits.len() as int;
    let max = bits::max_upto(bits::NEG_INFINITY, logits, n);
    bits::law_max_upto(bits::NEG_INFINITY, logits, n);
    assert(finite(logits[0]));
    assert(bits::le_of(logits[0], max));
    let top = choose|i: int| 0 <= i < n && #[trigger] logits[i] == max;
    assert(finite(logits[top]));
    assert forall|i: int| 0 <= i < n implies bits::le_of(#[trigger] logits[i], max) by {
        assert(finite(logits[i]));
    }
    lemma_exp_sum::<A>(logits, max, top, n);
    let ln = arith::ln64_of::<A>(ppl::exp_sum_upto::<A>(logits, max, n));
    let high = arith::widen_of::<A>(max);
    let sum = arith::add64_of::<A>(high, ln);
    assert(le_64(high, sum));
    assert(finite(logits[a as int]) && finite(logits[b as int]));
    let x = arith::widen_of::<A>(logits[a as int]);
    let y = arith::widen_of::<A>(logits[b as int]);
    assert(le_64(x, y));
    assert(ppl::nll_of::<A>(logits, a) == arith::sub64_of::<A>(sum, x));
    assert(ppl::nll_of::<A>(logits, b) == arith::sub64_of::<A>(sum, y));
}

/// Whether the logits of every scored position of the first `w` windows are finite,
/// and every token that is scored has one.
pub open spec fn finite_scores<A: Arith>(
    m: ModelView,
    tokens: Seq<u32>,
    context: int,
    w: int,
) -> bool {
    forall|k: int, t: int|
        0 <= k < w && 1 <= t < ppl::window_of(tokens, context, k).len() - 1 ==> {
            let window = ppl::window_of(tokens, context, k);
            let logits = #[trigger] m.logits::<A>(
                m.hidden::<A>(ppl::window_of(tokens, context, k), m.depth(), t),
            );
            all_finite(logits) && window[t + 1] < logits.len()
        }
}

proof fn lemma_window<A: Arith>(
    m: ModelView,
    tokens: Seq<u32>,
    context: int,
    w: int,
    k: int,
    sum: u64,
    t: int,
)
    requires
        keeps_signs::<A>(),
        finite_scores::<A>(m, tokens, context, w),
        0 <= k < w,
        le_64(0, sum),
        t < ppl::window_of(tokens, context, k).len(),
    ensures
        le_64(0, ppl::window_nll::<A>(m, ppl::window_of(tokens, context, k), sum, t)),
    decreases t,
{
    let window = ppl::window_of(tokens, context, k);
    if t > 1 {
        lemma_window::<A>(m, tokens, context, w, k, sum, t - 1);
        let logits = m.logits::<A>(m.hidden::<A>(window, m.depth(), t - 1));
        law_nll_is_not_negative::<A>(logits, window[t]);
        let before = ppl::window_nll::<A>(m, window, sum, t - 1);
        let term = ppl::nll_of::<A>(logits, window[t]);
        assert(le_64(before, arith::add64_of::<A>(before, term)));
    }
}

proof fn lemma_windows<A: Arith>(m: ModelView, tokens: Seq<u32>, context: int, w: int, k: int)
    requires
        keeps_signs::<A>(),
        finite_scores::<A>(m, tokens, context, w),
        0 <= k <= w,
    ensures
        le_64(0, ppl::nll_upto::<A>(m, tokens, context, k)),
    decreases k,
{
    if k > 0 {
        lemma_windows::<A>(m, tokens, context, w, k - 1);
        lemma_window::<A>(
            m,
            tokens,
            context,
            w,
            k - 1,
            ppl::nll_upto::<A>(m, tokens, context, k - 1),
            ppl::window_of(tokens, context, k - 1).len() - 1,
        );
    }
}

/// Where rounding keeps the order of numbers and all logits are finite, the
/// perplexity over any number of windows is at least 1.
pub proof fn law_ppl_is_at_least_one<A: Arith>(m: ModelView, tokens: Seq<u32>, context: int, w: int)
    requires
        keeps_signs::<A>(),
        finite_scores::<A>(m, tokens, context, w),
        3 <= tokens.len() <= usize::MAX,
        context >= 3,
        1 <= w <= ppl::windows(tokens, context),
    ensures
        le_64(ONE_64, ppl::cumulative_of::<A>(m, tokens, context, w)),
{
    lemma_windows::<A>(m, tokens, context, w, w);
    ppl::law_something_is_scored(tokens, context, w);
    ppl::lemma_scored_bound(tokens, context, w);
}

} // verus!
