//! Perplexity evaluation: the quality metric of the quantization
//! quality-speed trade-off.
//!
//! Method: the input token sequence is split into non-overlapping windows of
//! `context` tokens; each window is scored with a single one-shot forward pass
//! ([`Model::forward_full_states`]). Position `t` predicts token `t + 1`;
//! position 0 of every window is skipped (no left context), and the last
//! position of a window predicts nothing, so that a window of length L
//! contributes `max(L - 2, 0)` scored positions. All models are measured under
//! this same convention so that numbers stay comparable.

use vstd::prelude::*;
use vstd::slice::slice_subrange;

use crate::arith;
use crate::arith::Arith;
use crate::bits;
use crate::error::{ErrorView, MinqError, ModelErrorOf};
use crate::model::{Model, ModelView};
use crate::tensor;

verus! {

/// `0.0` in double precision.
const ZERO_64: u64 = 0;

/// `-0.0` in double precision, from which a sum starts.
pub const NEG_ZERO_64: u64 = 0x8000_0000_0000_0000;

/// Not a number, in double precision.
pub const NAN_64: u64 = 0x7FF8_0000_0000_0000;

/// Aggregate result of a perplexity run. The last two are binary64 bit patterns.
#[derive(Clone, Copy, Debug, PartialEq, Eq, Structural)]
pub struct PplResult {
    /// Tokens in the (possibly truncated) input sequence.
    pub total_tokens: usize,
    /// Positions that contributed to the average.
    pub scored_positions: usize,
    /// Mean cross-entropy (natural log) over scored positions.
    pub mean_nll: u64,
    /// `exp(mean_nll)`.
    pub ppl: u64,
}

/// The sum of the exponentials of the first `n` logits, less `max`.
pub open spec fn exp_sum_upto<A: Arith>(logits: Seq<u32>, max: u32, n: int) -> u64
    decreases n,
{
    if n <= 0 {
        NEG_ZERO_64
    } else {
        arith::add64_of::<A>(
            exp_sum_upto::<A>(logits, max, n - 1),
            arith::exp64_of::<A>(
                arith::widen_of::<A>(arith::sub_of::<A>(logits[n - 1], max)),
            ),
        )
    }
}

/// The negative log-likelihood of `target`.
pub open spec fn nll_of<A: Arith>(logits: Seq<u32>, target: u32) -> u64 {
    let max = bits::max_upto(bits::NEG_INFINITY, logits, logits.len() as int);
    arith::sub64_of::<A>(
        arith::add64_of::<A>(
            arith::widen_of::<A>(max),
            arith::ln64_of::<A>(exp_sum_upto::<A>(logits, max, logits.len() as int)),
        ),
        arith::widen_of::<A>(logits[target as int]),
    )
}

/// Negative log-likelihood of `target` under `logits`, via log-sum-exp.
pub fn nll<A: Arith>(logits: &[u32], target: u32) -> (r: u64)
    requires
        target < logits@.len(),
    ensures
        arith::deterministic::<A>() ==> r == nll_of::<A>(logits@, target),
{
    let max: u32 = bits::max_value(logits);
    let mut sum: u64 = NEG_ZERO_64;
    let mut i: usize = 0;
    while i < logits.len()
        invariant
            i <= logits@.len(),
            arith::deterministic::<A>() ==> sum == exp_sum_upto::<A>(logits@, max, i as int),
        decreases logits@.len() - i,
    {
        sum = A::add64(sum, A::exp64(A::widen(A::sub32(logits[i], max))));
        i += 1;
    }
    let total: u64 = A::add64(A::widen(max), A::ln64(sum));
    A::sub64(total, A::widen(logits[target as usize]))
}

/// The number of scored positions of a window of `len` tokens.
pub open spec fn scored(len: int) -> int {
    if len >= 2 {
        len - 2
    } else {
        0
    }
}

/// The start of window `w`.
pub open spec fn window_start(tokens: Seq<u32>, context: int, w: int) -> int {
    if w * context < tokens.len() {
        w * context
    } else {
        tokens.len() as int
    }
}

/// Window `w`: `context` tokens, or those that are left.
pub open spec fn window_of(tokens: Seq<u32>, context: int, w: int) -> Seq<u32> {
    tokens.subrange(window_start(tokens, context, w), window_start(tokens, context, w + 1))
}

/// How many windows there are.
pub open spec fn windows(tokens: Seq<u32>, context: int) -> int {
    (tokens.len() + context - 1) / context
}

/// How many positions the first `w` windows score.
pub open spec fn scored_upto(tokens: Seq<u32>, context: int, w: int) -> int
    decreases w,
{
    if w <= 0 {
        0
    } else {
        scored_upto(tokens, context, w - 1) + scored(
            window_of(tokens, context, w - 1).len() as int,
        )
    }
}

/// A sum to which the positions of a window from 1 to below `t` have added
/// their negative log-likelihoods.
pub open spec fn window_nll<A: Arith>(m: ModelView, window: Seq<u32>, sum: u64, t: int) -> u64
    decreases t,
{
    if t <= 1 {
        sum
    } else {
        arith::add64_of::<A>(
            window_nll::<A>(m, window, sum, t - 1),
            nll_of::<A>(
                m.logits::<A>(m.hidden::<A>(window, m.depth(), t - 1)),
                window[t],
            ),
        )
    }
}

/// The sum over the first `w` windows.
pub open spec fn nll_upto<A: Arith>(m: ModelView, tokens: Seq<u32>, context: int, w: int) -> u64
    decreases w,
{
    if w <= 0 {
        0
    } else {
        let window = window_of(tokens, context, w - 1);
        window_nll::<A>(
            m,
            window,
            nll_upto::<A>(m, tokens, context, w - 1),
            window.len() - 1,
        )
    }
}

/// Why a window cannot be scored.
pub open spec fn window_error(m: ModelView, window: Seq<u32>) -> Option<ErrorView> {
    if m.states_error(window) is Some {
        m.states_error(window)
    } else if scored(window.len() as int) == 0 {
        None
    } else {
        match m.lm_head.fault(m.width()) {
            Some(f) => Some(ErrorView::Shape(f)),
            None => None,
        }
    }
}

/// The first error among the windows from `w` on.
pub open spec fn windows_error(m: ModelView, tokens: Seq<u32>, context: int, w: int) -> Option<
    ErrorView,
>
    decreases windows(tokens, context) - w,
{
    if w >= windows(tokens, context) {
        None
    } else if window_error(m, window_of(tokens, context, w)) is Some {
        window_error(m, window_of(tokens, context, w))
    } else {
        windows_error(m, tokens, context, w + 1)
    }
}

/// Why perplexity cannot be evaluated.
pub open spec fn ppl_error(m: ModelView, tokens: Seq<u32>, context: usize) -> Option<ErrorView> {
    if tokens.len() < 3 {
        Some(ErrorView::Model(ModelErrorOf::TooFewTokens { len: tokens.len() as usize }))
    } else if context < 3 {
        Some(ErrorView::Model(ModelErrorOf::ContextTooShort { context }))
    } else if context > m.config.max_seq_len {
        Some(
            ErrorView::Model(
                ModelErrorOf::ContextTooLong { context, max_seq_len: m.config.max_seq_len },
            ),
        )
    } else {
        windows_error(m, tokens, context as int, 0)
    }
}

/// The mean negative log-likelihood over all windows.
pub open spec fn mean_nll_of<A: Arith>(m: ModelView, tokens: Seq<u32>, context: int) -> u64 {
    let w = windows(tokens, context);
    arith::div64_of::<A>(
        nll_upto::<A>(m, tokens, context, w),
        arith::count64_of::<A>(scored_upto(tokens, context, w) as usize),
    )
}

/// The perplexity over the first `w` windows.
pub open spec fn cumulative_of<A: Arith>(m: ModelView, tokens: Seq<u32>, context: int, w: int) -> u64 {
    arith::exp64_of::<A>(
        arith::div64_of::<A>(
            nll_upto::<A>(m, tokens, context, w),
            arith::count64_of::<A>(scored_upto(tokens, context, w) as usize),
        ),
    )
}

/// Whether the windows are gone through at all.
pub open spec fn goes_through(m: ModelView, tokens: Seq<u32>, context: usize) -> bool {
    tokens.len() >= 3 && 3 <= context <= m.config.max_seq_len
}

/// Whether the windows up to and with window `w` can be scored.
pub open spec fn scored_through(m: ModelView, tokens: Seq<u32>, context: int, w: int) -> bool {
    forall|k: int|
        0 <= k <= w ==> window_error(m, #[trigger] window_of(tokens, context, k)) is None
}

/// Whether every token that is scored has a logit.
pub open spec fn targets_have_logits(m: ModelView, tokens: Seq<u32>, context: usize) -> bool {
    goes_through(m, tokens, context) ==> forall|w: int, t: int|
        0 <= w < windows(tokens, context as int) && scored_through(m, tokens, context as int, w)
            && 2 <= t < window_of(tokens, context as int, w).len() ==> (#[trigger] window_of(
            tokens,
            context as int,
            w,
        )[t]) < m.lm_head.rows()
}

/// Whether a callback was told that window `w` is done: how many are done, how
/// many there are, and the perplexity so far.
pub open spec fn told<A: Arith, F: FnMut(usize, usize, u64)>(
    f: F,
    m: ModelView,
    tokens: Seq<u32>,
    context: int,
    w: int,
) -> bool {
    let done = (w + 1) as usize;
    let total = windows(tokens, context) as usize;
    &&& exists|ppl: u64| #[trigger] call_ensures(f, (done, total, ppl), ())
    &&& arith::deterministic::<A>() ==> call_ensures(
        f,
        (done, total, cumulative_of::<A>(m, tokens, context, w + 1)),
        (),
    )
}

/// Whether a report is due: that `done` of the `total` windows are done, and that
/// these can be scored, with the perplexity so far.
pub open spec fn due<A: Arith>(
    m: ModelView,
    tokens: Seq<u32>,
    context: usize,
    done: usize,
    total: usize,
    ppl: u64,
) -> bool {
    &&& goes_through(m, tokens, context)
    &&& 1 <= done <= windows(tokens, context as int)
    &&& total == windows(tokens, context as int)
    &&& scored_through(m, tokens, context as int, done - 1)
    &&& arith::deterministic::<A>() ==> ppl == cumulative_of::<A>(
        m,
        tokens,
        context as int,
        done as int,
    )
}

/// Window `w` starts within the tokens, and the last one ends with them.
pub(crate) proof fn lemma_windows(tokens: Seq<u32>, context: int, w: int)
    requires
        context >= 1,
        0 <= w < windows(tokens, context),
    ensures
        0 <= w * context < tokens.len(),
        (w + 1) * context == w * context + context,
        w + 1 == windows(tokens, context) <==> (w + 1) * context >= tokens.len(),
        windows(tokens, context) <= tokens.len(),
{
    let n = tokens.len() as int;
    let total = windows(tokens, context);
    vstd::arithmetic::div_mod::lemma_fundamental_div_mod(n + context - 1, context);
    let r = (n + context - 1) % context;
    assert(0 <= w * context < n) by (nonlinear_arith)
        requires
            n + context - 1 == context * total + r,
            0 <= r < context,
            0 <= w < total,
    ;
    assert((w + 1) * context == w * context + context) by (nonlinear_arith);
    assert(w + 1 == total <==> (w + 1) * context >= n) by (nonlinear_arith)
        requires
            n + context - 1 == context * total + r,
            0 <= r < context,
            0 <= w < total,
    ;
    assert(total <= n) by (nonlinear_arith)
        requires
            n + context - 1 == context * total + r,
            0 <= r < context,
            context >= 1,
            n >= 0,
            0 < total,
            w * context < n,
            0 <= w,
    ;
}

/// No more positions are scored than there are tokens.
pub(crate) proof fn lemma_scored_bound(tokens: Seq<u32>, context: int, w: int)
    requires
        context >= 1,
        0 <= w <= windows(tokens, context),
    ensures
        0 <= scored_upto(tokens, context, w) <= window_start(tokens, context, w) <= tokens.len(),
    decreases w,
{
    if w > 0 {
        lemma_scored_bound(tokens, context, w - 1);
        lemma_windows(tokens, context, w - 1);
    } else {
        assert(0 * context == 0);
    }
}

/// A sequence of at least three tokens in windows of at least three has a
/// position to score.
pub proof fn law_something_is_scored(tokens: Seq<u32>, context: int, w: int)
    requires
        tokens.len() >= 3,
        context >= 3,
        1 <= w,
    ensures
        scored_upto(tokens, context, w) >= 1,
    decreases w,
{
    if w == 1 {
        assert(0 * context == 0 && 1 * context == context);
        assert(scored_upto(tokens, context, 0) == 0);
    } else {
        law_something_is_scored(tokens, context, w - 1);
    }
}

/// Every full window scores `context - 2` positions.
proof fn lemma_full_windows(tokens: Seq<u32>, context: int, w: int)
    requires
        context >= 2,
        0 <= w,
        w * context <= tokens.len(),
    ensures
        scored_upto(tokens, context, w) == w * (context - 2),
    decreases w,
{
    if w > 0 {
        assert(w * context == (w - 1) * context + context) by (nonlinear_arith);
        assert(w * (context - 2) == (w - 1) * (context - 2) + (context - 2)) by (nonlinear_arith);
        lemma_full_windows(tokens, context, w - 1);
    } else {
        assert(0 * (context - 2) == 0);
    }
}

/// All windows together score `context - 2` positions per full window, and two
/// fewer than its tokens for the last one if it is not full.
pub proof fn law_scored_positions(tokens: Seq<u32>, context: int)
    requires
        context >= 2,
    ensures
        scored_upto(tokens, context, windows(tokens, context)) == tokens.len() as int / context * (
        context - 2) + scored(tokens.len() as int % context),
{
    let n = tokens.len() as int;
    let full = n / context;
    let rest = n % context;
    vstd::arithmetic::div_mod::lemma_fundamental_div_mod(n, context);
    assert(full * context == context * full) by (nonlinear_arith);
    lemma_full_windows(tokens, context, full);
    if rest == 0 {
        vstd::arithmetic::div_mod::lemma_fundamental_div_mod_converse(
            n + context - 1,
            context,
            full,
            context - 1,
        );
    } else {
        assert(n + context - 1 == context * (full + 1) + (rest - 1)) by (nonlinear_arith)
            requires
                n == context * full + rest,
        ;
        assert((full + 1) * context == context * (full + 1)) by (nonlinear_arith);
        vstd::arithmetic::div_mod::lemma_fundamental_div_mod_converse(
            n + context - 1,
            context,
            full + 1,
            rest - 1,
        );
        assert((full + 1) * context == full * context + context) by (nonlinear_arith);
        assert(window_of(tokens, context, full).len() == rest);
    }
}

/// Whether a window's tokens all have an embedding.
fn all_embedded(model: &Model, window: &[u32]) -> (r: bool)
    requires
        model@.embed.shape.len() == 2,
    ensures
        r == (model@.first_row_fault(window@, 0) is None),
{
    let rows: usize = model.embed.shape[0];
    let mut i: usize = window.len();
    while i > 0
        invariant
            i <= window@.len(),
            rows == model@.embed.shape[0],
            model@.embed.shape.len() == 2,
            model@.first_row_fault(window@, i as int) is None,
        decreases i,
    {
        i -= 1;
        if window[i] as usize >= rows {
            proof {
                lemma_row_fault_kept(model@, window@, i as int);
            }
            return false;
        }
    }
    true
}

/// A token without an embedding is found from any earlier one.
proof fn lemma_row_fault_kept(m: ModelView, window: Seq<u32>, i: int)
    requires
        0 <= i < window.len(),
        m.first_row_fault(window, i) is Some,
    ensures
        m.first_row_fault(window, 0) is Some,
    decreases i,
{
    if i > 0 {
        lemma_row_fault_kept(m, window, i - 1);
    }
}

/// Whether every token that would be scored has a logit. What is read from a file
/// need not have one.
pub fn can_score(model: &Model, tokens: &[u32], context: usize) -> (r: bool)
    requires
        goes_through(model@, tokens@, context) ==> model@.runs(),
    ensures
        r == targets_have_logits(model@, tokens@, context),
{
    let ghost m = model@;
    let n: usize = tokens.len();
    if n < 3 || context < 3 || context > model.config.max_seq_len {
        return true;
    }
    let ghost c = context as int;
    proof {
        lemma_first_window(tokens@, c);
    }
    if model.embed.shape.len() != 2 || !model.layers_accept() || !model.head_accepts() {
        // No window can be scored.
        proof {
            assert(window_error(m, window_of(tokens@, c, 0)) is Some);
            assert forall|w: int| 0 <= w implies !scored_through(m, tokens@, c, w) by {
                assert(window_error(m, window_of(tokens@, c, 0)) is Some);
            }
        }
        return true;
    }
    let rows: usize = model.logit_count();
    let mut start: usize = 0;
    let ghost mut w: int = 0;
    assert(0 * c == 0);
    while start < n
        invariant
            start <= n == tokens@.len(),
            m == model@,
            c == context,
            3 <= context <= m.config.max_seq_len,
            n >= 3,
            m.embed.shape.len() == 2,
            m.layers_fault(m.depth()) is None,
            m.lm_head.fault(m.width()) is None,
            rows == m.lm_head.rows(),
            0 <= w <= windows(tokens@, c),
            start < n ==> w < windows(tokens@, c),
            start == n ==> w == windows(tokens@, c),
            start == window_start(tokens@, c, w),
            forall|k: int, t: int|
                0 <= k < w && 2 <= t < window_of(tokens@, c, k).len() ==> (#[trigger] window_of(
                    tokens@,
                    c,
                    k,
                )[t]) < m.lm_head.rows(),
            forall|k: int|
                0 <= k < w ==> window_error(m, #[trigger] window_of(tokens@, c, k)) is None,
        decreases n - start,
    {
        proof {
            lemma_windows(tokens@, c, w);
        }
        let end: usize = if n - start > context {
            start + context
        } else {
            n
        };
        let window = slice_subrange(tokens, start, end);
        assert(window@ == window_of(tokens@, c, w));
        if !all_embedded(model, window) {
            proof {
                assert(window_error(m, window_of(tokens@, c, w)) is Some);
                assert forall|k: int, t: int|
                    0 <= k < windows(tokens@, c) && scored_through(m, tokens@, c, k) && 2 <= t
                        < window_of(tokens@, c, k).len() implies (#[trigger] window_of(
                    tokens@,
                    c,
                    k,
                )[t]) < m.lm_head.rows() by {
                    if k >= w {
                        assert(window_error(m, window_of(tokens@, c, w)) is Some);
                    }
                }
            }
            return true;
        }
        assert(window_error(m, window_of(tokens@, c, w)) is None);
        let mut t: usize = 2;
        while t < window.len()
            invariant
                2 <= t,
                m == model@,
                c == context,
                n == tokens@.len() >= 3,
                3 <= context <= m.config.max_seq_len,
                rows == m.lm_head.rows(),
                0 <= w < windows(tokens@, c),
                window@ == window_of(tokens@, c, w),
                scored_through(m, tokens@, c, w),
                forall|s: int| 2 <= s < t && s < window@.len() ==> #[trigger] window@[s] < rows,
            decreases window@.len() - t,
        {
            if window[t] as usize >= rows {
                assert(window_of(tokens@, c, w)[t as int] >= m.lm_head.rows());
                return false;
            }
            t += 1;
        }
        start = end;
        proof {
            w = w + 1;
        }
    }
    true
}

/// The first window is not empty.
proof fn lemma_first_window(tokens: Seq<u32>, context: int)
    requires
        tokens.len() >= 3,
        context >= 3,
    ensures
        window_of(tokens, context, 0).len() >= 3,
        windows(tokens, context) >= 1,
{
    assert(0 * context == 0 && 1 * context == context);
    let n = tokens.len() + context - 1;
    assert(n / context >= 1) by (nonlinear_arith)
        requires
            n >= context,
            context > 0,
    ;
}

/// Evaluates perplexity of `tokens` under `model`.
///
/// `on_window(done, total, cumulative_ppl)` is invoked after each window for
/// progress reporting, and for no other window; where the input is refused it is
/// not invoked. Logits are produced one position at a time and
/// accumulated immediately in double precision: nothing larger than a single
/// logits vector is ever held.
pub fn eval_ppl<A: Arith, F: FnMut(usize, usize, u64)>(
    model: &Model,
    tokens: &[u32],
    context: usize,
    on_window: F,
) -> (r: Result<PplResult, MinqError>)
    requires
        goes_through(model@, tokens@, context) ==> model@.runs(),
        targets_have_logits(model@, tokens@, context),
        forall|done: usize, total: usize, ppl: u64|
            due::<A>(model@, tokens@, context, done, total, ppl) ==> #[trigger] call_requires(
                on_window,
                (done, total, ppl),
            ),
    ensures
        goes_through(model@, tokens@, context) ==> forall|w: int|
            0 <= w < windows(tokens@, context as int) && #[trigger] scored_through(
                model@,
                tokens@,
                context as int,
                w,
            ) ==> told::<A, F>(on_window, model@, tokens@, context as int, w),
        match ppl_error(model@, tokens@, context) {
            Some(e) => r is Err && r->Err_0@ == e,
            None => {
                &&& r is Ok
                &&& r->Ok_0.total_tokens == tokens@.len()
                &&& r->Ok_0.scored_positions == scored_upto(
                    tokens@,
                    context as int,
                    windows(tokens@, context as int),
                )
                &&& arith::deterministic::<A>() ==> {
                    &&& r->Ok_0.mean_nll == mean_nll_of::<A>(model@, tokens@, context as int)
                    &&& r->Ok_0.ppl == arith::exp64_of::<A>(r->Ok_0.mean_nll)
                    &&& r->Ok_0.ppl == cumulative_of::<A>(
                        model@,
                        tokens@,
                        context as int,
                        windows(tokens@, context as int),
                    )
                }
            },
        },
{
    let ghost m = model@;
    let mut report = on_window;
    let n: usize = tokens.len();
    if n < 3 {
        return Err(MinqError::Model(ModelErrorOf::TooFewTokens { len: n }));
    }
    if context < 3 {
        return Err(MinqError::Model(ModelErrorOf::ContextTooShort { context }));
    }
    if context > model.config.max_seq_len {
        return Err(
            MinqError::Model(
                ModelErrorOf::ContextTooLong { context, max_seq_len: model.config.max_seq_len },
            ),
        );
    }
    let ghost c = context as int;
    let total: usize = (n - 1) / context + 1;
    proof {
        vstd::arithmetic::div_mod::lemma_fundamental_div_mod(n - 1, c);
        let d = (n - 1) / c;
        assert(n + c - 1 == c * (d + 1) + (n - 1) % c) by (nonlinear_arith)
            requires
                n - 1 == c * d + (n - 1) % c,
        ;
        assert((d + 1) * c == c * (d + 1)) by (nonlinear_arith);
        vstd::arithmetic::div_mod::lemma_fundamental_div_mod_converse(
            n + c - 1,
            c,
            d + 1,
            (n - 1) % c,
        );
        assert(total == windows(tokens@, c));
    }
    let mut nll_sum: u64 = ZERO_64;
    let mut count: usize = 0;
    let mut start: usize = 0;
    let mut w: usize = 0;
    assert(0 * c == 0);
    while w < total
        invariant
            w <= total == windows(tokens@, c),
            c == context,
            n == tokens@.len() >= 3,
            m == model@,
            m.runs(),
            3 <= context <= m.config.max_seq_len,
            targets_have_logits(m, tokens@, context),
            report == on_window,
            forall|done: usize, total: usize, ppl: u64|
                due::<A>(m, tokens@, context, done, total, ppl) ==> #[trigger] call_requires(
                    on_window,
                    (done, total, ppl),
                ),
            forall|k: int|
                0 <= k < w ==> window_error(m, #[trigger] window_of(tokens@, c, k)) is None,
            forall|k: int| 0 <= k < w ==> #[trigger] told::<A, F>(on_window, m, tokens@, c, k),
            start == window_start(tokens@, c, w as int),
            count == scored_upto(tokens@, c, w as int),
            windows_error(m, tokens@, c, 0) == windows_error(m, tokens@, c, w as int),
            arith::deterministic::<A>() ==> nll_sum == nll_upto::<A>(m, tokens@, c, w as int),
        decreases total - w,
    {
        proof {
            lemma_windows(tokens@, c, w as int);
            lemma_scored_bound(tokens@, c, w + 1);
        }
        let end: usize = if n - start > context {
            start + context
        } else {
            n
        };
        let window = slice_subrange(tokens, start, end);
        assert(window@ == window_of(tokens@, c, w as int));
        proof {
            if window_error(m, window@) is None {
                assert(scored_through(m, tokens@, c, w as int));
                assert forall|t: int| 2 <= t < window@.len() implies #[trigger] window@[t]
                    < m.lm_head.rows() by {
                    assert(window_of(tokens@, c, w as int)[t] < m.lm_head.rows());
                }
            }
        }
        match score_window::<A>(model, window, nll_sum) {
            Err(e) => {
                proof {
                    assert forall|k: int|
                        0 <= k < total && #[trigger] scored_through(m, tokens@, c, k) implies told::<
                        A,
                        F,
                    >(on_window, m, tokens@, c, k) by {
                        if k >= w {
                            assert(window_error(m, window_of(tokens@, c, w as int)) is Some);
                        }
                    }
                }
                return Err(e);
            },
            Ok(sum) => {
                nll_sum = sum;
            },
        }
        if end - start >= 2 {
            count += end - start - 2;
        }
        let cumulative: u64 = if count > 0 {
            A::exp64(A::div64(nll_sum, A::count64(count)))
        } else {
            NAN_64
        };
        proof {
            law_something_is_scored(tokens@, c, w + 1);
        }
        start = end;
        w += 1;
        assert(due::<A>(m, tokens@, context, w, total, cumulative));
        report(w, total, cumulative);
        assert(told::<A, F>(on_window, m, tokens@, c, w - 1));
    }
    proof {
        law_something_is_scored(tokens@, c, total as int);
    }
    if count == 0 {
        return Err(MinqError::Model(ModelErrorOf::NothingScored));
    }
    let mean_nll: u64 = A::div64(nll_sum, A::count64(count));
    Ok(
        PplResult {
            total_tokens: n,
            scored_positions: count,
            mean_nll,
            ppl: A::exp64(mean_nll),
        },
    )
}

/// Adds the negative log-likelihoods of a window's positions, without the first
/// (no left context) and the last (its target lies outside the window).
fn score_window<A: Arith>(model: &Model, window: &[u32], sum: u64) -> (r: Result<u64, MinqError>)
    requires
        model@.runs(),
        0 < window@.len() <= model@.config.max_seq_len,
        window_error(model@, window@) is None ==> forall|t: int|
            2 <= t < window@.len() ==> #[trigger] window@[t] < model@.lm_head.rows(),
    ensures
        match window_error(model@, window@) {
            Some(e) => r is Err && r->Err_0@ == e,
            None => {
                &&& r is Ok
                &&& arith::deterministic::<A>() ==> r->Ok_0 == window_nll::<A>(
                    model@,
                    window@,
                    sum,
                    window@.len() - 1,
                )
            },
        },
{
    let ghost m = model@;
    let states = match model.forward_full_states::<A>(window) {
        Err(e) => {
            return Err(e);
        },
        Ok(s) => s,
    };
    proof {
        crate::causality::lemma_first_row_fault(m, window@, 0);
    }
    let mut nll_sum: u64 = sum;
    let mut t: usize = 1;
    while t + 1 < window.len()
        invariant
            1 <= t,
            window@.len() > 1 ==> t <= window@.len() - 1,
            window@.len() <= 1 ==> t == 1,
            m == model@,
            m.runs(),
            m.embed.shape.len() == 2,
            m.states_error(window@) is None,
            t > 1 ==> m.lm_head.fault(m.width()) is None,
            window_error(m, window@) is None ==> forall|t: int|
                2 <= t < window@.len() ==> #[trigger] window@[t] < m.lm_head.rows(),
            states@.len() == window@.len(),
            forall|s: int| 0 <= s < window@.len() ==> (#[trigger] states@[s])@.len() == m.width(),
            arith::deterministic::<A>() ==> forall|s: int|
                0 <= s < window@.len() ==> (#[trigger] states@[s])@ == m.hidden::<A>(
                    window@,
                    m.depth(),
                    s,
                ),
            arith::deterministic::<A>() ==> nll_sum == window_nll::<A>(m, window@, sum, t as int),
        decreases window@.len() - t,
    {
        assert(states@[t as int]@.len() == m.width());
        let xn = tensor::rmsnorm::<A>(&states[t], &model.final_norm, model.config.rms_norm_eps);
        let logits = match model.lm_head.matvec::<A>(&xn) {
            Err(e) => {
                return Err(e);
            },
            Ok(l) => l,
        };
        assert(window@[t + 1] < m.lm_head.rows());
        nll_sum = A::add64(nll_sum, nll::<A>(&logits, window[t + 1]));
        t += 1;
    }
    Ok(nll_sum)
}

} // verus!
