//! Laws of the forward pass: decoding with a cache, in any number of goes,
//! gives what one causal sweep over all tokens gives.

use vstd::prelude::*;

use crate::arith::Arith;
use crate::model;
use crate::model::{KVCacheView, LayerCacheView, ModelView};

verus! {

proof fn lemma_first_error(m: ModelView, tokens: Seq<u32>, start: int, i: int)
    requires
        0 <= i,
    ensures
        m.first_error(tokens, start, i) is None <==> forall|j: int|
            i <= j < tokens.len() ==> m.token_error(#[trigger] tokens[j], start + j) is None,
    decreases tokens.len() - i,
{
    if i < tokens.len() {
        lemma_first_error(m, tokens, start, i + 1);
        if m.token_error(tokens[i], start + i) is None {
            if m.first_error(tokens, start, i + 1) is None {
                assert forall|j: int| i <= j < tokens.len() implies m.token_error(
                    #[trigger] tokens[j],
                    start + j,
                ) is None by {
                    if j > i {
                    }
                }
            }
        }
    }
}

pub(crate) proof fn lemma_first_row_fault(m: ModelView, tokens: Seq<u32>, i: int)
    requires
        0 <= i,
    ensures
        m.first_row_fault(tokens, i) is None <==> forall|j: int|
            i <= j < tokens.len() ==> m.row_fault(#[trigger] tokens[j]) is None,
    decreases tokens.len() - i,
{
    if i < tokens.len() {
        lemma_first_row_fault(m, tokens, i + 1);
        if m.row_fault(tokens[i]) is None && m.first_row_fault(tokens, i + 1) is None {
            assert forall|j: int| i <= j < tokens.len() implies m.row_fault(
                #[trigger] tokens[j],
            ) is None by {
                if j > i {
                }
            }
        }
    }
}

/// Tokens can be forwarded into an empty cache exactly if they can be computed
/// in one sweep.
pub proof fn law_same_success(m: ModelView, tokens: Seq<u32>)
    ensures
        m.forward_error(tokens, 0) is None <==> m.full_error(tokens) is None,
{
    if tokens.len() > 0 {
        lemma_first_error(m, tokens, 0, 0);
        lemma_first_row_fault(m, tokens, 0);
        let n = tokens.len() as int;
        if m.forward_error(tokens, 0) is None {
            assert(m.token_error(tokens[n - 1], 0 + (n - 1)) is None);
            assert forall|j: int| 0 <= j < tokens.len() implies m.row_fault(
                #[trigger] tokens[j],
            ) is None by {
                assert(m.token_error(tokens[j], 0 + j) is None);
            }
        }
        if m.full_error(tokens) is None {
            assert forall|j: int| 0 <= j < tokens.len() implies m.token_error(
                #[trigger] tokens[j],
                0 + j,
            ) is None by {
                assert(m.row_fault(tokens[j]) is None);
            }
        }
    }
}

/// Whether the histories are those of the first `t` tokens.
pub open spec fn remembers<A: Arith>(
    m: ModelView,
    tokens: Seq<u32>,
    caches: Seq<LayerCacheView>,
    t: int,
) -> bool {
    &&& m.depth() <= caches.len()
    &&& forall|l: int|
        0 <= l < m.depth() ==> #[trigger] caches[l] == (LayerCacheView {
            k: m.keys::<A>(tokens, l, t),
            v: m.values::<A>(tokens, l, t),
        })
}

proof fn lemma_through<A: Arith>(
    m: ModelView,
    tokens: Seq<u32>,
    caches: Seq<LayerCacheView>,
    t: int,
    n: int,
)
    requires
        0 <= t < tokens.len(),
        0 <= n <= m.depth(),
        remembers::<A>(m, tokens, caches, t),
    ensures
        ({
            let (x, after) = m.through::<A>(m.embedding(tokens[t]), t, caches, n);
            &&& x == m.hidden::<A>(tokens, n, t)
            &&& after.len() == caches.len()
            &&& forall|l: int|
                0 <= l < n ==> #[trigger] after[l] == (LayerCacheView {
                    k: m.keys::<A>(tokens, l, t + 1),
                    v: m.values::<A>(tokens, l, t + 1),
                })
            &&& forall|l: int| n <= l < caches.len() ==> #[trigger] after[l] == caches[l]
        }),
    decreases n,
{
    if n > 0 {
        lemma_through::<A>(m, tokens, caches, t, n - 1);
        let (y, done) = m.through::<A>(m.embedding(tokens[t]), t, caches, n - 1);
        assert(done[n - 1] == caches[n - 1]);
        let history = m.extended::<A>(n - 1, y, t, done[n - 1]);
        assert(history.k == m.keys::<A>(tokens, n - 1, t + 1));
        assert(history.v == m.values::<A>(tokens, n - 1, t + 1));
    }
}

proof fn lemma_forwarded<A: Arith>(
    m: ModelView,
    tokens: Seq<u32>,
    i: int,
    logits: Seq<u32>,
    cache: KVCacheView,
)
    requires
        0 <= i <= tokens.len(),
        cache.len == i,
        m.first_error(tokens, 0, i) is None,
        remembers::<A>(m, tokens, cache.layers, i),
    ensures
        remembers::<A>(
            m,
            tokens,
            m.forwarded_from::<A>(tokens, i, logits, cache).1.layers,
            tokens.len() as int,
        ),
        m.forwarded_from::<A>(tokens, i, logits, cache).1.len == tokens.len(),
        i < tokens.len() ==> m.forwarded_from::<A>(tokens, i, logits, cache).0 == m.logits::<A>(
            m.hidden::<A>(tokens, m.depth(), tokens.len() - 1),
        ),
    decreases tokens.len() - i,
{
    if i < tokens.len() {
        lemma_through::<A>(m, tokens, cache.layers, i, m.depth());
        let layers = m.histories::<A>(tokens[i], i, cache.layers);
        let next = m.token_logits::<A>(tokens[i], i, cache.layers);
        let after = KVCacheView { layers, len: (cache.len + 1) as usize };
        lemma_forwarded::<A>(m, tokens, i + 1, next, after);
        if i + 1 == tokens.len() {
            assert(m.forwarded_from::<A>(tokens, i + 1, next, after) == (next, after));
        }
    }
}

/// Incremental decoding from an empty cache gives the same logits as one causal
/// sweep over all tokens, and the cache then holds the keys and values of that
/// sweep.
pub proof fn law_cache_matches_full<A: Arith>(m: ModelView, tokens: Seq<u32>, layers: int)
    requires
        m.depth() <= layers,
        m.full_error(tokens) is None,
    ensures
        m.forwarded::<A>(tokens, model::empty_cache(layers)).0 == m.logits::<A>(
            m.hidden::<A>(tokens, m.depth(), tokens.len() - 1),
        ),
        remembers::<A>(
            m,
            tokens,
            m.forwarded::<A>(tokens, model::empty_cache(layers)).1.layers,
            tokens.len() as int,
        ),
{
    law_same_success(m, tokens);
    let cache = model::empty_cache(layers);
    assert forall|l: int| 0 <= l < m.depth() implies #[trigger] cache.layers[l] == (
    LayerCacheView { k: m.keys::<A>(tokens, l, 0), v: m.values::<A>(tokens, l, 0) }) by {
        assert(cache.layers[l] == model::no_history());
    }
    lemma_forwarded::<A>(m, tokens, 0, Seq::empty(), cache);
}

proof fn lemma_forwarded_rest<A: Arith>(
    m: ModelView,
    first: Seq<u32>,
    then: Seq<u32>,
    j: int,
    logits: Seq<u32>,
    cache: KVCacheView,
)
    requires
        0 <= j <= then.len(),
    ensures
        m.forwarded_from::<A>(first + then, first.len() + j, logits, cache) == m.forwarded_from::<A>(
            then,
            j,
            logits,
            cache,
        ),
    decreases then.len() - j,
{
    if j < then.len() && cache.len < m.config.max_seq_len {
        let pos = cache.len as int;
        let token = then[j];
        assert((first + then)[first.len() + j] == token);
        if m.token_fault(token) is None {
            lemma_forwarded_rest::<A>(
                m,
                first,
                then,
                j + 1,
                m.token_logits::<A>(token, pos, cache.layers),
                KVCacheView {
                    layers: m.histories::<A>(token, pos, cache.layers),
                    len: (cache.len + 1) as usize,
                },
            );
        }
    }
}

proof fn lemma_forwarded_split<A: Arith>(
    m: ModelView,
    first: Seq<u32>,
    then: Seq<u32>,
    i: int,
    logits: Seq<u32>,
    cache: KVCacheView,
    start: int,
)
    requires
        0 <= i <= first.len(),
        cache.len == start + i,
        m.first_error(first, start, i) is None,
    ensures
        ({
            let (lg, c) = m.forwarded_from::<A>(first, i, logits, cache);
            &&& c.len == start + first.len()
            &&& m.forwarded_from::<A>(first + then, i, logits, cache) == m.forwarded_from::<A>(
                then,
                0,
                lg,
                c,
            )
            &&& m.first_error(first + then, start, i) == m.first_error(
                then,
                start + first.len(),
                0,
            )
        }),
    decreases first.len() - i,
{
    if i < first.len() {
        let token = first[i];
        let pos = cache.len as int;
        assert((first + then)[i] == token);
        assert(m.token_error(token, start + i) is None);
        lemma_forwarded_split::<A>(
            m,
            first,
            then,
            i + 1,
            m.token_logits::<A>(token, pos, cache.layers),
            KVCacheView {
                layers: m.histories::<A>(token, pos, cache.layers),
                len: (cache.len + 1) as usize,
            },
            start,
        );
    } else {
        lemma_forwarded_rest::<A>(m, first, then, 0, logits, cache);
        lemma_first_error_rest(m, first, then, start, 0);
    }
}

proof fn lemma_first_error_rest(m: ModelView, first: Seq<u32>, then: Seq<u32>, start: int, j: int)
    requires
        0 <= j <= then.len(),
    ensures
        m.first_error(first + then, start, first.len() + j) == m.first_error(
            then,
            start + first.len(),
            j,
        ),
    decreases then.len() - j,
{
    if j < then.len() {
        assert((first + then)[first.len() + j] == then[j]);
        lemma_first_error_rest(m, first, then, start, j + 1);
    }
}

/// Forwarding tokens in two goes (a prefill and then a decode) gives the same
/// logits, the same cache and the same error as forwarding them in one.
pub proof fn law_prefill_then_decode<A: Arith>(
    m: ModelView,
    first: Seq<u32>,
    then: Seq<u32>,
    cache: KVCacheView,
)
    requires
        m.forward_error(first, cache.len as int) is None,
        then.len() > 0,
    ensures
        m.forward_error(first + then, cache.len as int) == m.forward_error(
            then,
            m.forwarded::<A>(first, cache).1.len as int,
        ),
        m.forward_error(first + then, cache.len as int) is None ==> m.forwarded::<A>(
            first + then,
            cache,
        ) == m.forwarded::<A>(then, m.forwarded::<A>(first, cache).1),
        m.forwarded::<A>(first + then, cache).1 == m.forwarded::<A>(
            then,
            m.forwarded::<A>(first, cache).1,
        ).1,
{
    lemma_forwarded_split::<A>(m, first, then, 0, Seq::empty(), cache, cache.len as int);
    let (lg, c) = m.forwarded::<A>(first, cache);
    lemma_logits_irrelevant::<A>(m, then, 0, lg, Seq::empty(), c);
}

proof fn lemma_logits_irrelevant<A: Arith>(
    m: ModelView,
    tokens: Seq<u32>,
    i: int,
    a: Seq<u32>,
    b: Seq<u32>,
    cache: KVCacheView,
)
    requires
        0 <= i < tokens.len(),
    ensures
        m.forwarded_from::<A>(tokens, i, a, cache).1 == m.forwarded_from::<A>(
            tokens,
            i,
            b,
            cache,
        ).1,
        m.token_error(tokens[i], cache.len as int) is None ==> m.forwarded_from::<A>(
            tokens,
            i,
            a,
            cache,
        ) == m.forwarded_from::<A>(tokens, i, b, cache),
{
}

proof fn lemma_same_prefix<A: Arith>(m: ModelView, a: Seq<u32>, b: Seq<u32>, l: int, t: int)
    requires
        0 <= l,
        0 <= t < a.len(),
        t < b.len(),
        forall|s: int| 0 <= s <= t ==> a[s] == b[s],
    ensures
        m.hidden::<A>(a, l, t) == m.hidden::<A>(b, l, t),
    decreases l, 0int, 0int,
{
    if l > 0 {
        lemma_same_prefix::<A>(m, a, b, l - 1, t);
        lemma_same_keys::<A>(m, a, b, l - 1, t + 1);
    }
}

proof fn lemma_same_keys<A: Arith>(m: ModelView, a: Seq<u32>, b: Seq<u32>, l: int, n: int)
    requires
        0 <= l,
        0 <= n <= a.len(),
        n <= b.len(),
        forall|s: int| 0 <= s < n ==> a[s] == b[s],
    ensures
        m.keys::<A>(a, l, n) == m.keys::<A>(b, l, n),
        m.values::<A>(a, l, n) == m.values::<A>(b, l, n),
    decreases l, 1int, n,
{
    if n > 0 {
        lemma_same_keys::<A>(m, a, b, l, n - 1);
        lemma_same_prefix::<A>(m, a, b, l, n - 1);
    }
}

/// The sweep is causal: the hidden state of a position depends on no later
/// token.
pub proof fn law_causal<A: Arith>(m: ModelView, a: Seq<u32>, b: Seq<u32>, l: int, t: int)
    requires
        0 <= l <= m.depth(),
        0 <= t < a.len(),
        t < b.len(),
        forall|s: int| 0 <= s <= t ==> a[s] == b[s],
    ensures
        m.hidden::<A>(a, l, t) == m.hidden::<A>(b, l, t),
{
    lemma_same_prefix::<A>(m, a, b, l, t);
}

} // verus!
