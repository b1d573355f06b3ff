//! Single-query attention over a key/value history.

use vstd::prelude::*;
use vstd::slice::slice_subrange;

use crate::arith;
use crate::arith::Arith;
use crate::bits;
use crate::config::{Heads, ModelConfig};
use crate::tensor;

verus! {

/// Each head of `x` normalized on its own, with one gain for all heads.
pub open spec fn per_head_norm_of<A: Arith>(
    x: Seq<u32>,
    weight: Seq<u32>,
    eps: u32,
    head_dim: int,
) -> Seq<u32> {
    Seq::new(x.len(), |j: int| per_head_norm_at::<A>(x, weight, eps, head_dim, j))
}

/// Element `j` of the heads normalized each on its own.
pub open spec fn per_head_norm_at<A: Arith>(
    x: Seq<u32>,
    weight: Seq<u32>,
    eps: u32,
    head_dim: int,
    j: int,
) -> u32 {
    let n = j / head_dim;
    tensor::rmsnorm_of::<A>(x.subrange(n * head_dim, n * head_dim + head_dim), weight, eps)[j
        % head_dim]
}

/// Head `n` of `heads` lies within them.
pub proof fn lemma_head_within(n: int, heads: int, head_dim: int)
    requires
        0 <= n < heads,
        0 <= head_dim,
    ensures
        0 <= n * head_dim,
        n * head_dim + head_dim <= heads * head_dim,
        (n + 1) * head_dim == n * head_dim + head_dim,
{
    assert(0 <= n * head_dim) by (nonlinear_arith)
        requires
            0 <= n,
            0 <= head_dim,
    ;
    assert(n * head_dim + head_dim <= heads * head_dim) by (nonlinear_arith)
        requires
            n + 1 <= heads,
            0 <= head_dim,
    ;
    assert((n + 1) * head_dim == n * head_dim + head_dim) by (nonlinear_arith);
}

/// Element `i` of head `n` is element `n * head_dim + i` of all heads.
pub proof fn lemma_head_index(n: int, i: int, head_dim: int)
    requires
        0 <= n,
        0 <= i < head_dim,
    ensures
        (n * head_dim + i) / head_dim == n,
        (n * head_dim + i) % head_dim == i,
{
    vstd::arithmetic::div_mod::lemma_fundamental_div_mod_converse(n * head_dim + i, head_dim, n, i);
}

/// Root-mean-square normalization of each head on its own (Qwen3's q/k-norm),
/// sharing one `head_dim`-sized gain vector.
pub fn apply_per_head_norm<A: Arith>(x: &mut [u32], weight: &[u32], eps: u32, head_dim: usize)
    requires
        head_dim > 0,
        weight@.len() == head_dim,
        old(x)@.len() % (head_dim as nat) == 0,
    ensures
        final(x)@.len() == old(x)@.len(),
        arith::deterministic::<A>() ==> final(x)@ == per_head_norm_of::<A>(
            old(x)@,
            weight@,
            eps,
            head_dim as int,
        ),
{
    let total: usize = x.len();
    let heads: usize = total / head_dim;
    let ghost before = x@;
    let ghost hd = head_dim as int;
    proof {
        vstd::arithmetic::div_mod::lemma_fundamental_div_mod(total as int, hd);
        assert(heads * head_dim == total) by (nonlinear_arith)
            requires
                total == head_dim * heads,
        ;
    }
    let mut n: usize = 0;
    while n < heads
        invariant
            n <= heads,
            heads * head_dim == total == x@.len() == before.len(),
            head_dim > 0,
            hd == head_dim,
            weight@.len() == head_dim,
            forall|j: int| n * head_dim <= j < total ==> x@[j] == before[j],
            arith::deterministic::<A>() ==> forall|j: int|
                0 <= j < n * head_dim ==> x@[j] == #[trigger] per_head_norm_at::<A>(
                    before,
                    weight@,
                    eps,
                    hd,
                    j,
                ),
        decreases heads - n,
    {
        proof {
            lemma_head_within(n as int, heads as int, hd);
        }
        let base: usize = n * head_dim;
        let head = vstd::slice::slice_to_vec(slice_subrange(&*x, base, base + head_dim));
        assert(head@ =~= before.subrange(n * hd, n * hd + hd));
        let normed = tensor::rmsnorm::<A>(&head, weight, eps);
        let mut i: usize = 0;
        while i < head_dim
            invariant
                i <= head_dim == normed@.len(),
                n < heads,
                head_dim > 0,
                hd == head_dim,
                base == n * head_dim,
                base + head_dim <= total == x@.len() == before.len(),
                forall|j: int| base + i <= j < total ==> x@[j] == before[j],
                arith::deterministic::<A>() ==> normed@ == tensor::rmsnorm_of::<A>(
                    before.subrange(n * hd, n * hd + hd),
                    weight@,
                    eps,
                ),
                arith::deterministic::<A>() ==> forall|j: int|
                    0 <= j < base + i ==> x@[j] == #[trigger] per_head_norm_at::<A>(
                        before,
                        weight@,
                        eps,
                        hd,
                        j,
                    ),
            decreases head_dim - i,
        {
            let ghost prev = x@;
            x[base + i] = normed[i];
            proof {
                lemma_head_index(n as int, i as int, hd);
                if arith::deterministic::<A>() {
                    assert forall|j: int| 0 <= j < base + i + 1 implies x@[j]
                        == #[trigger] per_head_norm_at::<A>(before, weight@, eps, hd, j) by {
                        if j < base + i {
                            assert(prev[j] == per_head_norm_at::<A>(before, weight@, eps, hd, j));
                        }
                    }
                }
            }
            i += 1;
        }
        n += 1;
    }
    proof {
        if arith::deterministic::<A>() {
            assert forall|j: int| 0 <= j < total implies x@[j] == per_head_norm_of::<A>(
                before,
                weight@,
                eps,
                hd,
            )[j] by {
                assert(x@[j] == per_head_norm_at::<A>(before, weight@, eps, hd, j));
            }
            assert(x@ =~= per_head_norm_of::<A>(before, weight@, eps, hd));
        }
    }
}

/// The scaled products of one query head with the keys of the first `len`
/// positions, at offset `off` of rows of `kv_dim`.
pub open spec fn scores_of<A: Arith>(
    query: Seq<u32>,
    k: Seq<u32>,
    kv_dim: int,
    off: int,
    len: int,
    scale: u32,
) -> Seq<u32> {
    Seq::new(
        len as nat,
        |t: int|
            arith::mul_of::<A>(
                tensor::dot_of::<A>(
                    query,
                    k.subrange(t * kv_dim + off, t * kv_dim + off + query.len()),
                ),
                scale,
            ),
    )
}

/// The weighted sum, over the first `t` positions, of the values at offset `at`
/// of rows of `kv_dim`.
pub open spec fn mix_upto<A: Arith>(
    weights: Seq<u32>,
    v: Seq<u32>,
    kv_dim: int,
    at: int,
    t: int,
) -> u32
    decreases t,
{
    if t <= 0 {
        bits::ZERO
    } else {
        arith::add_of::<A>(
            mix_upto::<A>(weights, v, kv_dim, at, t - 1),
            arith::mul_of::<A>(weights[t - 1], v[(t - 1) * kv_dim + at]),
        )
    }
}

/// The factor `1 / sqrt(head_dim)` of the scores.
pub open spec fn scale_of<A: Arith>(head_dim: usize) -> u32 {
    arith::div_of::<A>(bits::ONE, arith::sqrt_of::<A>(arith::count_of::<A>(head_dim)))
}

/// The attention weights of query head `h` over the first `len` positions.
/// Query head `h` looks at key/value head `h / group`.
pub open spec fn weights_of<A: Arith>(
    q: Seq<u32>,
    k: Seq<u32>,
    len: int,
    heads: Heads,
    h: int,
) -> Seq<u32> {
    let hd = heads.head_dim as int;
    tensor::softmax_of::<A>(
        scores_of::<A>(
            q.subrange(h * hd, h * hd + hd),
            k,
            heads.kv_dim(),
            h / heads.group() * hd,
            len,
            scale_of::<A>(heads.head_dim),
        ),
    )
}

/// Element `i` of what query head `h` gathers from the first `len` positions.
pub open spec fn attended<A: Arith>(
    q: Seq<u32>,
    k: Seq<u32>,
    v: Seq<u32>,
    len: int,
    heads: Heads,
    h: int,
    i: int,
) -> u32 {
    mix_upto::<A>(
        weights_of::<A>(q, k, len, heads, h),
        v,
        heads.kv_dim(),
        h / heads.group() * heads.head_dim + i,
        len,
    )
}

/// What all query heads gather from the first `len` positions.
pub open spec fn attend_of<A: Arith>(
    q: Seq<u32>,
    k: Seq<u32>,
    v: Seq<u32>,
    len: int,
    heads: Heads,
) -> Seq<u32> {
    let hd = heads.head_dim as int;
    Seq::new(heads.q_dim() as nat, |j: int| attended::<A>(q, k, v, len, heads, j / hd, j % hd))
}

/// The key/value head of query head `h` exists.
pub proof fn lemma_kv_head(heads: Heads, h: int)
    requires
        heads.fit(),
        0 <= h < heads.n_heads,
    ensures
        heads.group() > 0,
        0 <= h / heads.group() < heads.n_kv_heads,
        0 <= h / heads.group() * heads.head_dim,
        h / heads.group() * heads.head_dim + heads.head_dim <= heads.kv_dim(),
{
    let n = heads.n_heads as int;
    let kv = heads.n_kv_heads as int;
    let g = heads.group();
    vstd::arithmetic::div_mod::lemma_fundamental_div_mod(n, kv);
    assert(n == kv * g);
    assert(g > 0) by (nonlinear_arith)
        requires
            n > 0,
            kv > 0,
            n == kv * g,
    ;
    let d = h / g;
    vstd::arithmetic::div_mod::lemma_fundamental_div_mod(h, g);
    assert(0 <= d < kv) by (nonlinear_arith)
        requires
            h == g * d + h % g,
            0 <= h < kv * g,
            0 <= h % g < g,
            g > 0,
    ;
    lemma_head_within(d, kv, heads.head_dim as int);
}

/// Row `t` of `len` rows lies within them.
proof fn lemma_row(t: int, len: int, width: int, off: int, size: int)
    requires
        0 <= t < len,
        0 <= off,
        0 <= size,
        off + size <= width,
    ensures
        0 <= t * width,
        t * width + off + size <= len * width,
{
    lemma_head_within(t, len, width);
}

/// Single-query attention over a contiguous key/value history.
///
/// `q` is `[n_heads * head_dim]`; `k`/`v` start with `len` rows of
/// `[n_kv_heads * head_dim]`. Returns `[n_heads * head_dim]`. Grouped-query
/// attention is handled by mapping query head `h` to key/value head
/// `h / (n_heads / n_kv_heads)`.
pub fn attend<A: Arith>(q: &[u32], k: &[u32], v: &[u32], len: usize, cfg: &ModelConfig) -> (out: Vec<
    u32,
>)
    requires
        cfg.heads().fit(),
        q@.len() >= cfg.heads().q_dim(),
        len * cfg.heads().kv_dim() <= k@.len(),
        len * cfg.heads().kv_dim() <= v@.len(),
    ensures
        out@.len() == cfg.heads().q_dim(),
        arith::deterministic::<A>() ==> out@ == attend_of::<A>(q@, k@, v@, len as int, cfg.heads()),
{
    let hd: usize = cfg.head_dim;
    let n_heads: usize = cfg.n_heads;
    let kv_dim: usize = cfg.n_kv_heads * hd;
    let group: usize = n_heads / cfg.n_kv_heads;
    let scale: u32 = A::div32(bits::ONE, A::sqrt32(A::count32(hd)));
    let mut out: Vec<u32> = Vec::with_capacity(n_heads * hd);
    let mut h: usize = 0;
    while h < n_heads
        invariant
            h <= n_heads,
            cfg.heads().fit(),
            hd == cfg.head_dim,
            n_heads == cfg.n_heads,
            kv_dim == cfg.heads().kv_dim(),
            group == cfg.heads().group(),
            q@.len() >= cfg.heads().q_dim(),
            len * kv_dim <= k@.len(),
            len * kv_dim <= v@.len(),
            arith::deterministic::<A>() ==> scale == scale_of::<A>(hd),
            out@.len() == h * hd,
            arith::deterministic::<A>() ==> forall|j: int|
                0 <= j < h * hd ==> #[trigger] out@[j] == attend_of::<A>(
                    q@,
                    k@,
                    v@,
                    len as int,
                    cfg.heads(),
                )[j],
        decreases n_heads - h,
    {
        proof {
            lemma_head_within(h as int, n_heads as int, hd as int);
            lemma_kv_head(cfg.heads(), h as int);
        }
        let kv_off: usize = h / group * hd;
        let query = slice_subrange(q, h * hd, h * hd + hd);
        let weights = head_weights::<A>(query, k, kv_dim, kv_off, len, scale);
        let mut head = mix::<A>(&weights, v, kv_dim, kv_off, hd);
        let ghost before = out@;
        out.append(&mut head);
        proof {
            if arith::deterministic::<A>() {
                assert forall|j: int| 0 <= j < (h + 1) * hd implies #[trigger] out@[j]
                    == attend_of::<A>(q@, k@, v@, len as int, cfg.heads())[j] by {
                    if j < h * hd {
                        assert(out@[j] == before[j]);
                    } else {
                        lemma_head_index(h as int, j - h * hd, hd as int);
                    }
                }
            }
        }
        h += 1;
    }
    proof {
        if arith::deterministic::<A>() {
            assert(out@ =~= attend_of::<A>(q@, k@, v@, len as int, cfg.heads()));
        }
    }
    out
}

fn head_weights<A: Arith>(
    query: &[u32],
    k: &[u32],
    kv_dim: usize,
    off: usize,
    len: usize,
    scale: u32,
) -> (scores: Vec<u32>)
    requires
        off + query@.len() <= kv_dim,
        len * kv_dim <= k@.len(),
    ensures
        scores@.len() == len,
        arith::deterministic::<A>() ==> scores@ == tensor::softmax_of::<A>(
            scores_of::<A>(query@, k@, kv_dim as int, off as int, len as int, scale),
        ),
{
    let size: usize = query.len();
    let total: usize = k.len();
    let mut scores: Vec<u32> = Vec::with_capacity(len);
    let mut t: usize = 0;
    while t < len
        invariant
            t <= len,
            scores@.len() == t,
            size == query@.len(),
            off + size <= kv_dim,
            len * kv_dim <= total == k@.len(),
            arith::deterministic::<A>() ==> forall|s: int|
                0 <= s < t ==> scores@[s] == scores_of::<A>(
                    query@,
                    k@,
                    kv_dim as int,
                    off as int,
                    len as int,
                    scale,
                )[s],
        decreases len - t,
    {
        proof {
            lemma_row(t as int, len as int, kv_dim as int, off as int, size as int);
        }
        let start: usize = t * kv_dim + off;
        let key = slice_subrange(k, start, start + size);
        scores.push(A::mul32(tensor::dot::<A>(query, key), scale));
        t += 1;
    }
    proof {
        if arith::deterministic::<A>() {
            assert(scores@ =~= scores_of::<A>(
                query@,
                k@,
                kv_dim as int,
                off as int,
                len as int,
                scale,
            ));
        }
    }
    tensor::softmax::<A>(scores.as_mut_slice());
    scores
}

fn mix<A: Arith>(weights: &Vec<u32>, v: &[u32], kv_dim: usize, off: usize, size: usize) -> (out: Vec<
    u32,
>)
    requires
        off + size <= kv_dim,
        weights@.len() * kv_dim <= v@.len(),
    ensures
        out@.len() == size,
        arith::deterministic::<A>() ==> forall|i: int|
            0 <= i < size ==> #[trigger] out@[i] == mix_upto::<A>(
                weights@,
                v@,
                kv_dim as int,
                off + i,
                weights@.len() as int,
            ),
{
    let total: usize = v.len();
    let len: usize = weights.len();
    let mut out: Vec<u32> = vec![bits::ZERO; size];
    let mut t: usize = 0;
    while t < len
        invariant
            t <= len == weights@.len(),
            out@.len() == size,
            off + size <= kv_dim,
            len * kv_dim <= total == v@.len(),
            arith::deterministic::<A>() ==> forall|i: int|
                0 <= i < size ==> #[trigger] out@[i] == mix_upto::<A>(
                    weights@,
                    v@,
                    kv_dim as int,
                    off + i,
                    t as int,
                ),
        decreases len - t,
    {
        proof {
            lemma_row(t as int, len as int, kv_dim as int, off as int, size as int);
        }
        let start: usize = t * kv_dim + off;
        let w: u32 = weights[t];
        let mut i: usize = 0;
        while i < size
            invariant
                i <= size == out@.len(),
                t < len == weights@.len(),
                w == weights@[t as int],
                start == t * kv_dim + off,
                start + size <= total == v@.len(),
                arith::deterministic::<A>() ==> forall|j: int|
                    0 <= j < i ==> #[trigger] out@[j] == mix_upto::<A>(
                        weights@,
                        v@,
                        kv_dim as int,
                        off + j,
                        t + 1,
                    ),
                arith::deterministic::<A>() ==> forall|j: int|
                    i <= j < size ==> #[trigger] out@[j] == mix_upto::<A>(
                        weights@,
                        v@,
                        kv_dim as int,
                        off + j,
                        t as int,
                    ),
            decreases size - i,
        {
            let ghost before = out@;
            let sum: u32 = A::add32(out[i], A::mul32(w, v[start + i]));
            out[i] = sum;
            proof {
                if arith::deterministic::<A>() {
                    assert(before[i as int] == mix_upto::<A>(
                        weights@,
                        v@,
                        kv_dim as int,
                        off + i,
                        t as int,
                    ));
                    assert(v@[start + i] == v@[t * kv_dim + (off + i)]);
                }
            }
            i += 1;
        }
        t += 1;
    }
    out
}

} // verus!
