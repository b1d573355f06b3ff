//! Grouped-query attention as shared key/value heads: a model behaves exactly
//! like one in which every query head has a key/value head of its own, a copy of
//! the one that it shares.

use vstd::prelude::*;

use crate::arith::Arith;
use crate::attention;
use crate::causality;
use crate::config::{ConfigView, Heads};
use crate::format::WeightView;
use crate::model;
use crate::model::{LayerView, ModelView};
use crate::quantize::QuantizedView;
use crate::rope;
use crate::rope::RopeView;
use crate::tensor;

verus! {

/// A sequence in which each block of `size` elements is repeated `g` times.
pub open spec fn spread<T>(s: Seq<T>, g: int, size: int) -> Seq<T> {
    Seq::new((g * s.len()) as nat, |i: int| s[i / size / g * size + i % size])
}

/// An optional sequence in which each block is repeated.
pub open spec fn opt_spread(s: Option<Seq<u32>>, g: int, size: int) -> Option<Seq<u32>> {
    match s {
        None => None,
        Some(s) => Some(spread(s, g, size)),
    }
}

/// A matrix in which each block of `size` rows is repeated `g` times.
pub open spec fn spread_rows(w: WeightView, g: int, size: int) -> WeightView {
    match w {
        WeightView::F32(t) => WeightView::F32(
            tensor::tensor_of(
                spread(t.data, g, size * t.shape[1]),
                seq![(g * t.shape[0]) as usize, t.shape[1]],
            ),
        ),
        WeightView::Quant(q) => WeightView::Quant(
            QuantizedView {
                dtype: q.dtype,
                rows: (g * q.rows) as usize,
                cols: q.cols,
                data: spread(q.data, g, size * q.row_len()),
            },
        ),
    }
}

/// A layer whose key and value heads are repeated for the query heads that
/// share them.
pub open spec fn expanded_layer(l: LayerView, heads: Heads) -> LayerView {
    let g = heads.group();
    let hd = heads.head_dim as int;
    LayerView {
        k: spread_rows(l.k, g, hd),
        v: spread_rows(l.v, g, hd),
        k_bias: opt_spread(l.k_bias, g, hd),
        v_bias: opt_spread(l.v_bias, g, hd),
        ..l
    }
}

/// A model with a key/value head for each query head.
pub open spec fn expanded(m: ModelView) -> ModelView {
    let heads = Heads { n_kv_heads: m.config.heads.n_heads, ..m.config.heads };
    ModelView {
        config: ConfigView { heads, ..m.config },
        layers: m.layers.map_values(|l: LayerView| expanded_layer(l, m.config.heads)),
        ..m
    }
}

/// Where element `i` of block `h` of `g * n` blocks comes from.
proof fn lemma_spread_index(n: int, g: int, size: int, h: int, i: int)
    requires
        0 < g,
        0 <= h < g * n,
        0 <= i < size,
    ensures
        0 <= h / g < n,
        0 <= h * size + i < (g * n) * size,
        (h * size + i) / size == h,
        (h * size + i) % size == i,
        0 <= h / g * size + i < n * size,
        (g * n) * size == g * (n * size),
{
    vstd::arithmetic::div_mod::lemma_fundamental_div_mod(h, g);
    let d = h / g;
    assert(0 <= d < n) by (nonlinear_arith)
        requires
            h == g * d + h % g,
            0 <= h % g < g,
            0 <= h < g * n,
    ;
    attention::lemma_head_within(h, g * n, size);
    attention::lemma_head_within(d, n, size);
    attention::lemma_head_index(h, i, size);
    assert((g * n) * size == g * (n * size)) by (nonlinear_arith);
}

/// The block and the place in it of index `j`.
proof fn lemma_block_of(n: int, size: int, j: int)
    requires
        0 <= j < n * size,
        0 < size,
    ensures
        0 <= j / size < n,
        0 <= j % size < size,
        j == j / size * size + j % size,
{
    vstd::arithmetic::div_mod::lemma_fundamental_div_mod(j, size);
    let d = j / size;
    assert(j == d * size + j % size) by (nonlinear_arith)
        requires
            j == size * d + j % size,
    ;
    assert(0 <= d < n) by (nonlinear_arith)
        requires
            j == d * size + j % size,
            0 <= j < n * size,
            0 <= j % size < size,
    ;
}

/// Row `r` of a matrix of `n` blocks of `hd` rows, each block repeated.
proof fn lemma_spread_row<T>(data: Seq<T>, n: int, g: int, hd: int, size: int, r: int)
    requires
        data.len() == (n * hd) * size,
        0 < size,
        0 < hd,
        0 < g,
        0 <= r < g * (n * hd),
    ensures
        ({
            let from = r / hd / g * hd + r % hd;
            let all = spread(data, g, hd * size);
            &&& 0 <= from < n * hd
            &&& 0 <= from * size
            &&& from * size + size <= data.len()
            &&& all.len() == (g * (n * hd)) * size
            &&& 0 <= r * size
            &&& r * size + size <= all.len()
            &&& all.subrange(r * size, r * size + size) == data.subrange(
                from * size,
                from * size + size,
            )
        }),
{
    assert((g * n) * hd == g * (n * hd)) by (nonlinear_arith);
    lemma_block_of(g * n, hd, r);
    let h = r / hd;
    let i = r % hd;
    lemma_spread_index(n, g, hd, h, i);
    let from = h / g * hd + i;
    let b = hd * size;
    assert(0 < b) by (nonlinear_arith)
        requires
            b == hd * size,
            hd > 0,
            size > 0,
    ;
    attention::lemma_head_within(from, n * hd, size);
    attention::lemma_head_within(r, g * (n * hd), size);
    assert(g * ((n * hd) * size) == (g * (n * hd)) * size) by (nonlinear_arith);
    let all = spread(data, g, b);
    attention::lemma_head_within(i, hd, size);
    assert(r * size == h * b + i * size) by (nonlinear_arith)
        requires
            r == h * hd + i,
            b == hd * size,
    ;
    let d = h / g;
    assert(from * size == d * b + i * size) by (nonlinear_arith)
        requires
            from == d * hd + i,
            b == hd * size,
    ;
    let x = all.subrange(r * size, r * size + size);
    let y = data.subrange(from * size, from * size + size);
    assert forall|e: int| 0 <= e < size implies x[e] == y[e] by {
        attention::lemma_head_index(h, i * size + e, b);
        assert(r * size + e == h * b + (i * size + e));
        assert(all[r * size + e] == data[d * b + (i * size + e)]);
    }
    assert(x =~= y);
}

/// The product with repeated rows repeats the products.
proof fn lemma_spread_times<A: Arith>(w: WeightView, n: int, g: int, hd: int, x: Seq<u32>)
    requires
        w.takes(x.len() as int),
        w.fault(x.len() as int) is None,
        0 < g,
        0 < n,
        0 < hd,
        w.rows() == n * hd,
        g * (n * hd) <= usize::MAX,
    ensures
        spread_rows(w, g, hd).fault(x.len() as int) is None,
        spread_rows(w, g, hd).times::<A>(x) == spread(w.times::<A>(x), g, hd),
{
    model::law_matvec_rows::<A>(w, x);
    let rows = w.rows();
    let y = w.times::<A>(x);
    let z = spread_rows(w, g, hd).times::<A>(x);
    assert(n * hd > 0) by (nonlinear_arith)
        requires
            n > 0,
            hd > 0,
    ;
    assert(g * rows > 0) by (nonlinear_arith)
        requires
            g > 0,
            rows > 0,
    ;
    match w {
        WeightView::F32(t) => {
            tensor::lemma_numel_2(t.shape);
            let size = x.len() as int;
            lemma_spread_row(t.data, n, g, hd, size, 0);
            vstd::arithmetic::div_mod::lemma_div_by_multiple(g * rows, size);
            assert(z.len() == g * rows);
            assert forall|r: int| 0 <= r < g * rows implies z[r] == spread(y, g, hd)[r] by {
                lemma_spread_row(t.data, n, g, hd, size, r);
            }
        },
        WeightView::Quant(q) => {
            let size = q.row_len();
            lemma_spread_row(q.data, n, g, hd, size, 0);
            vstd::arithmetic::div_mod::lemma_div_by_multiple(g * rows, size);
            assert(z.len() == g * rows);
            assert forall|r: int| 0 <= r < g * rows implies z[r] == spread(y, g, hd)[r] by {
                lemma_spread_row(q.data, n, g, hd, size, r);
            }
        },
    }
    assert(z =~= spread(y, g, hd));
}

proof fn lemma_spread_biased<A: Arith>(
    x: Seq<u32>,
    bias: Option<Seq<u32>>,
    n: int,
    g: int,
    hd: int,
)
    requires
        x.len() == n * hd,
        0 < g,
        0 < hd,
        model::opt_len(bias, x.len() as int),
    ensures
        model::biased::<A>(spread(x, g, hd), opt_spread(bias, g, hd)) == spread(
            model::biased::<A>(x, bias),
            g,
            hd,
        ),
{
    if let Some(b) = bias {
        let len = x.len() as int;
        assert(g * len >= 0) by (nonlinear_arith)
            requires
                g > 0,
                len >= 0,
        ;
        assert((g * n) * hd == g * (n * hd)) by (nonlinear_arith);
        let sum = tensor::add_seq::<A>(x, b);
        assert forall|j: int| 0 <= j < g * len implies tensor::add_seq::<A>(
            spread(x, g, hd),
            spread(b, g, hd),
        )[j] == spread(sum, g, hd)[j] by {
            lemma_block_of(g * n, hd, j);
            lemma_spread_index(n, g, hd, j / hd, j % hd);
        }
        assert(model::biased::<A>(spread(x, g, hd), opt_spread(bias, g, hd)) =~= spread(
            model::biased::<A>(x, bias),
            g,
            hd,
        ));
    }
}

/// Head `h` of repeated heads is the head that it repeats.
proof fn lemma_spread_head(x: Seq<u32>, n: int, g: int, hd: int, h: int)
    requires
        x.len() == n * hd,
        0 < g,
        0 < hd,
        0 <= h < g * n,
    ensures
        0 <= h / g < n,
        0 <= h * hd,
        h * hd + hd <= spread(x, g, hd).len(),
        0 <= h / g * hd,
        h / g * hd + hd <= x.len(),
        spread(x, g, hd).subrange(h * hd, h * hd + hd) == x.subrange(
            h / g * hd,
            h / g * hd + hd,
        ),
{
    lemma_spread_index(n, g, hd, h, 0);
    attention::lemma_head_within(h, g * n, hd);
    attention::lemma_head_within(h / g, n, hd);
    assert(g * (n * hd) >= 0) by (nonlinear_arith)
        requires
            g > 0,
            n * hd >= 0,
    ;
    let a = spread(x, g, hd).subrange(h * hd, h * hd + hd);
    let b = x.subrange(h / g * hd, h / g * hd + hd);
    assert forall|k: int| 0 <= k < hd implies a[k] == b[k] by {
        lemma_spread_index(n, g, hd, h, k);
        assert(spread(x, g, hd)[h * hd + k] == x[h / g * hd + k]);
    }
    assert(a =~= b);
}

proof fn lemma_spread_normed<A: Arith>(
    x: Seq<u32>,
    norm: Option<Seq<u32>>,
    eps: u32,
    hd: int,
    n: int,
    g: int,
)
    requires
        x.len() == n * hd,
        0 < hd,
        0 < g,
    ensures
        model::head_normed::<A>(spread(x, g, hd), norm, eps, hd) == spread(
            model::head_normed::<A>(x, norm, eps, hd),
            g,
            hd,
        ),
{
    if let Some(w) = norm {
        assert((g * n) * hd == g * (n * hd)) by (nonlinear_arith);
        assert(g * (n * hd) >= 0) by (nonlinear_arith)
            requires
                g > 0,
                n * hd >= 0,
        ;
        let all = attention::per_head_norm_of::<A>(spread(x, g, hd), w, eps, hd);
        let one = attention::per_head_norm_of::<A>(x, w, eps, hd);
        assert forall|j: int| 0 <= j < g * (n * hd) implies all[j] == spread(one, g, hd)[j] by {
            lemma_block_of(g * n, hd, j);
            let h = j / hd;
            let i = j % hd;
            lemma_spread_index(n, g, hd, h, i);
            lemma_spread_head(x, n, g, hd, h);
            attention::lemma_head_index(h / g, i, hd);
            assert(all[j] == attention::per_head_norm_at::<A>(spread(x, g, hd), w, eps, hd, j));
            assert(one[h / g * hd + i] == attention::per_head_norm_at::<A>(
                x,
                w,
                eps,
                hd,
                h / g * hd + i,
            ));
        }
        assert(all =~= spread(one, g, hd));
    }
}

proof fn lemma_spread_rotated<A: Arith>(r: RopeView, x: Seq<u32>, pos: int, n: int, g: int)
    requires
        r.covers(pos + 1),
        0 <= pos,
        x.len() == n * (2 * r.half),
        0 < g,
    ensures
        r.applied::<A>(spread(x, g, 2 * r.half), pos) == spread(
            r.applied::<A>(x, pos),
            g,
            2 * r.half,
        ),
{
    let half = r.half as int;
    let size = 2 * half;
    assert((pos + 1) * half == pos * half + half) by (nonlinear_arith);
    assert(0 <= pos * half) by (nonlinear_arith)
        requires
            pos >= 0,
            half >= 0,
    ;
    let cos = r.cos_at(pos);
    let sin = r.sin_at(pos);
    assert((g * n) * size == g * (n * size)) by (nonlinear_arith);
    assert(g * (n * size) >= 0) by (nonlinear_arith)
        requires
            g > 0,
            n * size >= 0,
    ;
    let wide = spread(x, g, size);
    let all = rope::rotated::<A>(wide, cos, sin);
    let one = rope::rotated::<A>(x, cos, sin);
    assert forall|j: int| 0 <= j < g * (n * size) implies all[j] == spread(one, g, size)[j] by {
        lemma_block_of(g * n, size, j);
        let h = j / size;
        let i = j % size;
        lemma_spread_index(n, g, size, h, i);
        let from = h / g * size + i;
        attention::lemma_head_index(h / g, i, size);
        assert(wide[j] == x[from]);
        if i < half {
            lemma_spread_index(n, g, size, h, i + half);
            assert(j + half == h * size + (i + half));
            assert(wide[j + half] == x[from + half]);
        } else {
            lemma_spread_index(n, g, size, h, i - half);
            assert(j - half == h * size + (i - half));
            assert(wide[j - half] == x[from - half]);
        }
        assert(all[j] == rope::rotated_at::<A>(wide, cos, sin, j));
        assert(one[from] == rope::rotated_at::<A>(x, cos, sin, from));
    }
    assert(all =~= spread(one, g, size));
}

/// Whether the model can be expanded: every query head shares a key/value head,
/// and the layers fit together.
pub open spec fn expandable(m: ModelView) -> bool {
    &&& m.runs()
    &&& m.embed.shape.len() == 2
    &&& m.config.heads.n_heads > 0
    &&& m.layers_fault(m.depth()) is None
}

pub(crate) proof fn lemma_layer_ok(m: ModelView, l: int, n: int)
    requires
        0 <= l < n <= m.depth(),
        m.layers_fault(n) is None,
    ensures
        m.layers[l].fault(m.config.heads, m.width()) is None,
    decreases n,
{
    if l < n - 1 {
        lemma_layer_ok(m, l, n - 1);
    }
}

/// The query heads are the key/value heads times those that share one.
proof fn lemma_group(heads: Heads)
    requires
        heads.fit(),
        heads.n_heads > 0,
    ensures
        heads.group() > 0,
        heads.n_heads == heads.group() * heads.n_kv_heads,
        heads.group() * (heads.n_kv_heads * heads.head_dim) == heads.n_heads * heads.head_dim,
{
    let n = heads.n_heads as int;
    let kv = heads.n_kv_heads as int;
    let hd = heads.head_dim as int;
    vstd::arithmetic::div_mod::lemma_fundamental_div_mod(n, kv);
    let g = heads.group();
    assert(n == g * kv) by (nonlinear_arith)
        requires
            n == kv * g,
    ;
    assert(g > 0) by (nonlinear_arith)
        requires
            n == g * kv,
            n > 0,
            kv > 0,
    ;
    assert(g * (kv * hd) == n * hd) by (nonlinear_arith)
        requires
            n == g * kv,
    ;
}

proof fn lemma_expanded_kv<A: Arith>(m: ModelView, l: int, x: Seq<u32>, pos: int)
    requires
        expandable(m),
        0 <= l < m.depth(),
        x.len() == m.width(),
        0 <= pos < m.config.max_seq_len,
    ensures
        ({
            let g = m.config.heads.group();
            let hd = m.config.heads.head_dim as int;
            &&& expanded(m).query::<A>(l, x, pos) == m.query::<A>(l, x, pos)
            &&& expanded(m).key::<A>(l, x, pos) == spread(m.key::<A>(l, x, pos), g, hd)
            &&& expanded(m).value::<A>(l, x) == spread(m.value::<A>(l, x), g, hd)
            &&& m.key::<A>(l, x, pos).len() == m.config.heads.kv_dim()
            &&& m.value::<A>(l, x).len() == m.config.heads.kv_dim()
        }),
{
    let heads = m.config.heads;
    let kv = heads.n_kv_heads as int;
    let g = heads.group();
    let hd = heads.head_dim as int;
    lemma_group(heads);
    let w = m.layers[l];
    let w2 = expanded(m).layers[l];
    assert(w2 == expanded_layer(w, heads));
    lemma_layer_ok(m, l, m.depth());
    assert(w.runs(heads, m.width()));
    let xn = m.attn_input::<A>(l, x);
    assert(expanded(m).attn_input::<A>(l, x) == xn);
    model::law_matvec_rows::<A>(w.k, xn);
    model::law_matvec_rows::<A>(w.v, xn);
    lemma_spread_times::<A>(w.k, kv, g, hd, xn);
    lemma_spread_times::<A>(w.v, kv, g, hd, xn);
    let k = w.k.times::<A>(xn);
    let v = w.v.times::<A>(xn);
    lemma_spread_biased::<A>(k, w.k_bias, kv, g, hd);
    lemma_spread_biased::<A>(v, w.v_bias, kv, g, hd);
    let kb = model::biased::<A>(k, w.k_bias);
    lemma_spread_normed::<A>(kb, w.k_norm, m.config.rms_norm_eps, hd, kv, g);
    let kn = model::head_normed::<A>(kb, w.k_norm, m.config.rms_norm_eps, hd);
    assert(kn.len() == kv * hd);
    assert((pos + 1) * m.rope.half <= m.config.max_seq_len * m.rope.half) by (nonlinear_arith)
        requires
            pos + 1 <= m.config.max_seq_len,
            m.rope.half >= 0,
    ;
    lemma_spread_rotated::<A>(m.rope, kn, pos, kv, g);
}

/// Keys and values of an expanded model, position by position.
proof fn lemma_expanded_rows<A: Arith>(m: ModelView, tokens: Seq<u32>, l: int, t: int)
    requires
        expandable(m),
        0 <= l < m.depth(),
        0 <= t <= tokens.len() <= m.config.max_seq_len,
        forall|s: int|
            0 <= s < t ==> #[trigger] expanded(m).hidden::<A>(tokens, l, s) == m.hidden::<A>(
                tokens,
                l,
                s,
            ) && m.hidden::<A>(tokens, l, s).len() == m.width(),
    ensures
        ({
            let heads = m.config.heads;
            let k = m.keys::<A>(tokens, l, t);
            let v = m.values::<A>(tokens, l, t);
            let k2 = expanded(m).keys::<A>(tokens, l, t);
            let v2 = expanded(m).values::<A>(tokens, l, t);
            &&& k.len() == t * heads.kv_dim() && v.len() == t * heads.kv_dim()
            &&& k2.len() == t * heads.q_dim() && v2.len() == t * heads.q_dim()
            &&& shared(heads, k, k2, t)
            &&& shared(heads, v, v2, t)
        }),
    decreases t,
{
    let heads = m.config.heads;
    let n = heads.n_heads as int;
    let kv = heads.n_kv_heads as int;
    let hd = heads.head_dim as int;
    let g = heads.group();
    let m2 = expanded(m);
    lemma_group(heads);
    if t > 0 {
        lemma_expanded_rows::<A>(m, tokens, l, t - 1);
        let x = m.hidden::<A>(tokens, l, t - 1);
        assert(m2.hidden::<A>(tokens, l, t - 1) == x);
        lemma_expanded_kv::<A>(m, l, x, t - 1);
        let key = m.key::<A>(l, x, t - 1);
        let value = m.value::<A>(l, x);
        attention::lemma_head_within(t - 1, t, kv * hd);
        attention::lemma_head_within(t - 1, t, n * hd);
        lemma_shared_push(
            heads,
            m.keys::<A>(tokens, l, t - 1),
            m2.keys::<A>(tokens, l, t - 1),
            key,
            t - 1,
        );
        lemma_shared_push(
            heads,
            m.values::<A>(tokens, l, t - 1),
            m2.values::<A>(tokens, l, t - 1),
            value,
            t - 1,
        );
    } else {
        assert(0 * (kv * hd) == 0);
        assert(0 * (n * hd) == 0);
    }
}

/// Whether row by row, each of `t` rows of `b` holds for every query head a copy
/// of the head of the row of `a` that the query head shares.
pub open spec fn shared(heads: Heads, a: Seq<u32>, b: Seq<u32>, t: int) -> bool {
    forall|s: int, h: int, i: int|
        0 <= s < t && 0 <= h < heads.n_heads && 0 <= i < heads.head_dim ==> #[trigger] at(
            b,
            s,
            heads.q_dim(),
            h * heads.head_dim + i,
        ) == at(a, s, heads.kv_dim(), h / heads.group() * heads.head_dim + i)
}

proof fn lemma_shared_push(heads: Heads, a: Seq<u32>, b: Seq<u32>, row: Seq<u32>, t: int)
    requires
        heads.fit(),
        heads.n_heads > 0,
        0 <= t,
        a.len() == t * heads.kv_dim(),
        b.len() == t * heads.q_dim(),
        row.len() == heads.kv_dim(),
        shared(heads, a, b, t),
    ensures
        spread(row, heads.group(), heads.head_dim as int).len() == heads.q_dim(),
        shared(
            heads,
            a + row,
            b + spread(row, heads.group(), heads.head_dim as int),
            t + 1,
        ),
{
    let n = heads.n_heads as int;
    let kv = heads.n_kv_heads as int;
    let hd = heads.head_dim as int;
    let g = heads.group();
    lemma_group(heads);
    assert(n * hd >= 0) by (nonlinear_arith)
        requires
            n > 0,
            hd > 0,
    ;
    let wide = spread(row, g, hd);
    let a2 = a + row;
    let b2 = b + wide;
    assert forall|s: int, h: int, i: int|
        0 <= s < t + 1 && 0 <= h < n && 0 <= i < hd implies #[trigger] at(b2, s, n * hd, h * hd + i)
        == at(a2, s, kv * hd, h / g * hd + i) by {
        lemma_spread_index(kv, g, hd, h, i);
        if s < t {
            attention::lemma_head_within(s, t, kv * hd);
            attention::lemma_head_within(s, t, n * hd);
            assert(at(b, s, n * hd, h * hd + i) == at(a, s, kv * hd, h / g * hd + i));
        } else {
            assert(at(b2, s, n * hd, h * hd + i) == wide[h * hd + i]);
        }
    }
}

/// Element `j` of row `s` of rows of `width`.
pub open spec fn at(rows: Seq<u32>, s: int, width: int, j: int) -> u32 {
    rows[s * width + j]
}

proof fn lemma_same_mix<A: Arith>(
    w: Seq<u32>,
    v: Seq<u32>,
    width: int,
    j: int,
    v2: Seq<u32>,
    width2: int,
    j2: int,
    t: int,
)
    requires
        forall|s: int| 0 <= s < t ==> #[trigger] at(v2, s, width2, j2) == at(v, s, width, j),
    ensures
        attention::mix_upto::<A>(w, v2, width2, j2, t) == attention::mix_upto::<A>(
            w,
            v,
            width,
            j,
            t,
        ),
    decreases t,
{
    if t > 0 {
        lemma_same_mix::<A>(w, v, width, j, v2, width2, j2, t - 1);
        assert(at(v2, t - 1, width2, j2) == at(v, t - 1, width, j));
    }
}

/// Attention with shared key/value heads is attention with a copy of the shared
/// head per query head.
proof fn lemma_same_attention<A: Arith>(
    q: Seq<u32>,
    k: Seq<u32>,
    v: Seq<u32>,
    k2: Seq<u32>,
    v2: Seq<u32>,
    len: int,
    heads: Heads,
)
    requires
        heads.fit(),
        heads.n_heads > 0,
        0 <= len,
        k.len() == len * heads.kv_dim(),
        k2.len() == len * heads.q_dim(),
        shared(heads, k, k2, len),
        shared(heads, v, v2, len),
        q.len() == heads.q_dim(),
    ensures
        attention::attend_of::<A>(q, k2, v2, len, (Heads { n_kv_heads: heads.n_heads, ..heads }))
            == attention::attend_of::<A>(q, k, v, len, heads),
{
    let n = heads.n_heads as int;
    let kv = heads.n_kv_heads as int;
    let hd = heads.head_dim as int;
    let g = heads.group();
    let wide = Heads { n_kv_heads: heads.n_heads, ..heads };
    lemma_group(heads);
    vstd::arithmetic::div_mod::lemma_div_basics(n);
    assert(wide.group() == 1);
    let a = attention::attend_of::<A>(q, k2, v2, len, wide);
    let b = attention::attend_of::<A>(q, k, v, len, heads);
    assert forall|j: int| 0 <= j < n * hd implies a[j] == b[j] by {
        lemma_block_of(n, hd, j);
        let h = j / hd;
        let i = j % hd;
        lemma_spread_index(kv, g, hd, h, i);
        vstd::arithmetic::div_mod::lemma_div_basics(h);
        assert(h / wide.group() == h);
        let d = h / g;
        attention::lemma_head_within(h, n, hd);
        attention::lemma_head_within(d, kv, hd);
        let query = q.subrange(h * hd, h * hd + hd);
        let scale = attention::scale_of::<A>(heads.head_dim);
        let s1 = attention::scores_of::<A>(query, k, kv * hd, d * hd, len, scale);
        let s2 = attention::scores_of::<A>(query, k2, n * hd, h * hd, len, scale);
        assert forall|s: int| 0 <= s < len implies s1[s] == s2[s] by {
            attention::lemma_head_within(s, len, kv * hd);
            attention::lemma_head_within(s, len, n * hd);
            let r1 = k.subrange(s * (kv * hd) + d * hd, s * (kv * hd) + d * hd + hd);
            let r2 = k2.subrange(s * (n * hd) + h * hd, s * (n * hd) + h * hd + hd);
            assert forall|e: int| 0 <= e < hd implies r1[e] == r2[e] by {
                assert(at(k2, s, n * hd, h * hd + e) == at(k, s, kv * hd, d * hd + e));
            }
            assert(r1 =~= r2);
        }
        assert(s1 =~= s2);
        let w = tensor::softmax_of::<A>(s1);
        assert forall|s: int| 0 <= s < len implies #[trigger] at(v2, s, n * hd, h * hd + i) == at(
            v,
            s,
            kv * hd,
            d * hd + i,
        ) by {}
        lemma_same_mix::<A>(w, v, kv * hd, d * hd + i, v2, n * hd, h * hd + i, len);
    }
    assert(a =~= b);
}

/// A model gives the same hidden states, at every position and after every layer,
/// as the model in which every query head has a key/value head of its own, a copy
/// of the one that it shares.
pub proof fn law_expanded_hidden<A: Arith>(m: ModelView, tokens: Seq<u32>, l: int, t: int)
    requires
        expandable(m),
        0 <= l <= m.depth(),
        0 <= t < tokens.len() <= m.config.max_seq_len,
        forall|s: int| 0 <= s < tokens.len() ==> m.row_fault(#[trigger] tokens[s]) is None,
    ensures
        expanded(m).hidden::<A>(tokens, l, t) == m.hidden::<A>(tokens, l, t),
        m.hidden::<A>(tokens, l, t).len() == m.width(),
    decreases l,
{
    let m2 = expanded(m);
    if l == 0 {
        let token = tokens[t];
        assert(m.row_fault(token) is None);
        tensor::lemma_numel_2(m.embed.shape);
        attention::lemma_head_within(token as int, m.embed.shape[0] as int, m.width());
    } else {
        assert forall|s: int| 0 <= s < tokens.len() implies #[trigger] m2.hidden::<A>(
            tokens,
            l - 1,
            s,
        ) == m.hidden::<A>(tokens, l - 1, s) && m.hidden::<A>(tokens, l - 1, s).len()
            == m.width() by {
            law_expanded_hidden::<A>(m, tokens, l - 1, s);
        }
        let x = m.hidden::<A>(tokens, l - 1, t);
        assert(m2.hidden::<A>(tokens, l - 1, t) == x);
        lemma_expanded_rows::<A>(m, tokens, l - 1, t + 1);
        lemma_expanded_kv::<A>(m, l - 1, x, t);
        lemma_layer_ok(m, l - 1, m.depth());
        let w = m.layers[l - 1];
        assert(m2.layers[l - 1] == expanded_layer(w, m.config.heads));
        assert(w.runs(m.config.heads, m.width()));
        let q = m.query::<A>(l - 1, x, t);
        let xn = m.attn_input::<A>(l - 1, x);
        model::law_matvec_rows::<A>(w.q, xn);
        assert(q.len() == m.config.heads.q_dim());
        lemma_same_attention::<A>(
            q,
            m.keys::<A>(tokens, l - 1, t + 1),
            m.values::<A>(tokens, l - 1, t + 1),
            m2.keys::<A>(tokens, l - 1, t + 1),
            m2.values::<A>(tokens, l - 1, t + 1),
            t + 1,
            m.config.heads,
        );
    }
}

/// The same holds of the logits.
pub proof fn law_expanded_logits<A: Arith>(m: ModelView, tokens: Seq<u32>)
    requires
        expandable(m),
        m.full_error(tokens) is None,
    ensures
        expanded(m).logits::<A>(
            expanded(m).hidden::<A>(tokens, expanded(m).depth(), tokens.len() - 1),
        ) == m.logits::<A>(m.hidden::<A>(tokens, m.depth(), tokens.len() - 1)),
{
    causality::lemma_first_row_fault(m, tokens, 0);
    law_expanded_hidden::<A>(m, tokens, m.depth(), tokens.len() - 1);
}

} // verus!
