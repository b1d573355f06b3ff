//! What a layer of the transformer computes, and what the model makes of its
//! layers, as relations between inputs and results where nothing is rounded.

use vstd::prelude::*;

use crate::arith::Arith;
use crate::attention;
use crate::formulas;
use crate::format::WeightView;
use crate::model;
use crate::model::ModelView;
use crate::ring::Ring;
use crate::tensor;

verus! {

/// The steps from a hidden state to the heads of a query or of a key.
pub struct HeadSteps {
    pub normed: Seq<u32>,
    pub product: Seq<u32>,
    pub biased: Seq<u32>,
    pub heads: Seq<u32>,
}

/// The steps from a hidden state through a layer.
pub struct LayerSteps {
    pub query: Seq<u32>,
    pub gathered: Seq<u32>,
    pub mixed: Seq<u32>,
    pub middle: Seq<u32>,
    pub normed: Seq<u32>,
    pub gate: Seq<u32>,
    pub up: Seq<u32>,
    pub inner: Seq<u32>,
    pub change: Seq<u32>,
}

impl Ring {
    /// Whether `y` is `x` with a bias added, if there is one.
    pub open spec fn adds_any(self, x: Seq<u32>, bias: Option<Seq<u32>>, y: Seq<u32>) -> bool {
        match bias {
            None => y == x,
            Some(b) => self.adds(x, b, y),
        }
    }

    /// Whether the heads of `y` are those of `x`, normalized if there is a gain.
    pub open spec fn normalizes_any(
        self,
        x: Seq<u32>,
        gain: Option<Seq<u32>>,
        eps: u32,
        y: Seq<u32>,
    ) -> bool {
        match gain {
            None => y == x,
            Some(g) => self.normalizes_heads(x, g, eps, y),
        }
    }

    /// Whether `y` are the heads that a projection makes of hidden state `x` at
    /// position `pos`: `x` is normalized with the gain of attention and multiplied with
    /// the matrix, the bias is added, the heads are normalized, and they are turned by
    /// the angles of the position.
    pub open spec fn makes_heads(
        self,
        m: ModelView,
        gain: Seq<u32>,
        w: WeightView,
        bias: Option<Seq<u32>>,
        head_gain: Option<Seq<u32>>,
        x: Seq<u32>,
        pos: int,
        steps: HeadSteps,
        y: Seq<u32>,
    ) -> bool {
        let eps = m.config.rms_norm_eps;
        let half = m.rope.half as int;
        &&& self.normalizes(x, gain, eps, steps.normed)
        &&& self.projects(w, steps.normed, steps.product)
        &&& self.adds_any(steps.product, bias, steps.biased)
        &&& self.normalizes_any(steps.biased, head_gain, eps, steps.heads)
        &&& self.turns(
            steps.heads,
            m.rope.cos.subrange(pos * half, pos * half + half),
            m.rope.sin.subrange(pos * half, pos * half + half),
            y,
        )
    }

    /// Whether `y` is layer `l`'s query for hidden state `x` at position `pos`.
    pub open spec fn is_query(self, m: ModelView, l: int, x: Seq<u32>, pos: int, y: Seq<u32>) -> bool {
        let w = m.layers[l];
        exists|steps: HeadSteps| #[trigger]
            self.makes_heads(m, w.attn_norm, w.q, w.q_bias, w.q_norm, x, pos, steps, y)
    }

    /// Whether `y` is layer `l`'s key for hidden state `x` at position `pos`.
    pub open spec fn is_key(self, m: ModelView, l: int, x: Seq<u32>, pos: int, y: Seq<u32>) -> bool {
        let w = m.layers[l];
        exists|steps: HeadSteps| #[trigger]
            self.makes_heads(m, w.attn_norm, w.k, w.k_bias, w.k_norm, x, pos, steps, y)
    }

    /// Whether `y` is layer `l`'s value for hidden state `x`, by way of the normalized
    /// state and its product with the matrix.
    pub open spec fn makes_value(
        self,
        m: ModelView,
        l: int,
        x: Seq<u32>,
        normed: Seq<u32>,
        product: Seq<u32>,
        y: Seq<u32>,
    ) -> bool {
        let w = m.layers[l];
        &&& self.normalizes(x, w.attn_norm, m.config.rms_norm_eps, normed)
        &&& self.projects(w.v, normed, product)
        &&& self.adds_any(product, w.v_bias, y)
    }

    /// Whether `y` is layer `l`'s value for hidden state `x`.
    pub open spec fn is_value(self, m: ModelView, l: int, x: Seq<u32>, y: Seq<u32>) -> bool {
        exists|normed: Seq<u32>, product: Seq<u32>| #[trigger]
            self.makes_value(m, l, x, normed, product, y)
    }

    /// Whether layer `l` makes `y` of hidden state `x` at position `pos`, with the keys
    /// `k` and the values `v` of the positions so far. What the query gathers from them
    /// is multiplied with the output matrix and added to the state. That is normalized,
    /// multiplied with the matrices `gate` and `up`, and the gated product of both,
    /// multiplied with `down`, is added again.
    pub open spec fn makes_layer(
        self,
        m: ModelView,
        l: int,
        x: Seq<u32>,
        pos: int,
        k: Seq<u32>,
        v: Seq<u32>,
        steps: LayerSteps,
        y: Seq<u32>,
    ) -> bool {
        let w = m.layers[l];
        &&& self.is_query(m, l, x, pos, steps.query)
        &&& self.attends(steps.query, k, v, pos + 1, m.config.heads, steps.gathered)
        &&& self.projects(w.o, steps.gathered, steps.mixed)
        &&& self.adds(x, steps.mixed, steps.middle)
        &&& self.normalizes(steps.middle, w.ffn_norm, m.config.rms_norm_eps, steps.normed)
        &&& self.projects(w.gate, steps.normed, steps.gate)
        &&& self.projects(w.up, steps.normed, steps.up)
        &&& self.gated(steps.gate, steps.up, steps.inner)
        &&& self.projects(w.down, steps.inner, steps.change)
        &&& self.adds(steps.middle, steps.change, y)
    }

    /// Whether layer `l` makes `y` of hidden state `x` at position `pos`.
    pub open spec fn is_layer(
        self,
        m: ModelView,
        l: int,
        x: Seq<u32>,
        pos: int,
        k: Seq<u32>,
        v: Seq<u32>,
        y: Seq<u32>,
    ) -> bool {
        exists|steps: LayerSteps| #[trigger] self.makes_layer(m, l, x, pos, k, v, steps, y)
    }

    /// Whether `y` are the logits of hidden state `x`: the state, normalized with the
    /// final gain, times the matrix of the head.
    pub open spec fn is_logits(self, m: ModelView, x: Seq<u32>, y: Seq<u32>) -> bool {
        exists|normed: Seq<u32>|
            {
                &&& #[trigger] self.normalizes(x, m.final_norm, m.config.rms_norm_eps, normed)
                &&& self.projects(m.lm_head, normed, y)
            }
    }
}

/// Whether layer `l` of a model can be computed.
pub open spec fn layer_runs(m: ModelView, l: int) -> bool {
    &&& m.runs()
    &&& m.embed.shape.len() == 2
    &&& 0 <= l < m.depth()
    &&& m.layers[l].fault(m.config.heads, m.width()) is None
}

proof fn lemma_makes_heads<A: Arith>(
    ring: Ring,
    m: ModelView,
    l: int,
    w: WeightView,
    bias: Option<Seq<u32>>,
    gain: Option<Seq<u32>>,
    x: Seq<u32>,
    pos: int,
)
    requires
        ring.of::<A>(),
        layer_runs(m, l),
        w.takes(m.width()),
        w.fault(m.width()) is None,
        model::opt_len(bias, w.rows()),
        model::opt_len(gain, m.config.heads.head_dim as int),
        x.len() == m.width(),
        0 <= pos < m.config.max_seq_len,
    ensures
        ({
            let normed = m.attn_input::<A>(l, x);
            let product = w.times::<A>(normed);
            let biased = model::biased::<A>(product, bias);
            let heads = model::head_normed::<A>(
                biased,
                gain,
                m.config.rms_norm_eps,
                m.config.heads.head_dim as int,
            );
            &&& ring.makes_heads(
                m,
                m.layers[l].attn_norm,
                w,
                bias,
                gain,
                x,
                pos,
                HeadSteps { normed, product, biased, heads },
                m.rope.applied::<A>(heads, pos),
            )
            &&& m.rope.applied::<A>(heads, pos).len() == w.rows()
        }),
{
    let layer = m.layers[l];
    let eps = m.config.rms_norm_eps;
    let normed = m.attn_input::<A>(l, x);
    let product = w.times::<A>(normed);
    let biased = model::biased::<A>(product, bias);
    assert(layer.runs(m.config.heads, m.width()));
    formulas::law_rmsnorm::<A>(ring, x, layer.attn_norm, eps);
    formulas::law_projects::<A>(ring, w, normed);
    model::law_matvec_rows::<A>(w, normed);
    match bias {
        None => {},
        Some(b) => {
            formulas::law_add::<A>(ring, product, b);
        },
    }
    match gain {
        None => {},
        Some(g) => {
            formulas::law_normalizes_heads::<A>(ring, biased, g, eps);
        },
    }
    let heads = model::head_normed::<A>(biased, gain, eps, m.config.heads.head_dim as int);
    let half = m.rope.half as int;
    attention::lemma_head_within(pos, m.config.max_seq_len as int, half);
    formulas::law_turns::<A>(ring, heads, m.rope.cos_at(pos), m.rope.sin_at(pos));
}

/// Without rounding, a query is made of a hidden state by normalizing it, multiplying
/// it with the query matrix, adding the bias, normalizing the heads and turning them.
pub proof fn law_query<A: Arith>(ring: Ring, m: ModelView, l: int, x: Seq<u32>, pos: int)
    requires
        ring.of::<A>(),
        layer_runs(m, l),
        x.len() == m.width(),
        0 <= pos < m.config.max_seq_len,
    ensures
        ring.is_query(m, l, x, pos, m.query::<A>(l, x, pos)),
        m.query::<A>(l, x, pos).len() == m.config.heads.q_dim(),
{
    let w = m.layers[l];
    assert(w.runs(m.config.heads, m.width()));
    lemma_makes_heads::<A>(ring, m, l, w.q, w.q_bias, w.q_norm, x, pos);
}

/// Without rounding, a key is made of a hidden state in the way of a query, with the
/// matrix, bias and gain of keys.
pub proof fn law_key<A: Arith>(ring: Ring, m: ModelView, l: int, x: Seq<u32>, pos: int)
    requires
        ring.of::<A>(),
        layer_runs(m, l),
        x.len() == m.width(),
        0 <= pos < m.config.max_seq_len,
    ensures
        ring.is_key(m, l, x, pos, m.key::<A>(l, x, pos)),
        m.key::<A>(l, x, pos).len() == m.config.heads.kv_dim(),
{
    let w = m.layers[l];
    assert(w.runs(m.config.heads, m.width()));
    lemma_makes_heads::<A>(ring, m, l, w.k, w.k_bias, w.k_norm, x, pos);
}

/// Without rounding, a value is made of a hidden state by normalizing it, multiplying
/// it with the value matrix and adding the bias. It is not turned.
pub proof fn law_value<A: Arith>(ring: Ring, m: ModelView, l: int, x: Seq<u32>)
    requires
        ring.of::<A>(),
        layer_runs(m, l),
        x.len() == m.width(),
    ensures
        ring.is_value(m, l, x, m.value::<A>(l, x)),
        m.value::<A>(l, x).len() == m.config.heads.kv_dim(),
{
    let w = m.layers[l];
    assert(w.runs(m.config.heads, m.width()));
    let normed = m.attn_input::<A>(l, x);
    let product = w.v.times::<A>(normed);
    formulas::law_rmsnorm::<A>(ring, x, w.attn_norm, m.config.rms_norm_eps);
    formulas::law_projects::<A>(ring, w.v, normed);
    model::law_matvec_rows::<A>(w.v, normed);
    match w.v_bias {
        None => {},
        Some(b) => {
            formulas::law_add::<A>(ring, product, b);
        },
    }
    assert(ring.makes_value(m, l, x, normed, product, m.value::<A>(l, x)));
}

/// Without rounding, a layer adds to a hidden state what its query gathers, and then
/// what the gated MLP makes of the sum.
pub proof fn law_layer<A: Arith>(
    ring: Ring,
    m: ModelView,
    l: int,
    x: Seq<u32>,
    pos: int,
    k: Seq<u32>,
    v: Seq<u32>,
)
    requires
        ring.of::<A>(),
        layer_runs(m, l),
        x.len() == m.width(),
        0 <= pos < m.config.max_seq_len,
        (pos + 1) * m.config.heads.kv_dim() <= k.len(),
        (pos + 1) * m.config.heads.kv_dim() <= v.len(),
    ensures
        ring.is_layer(m, l, x, pos, k, v, m.block::<A>(l, x, pos, k, v)),
        m.block::<A>(l, x, pos, k, v).len() == m.width(),
{
    let w = m.layers[l];
    let heads = m.config.heads;
    let eps = m.config.rms_norm_eps;
    assert(w.runs(heads, m.width()));
    law_query::<A>(ring, m, l, x, pos);
    let query = m.query::<A>(l, x, pos);
    let gathered = attention::attend_of::<A>(query, k, v, pos + 1, heads);
    formulas::law_attends::<A>(ring, query, k, v, pos + 1, heads);
    let mixed = w.o.times::<A>(gathered);
    formulas::law_projects::<A>(ring, w.o, gathered);
    model::law_matvec_rows::<A>(w.o, gathered);
    let middle = tensor::add_seq::<A>(x, mixed);
    formulas::law_add::<A>(ring, x, mixed);
    let normed = tensor::rmsnorm_of::<A>(middle, w.ffn_norm, eps);
    formulas::law_rmsnorm::<A>(ring, middle, w.ffn_norm, eps);
    let gate = w.gate.times::<A>(normed);
    let up = w.up.times::<A>(normed);
    formulas::law_projects::<A>(ring, w.gate, normed);
    formulas::law_projects::<A>(ring, w.up, normed);
    model::law_matvec_rows::<A>(w.gate, normed);
    model::law_matvec_rows::<A>(w.up, normed);
    let inner = tensor::mul_seq::<A>(tensor::silu_of::<A>(gate), up);
    formulas::law_gated::<A>(ring, gate, up);
    let change = w.down.times::<A>(inner);
    formulas::law_projects::<A>(ring, w.down, inner);
    model::law_matvec_rows::<A>(w.down, inner);
    formulas::law_add::<A>(ring, middle, change);
    let steps = LayerSteps {
        query,
        gathered,
        mixed,
        middle,
        normed,
        gate,
        up,
        inner,
        change,
    };
    assert(ring.makes_layer(m, l, x, pos, k, v, steps, m.block::<A>(l, x, pos, k, v)));
}

/// Without rounding, the logits are the products of the rows of the head with the
/// normalized hidden state.
pub proof fn law_logits<A: Arith>(ring: Ring, m: ModelView, x: Seq<u32>)
    requires
        ring.of::<A>(),
        m.runs(),
        m.embed.shape.len() == 2,
        m.lm_head.fault(m.width()) is None,
        x.len() == m.width(),
    ensures
        ring.is_logits(m, x, m.logits::<A>(x)),
{
    let normed = tensor::rmsnorm_of::<A>(x, m.final_norm, m.config.rms_norm_eps);
    formulas::law_rmsnorm::<A>(ring, x, m.final_norm, m.config.rms_norm_eps);
    formulas::law_projects::<A>(ring, m.lm_head, normed);
}

/// A hidden state begins as the row of its token in the embedding table.
pub proof fn law_embedding<A: Arith>(m: ModelView, tokens: Seq<u32>, t: int, j: int)
    requires
        m.runs(),
        0 <= t < tokens.len(),
        m.row_fault(tokens[t]) is None,
        0 <= j < m.width(),
    ensures
        m.hidden::<A>(tokens, 0, t).len() == m.embed.shape[1],
        m.hidden::<A>(tokens, 0, t)[j] == m.embed.data[tokens[t] * m.embed.shape[1] + j],
{
    tensor::lemma_numel_2(m.embed.shape);
    attention::lemma_head_within(tokens[t] as int, m.embed.shape[0] as int, m.width());
}

/// Row `s` of what is kept of `t` positions.
pub open spec fn kept_row(rows: Seq<u32>, width: int, s: int) -> Seq<u32> {
    rows.subrange(s * width, s * width + width)
}

/// Whether tokens can be run through the first `l` layers.
pub open spec fn layers_run(m: ModelView, tokens: Seq<u32>, l: int) -> bool {
    &&& m.runs()
    &&& m.embed.shape.len() == 2
    &&& tokens.len() <= m.config.max_seq_len
    &&& forall|t: int| 0 <= t < tokens.len() ==> m.row_fault(#[trigger] tokens[t]) is None
    &&& 0 <= l <= m.depth()
    &&& forall|i: int|
        0 <= i < l ==> (#[trigger] m.layers[i]).fault(m.config.heads, m.width()) is None
}

/// Without rounding, what a layer keeps of each position is the key and the value of
/// its hidden state there, and its result at position `t` is what it makes of the
/// hidden state at `t` and of what it has kept of the positions up to `t`.
pub proof fn law_hidden<A: Arith>(ring: Ring, m: ModelView, tokens: Seq<u32>, l: int, t: int)
    requires
        ring.of::<A>(),
        layers_run(m, tokens, l + 1),
        0 <= l,
        0 <= t < tokens.len(),
    ensures
        ({
            let k = m.keys::<A>(tokens, l, t + 1);
            let v = m.values::<A>(tokens, l, t + 1);
            let width = m.config.heads.n_kv_heads * m.config.heads.head_dim;
            &&& k.len() == (t + 1) * width && v.len() == (t + 1) * width
            &&& forall|s: int|
                0 <= s <= t ==> {
                    &&& ring.is_key(
                        m,
                        l,
                        #[trigger] m.hidden::<A>(tokens, l, s),
                        s,
                        kept_row(k, width, s),
                    )
                    &&& ring.is_value(m, l, m.hidden::<A>(tokens, l, s), kept_row(v, width, s))
                }
            &&& ring.is_layer(
                m,
                l,
                m.hidden::<A>(tokens, l, t),
                t,
                k,
                v,
                m.hidden::<A>(tokens, l + 1, t),
            )
        }),
{
    lemma_kept::<A>(ring, m, tokens, l, t + 1);
    lemma_hidden_width::<A>(ring, m, tokens, l, t);
    assert(m.layers[l].fault(m.config.heads, m.width()) is None);
    law_layer::<A>(
        ring,
        m,
        l,
        m.hidden::<A>(tokens, l, t),
        t,
        m.keys::<A>(tokens, l, t + 1),
        m.values::<A>(tokens, l, t + 1),
    );
}

proof fn lemma_hidden_width<A: Arith>(ring: Ring, m: ModelView, tokens: Seq<u32>, l: int, t: int)
    requires
        ring.of::<A>(),
        layers_run(m, tokens, l),
        0 <= t < tokens.len(),
    ensures
        m.hidden::<A>(tokens, l, t).len() == m.width(),
    decreases l, 0int,
{
    if l <= 0 {
        assert(m.row_fault(tokens[t]) is None);
        law_embedding::<A>(m, tokens, t, 0);
    } else {
        lemma_hidden_width::<A>(ring, m, tokens, l - 1, t);
        lemma_kept::<A>(ring, m, tokens, l - 1, t + 1);
        assert(m.layers[l - 1].fault(m.config.heads, m.width()) is None);
        law_layer::<A>(
            ring,
            m,
            l - 1,
            m.hidden::<A>(tokens, l - 1, t),
            t,
            m.keys::<A>(tokens, l - 1, t + 1),
            m.values::<A>(tokens, l - 1, t + 1),
        );
    }
}

proof fn lemma_kept<A: Arith>(ring: Ring, m: ModelView, tokens: Seq<u32>, l: int, n: int)
    requires
        ring.of::<A>(),
        layers_run(m, tokens, l + 1),
        0 <= l,
        0 <= n <= tokens.len(),
    ensures
        ({
            let width = m.config.heads.n_kv_heads * m.config.heads.head_dim;
            let k = m.keys::<A>(tokens, l, n);
            let v = m.values::<A>(tokens, l, n);
            &&& k.len() == n * width && v.len() == n * width
            &&& forall|s: int|
                0 <= s < n ==> {
                    &&& ring.is_key(
                        m,
                        l,
                        #[trigger] m.hidden::<A>(tokens, l, s),
                        s,
                        kept_row(k, width, s),
                    )
                    &&& ring.is_value(m, l, m.hidden::<A>(tokens, l, s), kept_row(v, width, s))
                }
        }),
    decreases l, 1 + n,
{
    let width = m.config.heads.n_kv_heads * m.config.heads.head_dim;
    if n > 0 {
        lemma_kept::<A>(ring, m, tokens, l, n - 1);
        lemma_hidden_width::<A>(ring, m, tokens, l, n - 1);
        assert(m.layers[l].fault(m.config.heads, m.width()) is None);
        let x = m.hidden::<A>(tokens, l, n - 1);
        law_key::<A>(ring, m, l, x, n - 1);
        law_value::<A>(ring, m, l, x);
        let k0 = m.keys::<A>(tokens, l, n - 1);
        let v0 = m.values::<A>(tokens, l, n - 1);
        let k = m.keys::<A>(tokens, l, n);
        let v = m.values::<A>(tokens, l, n);
        assert(n * width == (n - 1) * width + width) by (nonlinear_arith);
        assert forall|s: int| 0 <= s < n implies {
            &&& ring.is_key(m, l, #[trigger] m.hidden::<A>(tokens, l, s), s, kept_row(k, width, s))
            &&& ring.is_value(m, l, m.hidden::<A>(tokens, l, s), kept_row(v, width, s))
        } by {
            attention::lemma_head_within(s, n, width);
            if s < n - 1 {
                attention::lemma_head_within(s, n - 1, width);
                assert(kept_row(k, width, s) =~= kept_row(k0, width, s));
                assert(kept_row(v, width, s) =~= kept_row(v0, width, s));
            } else {
                assert(kept_row(k, width, s) =~= m.key::<A>(l, x, n - 1));
                assert(kept_row(v, width, s) =~= m.value::<A>(l, x));
            }
        }
    } else {
        assert(0 * width == 0);
    }
}

impl Ring {
    /// Whether `k` and `v` are what layer `l` keeps of the positions up to `t`: for each
    /// the key and the value of its hidden state.
    pub open spec fn keeps(
        self,
        m: ModelView,
        l: int,
        states: spec_fn(int, int) -> Seq<u32>,
        t: int,
        k: Seq<u32>,
        v: Seq<u32>,
    ) -> bool {
        let width = m.config.heads.n_kv_heads * m.config.heads.head_dim;
        &&& k.len() == (t + 1) * width
        &&& v.len() == (t + 1) * width
        &&& forall|s: int|
            0 <= s <= t ==> {
                &&& self.is_key(m, l, #[trigger] states(l, s), s, kept_row(k, width, s))
                &&& self.is_value(m, l, states(l, s), kept_row(v, width, s))
            }
    }

    /// Whether layer `l` makes the next hidden state of the one at position `t`, of what
    /// it keeps of the positions up to `t`.
    pub open spec fn steps(
        self,
        m: ModelView,
        l: int,
        states: spec_fn(int, int) -> Seq<u32>,
        t: int,
    ) -> bool {
        exists|k: Seq<u32>, v: Seq<u32>|
            {
                &&& #[trigger] self.keeps(m, l, states, t, k, v)
                &&& self.is_layer(m, l, states(l, t), t, k, v, states(l + 1, t))
            }
    }

    /// Whether the hidden states of tokens are those of a model: each begins as the row of
    /// its token in the embedding table, and every layer makes the next.
    pub open spec fn runs_through(
        self,
        m: ModelView,
        tokens: Seq<u32>,
        states: spec_fn(int, int) -> Seq<u32>,
    ) -> bool {
        let width = m.embed.shape[1] as int;
        &&& forall|t: int|
            0 <= t < tokens.len() ==> #[trigger] states(0, t) == m.embed.data.subrange(
                tokens[t] * width,
                tokens[t] * width + width,
            )
        &&& forall|l: int, t: int|
            0 <= l < m.layers.len() && 0 <= t < tokens.len() ==> #[trigger] self.steps(
                m,
                l,
                states,
                t,
            )
    }
}

/// Without rounding, the logits of tokens are those of the last hidden state after all
/// layers, whether the tokens are forwarded through a cache or in one sweep.
pub proof fn law_forward<A: Arith>(ring: Ring, m: ModelView, tokens: Seq<u32>, layers: int)
    requires
        ring.of::<A>(),
        m.runs(),
        m.full_error(tokens) is None,
        m.layers.len() <= layers,
    ensures
        ({
            let logits = m.forwarded::<A>(tokens, model::empty_cache(layers)).0;
            let depth = m.layers.len() as int;
            exists|states: spec_fn(int, int) -> Seq<u32>|
                {
                    &&& #[trigger] ring.runs_through(m, tokens, states)
                    &&& ring.is_logits(m, states(depth, tokens.len() - 1), logits)
                    &&& m.logits::<A>(m.hidden::<A>(tokens, depth, tokens.len() - 1)) == logits
                }
        }),
{
    let depth = m.layers.len() as int;
    let states = |l: int, t: int| m.hidden::<A>(tokens, l, t);
    crate::causality::lemma_first_row_fault(m, tokens, 0);
    assert forall|i: int| 0 <= i < depth implies (#[trigger] m.layers[i]).fault(
        m.config.heads,
        m.width(),
    ) is None by {
        crate::gqa::lemma_layer_ok(m, i, depth);
    }
    assert(layers_run(m, tokens, depth));
    assert forall|t: int| 0 <= t < tokens.len() implies #[trigger] states(0, t)
        == m.embed.data.subrange(
        tokens[t] * m.embed.shape[1],
        tokens[t] * m.embed.shape[1] + m.embed.shape[1],
    ) by {
        attention::lemma_head_within(tokens[t] as int, tokens[t] + 1, m.width());
    }
    assert forall|l: int, t: int| 0 <= l < depth && 0 <= t < tokens.len() implies #[trigger] ring.steps(
        m,
        l,
        states,
        t,
    ) by {
        assert(layers_run(m, tokens, l + 1));
        law_hidden::<A>(ring, m, tokens, l, t);
        let k = m.keys::<A>(tokens, l, t + 1);
        let v = m.values::<A>(tokens, l, t + 1);
        let width = m.config.heads.n_kv_heads * m.config.heads.head_dim;
        assert forall|s: int| 0 <= s <= t implies {
            &&& ring.is_key(m, l, #[trigger] states(l, s), s, kept_row(k, width, s))
            &&& ring.is_value(m, l, states(l, s), kept_row(v, width, s))
        } by {
            assert(states(l, s) == m.hidden::<A>(tokens, l, s));
        }
        assert(ring.keeps(m, l, states, t, k, v));
    }
    assert(ring.runs_through(m, tokens, states));
    let last = tokens.len() - 1;
    lemma_hidden_width::<A>(ring, m, tokens, depth, last);
    law_logits::<A>(ring, m, m.hidden::<A>(tokens, depth, last));
    crate::causality::law_cache_matches_full::<A>(m, tokens, layers);
}

} // verus!
