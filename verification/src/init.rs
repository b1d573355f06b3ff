//! Deterministically initialized random models.

use vstd::prelude::*;

use crate::arith;
use crate::arith::Arith;
use crate::bits;
use crate::config::{ConfigView, ModelConfig};
use crate::format::WeightView;
use crate::model::{LayerView, LayerWeights, Linear, Model, ModelView};
use crate::ring::Ring;
use crate::rng;
use crate::rng::Generator;
use crate::rope::RopeTables;
use crate::tensor;
use crate::tensor::{Tensor, TensorView};

verus! {

/// The weight that a random word gives in a row of `cols` weights: uniform in
/// `[-1/sqrt(cols), 1/sqrt(cols))`.
pub open spec fn random_weight<A: Arith>(word: u32, cols: usize) -> u32 {
    arith::mul_of::<A>(
        arith::mul_of::<A>(
            arith::sub_of::<A>(rng::uniform_of(word), bits::ONE_HALF),
            bits::TWO,
        ),
        arith::div_of::<A>(bits::ONE, arith::sqrt_of::<A>(arith::count_of::<A>(cols))),
    )
}

/// The matrix that the words from `from` on give.
pub open spec fn random_matrix_of<A: Arith>(
    words: Map<int, u32>,
    from: int,
    rows: usize,
    cols: usize,
) -> TensorView {
    tensor::tensor_of(
        Seq::new((rows * cols) as nat, |i: int| random_weight::<A>(words[from + i], cols)),
        seq![rows, cols],
    )
}

/// A vector of ones.
pub open spec fn ones(n: int) -> Seq<u32> {
    Seq::new(n as nat, |i: int| bits::ONE)
}

/// How many words a layer takes.
pub open spec fn layer_words(c: ConfigView) -> int {
    let d = c.hidden_size;
    c.heads.q_dim() * d + c.heads.kv_dim() * d + c.heads.kv_dim() * d + d * c.heads.q_dim()
        + c.intermediate_size * d + c.intermediate_size * d + d * c.intermediate_size
}

/// The layer that the words from `from` on give.
pub open spec fn random_layer_of<A: Arith>(c: ConfigView, words: Map<int, u32>, from: int) -> LayerView {
    let d = c.hidden_size;
    let inter = c.intermediate_size;
    let qd = c.heads.q_dim() as usize;
    let kvd = c.heads.kv_dim() as usize;
    let k_from = from + qd * d;
    let v_from = k_from + kvd * d;
    let o_from = v_from + kvd * d;
    let gate_from = o_from + d * qd;
    let up_from = gate_from + inter * d;
    let down_from = up_from + inter * d;
    LayerView {
        attn_norm: ones(d as int),
        q: WeightView::F32(random_matrix_of::<A>(words, from, qd, d)),
        k: WeightView::F32(random_matrix_of::<A>(words, k_from, kvd, d)),
        v: WeightView::F32(random_matrix_of::<A>(words, v_from, kvd, d)),
        o: WeightView::F32(random_matrix_of::<A>(words, o_from, d, qd)),
        q_bias: None,
        k_bias: None,
        v_bias: None,
        q_norm: None,
        k_norm: None,
        ffn_norm: ones(d as int),
        gate: WeightView::F32(random_matrix_of::<A>(words, gate_from, inter, d)),
        up: WeightView::F32(random_matrix_of::<A>(words, up_from, inter, d)),
        down: WeightView::F32(random_matrix_of::<A>(words, down_from, d, inter)),
    }
}

/// Where the words of layer `l` begin.
pub open spec fn layer_from(c: ConfigView, l: int) -> int {
    c.vocab_size * c.hidden_size + c.vocab_size * c.hidden_size + l * layer_words(c)
}

/// Whether all matrices of a config can be counted.
pub open spec fn sizes_fit(c: ConfigView) -> bool {
    &&& c.heads.head_dim % 2 == 0
    &&& c.heads.q_dim() <= usize::MAX
    &&& c.heads.kv_dim() <= usize::MAX
    &&& c.vocab_size * c.hidden_size <= usize::MAX
    &&& c.heads.q_dim() * c.hidden_size <= usize::MAX
    &&& c.heads.kv_dim() * c.hidden_size <= usize::MAX
    &&& c.intermediate_size * c.hidden_size <= usize::MAX
    &&& c.max_seq_len * (c.heads.head_dim / 2) <= usize::MAX
}

/// Whether a stream is what is left of `words` after the first `n`.
spec fn ahead(stream: Map<int, u32>, words: Map<int, u32>, n: int) -> bool {
    forall|i: int| i >= 0 ==> #[trigger] stream[i] == words[i + n]
}

fn random_matrix<A: Arith>(
    source: &mut Generator,
    rows: usize,
    cols: usize,
    Ghost(words): Ghost<Map<int, u32>>,
    Ghost(from): Ghost<int>,
) -> (t: Tensor)
    requires
        rows * cols <= usize::MAX,
        ahead(old(source).words(), words, from),
    ensures
        t@.wf(),
        t.shape@ == seq![rows, cols],
        ahead(final(source).words(), words, from + rows * cols),
        arith::deterministic::<A>() ==> t@ == random_matrix_of::<A>(words, from, rows, cols),
{
    let total: usize = rows * cols;
    let scale: u32 = A::div32(bits::ONE, A::sqrt32(A::count32(cols)));
    let mut data: Vec<u32> = Vec::with_capacity(total);
    while data.len() < total
        invariant
            data@.len() <= total == rows * cols,
            ahead(source.words(), words, from + data@.len()),
            arith::deterministic::<A>() ==> scale == arith::div_of::<A>(
                bits::ONE,
                arith::sqrt_of::<A>(arith::count_of::<A>(cols)),
            ),
            arith::deterministic::<A>() ==> forall|i: int|
                0 <= i < data@.len() ==> data@[i] == random_weight::<A>(words[from + i], cols),
        decreases total - data@.len(),
    {
        let ghost before = source.words();
        let word: u32 = source.next_word();
        proof {
            assert(before[0] == words[0 + (from + data@.len())]);
            assert forall|i: int| i >= 0 implies #[trigger] source.words()[i] == words[i
                + (from + data@.len() + 1)] by {
                assert(source.words()[i] == before[i + 1]);
            }
        }
        data.push(A::mul32(A::mul32(A::sub32(rng::uniform(word), bits::ONE_HALF), bits::TWO), scale));
    }
    let mut shape: Vec<usize> = Vec::new();
    shape.push(rows);
    shape.push(cols);
    proof {
        tensor::lemma_numel_2(shape@);
        assert(shape@ =~= seq![rows, cols]);
    }
    let strides = tensor::compute_strides(&shape);
    let t = Tensor { data, shape, strides };
    proof {
        if arith::deterministic::<A>() {
            assert(t@.data =~= random_matrix_of::<A>(words, from, rows, cols).data);
        }
    }
    t
}

fn vector_of_ones(n: usize) -> (v: Vec<u32>)
    ensures
        v@ == ones(n as int),
{
    let v: Vec<u32> = vec![bits::ONE; n];
    assert(v@ =~= ones(n as int));
    v
}

/// Whether a matrix is dense and has the given shape.
pub open spec fn dense(w: WeightView, rows: int, cols: int) -> bool {
    w matches WeightView::F32(t) && t.wf() && t.shape.len() == 2 && t.shape[0] == rows && t.shape[1]
        == cols
}

/// Whether a layer has the shapes of a config, gains of one, no biases and no
/// head norms.
pub open spec fn shaped(l: LayerView, c: ConfigView) -> bool {
    let d = c.hidden_size as int;
    let inter = c.intermediate_size as int;
    let qd = c.heads.q_dim();
    let kvd = c.heads.kv_dim();
    &&& l.attn_norm == ones(d)
    &&& l.ffn_norm == ones(d)
    &&& dense(l.q, qd, d)
    &&& dense(l.k, kvd, d)
    &&& dense(l.v, kvd, d)
    &&& dense(l.o, d, qd)
    &&& dense(l.gate, inter, d)
    &&& dense(l.up, inter, d)
    &&& dense(l.down, d, inter)
    &&& l.q_bias is None
    &&& l.k_bias is None
    &&& l.v_bias is None
    &&& l.q_norm is None
    &&& l.k_norm is None
}

fn random_layer<A: Arith>(
    source: &mut Generator,
    config: &ModelConfig,
    Ghost(words): Ghost<Map<int, u32>>,
    Ghost(from): Ghost<int>,
) -> (l: LayerWeights)
    requires
        sizes_fit(config@),
        ahead(old(source).words(), words, from),
    ensures
        shaped(l@, config@),
        ahead(final(source).words(), words, from + layer_words(config@)),
        arith::deterministic::<A>() ==> l@ == random_layer_of::<A>(config@, words, from),
{
    let d: usize = config.hidden_size;
    let qd: usize = config.n_heads * config.head_dim;
    let kvd: usize = config.n_kv_heads * config.head_dim;
    let inter: usize = config.intermediate_size;
    proof {
        assert(d * qd == qd * d) by (nonlinear_arith);
        assert(d * inter == inter * d) by (nonlinear_arith);
    }
    let ghost at = from;
    let q = random_matrix::<A>(source, qd, d, Ghost(words), Ghost(at));
    let ghost at = at + qd * d;
    let k = random_matrix::<A>(source, kvd, d, Ghost(words), Ghost(at));
    let ghost at = at + kvd * d;
    let v = random_matrix::<A>(source, kvd, d, Ghost(words), Ghost(at));
    let ghost at = at + kvd * d;
    let o = random_matrix::<A>(source, d, qd, Ghost(words), Ghost(at));
    let ghost at = at + d * qd;
    let gate = random_matrix::<A>(source, inter, d, Ghost(words), Ghost(at));
    let ghost at = at + inter * d;
    let up = random_matrix::<A>(source, inter, d, Ghost(words), Ghost(at));
    let ghost at = at + inter * d;
    let down = random_matrix::<A>(source, d, inter, Ghost(words), Ghost(at));
    LayerWeights {
        attn_norm: vector_of_ones(d),
        q: Linear::F32(q),
        k: Linear::F32(k),
        v: Linear::F32(v),
        o: Linear::F32(o),
        q_bias: None,
        k_bias: None,
        v_bias: None,
        q_norm: None,
        k_norm: None,
        ffn_norm: vector_of_ones(d),
        gate: Linear::F32(gate),
        up: Linear::F32(up),
        down: Linear::F32(down),
    }
}

proof fn lemma_shaped_runs(l: LayerView, c: ConfigView)
    requires
        shaped(l, c),
        c.hidden_size > 0,
        c.intermediate_size > 0,
        c.heads.n_heads > 0,
        c.heads.fit(),
    ensures
        l.runs(c.heads, c.hidden_size as int),
        l.fault(c.heads, c.hidden_size as int) is None,
{
    let n = c.heads.n_heads;
    let hd = c.heads.head_dim;
    assert(n * hd > 0) by (nonlinear_arith)
        requires
            n > 0,
            hd > 0,
    ;
}

/// Whether rounding keeps products and differences within the bounds that they
/// have without it: a number from 0 to below 1, less a half, is a half at most in
/// magnitude; twice a half at most is 1 at most; and what is multiplied by 1 at
/// most does not grow. All magnitudes here are those of encodings, which are
/// ordered like the values.
pub open spec fn rounds_within<A: Arith>() -> bool {
    &&& forall|u: u32|
        u < bits::ONE ==> bits::magnitude(#[trigger] arith::sub_of::<A>(u, bits::ONE_HALF))
            <= bits::ONE_HALF
    &&& forall|a: u32|
        bits::magnitude(a) <= bits::ONE_HALF ==> bits::magnitude(
            #[trigger] arith::mul_of::<A>(a, bits::TWO),
        ) <= bits::ONE
    &&& forall|a: u32, b: u32|
        bits::magnitude(a) <= bits::ONE && bits::magnitude(b) < bits::INFINITY ==> bits::magnitude(
            #[trigger] arith::mul_of::<A>(a, b),
        ) <= bits::magnitude(b)
}

/// Where rounding keeps bounds, no weight of a random matrix exceeds, in
/// magnitude, one over the square root of its columns, as computed.
pub proof fn law_random_weights_are_bounded<A: Arith>(
    words: Map<int, u32>,
    from: int,
    rows: usize,
    cols: usize,
    i: int,
)
    requires
        rounds_within::<A>(),
        bits::magnitude(
            arith::div_of::<A>(bits::ONE, arith::sqrt_of::<A>(arith::count_of::<A>(cols))),
        ) < bits::INFINITY,
        0 <= i < rows * cols,
    ensures
        bits::magnitude(random_matrix_of::<A>(words, from, rows, cols).data[i]) <= bits::magnitude(
            arith::div_of::<A>(bits::ONE, arith::sqrt_of::<A>(arith::count_of::<A>(cols))),
        ),
{
    let word = words[from + i];
    rng::lemma_uniform_range(word);
    let u = rng::uniform_of(word);
    let centered = arith::sub_of::<A>(u, bits::ONE_HALF);
    assert(bits::magnitude(centered) <= bits::ONE_HALF);
    assert(bits::magnitude(arith::mul_of::<A>(centered, bits::TWO)) <= bits::ONE);
}

/// The same config and seed give models with the same weights.
pub proof fn law_random_is_reproducible<A: Arith>(a: ModelView, b: ModelView, c: ConfigView, seed: u64)
    requires
        random_model::<A>(a, c, seed),
        random_model::<A>(b, c, seed),
    ensures
        a.config == b.config,
        a.embed == b.embed,
        a.layers == b.layers,
        a.final_norm == b.final_norm,
        a.lm_head == b.lm_head,
        a.rope == b.rope,
{
    assert(a.layers =~= b.layers);
    assert forall|p: int| 0 <= p < c.max_seq_len implies a.rope.cos_at(p) == b.rope.cos_at(p)
        && a.rope.sin_at(p) == b.rope.sin_at(p) by {}
    let half = c.heads.head_dim as int / 2;
    if half > 0 {
        assert forall|j: int| 0 <= j < a.rope.cos.len() implies a.rope.cos[j] == b.rope.cos[j]
            && a.rope.sin[j] == b.rope.sin[j] by {
            let p = j / half;
            let i = j % half;
            vstd::arithmetic::div_mod::lemma_fundamental_div_mod(j, half);
            assert(j == p * half + i) by (nonlinear_arith)
                requires
                    j == half * p + i,
            ;
            assert(0 <= p < c.max_seq_len) by (nonlinear_arith)
                requires
                    j == p * half + i,
                    0 <= i < half,
                    0 <= j < c.max_seq_len * half,
            ;
            assert(p * half + half <= c.max_seq_len * half) by (nonlinear_arith)
                requires
                    p + 1 <= c.max_seq_len,
                    half > 0,
            ;
            assert(a.rope.cos_at(p)[i] == a.rope.cos[j]);
            assert(b.rope.cos_at(p)[i] == b.rope.cos[j]);
            assert(a.rope.sin_at(p)[i] == a.rope.sin[j]);
            assert(b.rope.sin_at(p)[i] == b.rope.sin[j]);
        }
    }
    if half == 0 {
        assert(c.max_seq_len * half == 0) by (nonlinear_arith)
            requires
                half == 0,
        ;
    }
    assert(a.rope.cos =~= b.rope.cos);
    assert(a.rope.sin =~= b.rope.sin);
}

/// Whether a model is the one that a config and a seed give.
pub open spec fn random_model<A: Arith>(m: ModelView, c: ConfigView, seed: u64) -> bool {
    &&& m.config == c
    &&& m.embed == random_matrix_of::<A>(rng::seeded_words(seed), 0, c.vocab_size, c.hidden_size)
    &&& m.lm_head == WeightView::F32(
        random_matrix_of::<A>(
            rng::seeded_words(seed),
            c.vocab_size * c.hidden_size,
            c.vocab_size,
            c.hidden_size,
        ),
    )
    &&& m.layers.len() == c.n_layers
    &&& forall|l: int|
        0 <= l < c.n_layers ==> #[trigger] m.layers[l] == random_layer_of::<A>(
            c,
            rng::seeded_words(seed),
            layer_from(c, l),
        )
    &&& m.final_norm == ones(c.hidden_size as int)
    &&& m.rope.half == c.heads.head_dim / 2
    &&& m.rope.cos.len() == c.max_seq_len * (c.heads.head_dim / 2)
    &&& m.rope.sin.len() == c.max_seq_len * (c.heads.head_dim / 2)
    &&& m.rope.tabulates::<A>(c.max_seq_len as int, c.heads.head_dim, c.rope_theta)
}

impl Model {
    /// Deterministically initialized random model for tests and smoke runs.
    /// Weights are uniform in `[-1/sqrt(fan_in), 1/sqrt(fan_in))`; norm gains
    /// are 1.0, and there are no biases.
    pub fn random<A: Arith>(config: ModelConfig, seed: u64) -> (m: Model)
        requires
            sizes_fit(config@),
        ensures
            m@.config == config@,
            m@.depth() == config.n_layers,
            m@.embed.wf() && m@.embed.shape == seq![config.vocab_size, config.hidden_size],
            m@.final_norm == ones(config.hidden_size as int),
            dense(m@.lm_head, config.vocab_size as int, config.hidden_size as int),
            forall|l: int| 0 <= l < config.n_layers ==> shaped(#[trigger] m@.layers[l], config@),
            m@.rope.half == config.head_dim / 2,
            m@.rope.cos.len() == config.max_seq_len * (config.head_dim / 2),
            m@.rope.sin.len() == config.max_seq_len * (config.head_dim / 2),
            config.hidden_size > 0 && config.intermediate_size > 0 && config.n_heads > 0
                && config@.heads.fit() ==> m@.runs() && m@.fault() is None,
            arith::deterministic::<A>() ==> random_model::<A>(m@, config@, seed),
    {
        let ghost c = config@;
        let ghost words = rng::seeded_words(seed);
        let mut source = Generator::new(seed);
        let d: usize = config.hidden_size;
        let vocab: usize = config.vocab_size;
        let ghost at = vocab * d;
        let embed = random_matrix::<A>(&mut source, vocab, d, Ghost(words), Ghost(0int));
        let lm_head = random_matrix::<A>(&mut source, vocab, d, Ghost(words), Ghost(at));
        let mut layers: Vec<LayerWeights> = Vec::with_capacity(config.n_layers);
        proof {
            assert(0 * layer_words(c) == 0);
        }
        while layers.len() < config.n_layers
            invariant
                layers@.len() <= config.n_layers,
                c == config@,
                sizes_fit(c),
                ahead(source.words(), words, layer_from(c, layers@.len() as int)),
                forall|l: int| 0 <= l < layers@.len() ==> shaped((#[trigger] layers@[l])@, c),
                arith::deterministic::<A>() ==> forall|l: int|
                    0 <= l < layers@.len() ==> (#[trigger] layers@[l])@ == random_layer_of::<A>(
                        c,
                        words,
                        layer_from(c, l),
                    ),
            decreases config.n_layers - layers@.len(),
        {
            let ghost n = layers@.len() as int;
            let layer = random_layer::<A>(
                &mut source,
                &config,
                Ghost(words),
                Ghost(layer_from(c, layers@.len() as int)),
            );
            proof {
                let w = layer_words(c);
                assert((n + 1) * w == n * w + w) by (nonlinear_arith);
            }
            layers.push(layer);
        }
        let rope = RopeTables::new::<A>(config.head_dim, config.max_seq_len, config.rope_theta);
        let m = Model {
            rope,
            embed,
            layers,
            final_norm: vector_of_ones(d),
            lm_head: Linear::F32(lm_head),
            config,
        };
        proof {
            assert forall|l: int| 0 <= l < c.n_layers implies shaped(
                #[trigger] m@.layers[l],
                c,
            ) by {
                assert(m@.layers[l] == m.layers@[l]@);
            }
            if d > 0 && c.intermediate_size > 0 && c.heads.n_heads > 0 && c.heads.fit() {
                assert forall|l: int| 0 <= l < m@.depth() implies (#[trigger] m@.layers[l]).runs(
                    c.heads,
                    d as int,
                ) && m@.layers[l].fault(c.heads, d as int) is None by {
                    assert(m@.layers[l] == m.layers@[l]@);
                    lemma_shaped_runs(m@.layers[l], c);
                }
                lemma_no_fault(m@, m@.depth());
            }
        }
        m
    }
}

proof fn lemma_no_fault(m: ModelView, n: int)
    requires
        0 <= n <= m.depth(),
        forall|l: int|
            0 <= l < m.depth() ==> (#[trigger] m.layers[l]).fault(m.config.heads, m.width()) is None,
    ensures
        m.layers_fault(n) is None,
    decreases n,
{
    if n > 0 {
        lemma_no_fault(m, n - 1);
        assert(m.layers[n - 1].fault(m.config.heads, m.width()) is None);
    }
}

/// Without rounding, a random weight times the root of the number of columns is twice
/// the number that its word stands for, less 1.
pub proof fn law_random_weight<A: Arith>(ring: Ring, word: u32, cols: usize)
    requires
        ring.of::<A>(),
        ring.eq(2 * ring.val(bits::ONE_HALF), 1),
        exists|r: int| #[trigger] ring.root(r, cols as int) && ring.unit(r),
    ensures
        exists|r: int|
            {
                &&& #[trigger] ring.root(r, cols as int)
                &&& ring.eq(
                    ring.val(random_weight::<A>(word, cols)) * r,
                    2 * ring.val(rng::uniform_of(word)) - 1,
                )
            },
{
    let r0 = choose|r: int| #[trigger] ring.root(r, cols as int) && ring.unit(r);
    let count = arith::count_of::<A>(cols);
    let root = arith::sqrt_of::<A>(count);
    let r = ring.val(root);
    assert(ring.eq(ring.val(count), cols as int));
    ring.sym(ring.val(count), cols as int);
    ring.trans(r0 * r0, cols as int, ring.val(count));
    assert(ring.root(r0, ring.val(count)));
    ring.trans(r * r, ring.val(count), cols as int);
    let i0 = choose|b: int| #[trigger] ring.inverse(r0, b);
    ring.same(r0 * i0, 1, r0 * i0, 1);
    assert((r0 * i0) * (r0 * i0) == (r0 * r0) * (i0 * i0)) by (nonlinear_arith);
    assert(ring.inverse(r0 * r0, i0 * i0));
    ring.sym(r0 * r0, cols as int);
    ring.unit_same(cols as int, r0 * r0);
    ring.factor(r, r, cols as int);
    ring.refl(r);
    let inv = arith::div_of::<A>(bits::ONE, root);
    let vi = ring.val(inv);
    ring.ops::<A>(bits::ONE, 1, root, r);
    let u = rng::uniform_of(word);
    let vu = ring.val(u);
    let h = ring.val(bits::ONE_HALF);
    ring.refl(vu);
    ring.refl(h);
    ring.refl(vi);
    ring.ops::<A>(u, vu, bits::ONE_HALF, h);
    let centered = arith::sub_of::<A>(u, bits::ONE_HALF);
    ring.ops::<A>(centered, vu - h, bits::TWO, 2);
    let twice = arith::mul_of::<A>(centered, bits::TWO);
    ring.refl(2 * vu);
    ring.same(2 * vu, 2 * vu, 2 * h, 1);
    assert((vu - h) * 2 == 2 * vu - 2 * h);
    ring.trans(ring.val(twice), 2 * vu - 2 * h, 2 * vu - 1);
    ring.ops::<A>(twice, 2 * vu - 1, inv, vi);
    let w = ring.val(random_weight::<A>(word, cols));
    let t = 2 * vu - 1;
    ring.times(w, t * vi, r);
    assert((t * vi) * r == t * (vi * r)) by (nonlinear_arith);
    ring.times(vi * r, 1, t);
    assert(t * 1 == t);
    ring.trans(w * r, t * (vi * r), t);
    assert(ring.root(r, cols as int));
}

/// A random model has gains of 1 everywhere, and no biases and no gains for heads.
pub proof fn law_random_gains<A: Arith>(m: ModelView, c: ConfigView, seed: u64, l: int, i: int)
    requires
        random_model::<A>(m, c, seed),
        0 <= l < c.n_layers,
        0 <= i < c.hidden_size,
    ensures
        m.layers[l].attn_norm.len() == c.hidden_size,
        m.layers[l].ffn_norm.len() == c.hidden_size,
        m.final_norm.len() == c.hidden_size,
        m.layers[l].attn_norm[i] == bits::ONE,
        m.layers[l].ffn_norm[i] == bits::ONE,
        m.final_norm[i] == bits::ONE,
        m.layers[l].q_bias is None,
        m.layers[l].k_bias is None,
        m.layers[l].v_bias is None,
        m.layers[l].q_norm is None,
        m.layers[l].k_norm is None,
{
    assert(m.layers[l] == random_layer_of::<A>(c, rng::seeded_words(seed), layer_from(c, l)));
}

/// No word is used twice in a random model: the words of its matrices follow each
/// other, those of a layer after those of the embedding table, of the head and of the
/// layers before it.
pub proof fn law_random_words_follow(c: ConfigView, l: int)
    requires
        0 <= l,
    ensures
        layer_from(c, 0) == 2 * (c.vocab_size * c.hidden_size),
        layer_from(c, l + 1) == layer_from(c, l) + 2 * (c.heads.n_heads * c.heads.head_dim
            * c.hidden_size) + 2 * (c.heads.n_kv_heads * c.heads.head_dim * c.hidden_size) + 3 * (
        c.intermediate_size * c.hidden_size),
{
    let d = c.hidden_size as int;
    let q = c.heads.q_dim();
    let i = c.intermediate_size as int;
    assert(0 * layer_words(c) == 0);
    assert((l + 1) * layer_words(c) == l * layer_words(c) + layer_words(c)) by (nonlinear_arith);
    assert(d * q == q * d && d * i == i * d) by (nonlinear_arith);
}

} // verus!
