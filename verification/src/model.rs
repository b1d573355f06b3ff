//! LLaMA-family transformer.
//!
//! One decoder layer is:
//!
//! ```text
//! x += O( Attention( RoPE(Q rmsnorm(x)), RoPE(K rmsnorm(x)), V rmsnorm(x)) )
//! x += Down( SiLU(Gate(rmsnorm(x))) * Up(rmsnorm(x)) )
//! ```
//!
//! with RMSNorm instead of LayerNorm, rotary position embeddings (RoPE),
//! multi-head / grouped-query attention (MHA/GQA) backed by a KV cache for
//! incremental decoding, and a SwiGLU MLP. Weight matrices may be dense or
//! block-quantized; [`Linear`] dispatches between the two matvec kernels.

use vstd::prelude::*;

use crate::arith;
use crate::arith::Arith;
use crate::attention;
use crate::config::ConfigView;
use crate::error::{ErrorView, MinqError, ModelErrorOf, ShapeErrorOf};
use crate::format::WeightView;
use crate::quantize;
use crate::quantize::QuantizedTensor;
use crate::rope::RopeView;
use crate::tensor;
use crate::tensor::{Tensor, TensorView};

pub use crate::checkpoint::{hf_config, load_safetensors, scan_safetensors_names, st_to_tensor};
pub use crate::config::{Heads, ModelConfig};
pub use crate::load::load_minq;
pub use crate::rope::{apply_rope, RopeTables};

verus! {

/// A shape error in a contract.
pub type ShapeFault = ShapeErrorOf<Seq<usize>>;

/// The first of two faults.
pub open spec fn first_of(a: Option<ShapeFault>, b: Option<ShapeFault>) -> Option<ShapeFault> {
    if a is Some {
        a
    } else {
        b
    }
}

/// A weight matrix `[out_features, in_features]` in either dense or
/// block-quantized storage.
#[derive(Debug, PartialEq)]
pub enum Linear {
    F32(Tensor),
    Quant(QuantizedTensor),
}

impl View for Linear {
    type V = WeightView;

    open spec fn view(&self) -> WeightView {
        match *self {
            Linear::F32(t) => WeightView::F32(t@),
            Linear::Quant(q) => WeightView::Quant(q@),
        }
    }
}

impl Clone for Linear {
    fn clone(&self) -> (w: Linear)
        ensures
            w@ == self@,
    {
        match self {
            Linear::F32(t) => Linear::F32(t.clone()),
            Linear::Quant(q) => Linear::Quant(q.clone()),
        }
    }
}

impl WeightView {
    /// The number of output features.
    pub open spec fn rows(self) -> int {
        match self {
            WeightView::F32(t) => t.shape[0] as int,
            WeightView::Quant(q) => q.rows as int,
        }
    }

    /// Why the matrix cannot be multiplied with a vector of `n` elements.
    pub open spec fn fault(self, n: int) -> Option<ShapeFault> {
        match self {
            WeightView::F32(t) => if t.shape.len() == 2 && t.shape[1] == n {
                None
            } else {
                Some(ShapeErrorOf::Matvec { shape: t.shape, len: n as usize })
            },
            WeightView::Quant(q) => if q.cols == n {
                None
            } else {
                Some(ShapeErrorOf::QuantMatvec { cols: q.cols, len: n as usize })
            },
        }
    }

    /// Whether the storage is that of the declared size.
    pub open spec fn sound(self) -> bool {
        match self {
            WeightView::F32(t) => t.wf(),
            WeightView::Quant(q) => q.wf() && q.row_len() <= usize::MAX,
        }
    }

    /// Whether the matrix can be handed a vector of `n` elements: if it accepts
    /// it, the vector is not empty.
    pub open spec fn takes(self, n: int) -> bool {
        self.sound() && (self.fault(n) is None ==> n > 0)
    }

    /// The product with a vector.
    pub open spec fn times<A: Arith>(self, x: Seq<u32>) -> Seq<u32> {
        match self {
            WeightView::F32(t) => tensor::matvec_of::<A>(t.data, x),
            WeightView::Quant(q) => quantize::quant_matvec_of::<A>(q, x),
        }
    }
}

/// The product of a matrix with a vector has one element per row.
pub proof fn law_matvec_rows<A: Arith>(w: WeightView, x: Seq<u32>)
    requires
        w.takes(x.len() as int),
        w.fault(x.len() as int) is None,
    ensures
        w.times::<A>(x).len() == w.rows(),
        w matches WeightView::F32(t) ==> t.data.len() / x.len() == w.rows(),
        w matches WeightView::Quant(q) ==> q.row_len() > 0 && q.data.len() as int / q.row_len()
            == w.rows(),
{
    match w {
        WeightView::F32(t) => {
            tensor::lemma_numel_2(t.shape);
            vstd::arithmetic::div_mod::lemma_div_by_multiple(
                t.shape[0] as int,
                t.shape[1] as int,
            );
        },
        WeightView::Quant(q) => {
            assert(q.cols as int / 32 > 0);
            assert(q.row_len() > 0);
            vstd::arithmetic::div_mod::lemma_div_by_multiple(q.rows as int, q.row_len());
        },
    }
}

impl Linear {
    /// `y = W @ x`.
    pub fn matvec<A: Arith>(&self, x: &[u32]) -> (r: Result<Vec<u32>, MinqError>)
        requires
            self@.takes(x@.len() as int),
        ensures
            match self@.fault(x@.len() as int) {
                Some(f) => r is Err && r->Err_0@ == ErrorView::Shape(f),
                None => {
                    &&& r is Ok && r->Ok_0@.len() == self@.rows()
                    &&& arith::deterministic::<A>() ==> r->Ok_0@ == self@.times::<A>(x@)
                },
            },
    {
        proof {
            if self@.fault(x@.len() as int) is None {
                law_matvec_rows::<A>(self@, x@);
            }
        }
        match self {
            Linear::F32(t) => tensor::matvec::<A>(t, x),
            Linear::Quant(q) => q.matvec::<A>(x),
        }
    }
}

/// Weights of a single decoder layer.
#[derive(Debug, PartialEq)]
pub struct LayerWeights {
    pub attn_norm: Vec<u32>,
    pub q: Linear,
    pub k: Linear,
    pub v: Linear,
    pub o: Linear,
    pub q_bias: Option<Vec<u32>>,
    pub k_bias: Option<Vec<u32>>,
    pub v_bias: Option<Vec<u32>>,
    /// Qwen3-style per-head RMSNorm on Q/K (`head_dim`-sized gain), applied
    /// before RoPE. `None` for LLaMA/Qwen2.
    pub q_norm: Option<Vec<u32>>,
    pub k_norm: Option<Vec<u32>>,
    pub ffn_norm: Vec<u32>,
    pub gate: Linear,
    pub up: Linear,
    pub down: Linear,
}

/// The contents of [`LayerWeights`].
pub struct LayerView {
    pub attn_norm: Seq<u32>,
    pub q: WeightView,
    pub k: WeightView,
    pub v: WeightView,
    pub o: WeightView,
    pub q_bias: Option<Seq<u32>>,
    pub k_bias: Option<Seq<u32>>,
    pub v_bias: Option<Seq<u32>>,
    pub q_norm: Option<Seq<u32>>,
    pub k_norm: Option<Seq<u32>>,
    pub ffn_norm: Seq<u32>,
    pub gate: WeightView,
    pub up: WeightView,
    pub down: WeightView,
}

/// The contents of an optional vector.
pub open spec fn opt_view(v: Option<Vec<u32>>) -> Option<Seq<u32>> {
    match v {
        None => None,
        Some(v) => Some(v@),
    }
}

impl View for LayerWeights {
    type V = LayerView;

    open spec fn view(&self) -> LayerView {
        LayerView {
            attn_norm: self.attn_norm@,
            q: self.q@,
            k: self.k@,
            v: self.v@,
            o: self.o@,
            q_bias: opt_view(self.q_bias),
            k_bias: opt_view(self.k_bias),
            v_bias: opt_view(self.v_bias),
            q_norm: opt_view(self.q_norm),
            k_norm: opt_view(self.k_norm),
            ffn_norm: self.ffn_norm@,
            gate: self.gate@,
            up: self.up@,
            down: self.down@,
        }
    }
}

fn clone_opt(v: &Option<Vec<u32>>) -> (r: Option<Vec<u32>>)
    ensures
        opt_view(r) == opt_view(*v),
{
    match v {
        None => None,
        Some(v) => Some(v.clone()),
    }
}

impl Clone for LayerWeights {
    fn clone(&self) -> (l: LayerWeights)
        ensures
            l@ == self@,
    {
        LayerWeights {
            attn_norm: self.attn_norm.clone(),
            q: self.q.clone(),
            k: self.k.clone(),
            v: self.v.clone(),
            o: self.o.clone(),
            q_bias: clone_opt(&self.q_bias),
            k_bias: clone_opt(&self.k_bias),
            v_bias: clone_opt(&self.v_bias),
            q_norm: clone_opt(&self.q_norm),
            k_norm: clone_opt(&self.k_norm),
            ffn_norm: self.ffn_norm.clone(),
            gate: self.gate.clone(),
            up: self.up.clone(),
            down: self.down.clone(),
        }
    }
}

/// Whether an optional vector has `n` elements if it is there.
pub open spec fn opt_len(v: Option<Seq<u32>>, n: int) -> bool {
    v matches Some(s) ==> s.len() == n
}

/// A vector with an optional bias added.
pub open spec fn biased<A: Arith>(x: Seq<u32>, bias: Option<Seq<u32>>) -> Seq<u32> {
    match bias {
        None => x,
        Some(b) => tensor::add_seq::<A>(x, b),
    }
}

/// Heads with an optional per-head normalization applied.
pub open spec fn head_normed<A: Arith>(
    x: Seq<u32>,
    norm: Option<Seq<u32>>,
    eps: u32,
    head_dim: int,
) -> Seq<u32> {
    match norm {
        None => x,
        Some(w) => attention::per_head_norm_of::<A>(x, w, eps, head_dim),
    }
}

impl LayerView {
    /// Why the inputs cannot be projected to queries, keys and values.
    pub open spec fn qkv_fault(self, width: int) -> Option<ShapeFault> {
        first_of(self.q.fault(width), first_of(self.k.fault(width), self.v.fault(width)))
    }

    /// Why the rest of the layer cannot be computed.
    pub open spec fn tail_fault(self, heads: Heads, width: int) -> Option<ShapeFault> {
        first_of(
            self.o.fault(heads.q_dim()),
            first_of(
                self.gate.fault(width),
                first_of(self.up.fault(width), self.down.fault(self.gate.rows())),
            ),
        )
    }

    /// Why the layer cannot be computed.
    pub open spec fn fault(self, heads: Heads, width: int) -> Option<ShapeFault> {
        first_of(self.qkv_fault(width), self.tail_fault(heads, width))
    }

    /// Whether the layer's parts fit together as far as the computation gets
    /// before a product is refused.
    pub open spec fn runs(self, heads: Heads, width: int) -> bool {
        &&& self.attn_norm.len() == width
        &&& self.q.takes(width)
        &&& self.k.takes(width)
        &&& self.v.takes(width)
        &&& self.qkv_fault(width) is None ==> {
            &&& self.q.rows() == heads.q_dim()
            &&& self.k.rows() == heads.kv_dim()
            &&& self.v.rows() == heads.kv_dim()
            &&& opt_len(self.q_bias, heads.q_dim())
            &&& opt_len(self.k_bias, heads.kv_dim())
            &&& opt_len(self.v_bias, heads.kv_dim())
            &&& opt_len(self.q_norm, heads.head_dim as int)
            &&& opt_len(self.k_norm, heads.head_dim as int)
            &&& self.o.takes(heads.q_dim())
            &&& self.o.fault(heads.q_dim()) is None ==> {
                &&& self.o.rows() == width
                &&& self.ffn_norm.len() == width
                &&& self.gate.takes(width)
                &&& self.up.takes(width)
                &&& self.gate.fault(width) is None && self.up.fault(width) is None ==> {
                    &&& self.gate.rows() == self.up.rows()
                    &&& self.down.takes(self.gate.rows())
                    &&& self.down.fault(self.gate.rows()) is None ==> self.down.rows() == width
                }
            }
        }
    }
}

/// A fully assembled model.
#[derive(Debug)]
pub struct Model {
    pub config: ModelConfig,
    /// Token embedding table `[vocab_size, hidden_size]`, always dense (it is
    /// indexed, not multiplied).
    pub embed: Tensor,
    pub layers: Vec<LayerWeights>,
    pub final_norm: Vec<u32>,
    pub lm_head: Linear,
    /// Precomputed RoPE cos/sin, built once at load time.
    pub rope: RopeTables,
}

/// The contents of a [`Model`].
pub struct ModelView {
    pub config: ConfigView,
    pub embed: TensorView,
    pub layers: Seq<LayerView>,
    pub final_norm: Seq<u32>,
    pub lm_head: WeightView,
    pub rope: RopeView,
}

/// The contents of all layers.
pub open spec fn layers_view(layers: Seq<LayerWeights>) -> Seq<LayerView> {
    layers.map_values(|l: LayerWeights| l@)
}

impl View for Model {
    type V = ModelView;

    open spec fn view(&self) -> ModelView {
        ModelView {
            config: self.config@,
            embed: self.embed@,
            layers: layers_view(self.layers@),
            final_norm: self.final_norm@,
            lm_head: self.lm_head@,
            rope: self.rope@,
        }
    }
}

impl Clone for Model {
    fn clone(&self) -> (m: Model)
        ensures
            m@ == self@,
    {
        let mut layers: Vec<LayerWeights> = Vec::with_capacity(self.layers.len());
        while layers.len() < self.layers.len()
            invariant
                layers@.len() <= self.layers@.len(),
                forall|i: int| 0 <= i < layers@.len() ==> (#[trigger] layers@[i])@ == self.layers@[i]@,
            decreases self.layers@.len() - layers@.len(),
        {
            let i: usize = layers.len();
            layers.push(self.layers[i].clone());
        }
        assert(layers_view(layers@) =~= layers_view(self.layers@));
        Model {
            config: self.config.clone(),
            embed: self.embed.clone(),
            layers,
            final_norm: self.final_norm.clone(),
            lm_head: self.lm_head.clone(),
            rope: self.rope.clone(),
        }
    }
}

impl ModelView {
    /// The width of a hidden state.
    pub open spec fn width(self) -> int {
        self.embed.shape[1] as int
    }

    /// The number of layers.
    pub open spec fn depth(self) -> int {
        self.layers.len() as int
    }

    /// Whether the parts of the model fit together, as far as the computation
    /// gets before a product is refused.
    pub open spec fn runs(self) -> bool {
        self.embed.shape.len() == 2 ==> {
            &&& self.embed.wf()
            &&& self.width() > 0
            &&& self.config.heads.fit()
            &&& 2 * self.rope.half == self.config.heads.head_dim
            &&& self.rope.covers(self.config.max_seq_len as int)
            &&& forall|l: int|
                0 <= l < self.depth() ==> (#[trigger] self.layers[l]).runs(
                    self.config.heads,
                    self.width(),
                )
            &&& self.final_norm.len() == self.width()
            &&& self.lm_head.takes(self.width())
        }
    }

    /// Why one of the first `n` layers cannot be computed.
    pub open spec fn layers_fault(self, n: int) -> Option<ShapeFault>
        decreases n,
    {
        if n <= 0 {
            None
        } else {
            first_of(
                self.layers_fault(n - 1),
                self.layers[n - 1].fault(self.config.heads, self.width()),
            )
        }
    }

    /// Why no token can be computed.
    pub open spec fn fault(self) -> Option<ShapeFault> {
        first_of(self.layers_fault(self.depth()), self.lm_head.fault(self.width()))
    }

    /// Why a token has no embedding.
    pub open spec fn row_fault(self, token: u32) -> Option<ShapeFault> {
        if self.embed.shape.len() != 2 {
            Some(ShapeErrorOf::RowOfNonMatrix { shape: self.embed.shape })
        } else if token as usize >= self.embed.shape[0] {
            Some(ShapeErrorOf::RowOutOfBounds { row: token as usize, rows: self.embed.shape[0] })
        } else {
            None
        }
    }

    /// The embedding of a token.
    pub open spec fn embedding(self, token: u32) -> Seq<u32> {
        self.embed.data.subrange(token * self.width(), (token + 1) * self.width())
    }

    /// The input of layer `l`'s projections.
    pub open spec fn attn_input<A: Arith>(self, l: int, x: Seq<u32>) -> Seq<u32> {
        tensor::rmsnorm_of::<A>(x, self.layers[l].attn_norm, self.config.rms_norm_eps)
    }

    /// Layer `l`'s query for hidden state `x` at position `pos`.
    pub open spec fn query<A: Arith>(self, l: int, x: Seq<u32>, pos: int) -> Seq<u32> {
        let w = self.layers[l];
        let q = biased::<A>(w.q.times::<A>(self.attn_input::<A>(l, x)), w.q_bias);
        self.rope.applied::<A>(
            head_normed::<A>(
                q,
                w.q_norm,
                self.config.rms_norm_eps,
                self.config.heads.head_dim as int,
            ),
            pos,
        )
    }

    /// Layer `l`'s key for hidden state `x` at position `pos`.
    pub open spec fn key<A: Arith>(self, l: int, x: Seq<u32>, pos: int) -> Seq<u32> {
        let w = self.layers[l];
        let k = biased::<A>(w.k.times::<A>(self.attn_input::<A>(l, x)), w.k_bias);
        self.rope.applied::<A>(
            head_normed::<A>(
                k,
                w.k_norm,
                self.config.rms_norm_eps,
                self.config.heads.head_dim as int,
            ),
            pos,
        )
    }

    /// Layer `l`'s value for hidden state `x`.
    pub open spec fn value<A: Arith>(self, l: int, x: Seq<u32>) -> Seq<u32> {
        let w = self.layers[l];
        biased::<A>(w.v.times::<A>(self.attn_input::<A>(l, x)), w.v_bias)
    }

    /// Hidden state `x` after layer `l` has added what it attended to and what
    /// its MLP makes of the sum.
    pub open spec fn tail<A: Arith>(self, l: int, x: Seq<u32>, attn: Seq<u32>) -> Seq<u32> {
        let w = self.layers[l];
        let y = tensor::add_seq::<A>(x, w.o.times::<A>(attn));
        let yn = tensor::rmsnorm_of::<A>(y, w.ffn_norm, self.config.rms_norm_eps);
        let hidden = tensor::mul_seq::<A>(
            tensor::silu_of::<A>(w.gate.times::<A>(yn)),
            w.up.times::<A>(yn),
        );
        tensor::add_seq::<A>(y, w.down.times::<A>(hidden))
    }

    /// Hidden state `x` at position `pos` after layer `l`, which attends to the
    /// keys `k` and values `v` of the positions up to `pos`.
    pub open spec fn block<A: Arith>(
        self,
        l: int,
        x: Seq<u32>,
        pos: int,
        k: Seq<u32>,
        v: Seq<u32>,
    ) -> Seq<u32> {
        self.tail::<A>(
            l,
            x,
            attention::attend_of::<A>(
                self.query::<A>(l, x, pos),
                k,
                v,
                pos + 1,
                self.config.heads,
            ),
        )
    }

    /// The logits of hidden state `x`.
    pub open spec fn logits<A: Arith>(self, x: Seq<u32>) -> Seq<u32> {
        self.lm_head.times::<A>(
            tensor::rmsnorm_of::<A>(x, self.final_norm, self.config.rms_norm_eps),
        )
    }
}

/// Per-layer key/value history. Each cache stores, per position, a flat
/// `[n_kv_heads * head_dim]` vector; keys are stored after RoPE.
#[derive(Debug, PartialEq)]
pub struct LayerCache {
    pub k: Vec<u32>,
    pub v: Vec<u32>,
}

/// The contents of a [`LayerCache`].
#[verifier::ext_equal]
pub struct LayerCacheView {
    pub k: Seq<u32>,
    pub v: Seq<u32>,
}

impl View for LayerCache {
    type V = LayerCacheView;

    open spec fn view(&self) -> LayerCacheView {
        LayerCacheView { k: self.k@, v: self.v@ }
    }
}

/// The history of a layer that has seen nothing.
pub open spec fn no_history() -> LayerCacheView {
    LayerCacheView { k: Seq::empty(), v: Seq::empty() }
}

impl Default for LayerCache {
    fn default() -> (c: LayerCache)
        ensures
            c@ == no_history(),
    {
        LayerCache { k: Vec::new(), v: Vec::new() }
    }
}

impl Clone for LayerCache {
    fn clone(&self) -> (c: LayerCache)
        ensures
            c@ == self@,
    {
        LayerCache { k: self.k.clone(), v: self.v.clone() }
    }
}

/// KV cache for incremental decoding.
#[derive(Debug, PartialEq)]
pub struct KVCache {
    pub layers: Vec<LayerCache>,
    /// Number of positions currently cached (same for every layer).
    pub len: usize,
}

/// The contents of a [`KVCache`].
#[verifier::ext_equal]
pub struct KVCacheView {
    pub layers: Seq<LayerCacheView>,
    pub len: usize,
}

/// The histories of all layers.
pub open spec fn caches_view(layers: Seq<LayerCache>) -> Seq<LayerCacheView> {
    layers.map_values(|c: LayerCache| c@)
}

impl View for KVCache {
    type V = KVCacheView;

    open spec fn view(&self) -> KVCacheView {
        KVCacheView { layers: caches_view(self.layers@), len: self.len }
    }
}

/// An empty cache for `n` layers.
pub open spec fn empty_cache(n: int) -> KVCacheView {
    KVCacheView { layers: Seq::new(n as nat, |l: int| no_history()), len: 0 }
}

impl KVCache {
    /// An empty cache for the model's layers.
    pub fn new(config: &ModelConfig) -> (c: KVCache)
        ensures
            c@ == empty_cache(config.n_layers as int),
    {
        let mut layers: Vec<LayerCache> = Vec::with_capacity(config.n_layers);
        while layers.len() < config.n_layers
            invariant
                layers@.len() <= config.n_layers,
                forall|l: int| 0 <= l < layers@.len() ==> (#[trigger] layers@[l])@ == no_history(),
            decreases config.n_layers - layers@.len(),
        {
            layers.push(LayerCache::default());
        }
        let c = KVCache { layers, len: 0 };
        assert(c@ =~~= empty_cache(config.n_layers as int));
        c
    }

    /// Forgets all positions.
    pub fn reset(&mut self)
        ensures
            final(self)@ == empty_cache(old(self).layers@.len() as int),
    {
        let n: usize = self.layers.len();
        let mut layers: Vec<LayerCache> = Vec::with_capacity(n);
        while layers.len() < n
            invariant
                layers@.len() <= n,
                forall|l: int| 0 <= l < layers@.len() ==> (#[trigger] layers@[l])@ == no_history(),
            decreases n - layers@.len(),
        {
            layers.push(LayerCache::default());
        }
        self.layers = layers;
        self.len = 0;
        assert(self@ =~~= empty_cache(n as int));
    }
}

impl Clone for KVCache {
    fn clone(&self) -> (c: KVCache)
        ensures
            c@ == self@,
    {
        let mut layers: Vec<LayerCache> = Vec::with_capacity(self.layers.len());
        while layers.len() < self.layers.len()
            invariant
                layers@.len() <= self.layers@.len(),
                forall|i: int| 0 <= i < layers@.len() ==> (#[trigger] layers@[i])@ == self.layers@[i]@,
            decreases self.layers@.len() - layers@.len(),
        {
            let i: usize = layers.len();
            layers.push(self.layers[i].clone());
        }
        assert(caches_view(layers@) =~= caches_view(self.layers@));
        KVCache { layers, len: self.len }
    }
}

impl ModelView {
    /// Layer `l`'s history after hidden state `x` at position `pos` was added.
    pub open spec fn extended<A: Arith>(
        self,
        l: int,
        x: Seq<u32>,
        pos: int,
        cache: LayerCacheView,
    ) -> LayerCacheView {
        LayerCacheView {
            k: cache.k + self.key::<A>(l, x, pos),
            v: cache.v + self.value::<A>(l, x),
        }
    }

    /// The hidden state at position `pos`, and the histories, after the first
    /// `n` layers have worked on `x`.
    pub open spec fn through<A: Arith>(
        self,
        x: Seq<u32>,
        pos: int,
        caches: Seq<LayerCacheView>,
        n: int,
    ) -> (Seq<u32>, Seq<LayerCacheView>)
        decreases n,
    {
        if n <= 0 {
            (x, caches)
        } else {
            let (y, done) = self.through::<A>(x, pos, caches, n - 1);
            let history = self.extended::<A>(n - 1, y, pos, done[n - 1]);
            (
                self.block::<A>(n - 1, y, pos, history.k, history.v),
                done.update(n - 1, history),
            )
        }
    }

    /// Whether every layer's history holds at least `rows` positions.
    pub open spec fn holds(self, caches: Seq<LayerCacheView>, rows: int) -> bool {
        &&& self.depth() <= caches.len()
        &&& forall|l: int|
            0 <= l < self.depth() ==> rows * self.config.heads.kv_dim() <= (
            #[trigger] caches[l]).k.len() && rows * self.config.heads.kv_dim() <= caches[l].v.len()
    }

    /// The first of the first `n` layers that cannot be computed, if there is
    /// one.
    pub open spec fn faulty_layer(self, n: int) -> int
        decreases n,
    {
        if n <= 0 {
            0
        } else if self.layers_fault(n - 1) is Some {
            self.faulty_layer(n - 1)
        } else {
            n - 1
        }
    }

    /// The histories that a token leaves behind at position `pos`. A layer that
    /// cannot be computed ends the token; its own history is extended if its
    /// projections could be computed.
    pub open spec fn histories<A: Arith>(
        self,
        token: u32,
        pos: int,
        caches: Seq<LayerCacheView>,
    ) -> Seq<LayerCacheView> {
        let x = self.embedding(token);
        if self.row_fault(token) is Some {
            caches
        } else if self.layers_fault(self.depth()) is Some {
            let l = self.faulty_layer(self.depth());
            let (y, done) = self.through::<A>(x, pos, caches, l);
            if self.layers[l].qkv_fault(self.width()) is Some {
                done
            } else {
                done.update(l, self.extended::<A>(l, y, pos, done[l]))
            }
        } else {
            self.through::<A>(x, pos, caches, self.depth()).1
        }
    }

    /// Why a token cannot be computed.
    pub open spec fn token_fault(self, token: u32) -> Option<ShapeFault> {
        first_of(self.row_fault(token), self.fault())
    }

    /// The logits of a token at position `pos`.
    pub open spec fn token_logits<A: Arith>(
        self,
        token: u32,
        pos: int,
        caches: Seq<LayerCacheView>,
    ) -> Seq<u32> {
        self.logits::<A>(
            self.through::<A>(self.embedding(token), pos, caches, self.depth()).0,
        )
    }
}

pub proof fn lemma_fault_upto(m: ModelView, n: int, to: int)
    requires
        0 <= n <= to,
        m.layers_fault(n) is Some,
    ensures
        m.layers_fault(to) == m.layers_fault(n),
        m.faulty_layer(to) == m.faulty_layer(n),
    decreases to - n,
{
    if n < to {
        lemma_fault_upto(m, n, to - 1);
    }
}

impl Model {
    /// The query, key and value of a hidden state at position `pos`.
    fn project<A: Arith>(&self, li: usize, x: &[u32], pos: usize) -> (r: Result<
        (Vec<u32>, Vec<u32>, Vec<u32>),
        MinqError,
    >)
        requires
            self@.runs(),
            self@.embed.shape.len() == 2,
            li < self@.depth(),
            x@.len() == self@.width(),
            self@.rope.covers(pos + 1),
        ensures
            match self@.layers[li as int].qkv_fault(self@.width()) {
                Some(f) => r is Err && r->Err_0@ == ErrorView::Shape(f),
                None => {
                    &&& r is Ok
                    &&& r->Ok_0.0@.len() == self@.config.heads.q_dim()
                    &&& r->Ok_0.1@.len() == self@.config.heads.kv_dim()
                    &&& r->Ok_0.2@.len() == self@.config.heads.kv_dim()
                    &&& arith::deterministic::<A>() ==> {
                        &&& r->Ok_0.0@ == self@.query::<A>(li as int, x@, pos as int)
                        &&& r->Ok_0.1@ == self@.key::<A>(li as int, x@, pos as int)
                        &&& r->Ok_0.2@ == self@.value::<A>(li as int, x@)
                    }
                },
            },
    {
        let layer = &self.layers[li];
        let ghost l = li as int;
        let ghost heads = self@.config.heads;
        assert(self@.layers[l] == layer@);
        assert(layer@.runs(heads, self@.width()));
        proof {
            vstd::arithmetic::div_mod::lemma_mod_multiples_basic(
                heads.n_heads as int,
                heads.head_dim as int,
            );
            vstd::arithmetic::div_mod::lemma_mod_multiples_basic(
                heads.n_kv_heads as int,
                heads.head_dim as int,
            );
        }
        let eps: u32 = self.config.rms_norm_eps;
        let hd: usize = self.config.head_dim;
        let xn = tensor::rmsnorm::<A>(x, &layer.attn_norm, eps);
        let mut q = match layer.q.matvec::<A>(&xn) {
            Err(e) => {
                return Err(e);
            },
            Ok(q) => q,
        };
        let mut k = match layer.k.matvec::<A>(&xn) {
            Err(e) => {
                return Err(e);
            },
            Ok(k) => k,
        };
        let mut v = match layer.v.matvec::<A>(&xn) {
            Err(e) => {
                return Err(e);
            },
            Ok(v) => v,
        };
        if let Some(b) = &layer.q_bias {
            tensor::add_::<A>(q.as_mut_slice(), b);
        }
        if let Some(b) = &layer.k_bias {
            tensor::add_::<A>(k.as_mut_slice(), b);
        }
        if let Some(b) = &layer.v_bias {
            tensor::add_::<A>(v.as_mut_slice(), b);
        }
        // Qwen3: per-head q/k RMSNorm before RoPE.
        if let Some(w) = &layer.q_norm {
            attention::apply_per_head_norm::<A>(q.as_mut_slice(), w, eps, hd);
        }
        if let Some(w) = &layer.k_norm {
            attention::apply_per_head_norm::<A>(k.as_mut_slice(), w, eps, hd);
        }
        self.rope.apply::<A>(q.as_mut_slice(), pos);
        self.rope.apply::<A>(k.as_mut_slice(), pos);
        Ok((q, k, v))
    }

    /// Adds the projection of what was attended to, and then what the SwiGLU
    /// MLP makes of the sum.
    fn finish<A: Arith>(&self, li: usize, x: &mut Vec<u32>, attn: &[u32]) -> (r: Result<
        (),
        MinqError,
    >)
        requires
            self@.runs(),
            self@.embed.shape.len() == 2,
            li < self@.depth(),
            self@.layers[li as int].qkv_fault(self@.width()) is None,
            old(x)@.len() == self@.width(),
            attn@.len() == self@.config.heads.q_dim(),
        ensures
            match self@.layers[li as int].tail_fault(self@.config.heads, self@.width()) {
                Some(f) => r is Err && r->Err_0@ == ErrorView::Shape(f),
                None => {
                    &&& r is Ok
                    &&& final(x)@.len() == self@.width()
                    &&& arith::deterministic::<A>() ==> final(x)@ == self@.tail::<A>(
                        li as int,
                        old(x)@,
                        attn@,
                    )
                },
            },
    {
        let layer = &self.layers[li];
        assert(self@.layers[li as int] == layer@);
        assert(layer@.runs(self@.config.heads, self@.width()));
        let proj = match layer.o.matvec::<A>(attn) {
            Err(e) => {
                return Err(e);
            },
            Ok(p) => p,
        };
        tensor::add_::<A>(x.as_mut_slice(), &proj);
        let xn = tensor::rmsnorm::<A>(x, &layer.ffn_norm, self.config.rms_norm_eps);
        let gate = match layer.gate.matvec::<A>(&xn) {
            Err(e) => {
                return Err(e);
            },
            Ok(g) => g,
        };
        let up = match layer.up.matvec::<A>(&xn) {
            Err(e) => {
                return Err(e);
            },
            Ok(u) => u,
        };
        let mut hidden = tensor::silu::<A>(&gate);
        tensor::mul_::<A>(hidden.as_mut_slice(), &up);
        let down = match layer.down.matvec::<A>(&hidden) {
            Err(e) => {
                return Err(e);
            },
            Ok(d) => d,
        };
        tensor::add_::<A>(x.as_mut_slice(), &down);
        Ok(())
    }

    /// The logits of a hidden state.
    fn head<A: Arith>(&self, x: &[u32]) -> (r: Result<Vec<u32>, MinqError>)
        requires
            self@.runs(),
            self@.embed.shape.len() == 2,
            x@.len() == self@.width(),
        ensures
            match self@.lm_head.fault(self@.width()) {
                Some(f) => r is Err && r->Err_0@ == ErrorView::Shape(f),
                None => {
                    &&& r is Ok && r->Ok_0@.len() == self@.lm_head.rows()
                    &&& arith::deterministic::<A>() ==> r->Ok_0@ == self@.logits::<A>(x@)
                },
            },
    {
        let xn = tensor::rmsnorm::<A>(x, &self.final_norm, self.config.rms_norm_eps);
        self.lm_head.matvec::<A>(&xn)
    }

    /// The embedding of a token.
    fn embed_token(&self, token: u32) -> (r: Result<Vec<u32>, MinqError>)
        requires
            self@.runs(),
        ensures
            match self@.row_fault(token) {
                Some(f) => r is Err && r->Err_0@ == ErrorView::Shape(f),
                None => {
                    &&& r is Ok
                    &&& r->Ok_0@ == self@.embedding(token)
                    &&& r->Ok_0@.len() == self@.width()
                },
            },
    {
        proof {
            if self@.row_fault(token) is None {
                tensor::lemma_numel_2(self@.embed.shape);
                attention::lemma_head_within(
                    token as int,
                    self@.embed.shape[0] as int,
                    self@.width(),
                );
            }
        }
        match self.embed.row(token as usize) {
            Err(e) => Err(e),
            Ok(row) => Ok(vstd::slice::slice_to_vec(row)),
        }
    }
}

impl Model {
    /// Layer `li` for one token at position `pos`, appending K/V to its history.
    fn run_layer<A: Arith>(&self, li: usize, x: &mut Vec<u32>, pos: usize, cache: &mut LayerCache) -> (r:
        Result<(), MinqError>)
        requires
            self@.runs(),
            self@.embed.shape.len() == 2,
            li < self@.depth(),
            old(x)@.len() == self@.width(),
            self@.rope.covers(pos + 1),
            pos + 1 <= usize::MAX,
            pos * self@.config.heads.kv_dim() <= old(cache).k@.len(),
            pos * self@.config.heads.kv_dim() <= old(cache).v@.len(),
        ensures
            match self@.layers[li as int].fault(self@.config.heads, self@.width()) {
                Some(f) => r is Err && r->Err_0@ == ErrorView::Shape(f),
                None => r is Ok && final(x)@.len() == self@.width(),
            },
            self@.layers[li as int].qkv_fault(self@.width()) is Some ==> final(cache)@ == old(
                cache,
            )@,
            self@.layers[li as int].qkv_fault(self@.width()) is None ==> {
                &&& final(cache)@.k.len() == old(cache)@.k.len() + self@.config.heads.kv_dim()
                &&& final(cache)@.v.len() == old(cache)@.v.len() + self@.config.heads.kv_dim()
                &&& arith::deterministic::<A>() ==> final(cache)@ == self@.extended::<A>(
                    li as int,
                    old(x)@,
                    pos as int,
                    old(cache)@,
                )
            },
            r is Ok && arith::deterministic::<A>() ==> final(x)@ == self@.block::<A>(
                li as int,
                old(x)@,
                pos as int,
                final(cache)@.k,
                final(cache)@.v,
            ),
    {
        let (q, k, v) = match self.project::<A>(li, x, pos) {
            Err(e) => {
                return Err(e);
            },
            Ok(qkv) => qkv,
        };
        cache.k.extend_from_slice(&k);
        cache.v.extend_from_slice(&v);
        proof {
            let d = self@.config.heads.kv_dim();
            assert((pos + 1) * d == pos * d + d) by (nonlinear_arith);
        }
        let attn = attention::attend::<A>(&q, &cache.k, &cache.v, pos + 1, &self.config);
        self.finish::<A>(li, x, &attn)
    }

    /// One token at position `pos`, appending K/V to the cache.
    pub fn forward_token<A: Arith>(&self, token: u32, pos: usize, cache: &mut KVCache) -> (r: Result<
        Vec<u32>,
        MinqError,
    >)
        requires
            self@.runs(),
            self@.embed.shape.len() == 2 ==> self@.rope.covers(pos + 1),
            pos + 1 <= usize::MAX,
            self@.holds(old(cache)@.layers, pos as int),
        ensures
            final(cache)@.len == old(cache)@.len,
            final(cache)@.layers.len() == old(cache)@.layers.len(),
            self@.row_fault(token) is Some ==> final(cache)@ == old(cache)@,
            match self@.token_fault(token) {
                Some(f) => r is Err && r->Err_0@ == ErrorView::Shape(f),
                None => {
                    &&& r is Ok && r->Ok_0@.len() == self@.lm_head.rows()
                    &&& self@.grown(old(cache)@.layers, final(cache)@.layers, 1)
                    &&& arith::deterministic::<A>() ==> r->Ok_0@ == self@.token_logits::<A>(
                        token,
                        pos as int,
                        old(cache)@.layers,
                    )
                },
            },
            arith::deterministic::<A>() ==> final(cache)@.layers == self@.histories::<A>(
                token,
                pos as int,
                old(cache)@.layers,
            ),
    {
        let ghost m = self@;
        let ghost before = cache@.layers;
        let mut x = match self.embed_token(token) {
            Err(e) => {
                return Err(e);
            },
            Ok(x) => x,
        };
        let n: usize = self.layers.len();
        let mut li: usize = 0;
        while li < n
            invariant
                li <= n == m.depth(),
                m == self@,
                m.runs(),
                m.embed.shape.len() == 2,
                m.row_fault(token) is None,
                x@.len() == m.width(),
                m.rope.covers(pos + 1),
                pos + 1 <= usize::MAX,
                m.holds(before, pos as int),
                before == old(cache)@.layers,
                cache@.len == old(cache)@.len,
                cache@.layers.len() == before.len(),
                m.layers_fault(li as int) is None,
                forall|l: int|
                    0 <= l < li ==> (#[trigger] cache@.layers[l]).k.len() == before[l].k.len()
                        + m.config.heads.kv_dim() && cache@.layers[l].v.len() == before[l].v.len()
                        + m.config.heads.kv_dim(),
                forall|l: int|
                    li <= l < before.len() ==> #[trigger] cache@.layers[l] == before[l],
                arith::deterministic::<A>() ==> (x@, cache@.layers) == m.through::<A>(
                    m.embedding(token),
                    pos as int,
                    before,
                    li as int,
                ),
            decreases n - li,
        {
            let ghost prev = cache@.layers;
            let ghost y = x@;
            assert(cache@.layers[li as int] == cache.layers@[li as int]@);
            assert(before[li as int] == cache@.layers[li as int]);
            let done = self.run_layer::<A>(li, &mut x, pos, &mut cache.layers[li]);
            proof {
                assert(cache@.layers =~= prev.update(li as int, cache.layers@[li as int]@));
                if m.layers[li as int].fault(m.config.heads, m.width()) is Some {
                    assert(m.layers_fault(li + 1) is Some);
                    lemma_fault_upto(m, li + 1, m.depth());
                    assert(m.faulty_layer(li + 1) == li);
                    assert(m.layers_fault(li + 1) == m.layers[li as int].fault(
                        m.config.heads,
                        m.width(),
                    ));
                    if arith::deterministic::<A>() {
                        if m.layers[li as int].qkv_fault(m.width()) is Some {
                            assert(cache@.layers =~= prev);
                        }
                    }
                }
            }
            match done {
                Err(e) => {
                    return Err(e);
                },
                Ok(()) => {},
            }
            li += 1;
        }
        proof {
            assert forall|l: int| 0 <= l < m.depth() implies (
            #[trigger] cache@.layers[l]).k.len() == before[l].k.len() + m.config.heads.kv_dim()
                && cache@.layers[l].v.len() == before[l].v.len() + m.config.heads.kv_dim() by {}
        }
        self.head::<A>(&x)
    }

    /// Runs `tokens` through the model, appending to `cache`, and returns the
    /// logits of the last token. Used for both prefill (a whole prompt) and
    /// decode (a single token).
    pub fn forward<A: Arith>(&self, tokens: &[u32], cache: &mut KVCache) -> (r: Result<
        Vec<u32>,
        MinqError,
    >)
        requires
            tokens@.len() > 0 && old(cache)@.len < self@.config.max_seq_len ==> {
                &&& self@.runs()
                &&& self@.holds(old(cache)@.layers, old(cache)@.len as int)
            },
        ensures
            final(cache)@.layers.len() == old(cache)@.layers.len(),
            final(cache)@.len == old(cache)@.len + self@.forwarded_count(
                tokens@,
                old(cache)@.len as int,
                0,
            ),
            self@.refused_outright(tokens@, old(cache)@.len as int) ==> final(cache)@ == old(
                cache,
            )@,
            match self@.forward_error(tokens@, old(cache)@.len as int) {
                Some(e) => {
                    &&& r is Err && r->Err_0@ == e
                    &&& e is Model && tokens@.len() > 0 ==> final(cache)@.len == if old(
                        cache,
                    )@.len >= self@.config.max_seq_len {
                        old(cache)@.len
                    } else {
                        self@.config.max_seq_len
                    }
                },
                None => {
                    &&& r is Ok && r->Ok_0@.len() == self@.lm_head.rows()
                    &&& final(cache)@.len == old(cache)@.len + tokens@.len()
                    &&& final(cache)@.len <= self@.config.max_seq_len
                    &&& self@.holds(final(cache)@.layers, final(cache)@.len as int)
                    &&& self@.grown(
                        old(cache)@.layers,
                        final(cache)@.layers,
                        tokens@.len() as int,
                    )
                    &&& arith::deterministic::<A>() ==> r->Ok_0@ == self@.forwarded::<A>(
                        tokens@,
                        old(cache)@,
                    ).0
                },
            },
            arith::deterministic::<A>() ==> final(cache)@ == self@.forwarded::<A>(
                tokens@,
                old(cache)@,
            ).1,
    {
        let ghost m = self@;
        let ghost before = cache@;
        if tokens.len() == 0 {
            return Err(MinqError::Model(ModelErrorOf::EmptyTokens));
        }
        let mut logits: Vec<u32> = Vec::new();
        let mut i: usize = 0;
        assert(tokens@.subrange(0, tokens@.len() as int) =~= tokens@);
        proof {
            lemma_grown_none(m, before.layers);
        }
        while i < tokens.len()
            invariant
                i <= tokens@.len(),
                tokens@.len() > 0,
                m == self@,
                before.len < m.config.max_seq_len ==> m.runs(),
                before == old(cache)@,
                cache@.layers.len() == before.layers.len(),
                cache@.len == before.len + i,
                i > 0 ==> cache@.len <= m.config.max_seq_len,
                i > 0 ==> logits@.len() == m.lm_head.rows(),
                before.len < m.config.max_seq_len ==> m.holds(cache@.layers, cache@.len as int),
                m.grown(before.layers, cache@.layers, i as int),
                m.first_error(tokens@, before.len as int, 0) == m.first_error(
                    tokens@,
                    before.len as int,
                    i as int,
                ),
                m.forwarded_count(tokens@, before.len as int, 0) == i + m.forwarded_count(
                    tokens@,
                    before.len as int,
                    i as int,
                ),
                i == 0 ==> cache@ == before,
                arith::deterministic::<A>() ==> m.forwarded_from::<A>(
                    tokens@,
                    i as int,
                    logits@,
                    cache@,
                ) == m.forwarded_from::<A>(tokens@, 0, Seq::empty(), before),
            decreases tokens@.len() - i,
        {
            if cache.len >= self.config.max_seq_len {
                return Err(
                    MinqError::Model(
                        ModelErrorOf::SequenceTooLong { max_seq_len: self.config.max_seq_len },
                    ),
                );
            }
            let ghost prev = cache@;
            let pos: usize = cache.len;
            proof {
                if m.embed.shape.len() == 2 {
                    lemma_covers_less(m.rope, m.config.max_seq_len as int, pos + 1);
                }
            }
            match self.forward_token::<A>(tokens[i], pos, cache) {
                Err(e) => {
                    return Err(e);
                },
                Ok(l) => {
                    logits = l;
                },
            }
            cache.len = pos + 1;
            proof {
                lemma_holds_grown(m, prev.layers, cache@.layers, pos as int, 1);
                lemma_grown_twice(m, before.layers, prev.layers, cache@.layers, i as int, 1);
            }
            i += 1;
        }
        Ok(logits)
    }
}

impl ModelView {
    /// Whether every layer's history grew by `rows` positions.
    pub open spec fn grown(
        self,
        before: Seq<LayerCacheView>,
        after: Seq<LayerCacheView>,
        rows: int,
    ) -> bool {
        &&& after.len() == before.len()
        &&& forall|l: int|
            0 <= l < self.depth() ==> (#[trigger] after[l]).k.len() == before[l].k.len() + rows
                * self.config.heads.kv_dim() && after[l].v.len() == before[l].v.len() + rows
                * self.config.heads.kv_dim()
    }

    /// Why a token cannot be forwarded at position `pos`.
    pub open spec fn token_error(self, token: u32, pos: int) -> Option<ErrorView> {
        if pos >= self.config.max_seq_len {
            Some(
                ErrorView::Model(
                    ModelErrorOf::SequenceTooLong { max_seq_len: self.config.max_seq_len },
                ),
            )
        } else {
            match self.token_fault(token) {
                Some(f) => Some(ErrorView::Shape(f)),
                None => None,
            }
        }
    }

    /// The first error among the tokens from `i` on, when the first of all
    /// tokens has position `start`.
    pub open spec fn first_error(self, tokens: Seq<u32>, start: int, i: int) -> Option<ErrorView>
        decreases tokens.len() - i,
    {
        if i >= tokens.len() {
            None
        } else if self.token_error(tokens[i], start + i) is Some {
            self.token_error(tokens[i], start + i)
        } else {
            self.first_error(tokens, start, i + 1)
        }
    }

    /// Why tokens cannot be forwarded when the first has position `start`.
    pub open spec fn forward_error(self, tokens: Seq<u32>, start: int) -> Option<ErrorView> {
        if tokens.len() == 0 {
            Some(ErrorView::Model(ModelErrorOf::EmptyTokens))
        } else {
            self.first_error(tokens, start, 0)
        }
    }

    /// How many of the tokens from `i` on are taken in before the first that
    /// fails, when the first of all tokens has position `start`.
    pub open spec fn forwarded_count(self, tokens: Seq<u32>, start: int, i: int) -> int
        decreases tokens.len() - i,
    {
        if i >= tokens.len() || self.token_error(tokens[i], start + i) is Some {
            0
        } else {
            1 + self.forwarded_count(tokens, start, i + 1)
        }
    }

    /// Whether tokens are refused before anything is computed: there are none, or
    /// the first has no position or no embedding.
    pub open spec fn refused_outright(self, tokens: Seq<u32>, start: int) -> bool {
        tokens.len() == 0 || start >= self.config.max_seq_len || self.row_fault(tokens[0]) is Some
    }

    /// The last logits and the cache after the tokens from `i` on were
    /// forwarded one after the other, up to the first that fails.
    pub open spec fn forwarded_from<A: Arith>(
        self,
        tokens: Seq<u32>,
        i: int,
        logits: Seq<u32>,
        cache: KVCacheView,
    ) -> (Seq<u32>, KVCacheView)
        decreases tokens.len() - i,
    {
        let pos = cache.len as int;
        if i >= tokens.len() || pos >= self.config.max_seq_len {
            (logits, cache)
        } else {
            let layers = self.histories::<A>(tokens[i], pos, cache.layers);
            if self.token_fault(tokens[i]) is Some {
                (logits, KVCacheView { layers, len: cache.len })
            } else {
                self.forwarded_from::<A>(
                    tokens,
                    i + 1,
                    self.token_logits::<A>(tokens[i], pos, cache.layers),
                    KVCacheView { layers, len: (cache.len + 1) as usize },
                )
            }
        }
    }

    /// The last logits and the cache after tokens were forwarded.
    pub open spec fn forwarded<A: Arith>(self, tokens: Seq<u32>, cache: KVCacheView) -> (
        Seq<u32>,
        KVCacheView,
    ) {
        self.forwarded_from::<A>(tokens, 0, Seq::empty(), cache)
    }
}

proof fn lemma_covers_less(rope: RopeView, rows: int, fewer: int)
    requires
        rope.covers(rows),
        fewer <= rows,
    ensures
        rope.covers(fewer),
{
    assert(fewer * rope.half <= rows * rope.half) by (nonlinear_arith)
        requires
            fewer <= rows,
            rope.half >= 0,
    ;
}

proof fn lemma_grown_none(m: ModelView, caches: Seq<LayerCacheView>)
    ensures
        m.grown(caches, caches, 0),
{
    assert(0 * m.config.heads.kv_dim() == 0);
}

proof fn lemma_grown_twice(
    m: ModelView,
    a: Seq<LayerCacheView>,
    b: Seq<LayerCacheView>,
    c: Seq<LayerCacheView>,
    i: int,
    j: int,
)
    requires
        m.grown(a, b, i),
        m.grown(b, c, j),
    ensures
        m.grown(a, c, i + j),
{
    let d = m.config.heads.kv_dim();
    assert((i + j) * d == i * d + j * d) by (nonlinear_arith);
    assert forall|l: int| 0 <= l < m.depth() implies (#[trigger] c[l]).k.len() == a[l].k.len() + (i
        + j) * d && c[l].v.len() == a[l].v.len() + (i + j) * d by {
        assert(b[l].k.len() == a[l].k.len() + i * d);
    }
}

proof fn lemma_holds_grown(
    m: ModelView,
    a: Seq<LayerCacheView>,
    b: Seq<LayerCacheView>,
    rows: int,
    more: int,
)
    requires
        m.holds(a, rows),
        m.grown(a, b, more),
    ensures
        m.holds(b, rows + more),
{
    let d = m.config.heads.kv_dim();
    assert((rows + more) * d == rows * d + more * d) by (nonlinear_arith);
    assert forall|l: int| 0 <= l < m.depth() implies (rows + more) * d <= (#[trigger] b[l]).k.len()
        && (rows + more) * d <= b[l].v.len() by {
        assert(rows * d <= a[l].k.len());
    }
}

impl ModelView {
    /// The hidden state at position `t` after the first `l` layers, each of
    /// which attends to the positions up to its own.
    pub open spec fn hidden<A: Arith>(self, tokens: Seq<u32>, l: int, t: int) -> Seq<u32>
        decreases l, 0int, 0int,
    {
        if l <= 0 {
            self.embedding(tokens[t])
        } else {
            self.block::<A>(
                l - 1,
                self.hidden::<A>(tokens, l - 1, t),
                t,
                self.keys::<A>(tokens, l - 1, t + 1),
                self.values::<A>(tokens, l - 1, t + 1),
            )
        }
    }

    /// Layer `l`'s keys of the first `n` positions.
    pub open spec fn keys<A: Arith>(self, tokens: Seq<u32>, l: int, n: int) -> Seq<u32>
        decreases l, 1int, n,
    {
        if n <= 0 {
            Seq::empty()
        } else {
            self.keys::<A>(tokens, l, n - 1) + self.key::<A>(
                l,
                self.hidden::<A>(tokens, l, n - 1),
                n - 1,
            )
        }
    }

    /// Layer `l`'s values of the first `n` positions.
    pub open spec fn values<A: Arith>(self, tokens: Seq<u32>, l: int, n: int) -> Seq<u32>
        decreases l, 1int, n,
    {
        if n <= 0 {
            Seq::empty()
        } else {
            self.values::<A>(tokens, l, n - 1) + self.value::<A>(
                l,
                self.hidden::<A>(tokens, l, n - 1),
            )
        }
    }

    /// Why one of the tokens from `i` on has no embedding.
    pub open spec fn first_row_fault(self, tokens: Seq<u32>, i: int) -> Option<ShapeFault>
        decreases tokens.len() - i,
    {
        if i >= tokens.len() {
            None
        } else {
            first_of(self.row_fault(tokens[i]), self.first_row_fault(tokens, i + 1))
        }
    }

    /// Why the hidden states of tokens cannot be computed in one sweep.
    pub open spec fn states_error(self, tokens: Seq<u32>) -> Option<ErrorView> {
        if tokens.len() == 0 {
            Some(ErrorView::Model(ModelErrorOf::EmptyTokens))
        } else if tokens.len() > self.config.max_seq_len {
            Some(
                ErrorView::Model(
                    ModelErrorOf::SequenceTooLong { max_seq_len: self.config.max_seq_len },
                ),
            )
        } else {
            match first_of(self.first_row_fault(tokens, 0), self.layers_fault(self.depth())) {
                Some(f) => Some(ErrorView::Shape(f)),
                None => None,
            }
        }
    }

    /// Why the logits of tokens cannot be computed in one sweep.
    pub open spec fn full_error(self, tokens: Seq<u32>) -> Option<ErrorView> {
        if self.states_error(tokens) is Some {
            self.states_error(tokens)
        } else {
            match self.lm_head.fault(self.width()) {
                Some(f) => Some(ErrorView::Shape(f)),
                None => None,
            }
        }
    }
}

/// The history of `n` positions has `n` rows.
proof fn lemma_keys_len<A: Arith>(m: ModelView, tokens: Seq<u32>, l: int, n: int, to: int)
    requires
        0 <= n <= to,
        forall|t: int|
            0 <= t < to ==> m.key::<A>(l, #[trigger] m.hidden::<A>(tokens, l, t), t).len()
                == m.config.heads.kv_dim() && m.value::<A>(l, m.hidden::<A>(tokens, l, t)).len()
                == m.config.heads.kv_dim(),
    ensures
        m.keys::<A>(tokens, l, n).len() == n * m.config.heads.kv_dim(),
        m.values::<A>(tokens, l, n).len() == n * m.config.heads.kv_dim(),
        m.keys::<A>(tokens, l, to).subrange(0, n * m.config.heads.kv_dim()) == m.keys::<A>(
            tokens,
            l,
            n,
        ),
        m.values::<A>(tokens, l, to).subrange(0, n * m.config.heads.kv_dim()) == m.values::<A>(
            tokens,
            l,
            n,
        ),
        m.keys::<A>(tokens, l, to).len() == to * m.config.heads.kv_dim(),
        m.values::<A>(tokens, l, to).len() == to * m.config.heads.kv_dim(),
    decreases to,
{
    let d = m.config.heads.kv_dim();
    if n < to {
        lemma_keys_len::<A>(m, tokens, l, n, to - 1);
        assert(to * d == (to - 1) * d + d) by (nonlinear_arith);
        assert(n * d <= (to - 1) * d) by (nonlinear_arith)
            requires
                n <= to - 1,
                d >= 0,
        ;
        assert(0 <= n * d) by (nonlinear_arith)
            requires
                n >= 0,
                d >= 0,
        ;
        let h = m.hidden::<A>(tokens, l, to - 1);
        assert(m.keys::<A>(tokens, l, to).subrange(0, n * d) =~= m.keys::<A>(
            tokens,
            l,
            to - 1,
        ).subrange(0, n * d));
        assert(m.values::<A>(tokens, l, to).subrange(0, n * d) =~= m.values::<A>(
            tokens,
            l,
            to - 1,
        ).subrange(0, n * d));
    } else if n > 0 {
        lemma_keys_len::<A>(m, tokens, l, n - 1, to - 1);
        assert(n * d == (n - 1) * d + d) by (nonlinear_arith);
        let h = m.hidden::<A>(tokens, l, n - 1);
        let k = m.keys::<A>(tokens, l, n);
        let v = m.values::<A>(tokens, l, n);
        assert(k.subrange(0, n * d) =~= k);
        assert(v.subrange(0, n * d) =~= v);
    } else {
        assert(0 * d == 0);
        let k = m.keys::<A>(tokens, l, 0);
        let v = m.values::<A>(tokens, l, 0);
        assert(k.subrange(0, 0) =~= k);
        assert(v.subrange(0, 0) =~= v);
    }
}

impl Model {
    /// One-shot causal forward pass returning the per-position hidden states
    /// after the last decoder layer (before the final RMSNorm and LM head).
    ///
    /// Used by perplexity evaluation, which needs every position's logits;
    /// [`Model::forward_full`] is a thin wrapper over this.
    pub fn forward_full_states<A: Arith>(&self, tokens: &[u32]) -> (r: Result<
        Vec<Vec<u32>>,
        MinqError,
    >)
        requires
            0 < tokens@.len() <= self@.config.max_seq_len ==> self@.runs(),
        ensures
            match self@.states_error(tokens@) {
                Some(e) => r is Err && r->Err_0@ == e,
                None => {
                    &&& r is Ok && r->Ok_0@.len() == tokens@.len()
                    &&& forall|t: int|
                        0 <= t < tokens@.len() ==> (#[trigger] r->Ok_0@[t])@.len() == self@.width()
                    &&& arith::deterministic::<A>() ==> forall|t: int|
                        0 <= t < tokens@.len() ==> (#[trigger] r->Ok_0@[t])@ == self@.hidden::<A>(
                            tokens@,
                            self@.depth(),
                            t,
                        )
                },
            },
    {
        let ghost m = self@;
        if tokens.len() == 0 {
            return Err(MinqError::Model(ModelErrorOf::EmptyTokens));
        }
        let n: usize = tokens.len();
        if n > self.config.max_seq_len {
            return Err(
                MinqError::Model(
                    ModelErrorOf::SequenceTooLong { max_seq_len: self.config.max_seq_len },
                ),
            );
        }
        let mut xs: Vec<Vec<u32>> = Vec::with_capacity(n);
        let mut i: usize = 0;
        while i < n
            invariant
                i <= n == tokens@.len(),
                m == self@,
                m.runs(),
                xs@.len() == i,
                i > 0 ==> m.embed.shape.len() == 2,
                forall|t: int|
                    0 <= t < i ==> (#[trigger] xs@[t])@ == m.embedding(tokens@[t]) && xs@[t]@.len()
                        == m.width(),
                m.first_row_fault(tokens@, 0) == m.first_row_fault(tokens@, i as int),
                0 < n <= m.config.max_seq_len,
            decreases n - i,
        {
            match self.embed_token(tokens[i]) {
                Err(e) => {
                    return Err(e);
                },
                Ok(x) => {
                    xs.push(x);
                },
            }
            i += 1;
        }
        let depth: usize = self.layers.len();
        let mut li: usize = 0;
        while li < depth
            invariant
                li <= depth == m.depth(),
                m == self@,
                m.runs(),
                m.embed.shape.len() == 2,
                xs@.len() == n == tokens@.len(),
                0 < n <= m.config.max_seq_len,
                m.first_row_fault(tokens@, 0) is None,
                m.layers_fault(li as int) is None,
                forall|t: int| 0 <= t < n ==> (#[trigger] xs@[t])@.len() == m.width(),
                arith::deterministic::<A>() ==> forall|t: int|
                    0 <= t < n ==> (#[trigger] xs@[t])@ == m.hidden::<A>(tokens@, li as int, t),
            decreases depth - li,
        {
            match self.sweep::<A>(li, &mut xs, tokens) {
                Err(e) => {
                    proof {
                        assert(m.layers_fault(li + 1) == m.layers[li as int].fault(
                            m.config.heads,
                            m.width(),
                        ));
                        lemma_fault_upto(m, li + 1, m.depth());
                    }
                    return Err(e);
                },
                Ok(()) => {},
            }
            li += 1;
        }
        Ok(xs)
    }

    /// Layer `li` for all positions at once: position `t` attends to `0..=t`.
    fn sweep<A: Arith>(&self, li: usize, xs: &mut Vec<Vec<u32>>, tokens: &[u32]) -> (r: Result<
        (),
        MinqError,
    >)
        requires
            self@.runs(),
            self@.embed.shape.len() == 2,
            li < self@.depth(),
            old(xs)@.len() == tokens@.len(),
            0 < tokens@.len() <= self@.config.max_seq_len,
            forall|t: int| 0 <= t < tokens@.len() ==> (#[trigger] old(xs)@[t])@.len() == self@.width(),
            arith::deterministic::<A>() ==> forall|t: int|
                0 <= t < tokens@.len() ==> (#[trigger] old(xs)@[t])@ == self@.hidden::<A>(
                    tokens@,
                    li as int,
                    t,
                ),
        ensures
            match self@.layers[li as int].fault(self@.config.heads, self@.width()) {
                Some(f) => r is Err && r->Err_0@ == ErrorView::Shape(f),
                None => {
                    &&& r is Ok
                    &&& final(xs)@.len() == tokens@.len()
                    &&& forall|t: int|
                        0 <= t < tokens@.len() ==> (#[trigger] final(xs)@[t])@.len()
                            == self@.width()
                    &&& arith::deterministic::<A>() ==> forall|t: int|
                        0 <= t < tokens@.len() ==> (#[trigger] final(xs)@[t])@ == self@.hidden::<A>(
                            tokens@,
                            li + 1,
                            t,
                        )
                },
            },
    {
        let ghost m = self@;
        let ghost l = li as int;
        let ghost d = m.config.heads.kv_dim();
        let n: usize = tokens.len();
        // Project Q/K/V for every position.
        let mut qs: Vec<Vec<u32>> = Vec::with_capacity(n);
        let mut k_flat: Vec<u32> = Vec::new();
        let mut v_flat: Vec<u32> = Vec::new();
        let mut i: usize = 0;
        while i < n
            invariant
                i <= n == tokens@.len() == xs@.len(),
                n <= m.config.max_seq_len,
                m == self@,
                l == li,
                d == m.config.heads.kv_dim(),
                m.runs(),
                m.embed.shape.len() == 2,
                li < m.depth(),
                xs@ == old(xs)@,
                i > 0 ==> m.layers[l].qkv_fault(m.width()) is None,
                forall|t: int| 0 <= t < n ==> (#[trigger] xs@[t])@.len() == m.width(),
                arith::deterministic::<A>() ==> forall|t: int|
                    0 <= t < n ==> (#[trigger] xs@[t])@ == m.hidden::<A>(tokens@, l, t),
                qs@.len() == i,
                forall|t: int| 0 <= t < i ==> (#[trigger] qs@[t])@.len() == m.config.heads.q_dim(),
                k_flat@.len() == i * d,
                v_flat@.len() == i * d,
                arith::deterministic::<A>() ==> {
                    &&& forall|t: int|
                        0 <= t < i ==> (#[trigger] qs@[t])@ == m.query::<A>(
                            l,
                            m.hidden::<A>(tokens@, l, t),
                            t,
                        )
                    &&& k_flat@ == m.keys::<A>(tokens@, l, i as int)
                    &&& v_flat@ == m.values::<A>(tokens@, l, i as int)
                    &&& forall|t: int|
                        0 <= t < i ==> m.key::<A>(
                            l,
                            #[trigger] m.hidden::<A>(tokens@, l, t),
                            t,
                        ).len() == d && m.value::<A>(l, m.hidden::<A>(tokens@, l, t)).len() == d
                },
            decreases n - i,
        {
            proof {
                lemma_covers_less(m.rope, m.config.max_seq_len as int, i + 1);
                assert((i + 1) * d == i * d + d) by (nonlinear_arith);
            }
            assert(xs@[i as int]@.len() == m.width());
            match self.project::<A>(li, &xs[i], i) {
                Err(e) => {
                    return Err(e);
                },
                Ok((q, k, v)) => {
                    k_flat.extend_from_slice(&k);
                    v_flat.extend_from_slice(&v);
                    qs.push(q);
                },
            }
            i += 1;
        }
        // Causal attention and SwiGLU MLP.
        let kv_dim: usize = self.config.n_kv_heads * self.config.head_dim;
        let k_len: usize = k_flat.len();
        let mut t: usize = 0;
        while t < n
            invariant
                t <= n == tokens@.len() == xs@.len(),
                m == self@,
                l == li,
                kv_dim == d == m.config.heads.kv_dim(),
                m.runs(),
                m.embed.shape.len() == 2,
                li < m.depth(),
                m.layers[l].qkv_fault(m.width()) is None,
                t > 0 ==> m.layers[l].tail_fault(m.config.heads, m.width()) is None,
                forall|s: int| 0 <= s < n ==> (#[trigger] xs@[s])@.len() == m.width(),
                qs@.len() == n,
                forall|s: int| 0 <= s < n ==> (#[trigger] qs@[s])@.len() == m.config.heads.q_dim(),
                k_flat@.len() == n * d,
                v_flat@.len() == n * d,
                k_len == k_flat@.len(),
                arith::deterministic::<A>() ==> {
                    &&& forall|s: int|
                        0 <= s < n ==> (#[trigger] qs@[s])@ == m.query::<A>(
                            l,
                            m.hidden::<A>(tokens@, l, s),
                            s,
                        )
                    &&& k_flat@ == m.keys::<A>(tokens@, l, n as int)
                    &&& v_flat@ == m.values::<A>(tokens@, l, n as int)
                    &&& forall|s: int|
                        0 <= s < n ==> m.key::<A>(
                            l,
                            #[trigger] m.hidden::<A>(tokens@, l, s),
                            s,
                        ).len() == d && m.value::<A>(l, m.hidden::<A>(tokens@, l, s)).len() == d
                    &&& forall|s: int|
                        0 <= s < t ==> (#[trigger] xs@[s])@ == m.hidden::<A>(tokens@, l + 1, s)
                    &&& forall|s: int|
                        t <= s < n ==> (#[trigger] xs@[s])@ == m.hidden::<A>(tokens@, l, s)
                },
            decreases n - t,
        {
            proof {
                attention::lemma_head_within(t as int, n as int, d);
                if arith::deterministic::<A>() {
                    lemma_keys_len::<A>(m, tokens@, l, t + 1, n as int);
                }
            }
            let end: usize = t * kv_dim + kv_dim;
            let attn = attention::attend::<A>(
                &qs[t],
                vstd::slice::slice_subrange(&k_flat, 0, end),
                vstd::slice::slice_subrange(&v_flat, 0, end),
                t + 1,
                &self.config,
            );
            let ghost before = xs@;
            assert(before[t as int]@.len() == m.width());
            match self.finish::<A>(li, &mut xs[t], &attn) {
                Err(e) => {
                    return Err(e);
                },
                Ok(()) => {},
            }
            proof {
                assert(forall|s: int| 0 <= s < n && s != t ==> xs@[s] == before[s]);
            }
            t += 1;
        }
        Ok(())
    }

    /// Reference one-shot forward pass: every position is processed in a
    /// single causal sweep with no cache. Returns the last token's logits.
    pub fn forward_full<A: Arith>(&self, tokens: &[u32]) -> (r: Result<Vec<u32>, MinqError>)
        requires
            0 < tokens@.len() <= self@.config.max_seq_len ==> self@.runs(),
        ensures
            match self@.full_error(tokens@) {
                Some(e) => r is Err && r->Err_0@ == e,
                None => {
                    &&& r is Ok && r->Ok_0@.len() == self@.lm_head.rows()
                    &&& arith::deterministic::<A>() ==> r->Ok_0@ == self@.logits::<A>(
                        self@.hidden::<A>(tokens@, self@.depth(), tokens@.len() - 1),
                    )
                },
            },
    {
        match self.forward_full_states::<A>(tokens) {
            Err(e) => Err(e),
            Ok(xs) => {
                let last: usize = xs.len() - 1;
                assert(xs@[last as int]@.len() == self@.width());
                self.head::<A>(&xs[last])
            },
        }
    }
}

} // verus!
