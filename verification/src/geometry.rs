//! Checking that the parts of a model fit together before it is run.

use vstd::prelude::*;

use crate::config::ModelConfig;
use crate::model::{LayerWeights, Linear, Model};
use crate::model;
use crate::quantize::QuantizedTensor;
use crate::rope::RopeTables;
use crate::tensor;
use crate::tensor::Tensor;

verus! {

fn same_sizes(a: &Vec<usize>, b: &Vec<usize>) -> (r: bool)
    ensures
        r == (a@ == b@),
{
    if a.len() != b.len() {
        return false;
    }
    let mut i: usize = 0;
    while i < a.len()
        invariant
            i <= a@.len() == b@.len(),
            forall|j: int| 0 <= j < i ==> a@[j] == b@[j],
        decreases a@.len() - i,
    {
        if a[i] != b[i] {
            return false;
        }
        i += 1;
    }
    assert(a@ =~= b@);
    true
}

/// Whether the data and the strides of a tensor are those of its shape.
pub fn tensor_is_sound(t: &Tensor) -> (r: bool)
    ensures
        r == t@.wf(),
{
    match tensor::numel_checked(&t.shape) {
        None => false,
        Some(n) => n == t.data.len() && same_sizes(&t.strides, &tensor::compute_strides(&t.shape)),
    }
}

fn quantized_is_sound(q: &QuantizedTensor) -> (r: bool)
    ensures
        r == (q@.wf() && q@.row_len() <= usize::MAX),
{
    if q.cols % 32 != 0 {
        return false;
    }
    let len: usize = q.data.len();
    match (q.cols / 32).checked_mul(q.dtype.block_bytes()) {
        None => false,
        Some(row_len) => match q.rows.checked_mul(row_len) {
            None => false,
            Some(total) => total == len,
        },
    }
}

fn linear_is_sound(w: &Linear) -> (r: bool)
    ensures
        r == w@.sound(),
{
    match w {
        Linear::F32(t) => tensor_is_sound(t),
        Linear::Quant(q) => quantized_is_sound(q),
    }
}

fn accepts(w: &Linear, n: usize) -> (r: bool)
    ensures
        r == (w@.fault(n as int) is None),
{
    match w {
        Linear::F32(t) => t.shape.len() == 2 && t.shape[1] == n,
        Linear::Quant(q) => q.cols == n,
    }
}

fn takes(w: &Linear, n: usize) -> (r: bool)
    ensures
        r == w@.takes(n as int),
{
    linear_is_sound(w) && (n > 0 || !accepts(w, n))
}

fn rows(w: &Linear) -> (r: usize)
    requires
        w@ matches crate::format::WeightView::F32(t) ==> t.shape.len() >= 1,
    ensures
        r == w@.rows(),
{
    match w {
        Linear::F32(t) => t.shape[0],
        Linear::Quant(q) => q.rows,
    }
}

fn opt_has_len(v: &Option<Vec<u32>>, n: usize) -> (r: bool)
    ensures
        r == model::opt_len(model::opt_view(*v), n as int),
{
    match v {
        None => true,
        Some(v) => v.len() == n,
    }
}

fn heads_fit(c: &ModelConfig) -> (r: bool)
    ensures
        r == c.heads().fit(),
{
    if c.head_dim == 0 || c.head_dim % 2 != 0 || c.n_kv_heads == 0 || c.n_heads % c.n_kv_heads
        != 0 {
        return false;
    }
    c.n_heads.checked_mul(c.head_dim).is_some() && c.n_kv_heads.checked_mul(c.head_dim).is_some()
}

fn rope_covers(t: &RopeTables, rows: usize) -> (r: bool)
    ensures
        r == t@.covers(rows as int),
{
    if t.half == 0 || t.half > usize::MAX / 2 || t.cos.len() != t.sin.len() {
        return false;
    }
    match rows.checked_mul(t.half) {
        None => false,
        Some(n) => n <= t.cos.len(),
    }
}

fn layer_runs(l: &LayerWeights, c: &ModelConfig, width: usize) -> (r: bool)
    requires
        c.heads().fit(),
    ensures
        r == l@.runs(c.heads(), width as int),
{
    let q_dim: usize = c.n_heads * c.head_dim;
    let kv_dim: usize = c.n_kv_heads * c.head_dim;
    let hd: usize = c.head_dim;
    if l.attn_norm.len() != width || !takes(&l.q, width) || !takes(&l.k, width) || !takes(
        &l.v,
        width,
    ) {
        return false;
    }
    if !accepts(&l.q, width) || !accepts(&l.k, width) || !accepts(&l.v, width) {
        return true;
    }
    if rows(&l.q) != q_dim || rows(&l.k) != kv_dim || rows(&l.v) != kv_dim {
        return false;
    }
    if !opt_has_len(&l.q_bias, q_dim) || !opt_has_len(&l.k_bias, kv_dim) || !opt_has_len(
        &l.v_bias,
        kv_dim,
    ) || !opt_has_len(&l.q_norm, hd) || !opt_has_len(&l.k_norm, hd) || !takes(&l.o, q_dim) {
        return false;
    }
    if !accepts(&l.o, q_dim) {
        return true;
    }
    if rows(&l.o) != width || l.ffn_norm.len() != width || !takes(&l.gate, width) || !takes(
        &l.up,
        width,
    ) {
        return false;
    }
    if !accepts(&l.gate, width) || !accepts(&l.up, width) {
        return true;
    }
    let inter: usize = rows(&l.gate);
    if inter != rows(&l.up) || !takes(&l.down, inter) {
        return false;
    }
    !accepts(&l.down, inter) || rows(&l.down) == width
}

/// Whether a layer can be computed.
fn layer_accepts(l: &LayerWeights, c: &ModelConfig, width: usize) -> (r: bool)
    requires
        c.heads().fit(),
        l@.runs(c.heads(), width as int),
    ensures
        r == (l@.fault(c.heads(), width as int) is None),
{
    let q_dim: usize = c.n_heads * c.head_dim;
    accepts(&l.q, width) && accepts(&l.k, width) && accepts(&l.v, width) && accepts(&l.o, q_dim)
        && accepts(&l.gate, width) && accepts(&l.up, width) && accepts(&l.down, rows(&l.gate))
}

impl Model {
    /// Whether the parts of the model fit together, as far as the computation
    /// gets before a product is refused. What is read from a file need not.
    pub fn is_runnable(&self) -> (r: bool)
        ensures
            r == self@.runs(),
    {
        if self.embed.shape.len() != 2 {
            return true;
        }
        let width: usize = self.embed.shape[1];
        if !tensor_is_sound(&self.embed) || width == 0 || !heads_fit(&self.config)
            || self.rope.half != self.config.head_dim / 2 || !rope_covers(
            &self.rope,
            self.config.max_seq_len,
        ) || self.final_norm.len() != width || !takes(&self.lm_head, width) {
            return false;
        }
        let mut i: usize = 0;
        while i < self.layers.len()
            invariant
                i <= self.layers@.len(),
                width == self@.width(),
                self@.embed.shape.len() == 2,
                self.config.heads().fit(),
                forall|l: int|
                    0 <= l < i ==> (#[trigger] self@.layers[l]).runs(
                        self@.config.heads,
                        self@.width(),
                    ),
            decreases self.layers@.len() - i,
        {
            assert(self@.layers[i as int] == self.layers@[i as int]@);
            if !layer_runs(&self.layers[i], &self.config, width) {
                return false;
            }
            i += 1;
        }
        true
    }

    /// Whether all layers can be computed.
    pub fn layers_accept(&self) -> (r: bool)
        requires
            self@.runs(),
            self@.embed.shape.len() == 2,
        ensures
            r == (self@.layers_fault(self@.depth()) is None),
    {
        let width: usize = self.embed.shape[1];
        let mut i: usize = 0;
        while i < self.layers.len()
            invariant
                i <= self.layers@.len(),
                width == self@.width(),
                self@.embed.shape.len() == 2,
                self@.runs(),
                self@.layers_fault(i as int) is None,
            decreases self.layers@.len() - i,
        {
            assert(self@.layers[i as int] == self.layers@[i as int]@);
            if !layer_accepts(&self.layers[i], &self.config, width) {
                proof {
                    model::lemma_fault_upto(self@, i + 1, self@.depth());
                }
                return false;
            }
            i += 1;
        }
        true
    }

    /// Whether logits can be computed from a hidden state.
    pub fn head_accepts(&self) -> (r: bool)
        requires
            self@.embed.shape.len() == 2,
        ensures
            r == (self@.lm_head.fault(self@.width()) is None),
    {
        accepts(&self.lm_head, self.embed.shape[1])
    }

    /// The number of logits.
    pub fn logit_count(&self) -> (r: usize)
        requires
            self@.embed.shape.len() == 2,
            self@.lm_head.fault(self@.width()) is None,
        ensures
            r == self@.lm_head.rows(),
    {
        rows(&self.lm_head)
    }
}

} // verus!
