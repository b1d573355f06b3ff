//! Hyper-parameters of a model.

use vstd::prelude::*;

verus! {

/// Static hyper-parameters of the model, stored in `.minq` files.
#[derive(Debug, PartialEq)]
pub struct ModelConfig {
    pub hidden_size: usize,
    pub intermediate_size: usize,
    pub n_layers: usize,
    pub n_heads: usize,
    pub n_kv_heads: usize,
    pub head_dim: usize,
    pub vocab_size: usize,
    pub max_seq_len: usize,
    /// Binary32 bit pattern.
    pub rope_theta: u32,
    /// Binary32 bit pattern.
    pub rms_norm_eps: u32,
    /// Qwen2-style Q/K/V projections carry biases; LLaMA does not.
    pub has_qkv_bias: bool,
    /// Weight storage tag: "f32", "q8_0" or "q4_0".
    pub dtype: String,
}

/// The contents of a [`ModelConfig`].
pub struct ConfigView {
    pub hidden_size: usize,
    pub intermediate_size: usize,
    pub n_layers: usize,
    pub heads: Heads,
    pub vocab_size: usize,
    pub max_seq_len: usize,
    pub rope_theta: u32,
    pub rms_norm_eps: u32,
    pub has_qkv_bias: bool,
    pub dtype: Seq<char>,
}

impl View for ModelConfig {
    type V = ConfigView;

    open spec fn view(&self) -> ConfigView {
        ConfigView {
            hidden_size: self.hidden_size,
            intermediate_size: self.intermediate_size,
            n_layers: self.n_layers,
            heads: self.heads(),
            vocab_size: self.vocab_size,
            max_seq_len: self.max_seq_len,
            rope_theta: self.rope_theta,
            rms_norm_eps: self.rms_norm_eps,
            has_qkv_bias: self.has_qkv_bias,
            dtype: self.dtype@,
        }
    }
}

/// The geometry of the attention heads.
pub struct Heads {
    pub n_heads: usize,
    pub n_kv_heads: usize,
    pub head_dim: usize,
}

impl Heads {
    /// The width of all query heads.
    pub open spec fn q_dim(self) -> int {
        self.n_heads * self.head_dim
    }

    /// The width of all key (or value) heads.
    pub open spec fn kv_dim(self) -> int {
        self.n_kv_heads * self.head_dim
    }

    /// How many query heads share a key/value head.
    pub open spec fn group(self) -> int {
        self.n_heads as int / self.n_kv_heads as int
    }

    /// Whether the heads can be attended to: heads are not empty and have an
    /// even width, the query heads share the key/value heads evenly, and the
    /// widths fit the machine word.
    pub open spec fn fit(self) -> bool {
        &&& self.head_dim > 0
        &&& self.head_dim % 2 == 0
        &&& self.n_kv_heads > 0
        &&& self.n_heads % self.n_kv_heads == 0
        &&& self.q_dim() <= usize::MAX
        &&& self.kv_dim() <= usize::MAX
    }
}

impl ModelConfig {
    /// The geometry of the attention heads.
    pub open spec fn heads(self) -> Heads {
        Heads { n_heads: self.n_heads, n_kv_heads: self.n_kv_heads, head_dim: self.head_dim }
    }
}

impl Clone for ModelConfig {
    fn clone(&self) -> (c: ModelConfig)
        ensures
            c@ == self@,
    {
        ModelConfig {
            hidden_size: self.hidden_size,
            intermediate_size: self.intermediate_size,
            n_layers: self.n_layers,
            n_heads: self.n_heads,
            n_kv_heads: self.n_kv_heads,
            head_dim: self.head_dim,
            vocab_size: self.vocab_size,
            max_seq_len: self.max_seq_len,
            rope_theta: self.rope_theta,
            rms_norm_eps: self.rms_norm_eps,
            has_qkv_bias: self.has_qkv_bias,
            dtype: self.dtype.clone(),
        }
    }
}

} // verus!
