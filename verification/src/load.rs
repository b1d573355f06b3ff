//! Assembling a model from named weights.

use vstd::prelude::*;
use vstd::string::*;

use crate::arith;
use crate::arith::Arith;
use crate::config::{ConfigView, ModelConfig};
use crate::error::{ErrorView, MinqError, ModelErrorOf};
use crate::format::{Record, WeightTensor, WeightView};
use crate::model;
use crate::model::{LayerView, LayerWeights, Linear, Model, ModelView};
use crate::rope::RopeTables;
use crate::tensor::{Tensor, TensorView};
use crate::text;

verus! {

/// The name of a layer's tensor.
pub open spec fn layer_name(i: int, suffix: Seq<char>) -> Seq<char> {
    "model.layers."@ + text::decimal_of(i) + "."@ + suffix
}

/// The name of a layer's tensor.
pub fn layer_tensor_name(i: usize, suffix: &str) -> (s: String)
    ensures
        s@ == layer_name(i as int, suffix@),
{
    let mut s = "model.layers.".to_owned();
    s.append(text::decimal(i).as_str());
    s.append(".");
    s.append(suffix);
    s
}

/// Each tensor of each layer has a name of its own.
pub proof fn law_layer_names_differ(i: int, a: Seq<char>, j: int, b: Seq<char>)
    requires
        0 <= i,
        0 <= j,
        layer_name(i, a) == layer_name(j, b),
    ensures
        i == j,
        a == b,
{
    reveal_strlit("model.layers.");
    reveal_strlit(".");
    let name = layer_name(i, a);
    let x = text::decimal_of(i);
    let y = text::decimal_of(j);
    assert(name[(13 + x.len()) as int] == '.');
    assert(layer_name(j, b)[(13 + y.len()) as int] == '.');
    if x.len() < y.len() {
        text::law_decimal_digits(j, x.len() as int);
        assert(layer_name(j, b)[(13 + x.len()) as int] == y[x.len() as int]);
    } else if y.len() < x.len() {
        text::law_decimal_digits(i, y.len() as int);
        assert(name[(13 + y.len()) as int] == x[y.len() as int]);
    }
    assert(x =~= name.subrange(13, (13 + x.len()) as int));
    assert(y =~= layer_name(j, b).subrange(13, (13 + y.len()) as int));
    text::law_decimal_injective(i, j);
    assert(a =~= name.skip((14 + x.len()) as int));
    assert(b =~= layer_name(j, b).skip((14 + y.len()) as int));
}

/// The last weight with the given name.
pub open spec fn find(weights: Seq<Record>, name: Seq<char>) -> Option<WeightView>
    decreases weights.len(),
{
    if weights.len() == 0 {
        None
    } else if weights.last().0 == name {
        Some(weights.last().1)
    } else {
        find(weights.drop_last(), name)
    }
}

/// The last weight with the given name.
fn lookup<'a>(weights: &'a Vec<(String, WeightTensor)>, name: &String) -> (r: Option<&'a WeightTensor>)
    ensures
        match find(crate::format::records_view(weights@), name@) {
            Some(w) => r is Some && r->Some_0@ == w,
            None => r is None,
        },
{
    let ghost all = crate::format::records_view(weights@);
    let mut n: usize = weights.len();
    assert(all.subrange(0, n as int) =~= all);
    while n > 0
        invariant
            n <= weights@.len(),
            all == crate::format::records_view(weights@),
            find(all, name@) == find(all.subrange(0, n as int), name@),
        decreases n,
    {
        n -= 1;
        proof {
            let front = all.subrange(0, n + 1);
            assert(front.drop_last() =~= all.subrange(0, n as int));
            assert(front.last() == all[n as int]);
        }
        if weights[n].0 == *name {
            return Some(&weights[n].1);
        }
    }
    None
}

/// Whether there is a weight with the given name.
pub fn has_weight(weights: &Vec<(String, WeightTensor)>, name: &String) -> (r: bool)
    ensures
        r == (find(crate::format::records_view(weights@), name@) is Some),
{
    lookup(weights, name).is_some()
}

/// A weight that must be there.
pub open spec fn needed(weights: Seq<Record>, name: Seq<char>) -> Result<WeightView, ErrorView> {
    match find(weights, name) {
        Some(w) => Ok(w),
        None => Err(ErrorView::Model(ModelErrorOf::MissingTensor { name })),
    }
}

/// A weight that must be there.
fn need<'a>(weights: &'a Vec<(String, WeightTensor)>, name: &String) -> (r: Result<
    &'a WeightTensor,
    MinqError,
>)
    ensures
        match needed(crate::format::records_view(weights@), name@) {
            Ok(w) => r is Ok && r->Ok_0@ == w,
            Err(e) => r is Err && r->Err_0@ == e,
        },
{
    match lookup(weights, name) {
        Some(w) => Ok(w),
        None => Err(MinqError::Model(ModelErrorOf::MissingTensor { name: name.clone() })),
    }
}

/// A matrix that must be there; a dense one must be 2-D.
pub open spec fn matrix_of(weights: Seq<Record>, name: Seq<char>) -> Result<WeightView, ErrorView> {
    match needed(weights, name) {
        Err(e) => Err(e),
        Ok(w) => match w {
            WeightView::F32(t) => if t.shape.len() == 2 {
                Ok(w)
            } else {
                Err(ErrorView::Model(ModelErrorOf::NotMatrix { name, shape: t.shape }))
            },
            WeightView::Quant(_) => Ok(w),
        },
    }
}

/// A matrix that must be there; a dense one must be 2-D.
fn get_linear(weights: &Vec<(String, WeightTensor)>, name: &String) -> (r: Result<Linear, MinqError>)
    ensures
        match matrix_of(crate::format::records_view(weights@), name@) {
            Ok(w) => r is Ok && r->Ok_0@ == w,
            Err(e) => r is Err && r->Err_0@ == e,
        },
{
    match need(weights, name) {
        Err(e) => Err(e),
        Ok(w) => match w {
            WeightTensor::F32(t) => {
                if t.ndim() != 2 {
                    return Err(
                        MinqError::Model(
                            ModelErrorOf::NotMatrix { name: name.clone(), shape: t.shape.clone() },
                        ),
                    );
                }
                Ok(Linear::F32(t.clone()))
            },
            WeightTensor::Quant(q) => Ok(Linear::Quant(q.clone())),
        },
    }
}

/// The elements of a weight that must be a dense vector.
pub open spec fn elements_of(w: WeightView, name: Seq<char>) -> Result<Seq<u32>, ErrorView> {
    match w {
        WeightView::F32(t) => if t.shape.len() == 1 {
            Ok(t.data)
        } else {
            Err(ErrorView::Model(ModelErrorOf::NotVector { name }))
        },
        WeightView::Quant(_) => Err(ErrorView::Model(ModelErrorOf::NotVector { name })),
    }
}

fn elements(w: &WeightTensor, name: &String) -> (r: Result<Vec<u32>, MinqError>)
    ensures
        match elements_of(w@, name@) {
            Ok(v) => r is Ok && r->Ok_0@ == v,
            Err(e) => r is Err && r->Err_0@ == e,
        },
{
    match w {
        WeightTensor::F32(t) => {
            if t.ndim() == 1 {
                return Ok(t.data.clone());
            }
        },
        WeightTensor::Quant(_) => {},
    }
    Err(MinqError::Model(ModelErrorOf::NotVector { name: name.clone() }))
}

/// A vector that must be there.
pub open spec fn vector_of(weights: Seq<Record>, name: Seq<char>) -> Result<Seq<u32>, ErrorView> {
    match needed(weights, name) {
        Err(e) => Err(e),
        Ok(w) => elements_of(w, name),
    }
}

fn get_vec(weights: &Vec<(String, WeightTensor)>, name: &String) -> (r: Result<Vec<u32>, MinqError>)
    ensures
        match vector_of(crate::format::records_view(weights@), name@) {
            Ok(v) => r is Ok && r->Ok_0@ == v,
            Err(e) => r is Err && r->Err_0@ == e,
        },
{
    match need(weights, name) {
        Err(e) => Err(e),
        Ok(w) => elements(w, name),
    }
}

/// A vector that may be absent.
pub open spec fn opt_vector_of(weights: Seq<Record>, name: Seq<char>) -> Result<
    Option<Seq<u32>>,
    ErrorView,
> {
    match find(weights, name) {
        None => Ok(None),
        Some(w) => match elements_of(w, name) {
            Ok(v) => Ok(Some(v)),
            Err(e) => Err(e),
        },
    }
}

fn get_opt_vec(weights: &Vec<(String, WeightTensor)>, name: &String) -> (r: Result<
    Option<Vec<u32>>,
    MinqError,
>)
    ensures
        match opt_vector_of(crate::format::records_view(weights@), name@) {
            Ok(v) => r is Ok && model::opt_view(r->Ok_0) == v,
            Err(e) => r is Err && r->Err_0@ == e,
        },
{
    match lookup(weights, name) {
        None => Ok(None),
        Some(w) => match elements(w, name) {
            Err(e) => Err(e),
            Ok(v) => Ok(Some(v)),
        },
    }
}

/// The error of a result.
pub open spec fn error_of<T>(r: Result<T, ErrorView>) -> Option<ErrorView> {
    match r {
        Ok(_) => None,
        Err(e) => Some(e),
    }
}

/// The first of two errors.
pub open spec fn earlier(a: Option<ErrorView>, b: Option<ErrorView>) -> Option<ErrorView> {
    if a is Some {
        a
    } else {
        b
    }
}

/// Why layer `i` cannot be assembled.
pub open spec fn layer_error(w: Seq<Record>, i: int) -> Option<ErrorView> {
    earlier(
        earlier(
            earlier(
                error_of(vector_of(w, layer_name(i, "input_layernorm.weight"@))),
                error_of(matrix_of(w, layer_name(i, "self_attn.q_proj.weight"@))),
            ),
            earlier(
                error_of(matrix_of(w, layer_name(i, "self_attn.k_proj.weight"@))),
                earlier(
                    error_of(matrix_of(w, layer_name(i, "self_attn.v_proj.weight"@))),
                    error_of(matrix_of(w, layer_name(i, "self_attn.o_proj.weight"@))),
                ),
            ),
        ),
        earlier(
            earlier(
                earlier(
                    error_of(opt_vector_of(w, layer_name(i, "self_attn.q_proj.bias"@))),
                    error_of(opt_vector_of(w, layer_name(i, "self_attn.k_proj.bias"@))),
                ),
                earlier(
                    error_of(opt_vector_of(w, layer_name(i, "self_attn.v_proj.bias"@))),
                    earlier(
                        error_of(opt_vector_of(w, layer_name(i, "self_attn.q_norm.weight"@))),
                        error_of(opt_vector_of(w, layer_name(i, "self_attn.k_norm.weight"@))),
                    ),
                ),
            ),
            earlier(
                earlier(
                    error_of(vector_of(w, layer_name(i, "post_attention_layernorm.weight"@))),
                    error_of(matrix_of(w, layer_name(i, "mlp.gate_proj.weight"@))),
                ),
                earlier(
                    error_of(matrix_of(w, layer_name(i, "mlp.up_proj.weight"@))),
                    error_of(matrix_of(w, layer_name(i, "mlp.down_proj.weight"@))),
                ),
            ),
        ),
    )
}

/// Layer `i`, of weights that it can be assembled from.
pub open spec fn layer_of(w: Seq<Record>, i: int) -> LayerView {
    LayerView {
        attn_norm: vector_of(w, layer_name(i, "input_layernorm.weight"@))->Ok_0,
        q: matrix_of(w, layer_name(i, "self_attn.q_proj.weight"@))->Ok_0,
        k: matrix_of(w, layer_name(i, "self_attn.k_proj.weight"@))->Ok_0,
        v: matrix_of(w, layer_name(i, "self_attn.v_proj.weight"@))->Ok_0,
        o: matrix_of(w, layer_name(i, "self_attn.o_proj.weight"@))->Ok_0,
        q_bias: opt_vector_of(w, layer_name(i, "self_attn.q_proj.bias"@))->Ok_0,
        k_bias: opt_vector_of(w, layer_name(i, "self_attn.k_proj.bias"@))->Ok_0,
        v_bias: opt_vector_of(w, layer_name(i, "self_attn.v_proj.bias"@))->Ok_0,
        q_norm: opt_vector_of(w, layer_name(i, "self_attn.q_norm.weight"@))->Ok_0,
        k_norm: opt_vector_of(w, layer_name(i, "self_attn.k_norm.weight"@))->Ok_0,
        ffn_norm: vector_of(w, layer_name(i, "post_attention_layernorm.weight"@))->Ok_0,
        gate: matrix_of(w, layer_name(i, "mlp.gate_proj.weight"@))->Ok_0,
        up: matrix_of(w, layer_name(i, "mlp.up_proj.weight"@))->Ok_0,
        down: matrix_of(w, layer_name(i, "mlp.down_proj.weight"@))->Ok_0,
    }
}

fn assemble_layer(weights: &Vec<(String, WeightTensor)>, i: usize) -> (r: Result<
    LayerWeights,
    MinqError,
>)
    ensures
        match layer_error(crate::format::records_view(weights@), i as int) {
            Some(e) => r is Err && r->Err_0@ == e,
            None => r is Ok && r->Ok_0@ == layer_of(crate::format::records_view(weights@), i as int),
        },
{
    let attn_norm = match get_vec(weights, &layer_tensor_name(i, "input_layernorm.weight")) {
        Err(e) => {
            return Err(e);
        },
        Ok(v) => v,
    };
    let q = match get_linear(weights, &layer_tensor_name(i, "self_attn.q_proj.weight")) {
        Err(e) => {
            return Err(e);
        },
        Ok(w) => w,
    };
    let k = match get_linear(weights, &layer_tensor_name(i, "self_attn.k_proj.weight")) {
        Err(e) => {
            return Err(e);
        },
        Ok(w) => w,
    };
    let v = match get_linear(weights, &layer_tensor_name(i, "self_attn.v_proj.weight")) {
        Err(e) => {
            return Err(e);
        },
        Ok(w) => w,
    };
    let o = match get_linear(weights, &layer_tensor_name(i, "self_attn.o_proj.weight")) {
        Err(e) => {
            return Err(e);
        },
        Ok(w) => w,
    };
    let q_bias = match get_opt_vec(weights, &layer_tensor_name(i, "self_attn.q_proj.bias")) {
        Err(e) => {
            return Err(e);
        },
        Ok(v) => v,
    };
    let k_bias = match get_opt_vec(weights, &layer_tensor_name(i, "self_attn.k_proj.bias")) {
        Err(e) => {
            return Err(e);
        },
        Ok(v) => v,
    };
    let v_bias = match get_opt_vec(weights, &layer_tensor_name(i, "self_attn.v_proj.bias")) {
        Err(e) => {
            return Err(e);
        },
        Ok(v) => v,
    };
    // Present in Qwen3, absent in LLaMA/Qwen2: presence drives use.
    let q_norm = match get_opt_vec(weights, &layer_tensor_name(i, "self_attn.q_norm.weight")) {
        Err(e) => {
            return Err(e);
        },
        Ok(v) => v,
    };
    let k_norm = match get_opt_vec(weights, &layer_tensor_name(i, "self_attn.k_norm.weight")) {
        Err(e) => {
            return Err(e);
        },
        Ok(v) => v,
    };
    let ffn_norm = match get_vec(weights, &layer_tensor_name(i, "post_attention_layernorm.weight")) {
        Err(e) => {
            return Err(e);
        },
        Ok(v) => v,
    };
    let gate = match get_linear(weights, &layer_tensor_name(i, "mlp.gate_proj.weight")) {
        Err(e) => {
            return Err(e);
        },
        Ok(w) => w,
    };
    let up = match get_linear(weights, &layer_tensor_name(i, "mlp.up_proj.weight")) {
        Err(e) => {
            return Err(e);
        },
        Ok(w) => w,
    };
    let down = match get_linear(weights, &layer_tensor_name(i, "mlp.down_proj.weight")) {
        Err(e) => {
            return Err(e);
        },
        Ok(w) => w,
    };
    Ok(
        LayerWeights {
            attn_norm,
            q,
            k,
            v,
            o,
            q_bias,
            k_bias,
            v_bias,
            q_norm,
            k_norm,
            ffn_norm,
            gate,
            up,
            down,
        },
    )
}

/// Why one of the layers from `i` to below `n` cannot be assembled.
pub open spec fn layers_error(w: Seq<Record>, i: int, n: int) -> Option<ErrorView>
    decreases n - i,
{
    if i >= n {
        None
    } else {
        earlier(layer_error(w, i), layers_error(w, i + 1, n))
    }
}

/// The embedding table, which must be a dense matrix.
pub open spec fn embed_of(w: Seq<Record>) -> Result<TensorView, ErrorView> {
    match needed(w, "model.embed_tokens.weight"@) {
        Err(e) => Err(e),
        Ok(e) => match e {
            WeightView::F32(t) => if t.shape.len() == 2 {
                Ok(t)
            } else {
                Err(ErrorView::Model(ModelErrorOf::BadEmbedding))
            },
            WeightView::Quant(_) => Err(ErrorView::Model(ModelErrorOf::BadEmbedding)),
        },
    }
}

/// The LM head. Tied embeddings: the embedding table serves if there is none.
pub open spec fn head_of(w: Seq<Record>) -> Result<WeightView, ErrorView> {
    if find(w, "lm_head.weight"@) is Some {
        matrix_of(w, "lm_head.weight"@)
    } else {
        Ok(WeightView::F32(embed_of(w)->Ok_0))
    }
}

/// Why a model cannot be assembled.
pub open spec fn assemble_error(c: ConfigView, w: Seq<Record>) -> Option<ErrorView> {
    if c.heads.head_dim % 2 != 0 {
        Some(ErrorView::Model(ModelErrorOf::OddHeadDim))
    } else if c.heads.n_heads % c.heads.n_kv_heads != 0 {
        Some(ErrorView::Model(ModelErrorOf::UnevenHeads))
    } else {
        earlier(
            earlier(error_of(embed_of(w)), layers_error(w, 0, c.n_layers as int)),
            earlier(error_of(vector_of(w, "model.norm.weight"@)), error_of(head_of(w))),
        )
    }
}

/// Whether a model is the one that the weights make up.
pub open spec fn assembled<A: Arith>(c: ConfigView, w: Seq<Record>, m: ModelView) -> bool {
    &&& m.config == c
    &&& m.embed == embed_of(w)->Ok_0
    &&& m.layers == Seq::new(c.n_layers as nat, |i: int| layer_of(w, i))
    &&& m.final_norm == vector_of(w, "model.norm.weight"@)->Ok_0
    &&& m.lm_head == head_of(w)->Ok_0
    &&& m.rope.half == c.heads.head_dim / 2
    &&& m.rope.cos.len() == c.max_seq_len * (c.heads.head_dim / 2)
    &&& m.rope.sin.len() == c.max_seq_len * (c.heads.head_dim / 2)
    &&& arith::deterministic::<A>() ==> m.rope.tabulates::<A>(
        c.max_seq_len as int,
        c.heads.head_dim,
        c.rope_theta,
    )
}

/// Whether weights can be assembled to a model, or be refused: the heads can be
/// divided among the key/value heads where that is asked, and the rotary tables
/// can be counted where it comes to them.
pub open spec fn divisible(c: ConfigView, w: Seq<Record>) -> bool {
    &&& c.heads.head_dim % 2 == 0 ==> c.heads.n_kv_heads > 0
    &&& assemble_error(c, w) is None ==> c.max_seq_len * (c.heads.head_dim / 2) <= usize::MAX
}

/// Whether weights can be assembled to a model, or be refused.
pub fn is_divisible<A: Arith>(config: &ModelConfig, weights: &Vec<(String, WeightTensor)>) -> (r:
    bool)
    ensures
        r == divisible(config@, crate::format::records_view(weights@)),
{
    if config.head_dim % 2 == 0 && config.n_kv_heads == 0 {
        return false;
    }
    if config.max_seq_len.checked_mul(config.head_dim / 2).is_some() {
        return true;
    }
    // The tables cannot be counted, so the weights have to be refused without them.
    let mut bare = config.clone();
    bare.max_seq_len = 0;
    match assemble::<A>(&bare, weights) {
        Ok(_) => false,
        Err(_) => true,
    }
}

/// Assembles a [`Model`] from named tensors, validating the basic geometry.
/// Where a name occurs more than once, the last tensor counts.
pub fn assemble<A: Arith>(config: &ModelConfig, weights: &Vec<(String, WeightTensor)>) -> (r: Result<
    Model,
    MinqError,
>)
    requires
        divisible(config@, crate::format::records_view(weights@)),
    ensures
        match assemble_error(config@, crate::format::records_view(weights@)) {
            Some(e) => r is Err && r->Err_0@ == e,
            None => r is Ok && assembled::<A>(
                config@,
                crate::format::records_view(weights@),
                r->Ok_0@,
            ),
        },
{
    let ghost w = crate::format::records_view(weights@);
    if config.head_dim % 2 != 0 {
        return Err(MinqError::Model(ModelErrorOf::OddHeadDim));
    }
    if config.n_heads % config.n_kv_heads != 0 {
        return Err(MinqError::Model(ModelErrorOf::UnevenHeads));
    }
    let embed = match get_embed(weights) {
        Err(e) => {
            return Err(e);
        },
        Ok(t) => t,
    };
    let mut layers: Vec<LayerWeights> = Vec::with_capacity(config.n_layers);
    while layers.len() < config.n_layers
        invariant
            layers@.len() <= config.n_layers,
            w == crate::format::records_view(weights@),
            forall|i: int| 0 <= i < layers@.len() ==> (#[trigger] layers@[i])@ == layer_of(w, i),
            layers_error(w, 0, config.n_layers as int) == layers_error(
                w,
                layers@.len() as int,
                config.n_layers as int,
            ),
            embed_of(w) is Ok,
            config.head_dim % 2 == 0,
            config.n_heads % config.n_kv_heads == 0,
        decreases config.n_layers - layers@.len(),
    {
        let i: usize = layers.len();
        match assemble_layer(weights, i) {
            Err(e) => {
                return Err(e);
            },
            Ok(l) => {
                layers.push(l);
            },
        }
    }
    let final_norm = match get_vec(weights, &"model.norm.weight".to_owned()) {
        Err(e) => {
            return Err(e);
        },
        Ok(v) => v,
    };
    let head_name = "lm_head.weight".to_owned();
    let lm_head = match lookup(weights, &head_name) {
        Some(_) => match get_linear(weights, &head_name) {
            Err(e) => {
                return Err(e);
            },
            Ok(w) => w,
        },
        None => Linear::F32(embed.clone()),
    };
    let rope = RopeTables::new::<A>(config.head_dim, config.max_seq_len, config.rope_theta);
    let m = Model { config: config.clone(), embed, layers, final_norm, lm_head, rope };
    assert(m@.layers =~= Seq::new(config.n_layers as nat, |i: int| layer_of(w, i)));
    Ok(m)
}

fn get_embed(weights: &Vec<(String, WeightTensor)>) -> (r: Result<Tensor, MinqError>)
    ensures
        match embed_of(crate::format::records_view(weights@)) {
            Ok(t) => r is Ok && r->Ok_0@ == t,
            Err(e) => r is Err && r->Err_0@ == e,
        },
{
    match need(weights, &"model.embed_tokens.weight".to_owned()) {
        Err(e) => {
            return Err(e);
        },
        Ok(w) => match w {
            WeightTensor::F32(t) => {
                if t.ndim() == 2 {
                    return Ok(t.clone());
                }
            },
            WeightTensor::Quant(_) => {},
        },
    }
    Err(MinqError::Model(ModelErrorOf::BadEmbedding))
}

/// Loads a model from the bytes of a `.minq` file (dense or quantized), whose
/// records begin at `pos` and whose config is given.
pub fn load_minq<A: Arith>(config: &ModelConfig, bytes: &[u8], pos: u64) -> (r: Result<
    Model,
    MinqError,
>)
    requires
        pos <= bytes@.len(),
        crate::format::records_from(bytes@, pos as int) matches Ok(w) ==> divisible(config@, w),
    ensures
        match crate::format::records_from(bytes@, pos as int) {
            Err(e) => r is Err && r->Err_0@ == ErrorView::Format(e),
            Ok(w) => match assemble_error(config@, w) {
                Some(e) => r is Err && r->Err_0@ == e,
                None => r is Ok && assembled::<A>(config@, w, r->Ok_0@),
            },
        },
{
    match crate::format::read_minq_records(bytes, pos) {
        Err(e) => Err(e),
        Ok(records) => assemble::<A>(config, &records),
    }
}

} // verus!
