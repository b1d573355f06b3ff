//! Which tensor of a checkpoint becomes which part of a model.

use vstd::prelude::*;

use crate::arith;
use crate::arith::Arith;
use crate::config::ConfigView;
use crate::format::{Record, WeightView};
use crate::load;
use crate::model::{LayerView, ModelView};
use crate::rope;
use crate::text;

verus! {

/// Whether `weight` is what weights hold under a name: the last of that name.
pub open spec fn held(w: Seq<Record>, name: Seq<char>, weight: WeightView) -> bool {
    exists|i: int|
        {
            &&& 0 <= i < w.len()
            &&& #[trigger] w[i] == (name, weight)
            &&& forall|j: int| i < j < w.len() ==> (#[trigger] w[j]).0 != name
        }
}

/// Whether weights hold nothing under a name.
pub open spec fn absent(w: Seq<Record>, name: Seq<char>) -> bool {
    forall|i: int| 0 <= i < w.len() ==> (#[trigger] w[i]).0 != name
}

/// Whether weights hold a vector of the given elements under a name.
pub open spec fn holds_vector(w: Seq<Record>, name: Seq<char>, v: Seq<u32>) -> bool {
    exists|weight: WeightView|
        {
            &&& #[trigger] held(w, name, weight)
            &&& weight is F32
            &&& weight->F32_0.shape.len() == 1
            &&& weight->F32_0.data == v
        }
}

/// Whether an optional vector is what weights hold under a name, if anything.
pub open spec fn may_hold_vector(w: Seq<Record>, name: Seq<char>, v: Option<Seq<u32>>) -> bool {
    match v {
        None => absent(w, name),
        Some(s) => holds_vector(w, name, s),
    }
}

/// Whether weights hold a matrix under a name: a quantized one, or a dense one of two
/// dimensions.
pub open spec fn holds_matrix(w: Seq<Record>, name: Seq<char>, matrix: WeightView) -> bool {
    &&& held(w, name, matrix)
    &&& matrix matches WeightView::F32(t) ==> t.shape.len() == 2
}

/// The name of a tensor of layer `i` in a checkpoint.
pub open spec fn checkpoint_name(i: int, part: Seq<char>) -> Seq<char> {
    "model.layers."@ + text::decimal_of(i) + "."@ + part
}

/// Whether layer `i` is made of the tensors of its names: the gains of attention and
/// of the MLP, the matrices, and the biases and gains that there may be.
pub open spec fn is_named(w: Seq<Record>, i: int, l: LayerView) -> bool {
    &&& holds_vector(w, checkpoint_name(i, "input_layernorm.weight"@), l.attn_norm)
    &&& holds_matrix(w, checkpoint_name(i, "self_attn.q_proj.weight"@), l.q)
    &&& holds_matrix(w, checkpoint_name(i, "self_attn.k_proj.weight"@), l.k)
    &&& holds_matrix(w, checkpoint_name(i, "self_attn.v_proj.weight"@), l.v)
    &&& holds_matrix(w, checkpoint_name(i, "self_attn.o_proj.weight"@), l.o)
    &&& may_hold_vector(w, checkpoint_name(i, "self_attn.q_proj.bias"@), l.q_bias)
    &&& may_hold_vector(w, checkpoint_name(i, "self_attn.k_proj.bias"@), l.k_bias)
    &&& may_hold_vector(w, checkpoint_name(i, "self_attn.v_proj.bias"@), l.v_bias)
    &&& may_hold_vector(w, checkpoint_name(i, "self_attn.q_norm.weight"@), l.q_norm)
    &&& may_hold_vector(w, checkpoint_name(i, "self_attn.k_norm.weight"@), l.k_norm)
    &&& holds_vector(w, checkpoint_name(i, "post_attention_layernorm.weight"@), l.ffn_norm)
    &&& holds_matrix(w, checkpoint_name(i, "mlp.gate_proj.weight"@), l.gate)
    &&& holds_matrix(w, checkpoint_name(i, "mlp.up_proj.weight"@), l.up)
    &&& holds_matrix(w, checkpoint_name(i, "mlp.down_proj.weight"@), l.down)
}

/// What is found is what is held.
proof fn lemma_find(w: Seq<Record>, name: Seq<char>)
    ensures
        match load::find(w, name) {
            Some(weight) => held(w, name, weight),
            None => absent(w, name),
        },
    decreases w.len(),
{
    if w.len() > 0 {
        let init = w.drop_last();
        let last = w.len() - 1;
        if w.last().0 == name {
            assert(w[last] == (name, w.last().1));
        } else {
            lemma_find(init, name);
            match load::find(init, name) {
                Some(weight) => {
                    let i = choose|i: int|
                        {
                            &&& 0 <= i < init.len()
                            &&& #[trigger] init[i] == (name, weight)
                            &&& forall|j: int| i < j < init.len() ==> (#[trigger] init[j]).0 != name
                        };
                    assert(w[i] == (name, weight));
                    assert forall|j: int| i < j < w.len() implies (#[trigger] w[j]).0 != name by {
                        if j < last {
                            assert(init[j] == w[j]);
                        }
                    }
                },
                None => {
                    assert forall|i: int| 0 <= i < w.len() implies (#[trigger] w[i]).0 != name by {
                        if i < last {
                            assert(init[i] == w[i]);
                        }
                    }
                },
            }
        }
    }
}

/// What is held under a name is one thing.
proof fn lemma_held_once(w: Seq<Record>, name: Seq<char>, a: WeightView, b: WeightView)
    requires
        held(w, name, a),
        held(w, name, b),
    ensures
        a == b,
{
    let i = choose|i: int|
        {
            &&& 0 <= i < w.len()
            &&& #[trigger] w[i] == (name, a)
            &&& forall|j: int| i < j < w.len() ==> (#[trigger] w[j]).0 != name
        };
    let k = choose|i: int|
        {
            &&& 0 <= i < w.len()
            &&& #[trigger] w[i] == (name, b)
            &&& forall|j: int| i < j < w.len() ==> (#[trigger] w[j]).0 != name
        };
    if i < k {
        assert(w[k].0 != name);
    } else if k < i {
        assert(w[i].0 != name);
    }
}

proof fn lemma_vector(w: Seq<Record>, name: Seq<char>)
    ensures
        load::vector_of(w, name) is Ok <==> exists|v: Seq<u32>| #[trigger] holds_vector(w, name, v),
        load::vector_of(w, name) matches Ok(v) ==> holds_vector(w, name, v),
{
    lemma_find(w, name);
    if load::vector_of(w, name) is Ok {
        assert(held(w, name, load::find(w, name)->Some_0));
        assert(holds_vector(w, name, load::vector_of(w, name)->Ok_0));
    }
    if exists|v: Seq<u32>| #[trigger] holds_vector(w, name, v) {
        let v = choose|v: Seq<u32>| #[trigger] holds_vector(w, name, v);
        let weight = choose|weight: WeightView|
            {
                &&& #[trigger] held(w, name, weight)
                &&& weight is F32
                &&& weight->F32_0.shape.len() == 1
                &&& weight->F32_0.data == v
            };
        if load::find(w, name) is Some {
            lemma_held_once(w, name, weight, load::find(w, name)->Some_0);
        } else {
            let i = choose|i: int| 0 <= i < w.len() && #[trigger] w[i] == (name, weight);
            assert(w[i].0 == name);
        }
    }
}

proof fn lemma_opt_vector(w: Seq<Record>, name: Seq<char>)
    ensures
        load::opt_vector_of(w, name) matches Ok(v) ==> may_hold_vector(w, name, v),
{
    lemma_find(w, name);
    lemma_vector(w, name);
}

proof fn lemma_matrix(w: Seq<Record>, name: Seq<char>)
    ensures
        load::matrix_of(w, name) matches Ok(v) ==> holds_matrix(w, name, v),
{
    lemma_find(w, name);
}

/// Layer `i` is made of the tensors that a checkpoint holds under its names.
pub proof fn law_layer_is_named(w: Seq<Record>, i: int)
    requires
        load::layer_error(w, i) is None,
    ensures
        is_named(w, i, load::layer_of(w, i)),
{
    lemma_vector(w, checkpoint_name(i, "input_layernorm.weight"@));
    lemma_matrix(w, checkpoint_name(i, "self_attn.q_proj.weight"@));
    lemma_matrix(w, checkpoint_name(i, "self_attn.k_proj.weight"@));
    lemma_matrix(w, checkpoint_name(i, "self_attn.v_proj.weight"@));
    lemma_matrix(w, checkpoint_name(i, "self_attn.o_proj.weight"@));
    lemma_opt_vector(w, checkpoint_name(i, "self_attn.q_proj.bias"@));
    lemma_opt_vector(w, checkpoint_name(i, "self_attn.k_proj.bias"@));
    lemma_opt_vector(w, checkpoint_name(i, "self_attn.v_proj.bias"@));
    lemma_opt_vector(w, checkpoint_name(i, "self_attn.q_norm.weight"@));
    lemma_opt_vector(w, checkpoint_name(i, "self_attn.k_norm.weight"@));
    lemma_vector(w, checkpoint_name(i, "post_attention_layernorm.weight"@));
    lemma_matrix(w, checkpoint_name(i, "mlp.gate_proj.weight"@));
    lemma_matrix(w, checkpoint_name(i, "mlp.up_proj.weight"@));
    lemma_matrix(w, checkpoint_name(i, "mlp.down_proj.weight"@));
}

proof fn lemma_layers_error(w: Seq<Record>, from: int, n: int, i: int)
    requires
        from <= i < n,
        load::layers_error(w, from, n) is None,
    ensures
        load::layer_error(w, i) is None,
    decreases n - from,
{
    if from < i {
        lemma_layers_error(w, from + 1, n, i);
    }
}

/// A model that is assembled from weights has the given config and as many layers as
/// it says, each made of the tensors of its names. Its embedding table and final gain
/// are those of theirs, and so is its head, for which the embedding table serves if
/// there is none. Its tables turn heads by the base that the config names.
pub proof fn law_model_is_named<A: Arith>(c: ConfigView, w: Seq<Record>, m: ModelView)
    requires
        load::assemble_error(c, w) is None,
        load::assembled::<A>(c, w, m),
    ensures
        m.config == c,
        m.layers.len() == c.n_layers,
        forall|i: int| 0 <= i < c.n_layers ==> is_named(w, i, #[trigger] m.layers[i]),
        holds_matrix(w, "model.embed_tokens.weight"@, WeightView::F32(m.embed)),
        holds_vector(w, "model.norm.weight"@, m.final_norm),
        holds_matrix(w, "lm_head.weight"@, m.lm_head) || (absent(w, "lm_head.weight"@) && m.lm_head
            == WeightView::F32(m.embed)),
        arith::deterministic::<A>() ==> forall|x: Seq<u32>, pos: int|
            0 <= pos < c.max_seq_len ==> #[trigger] m.rope.applied::<A>(x, pos) == rope::rope_of::<A>(
                x,
                pos,
                c.heads.head_dim,
                c.rope_theta,
            ),
{
    if arith::deterministic::<A>() {
        assert forall|x: Seq<u32>, pos: int| 0 <= pos < c.max_seq_len implies #[trigger] m.rope.applied::<
            A,
        >(x, pos) == rope::rope_of::<A>(x, pos, c.heads.head_dim, c.rope_theta) by {
            rope::law_tables_match::<A>(
                m.rope,
                c.max_seq_len as int,
                c.heads.head_dim,
                c.rope_theta,
                x,
                pos,
            );
        }
    }
    assert forall|i: int| 0 <= i < c.n_layers implies is_named(w, i, #[trigger] m.layers[i]) by {
        lemma_layers_error(w, 0, c.n_layers as int, i);
        law_layer_is_named(w, i);
    }
    lemma_find(w, "model.embed_tokens.weight"@);
    lemma_vector(w, "model.norm.weight"@);
    lemma_find(w, "lm_head.weight"@);
    lemma_matrix(w, "lm_head.weight"@);
}

/// A layer can be made of the tensors of its names in one way only.
pub proof fn law_layer_is_determined(w: Seq<Record>, i: int, a: LayerView, b: LayerView)
    requires
        is_named(w, i, a),
        is_named(w, i, b),
    ensures
        a == b,
{
    lemma_vectors_agree(w, checkpoint_name(i, "input_layernorm.weight"@), a.attn_norm, b.attn_norm);
    lemma_held_once(w, checkpoint_name(i, "self_attn.q_proj.weight"@), a.q, b.q);
    lemma_held_once(w, checkpoint_name(i, "self_attn.k_proj.weight"@), a.k, b.k);
    lemma_held_once(w, checkpoint_name(i, "self_attn.v_proj.weight"@), a.v, b.v);
    lemma_held_once(w, checkpoint_name(i, "self_attn.o_proj.weight"@), a.o, b.o);
    lemma_options_agree(w, checkpoint_name(i, "self_attn.q_proj.bias"@), a.q_bias, b.q_bias);
    lemma_options_agree(w, checkpoint_name(i, "self_attn.k_proj.bias"@), a.k_bias, b.k_bias);
    lemma_options_agree(w, checkpoint_name(i, "self_attn.v_proj.bias"@), a.v_bias, b.v_bias);
    lemma_options_agree(w, checkpoint_name(i, "self_attn.q_norm.weight"@), a.q_norm, b.q_norm);
    lemma_options_agree(w, checkpoint_name(i, "self_attn.k_norm.weight"@), a.k_norm, b.k_norm);
    lemma_vectors_agree(
        w,
        checkpoint_name(i, "post_attention_layernorm.weight"@),
        a.ffn_norm,
        b.ffn_norm,
    );
    lemma_held_once(w, checkpoint_name(i, "mlp.gate_proj.weight"@), a.gate, b.gate);
    lemma_held_once(w, checkpoint_name(i, "mlp.up_proj.weight"@), a.up, b.up);
    lemma_held_once(w, checkpoint_name(i, "mlp.down_proj.weight"@), a.down, b.down);
}

proof fn lemma_vectors_agree(w: Seq<Record>, name: Seq<char>, a: Seq<u32>, b: Seq<u32>)
    requires
        holds_vector(w, name, a),
        holds_vector(w, name, b),
    ensures
        a == b,
{
    let p = choose|weight: WeightView|
        {
            &&& #[trigger] held(w, name, weight)
            &&& weight is F32
            &&& weight->F32_0.shape.len() == 1
            &&& weight->F32_0.data == a
        };
    let q = choose|weight: WeightView|
        {
            &&& #[trigger] held(w, name, weight)
            &&& weight is F32
            &&& weight->F32_0.shape.len() == 1
            &&& weight->F32_0.data == b
        };
    lemma_held_once(w, name, p, q);
}

proof fn lemma_options_agree(
    w: Seq<Record>,
    name: Seq<char>,
    a: Option<Seq<u32>>,
    b: Option<Seq<u32>>,
)
    requires
        may_hold_vector(w, name, a),
        may_hold_vector(w, name, b),
    ensures
        a == b,
{
    if a is Some && b is Some {
        lemma_vectors_agree(w, name, a->Some_0, b->Some_0);
    } else if a is Some || b is Some {
        let s = if a is Some {
            a->Some_0
        } else {
            b->Some_0
        };
        assert(holds_vector(w, name, s));
        let p = choose|weight: WeightView|
            {
                &&& #[trigger] held(w, name, weight)
                &&& weight is F32
                &&& weight->F32_0.shape.len() == 1
                &&& weight->F32_0.data == s
            };
        let i = choose|i: int| 0 <= i < w.len() && #[trigger] w[i] == (name, p);
        assert(w[i].0 == name);
    }
}

/// Weights that hold everything a model is made of, with heads that can be divided
/// among the key/value heads, are assembled.
pub proof fn law_what_is_named_is_assembled(
    c: ConfigView,
    w: Seq<Record>,
    layers: Seq<LayerView>,
    embed: WeightView,
    final_norm: Seq<u32>,
    lm_head: WeightView,
)
    requires
        c.heads.head_dim % 2 == 0,
        c.heads.n_kv_heads > 0,
        c.heads.n_heads % c.heads.n_kv_heads == 0,
        layers.len() == c.n_layers,
        forall|i: int| 0 <= i < c.n_layers ==> is_named(w, i, #[trigger] layers[i]),
        embed is F32,
        holds_matrix(w, "model.embed_tokens.weight"@, embed),
        holds_vector(w, "model.norm.weight"@, final_norm),
        holds_matrix(w, "lm_head.weight"@, lm_head) || absent(w, "lm_head.weight"@),
    ensures
        load::assemble_error(c, w) is None,
        forall|i: int| 0 <= i < c.n_layers ==> load::layer_of(w, i) == #[trigger] layers[i],
{
    lemma_holds_matrix(w, "model.embed_tokens.weight"@, embed);
    lemma_vector(w, "model.norm.weight"@);
    lemma_find(w, "lm_head.weight"@);
    if holds_matrix(w, "lm_head.weight"@, lm_head) {
        lemma_holds_matrix(w, "lm_head.weight"@, lm_head);
    } else if load::find(w, "lm_head.weight"@) is Some {
        let p = load::find(w, "lm_head.weight"@)->Some_0;
        let i = choose|i: int| 0 <= i < w.len() && #[trigger] w[i] == ("lm_head.weight"@, p);
        assert(w[i].0 == "lm_head.weight"@);
    }
    assert forall|i: int| 0 <= i < c.n_layers implies load::layer_error(w, i) is None
        && load::layer_of(w, i) == #[trigger] layers[i] by {
        lemma_named_layer(w, i, layers[i]);
        law_layer_is_named(w, i);
        law_layer_is_determined(w, i, load::layer_of(w, i), layers[i]);
    }
    lemma_no_layers_error(w, 0, c.n_layers as int, layers);
}

proof fn lemma_no_layers_error(w: Seq<Record>, from: int, n: int, layers: Seq<LayerView>)
    requires
        0 <= from,
        layers.len() == n,
        forall|i: int| 0 <= i < n ==> is_named(w, i, #[trigger] layers[i]),
    ensures
        load::layers_error(w, from, n) is None,
    decreases n - from,
{
    if from < n {
        assert(is_named(w, from, layers[from]));
        lemma_named_layer(w, from, layers[from]);
        lemma_no_layers_error(w, from + 1, n, layers);
    }
}

proof fn lemma_holds_matrix(w: Seq<Record>, name: Seq<char>, matrix: WeightView)
    requires
        holds_matrix(w, name, matrix),
    ensures
        load::find(w, name) == Some(matrix),
        load::matrix_of(w, name) == Ok::<WeightView, crate::error::ErrorView>(matrix),
{
    lemma_find(w, name);
    if load::find(w, name) is Some {
        lemma_held_once(w, name, matrix, load::find(w, name)->Some_0);
    } else {
        let i = choose|i: int| 0 <= i < w.len() && #[trigger] w[i] == (name, matrix);
        assert(w[i].0 == name);
    }
}

proof fn lemma_may_hold(w: Seq<Record>, name: Seq<char>, v: Option<Seq<u32>>)
    requires
        may_hold_vector(w, name, v),
    ensures
        load::opt_vector_of(w, name) is Ok,
{
    lemma_find(w, name);
    lemma_vector(w, name);
    match v {
        Some(s) => {
            assert(holds_vector(w, name, s));
        },
        None => {
            if load::find(w, name) is Some {
                let p = load::find(w, name)->Some_0;
                let i = choose|i: int| 0 <= i < w.len() && #[trigger] w[i] == (name, p);
                assert(w[i].0 == name);
            }
        },
    }
}

proof fn lemma_named_layer(w: Seq<Record>, i: int, l: LayerView)
    requires
        is_named(w, i, l),
    ensures
        load::layer_error(w, i) is None,
{
    lemma_vector(w, checkpoint_name(i, "input_layernorm.weight"@));
    lemma_holds_matrix(w, checkpoint_name(i, "self_attn.q_proj.weight"@), l.q);
    lemma_holds_matrix(w, checkpoint_name(i, "self_attn.k_proj.weight"@), l.k);
    lemma_holds_matrix(w, checkpoint_name(i, "self_attn.v_proj.weight"@), l.v);
    lemma_holds_matrix(w, checkpoint_name(i, "self_attn.o_proj.weight"@), l.o);
    lemma_may_hold(w, checkpoint_name(i, "self_attn.q_proj.bias"@), l.q_bias);
    lemma_may_hold(w, checkpoint_name(i, "self_attn.k_proj.bias"@), l.k_bias);
    lemma_may_hold(w, checkpoint_name(i, "self_attn.v_proj.bias"@), l.v_bias);
    lemma_may_hold(w, checkpoint_name(i, "self_attn.q_norm.weight"@), l.q_norm);
    lemma_may_hold(w, checkpoint_name(i, "self_attn.k_norm.weight"@), l.k_norm);
    lemma_vector(w, checkpoint_name(i, "post_attention_layernorm.weight"@));
    lemma_holds_matrix(w, checkpoint_name(i, "mlp.gate_proj.weight"@), l.gate);
    lemma_holds_matrix(w, checkpoint_name(i, "mlp.up_proj.weight"@), l.up);
    lemma_holds_matrix(w, checkpoint_name(i, "mlp.down_proj.weight"@), l.down);
}

} // verus!
