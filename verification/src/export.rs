//! Exporting a checkpoint to the quantized `.minq` format, one tensor at a time.

use vstd::prelude::*;
use vstd::relations::*;
use vstd::seq_lib::*;

use crate::arith;
use crate::arith::Arith;
use crate::checkpoint;
use crate::config::{ConfigView, ModelConfig};
use crate::error;
use crate::error::{ErrorView, MinqError, ModelErrorOf};
use crate::format::{write_minq_record, WeightTensor, WeightView};
use crate::load;
use crate::quantize;
use crate::quantize::{QuantDtype, QuantizedTensor, QuantizedView};
use crate::tensor;
use crate::tensor::{Tensor, TensorView};
use crate::text;

verus! {

/// The names of a layer's tensors, without the layer's prefix.
pub open spec fn suffixes() -> Seq<Seq<char>> {
    seq![
        "input_layernorm.weight"@,
        "self_attn.q_proj.weight"@,
        "self_attn.k_proj.weight"@,
        "self_attn.v_proj.weight"@,
        "self_attn.o_proj.weight"@,
        "self_attn.q_proj.bias"@,
        "self_attn.k_proj.bias"@,
        "self_attn.v_proj.bias"@,
        "self_attn.q_norm.weight"@,
        "self_attn.k_norm.weight"@,
        "post_attention_layernorm.weight"@,
        "mlp.gate_proj.weight"@,
        "mlp.up_proj.weight"@,
        "mlp.down_proj.weight"@,
    ]
}

/// The names of all tensors of layer `i`.
pub open spec fn layer_names(i: int) -> Seq<Seq<char>> {
    suffixes().map_values(|s: Seq<char>| load::layer_name(i, s))
}

/// The names of the embedding table and of all tensors of the first `n` layers.
pub open spec fn names_upto(n: int) -> Seq<Seq<char>>
    decreases n,
{
    if n <= 0 {
        seq!["model.embed_tokens.weight"@]
    } else {
        names_upto(n - 1) + layer_names(n - 1)
    }
}

/// The names of every tensor that a model can have.
pub open spec fn model_names(n_layers: int) -> Seq<Seq<char>> {
    names_upto(n_layers).push("model.norm.weight"@).push("lm_head.weight"@)
}

proof fn lemma_suffixes_differ()
    ensures
        suffixes().no_duplicates(),
{
    reveal_strlit("input_layernorm.weight");
    reveal_strlit("self_attn.q_proj.weight");
    reveal_strlit("self_attn.k_proj.weight");
    reveal_strlit("self_attn.v_proj.weight");
    reveal_strlit("self_attn.o_proj.weight");
    reveal_strlit("self_attn.q_proj.bias");
    reveal_strlit("self_attn.k_proj.bias");
    reveal_strlit("self_attn.v_proj.bias");
    reveal_strlit("self_attn.q_norm.weight");
    reveal_strlit("self_attn.k_norm.weight");
    reveal_strlit("post_attention_layernorm.weight");
    reveal_strlit("mlp.gate_proj.weight");
    reveal_strlit("mlp.up_proj.weight");
    reveal_strlit("mlp.down_proj.weight");
    let s = suffixes();
    // Those of the same length differ in one of three characters.
    assert(s.len() == 14);
    assert(s[0].len() == 22 && s[10].len() == 31 && s[12].len() == 18);
    assert(s[1].len() == 23 && s[2].len() == 23 && s[3].len() == 23 && s[4].len() == 23);
    assert(s[8].len() == 23 && s[9].len() == 23);
    assert(s[5].len() == 21 && s[6].len() == 21 && s[7].len() == 21);
    assert(s[11].len() == 20 && s[13].len() == 20);
    assert(s[11][4] == 'g' && s[13][4] == 'd');
    assert(s[1][10] == 'q' && s[2][10] == 'k' && s[3][10] == 'v' && s[4][10] == 'o');
    assert(s[1][12] == 'p' && s[2][12] == 'p' && s[3][12] == 'p' && s[4][12] == 'p');
    assert(s[8][10] == 'q' && s[9][10] == 'k' && s[8][12] == 'n' && s[9][12] == 'n');
    assert(s[5][10] == 'q' && s[6][10] == 'k' && s[7][10] == 'v');
}

/// Whether a name is that of the embedding table or of a tensor of one of the
/// first `n` layers.
spec fn listed(name: Seq<char>, n: int) -> bool {
    ||| name == "model.embed_tokens.weight"@
    ||| exists|i: int, k: int|
        0 <= i < n && 0 <= k < suffixes().len() && name == #[trigger] load::layer_name(
            i,
            suffixes()[k],
        )
}

proof fn lemma_names_differ(n: int)
    requires
        0 <= n,
    ensures
        names_upto(n).no_duplicates(),
        forall|i: int| 0 <= i < names_upto(n).len() ==> listed(#[trigger] names_upto(n)[i], n),
    decreases n,
{
    if n > 0 {
        lemma_names_differ(n - 1);
        lemma_suffixes_differ();
        reveal_strlit("model.embed_tokens.weight");
        reveal_strlit("model.layers.");
        let front = names_upto(n - 1);
        let layer = layer_names(n - 1);
        let all = names_upto(n);
        assert forall|x: int| 0 <= x < layer.len() implies #[trigger] layer[x] == load::layer_name(
            n - 1,
            suffixes()[x],
        ) by {
        }
        assert forall|x: int, y: int|
            0 <= x < front.len() && 0 <= y < layer.len() implies #[trigger] front[x]
            != #[trigger] layer[y] by {
            assert(listed(front[x], n - 1));
            if front[x] == layer[y] {
                assert(layer[y][6] == 'l');
                if front[x] != "model.embed_tokens.weight"@ {
                    let (i, k) = choose|i: int, k: int|
                        0 <= i < n - 1 && 0 <= k < suffixes().len() && front[x]
                            == #[trigger] load::layer_name(i, suffixes()[k]);
                    load::law_layer_names_differ(i, suffixes()[k], n - 1, suffixes()[y]);
                }
            }
        }
        assert forall|x: int, y: int|
            0 <= x < layer.len() && 0 <= y < layer.len() && x != y implies #[trigger] layer[x]
            != #[trigger] layer[y] by {
            if layer[x] == layer[y] {
                load::law_layer_names_differ(n - 1, suffixes()[x], n - 1, suffixes()[y]);
            }
        }
        assert forall|x: int| 0 <= x < all.len() implies listed(#[trigger] all[x], n) by {
            if x < front.len() {
                assert(all[x] == front[x]);
                assert(listed(front[x], n - 1));
                if front[x] != "model.embed_tokens.weight"@ {
                    let (i, k) = choose|i: int, k: int|
                        0 <= i < n - 1 && 0 <= k < suffixes().len() && front[x]
                            == #[trigger] load::layer_name(i, suffixes()[k]);
                    assert(all[x] == load::layer_name(i, suffixes()[k]));
                }
            } else {
                let k = x - front.len();
                assert(all[x] == layer[k]);
                assert(all[x] == load::layer_name(n - 1, suffixes()[k]));
            }
        }
    }
}

/// No two tensors of a model have the same name.
pub proof fn law_model_names_differ(n_layers: int)
    requires
        0 <= n_layers,
    ensures
        model_names(n_layers).no_duplicates(),
{
    lemma_names_differ(n_layers);
    reveal_strlit("model.embed_tokens.weight");
    reveal_strlit("model.layers.");
    reveal_strlit("model.norm.weight");
    reveal_strlit("lm_head.weight");
    let front = names_upto(n_layers);
    assert("model.norm.weight"@[6] == 'n' && "model.norm.weight"@[0] == 'm');
    assert("lm_head.weight"@[0] == 'l');
    assert forall|x: int| 0 <= x < front.len() implies (#[trigger] front[x])[0] == 'm'
        && front[x][6] != 'n' by {
        assert(listed(front[x], n_layers));
        if front[x] == "model.embed_tokens.weight"@ {
            assert(front[x][6] == 'e');
        } else {
            let (i, k) = choose|i: int, k: int|
                0 <= i < n_layers && 0 <= k < suffixes().len() && front[x]
                    == #[trigger] load::layer_name(i, suffixes()[k]);
            assert(load::layer_name(i, suffixes()[k])[6] == 'l');
        }
    }
}

fn suffix_list() -> (list: Vec<&'static str>)
    ensures
        list@.map_values(|s: &'static str| s@) == suffixes(),
{
    let mut list: Vec<&'static str> = Vec::new();
    list.push("input_layernorm.weight");
    list.push("self_attn.q_proj.weight");
    list.push("self_attn.k_proj.weight");
    list.push("self_attn.v_proj.weight");
    list.push("self_attn.o_proj.weight");
    list.push("self_attn.q_proj.bias");
    list.push("self_attn.k_proj.bias");
    list.push("self_attn.v_proj.bias");
    list.push("self_attn.q_norm.weight");
    list.push("self_attn.k_norm.weight");
    list.push("post_attention_layernorm.weight");
    list.push("mlp.gate_proj.weight");
    list.push("mlp.up_proj.weight");
    list.push("mlp.down_proj.weight");
    assert(list@.map_values(|s: &'static str| s@) =~= suffixes());
    list
}

/// The names of every tensor that a model can have, in deterministic order.
pub fn tensor_names(n_layers: usize) -> (names: Vec<String>)
    ensures
        error::names_view(names@) == model_names(n_layers as int),
{
    let list = suffix_list();
    let mut names: Vec<String> = Vec::new();
    names.push("model.embed_tokens.weight".to_owned());
    assert(error::names_view(names@) =~= names_upto(0));
    let mut i: usize = 0;
    while i < n_layers
        invariant
            i <= n_layers,
            list@.map_values(|s: &'static str| s@) == suffixes(),
            error::names_view(names@) == names_upto(i as int),
        decreases n_layers - i,
    {
        let ghost before = names_upto(i as int);
        let mut j: usize = 0;
        assert(before + layer_names(i as int).subrange(0, 0) =~= before);
        while j < list.len()
            invariant
                j <= list@.len(),
                list@.map_values(|s: &'static str| s@) == suffixes(),
                before == names_upto(i as int),
                error::names_view(names@) == before + layer_names(i as int).subrange(0, j as int),
            decreases list@.len() - j,
        {
            let ghost prev = error::names_view(names@);
            assert(list@.map_values(|s: &'static str| s@)[j as int] == list@[j as int]@);
            names.push(load::layer_tensor_name(i, list[j]));
            proof {
                let name = names@.last()@;
                assert(name == layer_names(i as int)[j as int]);
                assert(error::names_view(names@) =~= prev.push(name));
                assert(error::names_view(names@) =~= before + layer_names(i as int).subrange(
                    0,
                    j + 1,
                ));
            }
            j += 1;
        }
        proof {
            assert(list@.len() == suffixes().len());
            assert(layer_names(i as int).subrange(0, j as int) =~= layer_names(i as int));
        }
        i += 1;
    }
    names.push("model.norm.weight".to_owned());
    names.push("lm_head.weight".to_owned());
    assert(error::names_view(names@) =~= model_names(n_layers as int));
    names
}

/// The contents of the shards' lists of names.
pub open spec fn shards_view(shards: Seq<Vec<String>>) -> Seq<Seq<Seq<char>>> {
    shards.map_values(|s: Vec<String>| error::names_view(s@))
}

/// The last shard that holds a tensor of the given name.
pub open spec fn shard_of(shards: Seq<Seq<Seq<char>>>, name: Seq<char>) -> Option<int>
    decreases shards.len(),
{
    if shards.len() == 0 {
        None
    } else if shards.last().contains(name) {
        Some(shards.len() - 1)
    } else {
        shard_of(shards.drop_last(), name)
    }
}

fn lists(names: &Vec<String>, name: &String) -> (r: bool)
    ensures
        r == error::names_view(names@).contains(name@),
{
    let ghost all = error::names_view(names@);
    let mut i: usize = 0;
    while i < names.len()
        invariant
            i <= names@.len(),
            all == error::names_view(names@),
            forall|j: int| 0 <= j < i ==> all[j] != name@,
        decreases names@.len() - i,
    {
        if names[i] == *name {
            assert(all[i as int] == name@);
            return true;
        }
        i += 1;
    }
    false
}

fn locate(shards: &Vec<Vec<String>>, name: &String) -> (r: Option<usize>)
    ensures
        match shard_of(shards_view(shards@), name@) {
            Some(i) => r is Some && r->Some_0 == i && i < shards@.len(),
            None => r is None,
        },
{
    let ghost all = shards_view(shards@);
    let mut n: usize = shards.len();
    assert(all.subrange(0, n as int) =~= all);
    while n > 0
        invariant
            n <= shards@.len(),
            all == shards_view(shards@),
            shard_of(all, name@) == shard_of(all.subrange(0, n as int), name@),
        decreases n,
    {
        n -= 1;
        proof {
            let front = all.subrange(0, n + 1);
            assert(front.drop_last() =~= all.subrange(0, n as int));
            assert(front.last() == all[n as int]);
        }
        if lists(&shards[n], name) {
            return Some(n);
        }
    }
    None
}

/// Whether a model can do without a tensor: Q/K/V biases, Qwen3 q/k-norms and
/// a tied LM head are legitimately absent.
pub open spec fn optional_of(name: Seq<char>) -> bool {
    ||| text::ends_with_of(name, ".bias"@)
    ||| text::ends_with_of(name, "q_norm.weight"@)
    ||| text::ends_with_of(name, "k_norm.weight"@)
    ||| name == "lm_head.weight"@
}

/// Whether a model can do without a tensor.
pub fn is_optional(name: &String) -> (r: bool)
    ensures
        r == optional_of(name@),
{
    text::ends_with(name.as_str(), ".bias") || text::ends_with(name.as_str(), "q_norm.weight")
        || text::ends_with(name.as_str(), "k_norm.weight") || *name == "lm_head.weight".to_owned()
}

/// The names that some shard holds, in their order.
pub open spec fn present_of(names: Seq<Seq<char>>, shards: Seq<Seq<Seq<char>>>) -> Seq<Seq<char>>
    decreases names.len(),
{
    if names.len() == 0 {
        Seq::empty()
    } else {
        let front = present_of(names.drop_last(), shards);
        if shard_of(shards, names.last()) is Some {
            front.push(names.last())
        } else {
            front
        }
    }
}

/// The names that no shard holds although the model cannot do without them.
pub open spec fn missing_of(names: Seq<Seq<char>>, shards: Seq<Seq<Seq<char>>>) -> Seq<Seq<char>>
    decreases names.len(),
{
    if names.len() == 0 {
        Seq::empty()
    } else {
        let front = missing_of(names.drop_last(), shards);
        if shard_of(shards, names.last()) is None && !optional_of(names.last()) {
            front.push(names.last())
        } else {
            front
        }
    }
}

/// Names in order.
pub open spec fn sorted_names(names: Seq<Seq<char>>) -> Seq<Seq<char>> {
    names.sort_by(text::name_order())
}

/// Inserts a name into an ordered list.
fn insert_name(list: &mut Vec<String>, name: String)
    requires
        sorted_by(error::names_view(old(list)@), text::name_order()),
    ensures
        sorted_by(error::names_view(final(list)@), text::name_order()),
        error::names_view(final(list)@).to_multiset() == error::names_view(
            old(list)@,
        ).to_multiset().insert(name@),
{
    let ghost before = error::names_view(list@);
    let ghost order = text::name_order();
    let mut i: usize = 0;
    while i < list.len() && text::name_le(list[i].as_str(), name.as_str())
        invariant
            i <= list@.len(),
            before == error::names_view(list@),
            forall|j: int| 0 <= j < i ==> text::lex_le(#[trigger] before[j], name@),
        decreases list@.len() - i,
    {
        assert(before[i as int] == list@[i as int]@);
        i += 1;
    }
    proof {
        text::law_names_totally_ordered();
        if i < list@.len() {
            assert(before[i as int] == list@[i as int]@);
            assert(!text::lex_le(before[i as int], name@));
            assert(order(before[i as int], name@) || order(name@, before[i as int]));
        }
    }
    let ghost value = name@;
    list.insert(i, name);
    proof {
        let after = error::names_view(list@);
        assert(after =~= before.insert(i as int, value));
        to_multiset_insert(before, i as int, value);
        assert forall|x: int, y: int| 0 <= x < y < after.len() implies #[trigger] order(
            after[x],
            after[y],
        ) by {
            if x < i && y < i {
                assert(order(before[x], before[y]));
            } else if x < i && y == i {
                assert(text::lex_le(before[x], value));
            } else if x < i {
                assert(order(before[x], before[y - 1]));
            } else if x == i {
                if y - 1 > i {
                    assert(order(before[i as int], before[y - 1]));
                }
                assert(order(value, before[i as int]));
                assert(order(before[i as int], before[y - 1]));
            } else {
                assert(order(before[x - 1], before[y - 1]));
            }
        }
    }
}

/// Puts names in order.
pub fn sort_names(names: &Vec<String>) -> (list: Vec<String>)
    ensures
        error::names_view(list@) == sorted_names(error::names_view(names@)),
{
    let ghost all = error::names_view(names@);
    let mut list: Vec<String> = Vec::new();
    let mut i: usize = 0;
    proof {
        assert(error::names_view(list@) =~= all.subrange(0, 0));
    }
    while i < names.len()
        invariant
            i <= names@.len(),
            all == error::names_view(names@),
            sorted_by(error::names_view(list@), text::name_order()),
            error::names_view(list@).to_multiset() == all.subrange(0, i as int).to_multiset(),
        decreases names@.len() - i,
    {
        proof {
            let next = all.subrange(0, i as int).push(all[i as int]);
            assert(all.subrange(0, i + 1) =~= next);
            to_multiset_build(all.subrange(0, i as int), all[i as int]);
        }
        insert_name(&mut list, names[i].clone());
        i += 1;
    }
    proof {
        assert(all.subrange(0, i as int) =~= all);
        text::law_names_totally_ordered();
        all.lemma_sort_by_ensures(text::name_order());
        lemma_sorted_unique(error::names_view(list@), sorted_names(all), text::name_order());
    }
    list
}

/// What an export writes: the config, and the tensors in order, each with the
/// shard that holds it.
pub struct ExportPlan {
    pub config: ModelConfig,
    pub names: Vec<String>,
    pub shards: Vec<usize>,
}

/// The config of an export.
pub open spec fn export_config_of(
    c: ConfigView,
    dtype: QuantDtype,
    shards: Seq<Seq<Seq<char>>>,
) -> ConfigView {
    ConfigView {
        dtype: dtype.name_of(),
        has_qkv_bias: shard_of(shards, "model.layers.0.self_attn.q_proj.bias"@) is Some,
        ..c
    }
}

/// Plans an export: which tensors of which shards are written, in the order of
/// their names. Fails if a tensor is missing that the model cannot do without.
pub fn plan_export(config: ModelConfig, dtype: QuantDtype, shards: &Vec<Vec<String>>) -> (r: Result<
    ExportPlan,
    MinqError,
>)
    ensures
        ({
            let all = model_names(config.n_layers as int);
            let held = shards_view(shards@);
            if missing_of(all, held).len() > 0 {
                r is Err && r->Err_0@ == ErrorView::Model(
                    ModelErrorOf::MissingTensors { names: missing_of(all, held) },
                )
            } else {
                let plan = r->Ok_0;
                &&& r is Ok
                &&& plan.config@ == export_config_of(config@, dtype, held)
                &&& error::names_view(plan.names@) == sorted_names(present_of(all, held))
                &&& plan.shards@.len() == plan.names@.len()
                &&& forall|i: int|
                    0 <= i < plan.names@.len() ==> shard_of(held, (#[trigger] plan.names@[i])@)
                        == Some(plan.shards@[i] as int)
            }
        }),
{
    let names = tensor_names(config.n_layers);
    let ghost all = model_names(config.n_layers as int);
    let ghost held = shards_view(shards@);
    let mut present: Vec<String> = Vec::new();
    let mut missing: Vec<String> = Vec::new();
    let mut i: usize = 0;
    assert(error::names_view(present@) =~= present_of(all.subrange(0, 0), held));
    assert(error::names_view(missing@) =~= missing_of(all.subrange(0, 0), held));
    while i < names.len()
        invariant
            i <= names@.len(),
            all == error::names_view(names@),
            held == shards_view(shards@),
            error::names_view(present@) == present_of(all.subrange(0, i as int), held),
            error::names_view(missing@) == missing_of(all.subrange(0, i as int), held),
        decreases names@.len() - i,
    {
        let name = names[i].clone();
        let ghost p = error::names_view(present@);
        let ghost m = error::names_view(missing@);
        proof {
            let next = all.subrange(0, i + 1);
            assert(next.drop_last() =~= all.subrange(0, i as int));
            assert(next.last() == all[i as int]);
            assert(all[i as int] == name@);
        }
        if locate(shards, &name).is_some() {
            present.push(name);
            assert(error::names_view(present@) =~= p.push(name@));
        } else if !is_optional(&name) {
            missing.push(name);
            assert(error::names_view(missing@) =~= m.push(name@));
        }
        i += 1;
    }
    assert(all.subrange(0, i as int) =~= all);
    if missing.len() > 0 {
        return Err(MinqError::Model(ModelErrorOf::MissingTensors { names: missing }));
    }
    let mut config = config;
    let bias = "model.layers.0.self_attn.q_proj.bias".to_owned();
    config.dtype = dtype.name().to_owned();
    config.has_qkv_bias = locate(shards, &bias).is_some();
    let sorted = sort_names(&present);
    proof {
        lemma_present_located(all, held);
        lemma_sorted_located(present_of(all, held), held);
    }
    let mut at: Vec<usize> = Vec::new();
    let mut k: usize = 0;
    while k < sorted.len()
        invariant
            k <= sorted@.len(),
            at@.len() == k,
            held == shards_view(shards@),
            forall|j: int|
                0 <= j < sorted@.len() ==> shard_of(
                    held,
                    #[trigger] error::names_view(sorted@)[j],
                ) is Some,
            forall|j: int|
                0 <= j < k ==> shard_of(held, (#[trigger] sorted@[j])@) == Some(at@[j] as int),
        decreases sorted@.len() - k,
    {
        assert(error::names_view(sorted@)[k as int] == sorted@[k as int]@);
        let shard: usize = match locate(shards, &sorted[k]) {
            Some(i) => i,
            None => 0,
        };
        at.push(shard);
        k += 1;
    }
    Ok(ExportPlan { config, names: sorted, shards: at })
}

proof fn lemma_present_located(names: Seq<Seq<char>>, shards: Seq<Seq<Seq<char>>>)
    ensures
        forall|i: int|
            0 <= i < present_of(names, shards).len() ==> shard_of(
                shards,
                #[trigger] present_of(names, shards)[i],
            ) is Some,
    decreases names.len(),
{
    if names.len() > 0 {
        lemma_present_located(names.drop_last(), shards);
        let front = present_of(names.drop_last(), shards);
        let all = present_of(names, shards);
        assert forall|i: int| 0 <= i < all.len() implies shard_of(shards, #[trigger] all[i])
            is Some by {
            if i < front.len() {
                assert(all[i] == front[i]);
            }
        }
    }
}

proof fn lemma_present_differ(names: Seq<Seq<char>>, shards: Seq<Seq<Seq<char>>>)
    requires
        names.no_duplicates(),
    ensures
        present_of(names, shards).no_duplicates(),
        forall|i: int|
            0 <= i < present_of(names, shards).len() ==> names.contains(
                #[trigger] present_of(names, shards)[i],
            ),
    decreases names.len(),
{
    if names.len() > 0 {
        let init = names.drop_last();
        lemma_present_differ(init, shards);
        let front = present_of(init, shards);
        let all = present_of(names, shards);
        assert forall|i: int| 0 <= i < all.len() implies names.contains(#[trigger] all[i]) by {
            if i < front.len() {
                assert(all[i] == front[i]);
                let j = choose|j: int| 0 <= j < init.len() && init[j] == front[i];
                assert(names[j] == all[i]);
            } else {
                assert(names[names.len() - 1] == all[i]);
            }
        }
        assert forall|i: int| 0 <= i < front.len() implies #[trigger] front[i] != names.last() by {
            let j = choose|j: int| 0 <= j < init.len() && init[j] == front[i];
            assert(names[j] == front[i]);
        }
    }
}

/// The names that an export is planned for are strictly ascending: none is
/// written twice.
pub proof fn law_planned_names_ascend(n_layers: int, shards: Seq<Seq<Seq<char>>>, i: int, j: int)
    requires
        0 <= n_layers,
        0 <= i < j < sorted_names(present_of(model_names(n_layers), shards)).len(),
    ensures
        ({
            let names = sorted_names(present_of(model_names(n_layers), shards));
            text::lex_le(names[i], names[j]) && names[i] != names[j]
        }),
{
    law_model_names_differ(n_layers);
    lemma_present_differ(model_names(n_layers), shards);
    text::law_names_totally_ordered();
    let present = present_of(model_names(n_layers), shards);
    let names = sorted_names(present);
    let order = text::name_order();
    present.lemma_sort_by_ensures(order);
    present.lemma_multiset_has_no_duplicates();
    names.lemma_multiset_has_no_duplicates_conv();
    assert(order(names[i], names[j]));
}

proof fn lemma_sorted_located(names: Seq<Seq<char>>, shards: Seq<Seq<Seq<char>>>)
    requires
        forall|i: int| 0 <= i < names.len() ==> shard_of(shards, #[trigger] names[i]) is Some,
    ensures
        forall|i: int|
            0 <= i < sorted_names(names).len() ==> shard_of(
                shards,
                #[trigger] sorted_names(names)[i],
            ) is Some,
{
    text::law_names_totally_ordered();
    names.lemma_sort_by_ensures(text::name_order());
    let sorted = sorted_names(names);
    assert forall|i: int| 0 <= i < sorted.len() implies shard_of(shards, #[trigger] sorted[i])
        is Some by {
        assert(sorted.contains(sorted[i]));
        if !names.contains(sorted[i]) {
            assert(false);
        }
        let j = choose|j: int| 0 <= j < names.len() && names[j] == sorted[i];
        assert(shard_of(shards, names[j]) is Some);
    }
}

/// Whether a tensor is quantized: 2-D weight matrices are, except the embedding
/// table, which is only ever indexed. Norms, biases and odd-shaped tensors stay
/// dense.
pub open spec fn is_quantized(name: Seq<char>, t: TensorView) -> bool {
    &&& text::ends_with_of(name, ".weight"@)
    &&& !text::contains_of(name, "embed_tokens"@)
    &&& quantize::quantizable(t)
}

/// The weight that is written for a dense tensor.
pub open spec fn exported_of<A: Arith>(name: Seq<char>, t: TensorView, dtype: QuantDtype) -> WeightView {
    if is_quantized(name, t) {
        WeightView::Quant(
            QuantizedView {
                dtype,
                rows: t.shape[0],
                cols: t.shape[1],
                data: quantize::quantized::<A>(dtype, t.data),
            },
        )
    } else {
        WeightView::F32(t)
    }
}

/// Quantizes 2-D weight matrices (except the embedding table, which is only
/// ever indexed); keeps norms, biases and odd-shaped tensors dense.
pub fn quantize_tensor<A: Arith>(name: &str, t: Tensor, dtype: QuantDtype) -> (r: Result<
    (String, WeightTensor),
    MinqError,
>)
    requires
        t@.wf(),
    ensures
        r is Ok,
        r->Ok_0.0@ == name@,
        is_quantized(name@, t@) ==> {
            &&& r->Ok_0.1@ matches WeightView::Quant(q)
            &&& q.wf() && q.dtype == dtype && q.rows == t.shape@[0] && q.cols == t.shape@[1]
        },
        !is_quantized(name@, t@) ==> r->Ok_0.1@ == WeightView::F32(t@),
        r->Ok_0.1@.bytes().len() <= 4 * t.data@.len(),
        arith::deterministic::<A>() ==> r->Ok_0.1@ == exported_of::<A>(name@, t@, dtype),
{
    let quantizable: bool = text::ends_with(name, ".weight") && !text::contains(
        name,
        "embed_tokens",
    ) && t.ndim() == 2 && t.shape[1] % quantize::BLOCK_SIZE == 0;
    if quantizable {
        proof {
            tensor::lemma_numel_2(t.shape@);
            let rows = t.shape@[0] as int;
            let c = t.shape@[1] as int / 32;
            assert(rows * (c * 32) == (rows * c) * 32) by (nonlinear_arith);
            assert((rows * c) * 32 % 32 == 0);
            assert(t.data@.len() == (rows * c) * 32);
        }
        match QuantizedTensor::from_tensor::<A>(&t, dtype) {
            Err(e) => Err(e),
            Ok(q) => Ok((name.to_owned(), WeightTensor::Quant(q))),
        }
    } else {
        Ok((name.to_owned(), WeightTensor::F32(t)))
    }
}

/// What is written for a tensor of a checkpoint can be read back, as long as
/// its rank fits its field.
pub proof fn law_exported_is_storable<A: Arith>(name: Seq<char>, t: TensorView, dtype: QuantDtype)
    requires
        t.wf(),
        t.shape.len() <= 255,
    ensures
        exported_of::<A>(name, t, dtype).wf(),
{
    if is_quantized(name, t) {
        tensor::lemma_numel_2(t.shape);
        let rows = t.shape[0] as int;
        let c = t.shape[1] as int / 32;
        let bb = dtype.block_len();
        assert(rows * (c * 32) == (rows * c) * 32) by (nonlinear_arith);
        assert((rows * c) * 32 / 32 == rows * c);
        assert((rows * c) * bb == rows * (c * bb)) by (nonlinear_arith);
        if rows * c > 0 {
            quantize::law_dequantize_quantized::<A>(dtype, t.data, 0);
        }
        assert(seq![t.shape[0], t.shape[1]] =~= t.shape);
        if rows * c <= 0 {
            assert(rows * c >= 0) by (nonlinear_arith)
                requires
                    rows >= 0,
                    c >= 0,
            ;
            assert(t.data.len() == 0);
        }
    }
}

/// Appends the record of one tensor of a shard, converted and quantized. Gives
/// back how many bytes the tensor takes as binary32 and how many were packed.
pub fn export_tensor<A: Arith>(w: &mut Vec<u8>, shard: &[u8], name: &str, dtype: QuantDtype) -> (r:
    Result<(u64, u64), MinqError>)
    requires
        shard@.len() <= isize::MAX,
    ensures
        match checkpoint::file_of(shard@) {
            None => r is Err && r->Err_0@ == ErrorView::SafeTensor && final(w)@ == old(w)@,
            Some(file) => if !file.contains_key(name@) {
                r is Err && r->Err_0@ == ErrorView::SafeTensor && final(w)@ == old(w)@
            } else if !file[name@].supported() {
                &&& r is Err
                &&& r->Err_0@ == ErrorView::Model(
                    ModelErrorOf::UnsupportedDtype { name: name@, dtype: file[name@].dtype },
                )
                &&& final(w)@ == old(w)@
            } else {
                let t = checkpoint::dense_of(file[name@]);
                &&& r is Ok
                &&& r->Ok_0.0 == 4 * t.data.len()
                &&& exists|weight: WeightView|
                    {
                        &&& final(w)@ == old(w)@ + #[trigger] crate::format::record_bytes(
                            (name@, weight),
                        )
                        &&& r->Ok_0.1 == weight.bytes().len()
                        &&& is_quantized(name@, t) || weight == WeightView::F32(t)
                    }
                &&& arith::deterministic::<A>() ==> {
                    let weight = exported_of::<A>(name@, t, dtype);
                    &&& final(w)@ == old(w)@ + crate::format::record_bytes((name@, weight))
                    &&& r->Ok_0.1 == weight.bytes().len()
                }
            },
        },
{
    let t = match checkpoint::read_tensor(shard, name) {
        Err(e) => {
            return Err(e);
        },
        Ok(t) => t,
    };
    let raw: u64 = 4 * (t.data.len() as u64);
    match quantize_tensor::<A>(name, t, dtype) {
        Err(e) => Err(e),
        Ok((name_written, weight)) => {
            let packed: u64 = match &weight {
                WeightTensor::F32(t) => 4 * (t.data.len() as u64),
                WeightTensor::Quant(q) => q.data.len() as u64,
            };
            write_minq_record(w, name_written.as_str(), &weight);
            Ok((raw, packed))
        },
    }
}

/// The shard that a tensor is taken from is the last that holds it.
pub proof fn law_last_shard_counts(shards: Seq<Seq<Seq<char>>>, name: Seq<char>)
    ensures
        match shard_of(shards, name) {
            Some(i) => {
                &&& 0 <= i < shards.len()
                &&& shards[i].contains(name)
                &&& forall|j: int| i < j < shards.len() ==> !(#[trigger] shards[j]).contains(name)
            },
            None => forall|j: int| 0 <= j < shards.len() ==> !(#[trigger] shards[j]).contains(name),
        },
    decreases shards.len(),
{
    if shards.len() > 0 && !shards.last().contains(name) {
        let init = shards.drop_last();
        law_last_shard_counts(init, name);
        assert forall|j: int| 0 <= j < init.len() implies init[j] == #[trigger] shards[j] by {
        }
    }
}

proof fn lemma_present(names: Seq<Seq<char>>, shards: Seq<Seq<Seq<char>>>, name: Seq<char>)
    ensures
        present_of(names, shards).contains(name) <==> names.contains(name) && shard_of(shards, name)
            is Some,
        missing_of(names, shards).contains(name) <==> names.contains(name) && shard_of(shards, name)
            is None && !optional_of(name),
    decreases names.len(),
{
    if names.len() > 0 {
        let init = names.drop_last();
        let last = names.last();
        lemma_present(init, shards, name);
        let front = present_of(init, shards);
        let gaps = missing_of(init, shards);
        assert(names =~= init.push(last));
        lemma_push_contains(init, last, name);
        lemma_push_contains(front, last, name);
        lemma_push_contains(gaps, last, name);
    }
}

proof fn lemma_push_contains(s: Seq<Seq<char>>, last: Seq<char>, name: Seq<char>)
    ensures
        s.push(last).contains(name) <==> s.contains(name) || name == last,
{
    if s.contains(name) {
        let i = choose|i: int| 0 <= i < s.len() && s[i] == name;
        assert(s.push(last)[i] == name);
    }
    if name == last {
        assert(s.push(last)[s.len() as int] == name);
    }
    if s.push(last).contains(name) {
        let i = choose|i: int| 0 <= i < s.push(last).len() && s.push(last)[i] == name;
        if i < s.len() {
            assert(s[i] == name);
        }
    }
}

/// A name is planned for exactly if it is that of a tensor a model can have and some
/// shard holds it. One that is missing is that of a tensor which no shard holds and a
/// model cannot do without.
pub proof fn law_plan_is_complete(n_layers: int, shards: Seq<Seq<Seq<char>>>, name: Seq<char>)
    ensures
        sorted_names(present_of(model_names(n_layers), shards)).contains(name) <==> model_names(
            n_layers,
        ).contains(name) && exists|i: int|
            0 <= i < shards.len() && (#[trigger] shards[i]).contains(name),
        missing_of(model_names(n_layers), shards).contains(name) <==> model_names(
            n_layers,
        ).contains(name) && !optional_of(name) && forall|i: int|
            0 <= i < shards.len() ==> !(#[trigger] shards[i]).contains(name),
{
    broadcast use vstd::seq_lib::group_to_multiset_ensures;

    let present = present_of(model_names(n_layers), shards);
    lemma_present(model_names(n_layers), shards, name);
    law_last_shard_counts(shards, name);
    text::law_names_totally_ordered();
    present.lemma_sort_by_ensures(text::name_order());
    let sorted = sorted_names(present);
    assert(sorted.contains(name) <==> sorted.to_multiset().count(name) > 0);
    assert(present.contains(name) <==> present.to_multiset().count(name) > 0);
}

/// What is written for a tensor has its shape. Whatever is no matrix of whole blocks,
/// is no `.weight`, or is the embedding table, is written as it is; anything else as
/// blocks of the dtype.
pub proof fn law_exported<A: Arith>(name: Seq<char>, t: TensorView, dtype: QuantDtype)
    ensures
        ({
            let dense = {
                ||| t.shape.len() != 2
                ||| t.shape[1] % 32 != 0
                ||| name.len() < 7
                ||| name.subrange(name.len() - 7, name.len() as int) != ".weight"@
                ||| exists|i: int|
                    0 <= i <= name.len() - 12 && #[trigger] name.subrange(i, i + 12)
                        == "embed_tokens"@
            };
            let w = exported_of::<A>(name, t, dtype);
            &&& w.shape() == t.shape
            &&& dense ==> w == WeightView::F32(t)
            &&& !dense ==> w is Quant && w->Quant_0.dtype == dtype && w->Quant_0.data
                == quantize::quantized::<A>(dtype, t.data)
        }),
{
    reveal_strlit(".weight");
    reveal_strlit("embed_tokens");
    if t.shape.len() == 2 {
        assert(seq![t.shape[0], t.shape[1]] =~= t.shape);
    }
    if text::contains_of(name, "embed_tokens"@) {
        let i = choose|i: int| #[trigger] text::part_at(name, "embed_tokens"@, i);
        assert(name.subrange(i, i + 12) == "embed_tokens"@);
    }
    if exists|i: int|
        0 <= i <= name.len() - 12 && #[trigger] name.subrange(i, i + 12) == "embed_tokens"@ {
        let i = choose|i: int|
            0 <= i <= name.len() - 12 && #[trigger] name.subrange(i, i + 12) == "embed_tokens"@;
        assert(text::part_at(name, "embed_tokens"@, i));
    }
}

} // verus!
