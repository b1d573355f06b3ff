use minq::arith::Arith;
use minq::error::{FormatErrorOf, ModelErrorOf};
use minq::format::{read_minq_header, write_minq, WeightTensor};
use minq::load::{assemble, is_divisible, layer_tensor_name, load_minq};
use minq::model::{Linear, Model, ModelConfig};
use minq::quantize::{QuantDtype, QuantizedTensor};
use minq::tensor::Tensor;
use minq::MinqError;

/// The machine's own floating point.
struct Native;

impl Arith for Native {
    fn add32(a: u32, b: u32) -> u32 {
        (f32::from_bits(a) + f32::from_bits(b)).to_bits()
    }
    fn sub32(a: u32, b: u32) -> u32 {
        (f32::from_bits(a) - f32::from_bits(b)).to_bits()
    }
    fn mul32(a: u32, b: u32) -> u32 {
        (f32::from_bits(a) * f32::from_bits(b)).to_bits()
    }
    fn div32(a: u32, b: u32) -> u32 {
        (f32::from_bits(a) / f32::from_bits(b)).to_bits()
    }
    fn sqrt32(a: u32) -> u32 {
        f32::from_bits(a).sqrt().to_bits()
    }
    fn exp32(a: u32) -> u32 {
        f32::from_bits(a).exp().to_bits()
    }
    fn pow32(base: u32, exponent: u32) -> u32 {
        f32::from_bits(base).powf(f32::from_bits(exponent)).to_bits()
    }
    fn sin32(a: u32) -> u32 {
        f32::from_bits(a).sin().to_bits()
    }
    fn cos32(a: u32) -> u32 {
        f32::from_bits(a).cos().to_bits()
    }
    fn count32(n: usize) -> u32 {
        (n as f32).to_bits()
    }
    fn int32(n: i32) -> u32 {
        (n as f32).to_bits()
    }
    fn narrow(a: u64) -> u32 {
        (f64::from_bits(a) as f32).to_bits()
    }
    fn widen(a: u32) -> u64 {
        (f32::from_bits(a) as f64).to_bits()
    }
    fn add64(a: u64, b: u64) -> u64 {
        (f64::from_bits(a) + f64::from_bits(b)).to_bits()
    }
    fn sub64(a: u64, b: u64) -> u64 {
        (f64::from_bits(a) - f64::from_bits(b)).to_bits()
    }
    fn div64(a: u64, b: u64) -> u64 {
        (f64::from_bits(a) / f64::from_bits(b)).to_bits()
    }
    fn exp64(a: u64) -> u64 {
        f64::from_bits(a).exp().to_bits()
    }
    fn ln64(a: u64) -> u64 {
        f64::from_bits(a).ln().to_bits()
    }
    fn count64(n: usize) -> u64 {
        (n as f64).to_bits()
    }
}

/// Tiny 2-layer config (dim 64, vocab 128).
fn tiny_config(n_kv_heads: usize) -> ModelConfig {
    ModelConfig {
        hidden_size: 64,
        intermediate_size: 128,
        n_layers: 2,
        n_heads: 4,
        n_kv_heads,
        head_dim: 16,
        vocab_size: 128,
        max_seq_len: 64,
        rope_theta: 10000.0f32.to_bits(),
        rms_norm_eps: 1e-5f32.to_bits(),
        has_qkv_bias: false,
        dtype: "f32".to_string(),
    }
}

fn dense(w: &Linear) -> Tensor {
    match w {
        Linear::F32(t) => t.clone(),
        Linear::Quant(_) => panic!("dense expected"),
    }
}

fn vector(v: &[u32]) -> WeightTensor {
    WeightTensor::F32(Tensor::new(v.to_vec(), vec![v.len()]).unwrap())
}

/// The named weights of a model.
fn weights_of(model: &Model) -> Vec<(String, WeightTensor)> {
    let mut out = vec![
        ("model.embed_tokens.weight".to_string(), WeightTensor::F32(model.embed.clone())),
        ("model.norm.weight".to_string(), vector(&model.final_norm)),
        ("lm_head.weight".to_string(), WeightTensor::F32(dense(&model.lm_head))),
    ];
    for (i, l) in model.layers.iter().enumerate() {
        let p = format!("model.layers.{i}");
        out.push((format!("{p}.input_layernorm.weight"), vector(&l.attn_norm)));
        out.push((format!("{p}.post_attention_layernorm.weight"), vector(&l.ffn_norm)));
        for (name, w) in [
            ("self_attn.q_proj", &l.q),
            ("self_attn.k_proj", &l.k),
            ("self_attn.v_proj", &l.v),
            ("self_attn.o_proj", &l.o),
            ("mlp.gate_proj", &l.gate),
            ("mlp.up_proj", &l.up),
            ("mlp.down_proj", &l.down),
        ] {
            out.push((format!("{p}.{name}.weight"), WeightTensor::F32(dense(w))));
        }
    }
    out
}

#[test]
fn a_model_is_assembled_from_its_weights() {
    let model = Model::random::<Native>(tiny_config(2), 31);
    let again = assemble::<Native>(&model.config, &weights_of(&model)).unwrap();
    assert_eq!(again.config, model.config);
    assert_eq!(again.embed, model.embed);
    assert_eq!(again.layers, model.layers);
    assert_eq!(again.final_norm, model.final_norm);
    assert_eq!(again.lm_head, model.lm_head);
    assert_eq!(again.rope, model.rope);
    assert!(again.is_runnable());
}

#[test]
fn a_file_becomes_a_model() {
    let model = Model::random::<Native>(tiny_config(4), 32);
    let raw = write_minq(b"{}", &weights_of(&model));
    let (json, pos) = read_minq_header(&raw).unwrap();
    assert_eq!(json, b"{}");
    let again = load_minq::<Native>(&model.config, &raw, pos).unwrap();
    assert_eq!(
        again.forward_full::<Native>(&[3, 1, 4]).unwrap(),
        model.forward_full::<Native>(&[3, 1, 4]).unwrap()
    );
    assert!(matches!(
        load_minq::<Native>(&model.config, &raw[..raw.len() - 1], pos),
        Err(MinqError::Format(FormatErrorOf::BeyondEnd { .. }))
    ));
}

#[test]
fn tied_embeddings_serve_as_head() {
    let model = Model::random::<Native>(tiny_config(4), 33);
    let mut weights = weights_of(&model);
    weights.retain(|(name, _)| name != "lm_head.weight");
    let tied = assemble::<Native>(&model.config, &weights).unwrap();
    assert_eq!(tied.lm_head, Linear::F32(model.embed.clone()));
}

#[test]
fn the_last_of_several_weights_counts() {
    let model = Model::random::<Native>(tiny_config(4), 34);
    let mut weights = weights_of(&model);
    let ones = vec![2.0f32.to_bits(); 64];
    weights.push(("model.norm.weight".to_string(), vector(&ones)));
    let again = assemble::<Native>(&model.config, &weights).unwrap();
    assert_eq!(again.final_norm, ones);
}

#[test]
fn optional_vectors_are_used_if_present() {
    let model = Model::random::<Native>(tiny_config(4), 35);
    let mut weights = weights_of(&model);
    let name = "model.layers.1.self_attn.k_norm.weight".to_string();
    weights.push((name.clone(), vector(&[1.0f32.to_bits(); 16])));
    let again = assemble::<Native>(&model.config, &weights).unwrap();
    assert!(again.layers[0].k_norm.is_none());
    assert_eq!(again.layers[1].k_norm, Some(vec![1.0f32.to_bits(); 16]));
    weights.push((name.clone(), WeightTensor::F32(Tensor::zeros(&[4, 4]))));
    match assemble::<Native>(&model.config, &weights) {
        Err(MinqError::Model(ModelErrorOf::NotVector { name: n })) => assert_eq!(n, name),
        other => panic!("unexpected {other:?}"),
    }
}

#[test]
fn missing_tensors_are_named_in_order() {
    let model = Model::random::<Native>(tiny_config(4), 36);
    let all = weights_of(&model);
    let without = |name: &str| {
        let mut weights = all.clone();
        weights.retain(|(n, _)| n != name);
        match assemble::<Native>(&model.config, &weights) {
            Err(MinqError::Model(ModelErrorOf::MissingTensor { name })) => name,
            other => panic!("unexpected {other:?}"),
        }
    };
    for name in [
        "model.embed_tokens.weight",
        "model.layers.0.input_layernorm.weight",
        "model.layers.1.mlp.down_proj.weight",
        "model.norm.weight",
    ] {
        assert_eq!(without(name), name);
    }
    match assemble::<Native>(&model.config, &Vec::new()) {
        Err(MinqError::Model(ModelErrorOf::MissingTensor { name })) => {
            assert_eq!(name, "model.embed_tokens.weight")
        }
        other => panic!("unexpected {other:?}"),
    }
}

#[test]
fn shapes_and_storage_are_checked() {
    let model = Model::random::<Native>(tiny_config(4), 37);
    let with = |name: &str, w: WeightTensor| {
        let mut weights = weights_of(&model);
        weights.push((name.to_string(), w));
        assemble::<Native>(&model.config, &weights)
    };
    assert!(matches!(
        with("model.layers.0.self_attn.q_proj.weight", WeightTensor::F32(Tensor::zeros(&[64]))),
        Err(MinqError::Model(ModelErrorOf::NotMatrix { .. }))
    ));
    let q = QuantizedTensor::from_tensor::<Native>(&Tensor::zeros(&[8, 64]), QuantDtype::Q8_0);
    let quant = WeightTensor::Quant(q.unwrap());
    assert!(matches!(
        with("model.embed_tokens.weight", quant.clone()),
        Err(MinqError::Model(ModelErrorOf::BadEmbedding))
    ));
    assert!(matches!(
        with("model.norm.weight", quant),
        Err(MinqError::Model(ModelErrorOf::NotVector { .. }))
    ));
}

#[test]
fn geometry_is_checked_first() {
    let mut config = tiny_config(4);
    config.head_dim = 15;
    assert!(matches!(
        assemble::<Native>(&config, &Vec::new()),
        Err(MinqError::Model(ModelErrorOf::OddHeadDim))
    ));
    assert!(matches!(
        assemble::<Native>(&tiny_config(3), &Vec::new()),
        Err(MinqError::Model(ModelErrorOf::UnevenHeads))
    ));
}

#[test]
fn layer_names_are_composed() {
    assert_eq!(layer_tensor_name(0, "x"), "model.layers.0.x");
    assert_eq!(layer_tensor_name(127, "mlp.up_proj.weight"), "model.layers.127.mlp.up_proj.weight");
}

#[test]
fn heads_and_tables_have_to_be_countable() {
    let model = Model::random::<Native>(tiny_config(4), 31);
    let weights = weights_of(&model);
    assert!(is_divisible::<Native>(&model.config, &weights));
    assert!(!is_divisible::<Native>(&tiny_config(0), &weights));
    let mut odd = tiny_config(0);
    odd.head_dim = 15;
    assert!(is_divisible::<Native>(&odd, &weights));
    // Tables that cannot be counted matter only where weights are not refused.
    let mut long = model.config.clone();
    long.max_seq_len = usize::MAX;
    assert!(!is_divisible::<Native>(&long, &weights));
    assert!(is_divisible::<Native>(&long, &Vec::new()));
}
