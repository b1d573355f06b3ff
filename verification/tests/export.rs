use minq::arith::Arith;
use minq::error::ModelErrorOf;
use minq::export::{
    export_tensor, is_optional, plan_export, quantize_tensor, sort_names, tensor_names,
};
use minq::format::{read_minq, write_minq_header, WeightTensor};
use minq::model::ModelConfig;
use minq::quantize::QuantDtype;
use minq::tensor::Tensor;
use minq::text::{contains, decimal, ends_with, fresh, name_le};
use minq::MinqError;
use safetensors::tensor::TensorView;
use safetensors::Dtype;

/// The machine's own floating point.
struct Native;

impl Arith for Native {
    fn add32(a: u32, b: u32) -> u32 {
        (f32::from_bits(a) + f32::from_bits(b)).to_bits()
    }
    fn sub32(a: u32, b: u32) -> u32 {
        (f32::from_bits(a) - f32::from_bits(b)).to_bits()
    }
    fn mul32(a: u32, b: u32) -> u32 {
        (f32::from_bits(a) * f32::from_bits(b)).to_bits()
    }
    fn div32(a: u32, b: u32) -> u32 {
        (f32::from_bits(a) / f32::from_bits(b)).to_bits()
    }
    fn sqrt32(a: u32) -> u32 {
        f32::from_bits(a).sqrt().to_bits()
    }
    fn exp32(a: u32) -> u32 {
        f32::from_bits(a).exp().to_bits()
    }
    fn pow32(base: u32, exponent: u32) -> u32 {
        f32::from_bits(base).powf(f32::from_bits(exponent)).to_bits()
    }
    fn sin32(a: u32) -> u32 {
        f32::from_bits(a).sin().to_bits()
    }
    fn cos32(a: u32) -> u32 {
        f32::from_bits(a).cos().to_bits()
    }
    fn count32(n: usize) -> u32 {
        (n as f32).to_bits()
    }
    fn int32(n: i32) -> u32 {
        (n as f32).to_bits()
    }
    fn narrow(a: u64) -> u32 {
        (f64::from_bits(a) as f32).to_bits()
    }
    fn widen(a: u32) -> u64 {
        (f32::from_bits(a) as f64).to_bits()
    }
    fn add64(a: u64, b: u64) -> u64 {
        (f64::from_bits(a) + f64::from_bits(b)).to_bits()
    }
    fn sub64(a: u64, b: u64) -> u64 {
        (f64::from_bits(a) - f64::from_bits(b)).to_bits()
    }
    fn div64(a: u64, b: u64) -> u64 {
        (f64::from_bits(a) / f64::from_bits(b)).to_bits()
    }
    fn exp64(a: u64) -> u64 {
        f64::from_bits(a).exp().to_bits()
    }
    fn ln64(a: u64) -> u64 {
        f64::from_bits(a).ln().to_bits()
    }
    fn count64(n: usize) -> u64 {
        (n as f64).to_bits()
    }
}

fn enc(values: &[f32]) -> Vec<u32> {
    values.iter().map(|v| v.to_bits()).collect()
}

fn dec(bits: &[u32]) -> Vec<f32> {
    bits.iter().map(|b| f32::from_bits(*b)).collect()
}

/// Tiny 2-layer config (dim 64, vocab 128).
fn tiny_config(n_kv_heads: usize) -> ModelConfig {
    ModelConfig {
        hidden_size: 64,
        intermediate_size: 128,
        n_layers: 2,
        n_heads: 4,
        n_kv_heads,
        head_dim: 16,
        vocab_size: 128,
        max_seq_len: 64,
        rope_theta: 10000.0f32.to_bits(),
        rms_norm_eps: 1e-5f32.to_bits(),
        has_qkv_bias: false,
        dtype: "f32".to_string(),
    }
}

const SUFFIXES: [&str; 14] = [
    "input_layernorm.weight",
    "self_attn.q_proj.weight",
    "self_attn.k_proj.weight",
    "self_attn.v_proj.weight",
    "self_attn.o_proj.weight",
    "self_attn.q_proj.bias",
    "self_attn.k_proj.bias",
    "self_attn.v_proj.bias",
    "self_attn.q_norm.weight",
    "self_attn.k_norm.weight",
    "post_attention_layernorm.weight",
    "mlp.gate_proj.weight",
    "mlp.up_proj.weight",
    "mlp.down_proj.weight",
];

fn expected_names(n_layers: usize) -> Vec<String> {
    let mut names = vec!["model.embed_tokens.weight".to_string()];
    for i in 0..n_layers {
        for suffix in SUFFIXES {
            names.push(format!("model.layers.{i}.{suffix}"));
        }
    }
    names.push("model.norm.weight".to_string());
    names.push("lm_head.weight".to_string());
    names
}

#[test]
fn all_tensor_names_are_listed() {
    assert_eq!(tensor_names(12), expected_names(12));
    assert_eq!(tensor_names(0).len(), 3);
}

#[test]
fn names_are_sorted_like_strings() {
    let names = expected_names(12);
    let mut expected = names.clone();
    expected.sort();
    assert_eq!(sort_names(&names), expected);
    assert_eq!(sort_names(&Vec::new()), Vec::<String>::new());
}

#[test]
fn name_order_is_string_order() {
    let words = ["", "a", "a.10", "a.2", "ab", "b", "\u{e9}", "\u{1F600}", "Z"];
    for a in words {
        for b in words {
            assert_eq!(name_le(a, b), a <= b, "{a} {b}");
        }
    }
}

#[test]
fn numbers_and_parts() {
    for n in [0usize, 7, 9, 10, 99, 100, 12345, usize::MAX] {
        assert_eq!(decimal(n), n.to_string());
    }
    assert!(ends_with("a.weight", ".weight") && !ends_with("weight", ".weight"));
    assert!(contains("x.embed_tokens.y", "embed_tokens") && contains("abc", ""));
    assert!(!contains("embed_token", "embed_tokens") && contains("aab", "ab"));
}

#[test]
fn some_tensors_may_be_absent() {
    let absent: Vec<String> =
        expected_names(1).into_iter().filter(|n| is_optional(n)).collect();
    assert_eq!(
        absent,
        vec![
            "model.layers.0.self_attn.q_proj.bias",
            "model.layers.0.self_attn.k_proj.bias",
            "model.layers.0.self_attn.v_proj.bias",
            "model.layers.0.self_attn.q_norm.weight",
            "model.layers.0.self_attn.k_norm.weight",
            "lm_head.weight",
        ]
    );
}

fn config() -> ModelConfig {
    let mut config = tiny_config(2);
    config.n_layers = 1;
    config
}

#[test]
fn the_plan_is_sorted_and_located() {
    let required: Vec<String> =
        expected_names(1).into_iter().filter(|n| !is_optional(n)).collect();
    let (first, second) = required.split_at(4);
    let mut second = second.to_vec();
    second.push(first[0].clone());
    second.push("unrelated".to_string());
    let shards = vec![first.to_vec(), second.clone()];
    let plan = plan_export(config(), QuantDtype::Q4_0, &shards).unwrap();
    let mut expected = required.clone();
    expected.sort();
    assert_eq!(plan.names, expected);
    for (name, shard) in plan.names.iter().zip(plan.shards.iter()) {
        // A tensor that several shards hold is taken from the last.
        assert_eq!(*shard, if second.contains(name) { 1 } else { 0 });
    }
    assert_eq!(plan.config.dtype, "q4_0");
    assert!(!plan.config.has_qkv_bias);
    let mut with_bias = shards.clone();
    with_bias[0].push("model.layers.0.self_attn.q_proj.bias".to_string());
    assert!(plan_export(config(), QuantDtype::Q4_0, &with_bias).unwrap().config.has_qkv_bias);
}

#[test]
fn missing_tensors_are_listed() {
    let mut names = expected_names(1);
    names.retain(|n| n != "model.norm.weight" && !n.ends_with("up_proj.weight"));
    match plan_export(config(), QuantDtype::Q8_0, &vec![names]) {
        Err(MinqError::Model(ModelErrorOf::MissingTensors { names })) => {
            assert_eq!(names, vec!["model.layers.0.mlp.up_proj.weight", "model.norm.weight"]);
        }
        _ => panic!("expected missing tensors"),
    }
}

#[test]
fn only_weight_matrices_are_quantized() {
    let quantized = |name: &str, shape: &[usize]| {
        let (n, w) =
            quantize_tensor::<Native>(name, Tensor::zeros(shape), QuantDtype::Q8_0).unwrap();
        assert_eq!(n, name);
        matches!(w, WeightTensor::Quant(_))
    };
    assert!(quantized("model.layers.0.mlp.up_proj.weight", &[2, 64]));
    assert!(quantized("lm_head.weight", &[2, 32]));
    assert!(!quantized("model.embed_tokens.weight", &[2, 64]));
    assert!(!quantized("model.norm.weight", &[64]));
    assert!(!quantized("model.layers.0.self_attn.q_proj.bias", &[2, 64]));
    assert!(!quantized("odd.weight", &[2, 33]));
}

#[test]
fn exported_tensors_are_read_back() {
    let values: Vec<f32> = (0..64).map(|i| i as f32 - 30.0).collect();
    let data: Vec<u8> = values.iter().flat_map(|v| v.to_le_bytes()).collect();
    let view = TensorView::new(Dtype::F32, vec![2, 32], &data).unwrap();
    let shard = safetensors::serialize(vec![("w.weight", &view), ("w.bias", &view)], &None).unwrap();
    let mut out = Vec::new();
    write_minq_header(&mut out, b"{}");
    let first = export_tensor::<Native>(&mut out, &shard, "w.bias", QuantDtype::Q8_0).unwrap();
    let second = export_tensor::<Native>(&mut out, &shard, "w.weight", QuantDtype::Q8_0).unwrap();
    assert_eq!(first, (256, 256));
    assert_eq!(second, (256, 72));
    let (_, records) = read_minq(&out).unwrap();
    assert_eq!(records.len(), 2);
    match &records[0].1 {
        WeightTensor::F32(t) => assert_eq!(dec(&t.data), values),
        WeightTensor::Quant(_) => panic!("a bias stays dense"),
    }
    match &records[1].1 {
        WeightTensor::Quant(q) => {
            let back = dec(&q.dequantize::<Native>().unwrap().data);
            for (a, b) in back.iter().zip(values.iter()) {
                assert!((a - b).abs() < 0.2, "{a} vs {b}");
            }
        }
        WeightTensor::F32(_) => panic!("a weight is quantized"),
    }
    let before = out.clone();
    assert!(export_tensor::<Native>(&mut out, &shard, "x", QuantDtype::Q8_0).is_err());
    assert_eq!(out, before);
}

#[test]
fn only_new_and_finished_text_is_fresh() {
    assert_eq!(fresh("h\u{e9}llo", 0), Some("h\u{e9}llo"));
    assert_eq!(fresh("h\u{e9}llo", 2), Some("llo"));
    assert_eq!(fresh("h\u{e9}llo", 5), None);
    assert_eq!(fresh("", 0), None);
    assert_eq!(fresh("h\u{FFFD}", 0), None);
    assert_eq!(fresh("\u{FFFD}h", 1), Some("h"));
}

#[test]
fn no_name_is_planned_twice() {
    let mut config = tiny_config(2);
    config.n_layers = 12;
    let all = expected_names(12);
    let shards = vec![all.clone(), all.clone()];
    let plan = plan_export(config, QuantDtype::Q8_0, &shards).unwrap();
    assert_eq!(plan.names.len(), 12 * 14 + 3);
    for pair in plan.names.windows(2) {
        assert!(pair[0] < pair[1], "{} {}", pair[0], pair[1]);
    }
    assert!(plan.shards.iter().all(|shard| *shard == 1));
}
