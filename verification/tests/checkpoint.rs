use minq::arith::Arith;
use minq::checkpoint::{
    add_file, check_ends, config_from_fields, convert, declared_end, is_countable, load_safetensors,
    read_tensor, safetensors_header_len, scan_safetensors_names, st_to_tensor, Counts, JsonField,
    JsonPart, StTensor,
};
use minq::error::ModelErrorOf;
use minq::format::WeightTensor;
use minq::model::{hf_config, Linear};
use minq::MinqError;
use safetensors::tensor::TensorView;
use safetensors::{Dtype, SafeTensors};

/// The machine's own floating point.
struct Native;

impl Arith for Native {
    fn add32(a: u32, b: u32) -> u32 {
        (f32::from_bits(a) + f32::from_bits(b)).to_bits()
    }
    fn sub32(a: u32, b: u32) -> u32 {
        (f32::from_bits(a) - f32::from_bits(b)).to_bits()
    }
    fn mul32(a: u32, b: u32) -> u32 {
        (f32::from_bits(a) * f32::from_bits(b)).to_bits()
    }
    fn div32(a: u32, b: u32) -> u32 {
        (f32::from_bits(a) / f32::from_bits(b)).to_bits()
    }
    fn sqrt32(a: u32) -> u32 {
        f32::from_bits(a).sqrt().to_bits()
    }
    fn exp32(a: u32) -> u32 {
        f32::from_bits(a).exp().to_bits()
    }
    fn pow32(base: u32, exponent: u32) -> u32 {
        f32::from_bits(base).powf(f32::from_bits(exponent)).to_bits()
    }
    fn sin32(a: u32) -> u32 {
        f32::from_bits(a).sin().to_bits()
    }
    fn cos32(a: u32) -> u32 {
        f32::from_bits(a).cos().to_bits()
    }
    fn count32(n: usize) -> u32 {
        (n as f32).to_bits()
    }
    fn int32(n: i32) -> u32 {
        (n as f32).to_bits()
    }
    fn narrow(a: u64) -> u32 {
        (f64::from_bits(a) as f32).to_bits()
    }
    fn widen(a: u32) -> u64 {
        (f32::from_bits(a) as f64).to_bits()
    }
    fn add64(a: u64, b: u64) -> u64 {
        (f64::from_bits(a) + f64::from_bits(b)).to_bits()
    }
    fn sub64(a: u64, b: u64) -> u64 {
        (f64::from_bits(a) - f64::from_bits(b)).to_bits()
    }
    fn div64(a: u64, b: u64) -> u64 {
        (f64::from_bits(a) / f64::from_bits(b)).to_bits()
    }
    fn exp64(a: u64) -> u64 {
        f64::from_bits(a).exp().to_bits()
    }
    fn ln64(a: u64) -> u64 {
        f64::from_bits(a).ln().to_bits()
    }
    fn count64(n: usize) -> u64 {
        (n as f64).to_bits()
    }
}

fn enc(values: &[f32]) -> Vec<u32> {
    values.iter().map(|v| v.to_bits()).collect()
}

fn dec(bits: &[u32]) -> Vec<f32> {
    bits.iter().map(|b| f32::from_bits(*b)).collect()
}

fn bytes_of(values: &[f32]) -> Vec<u8> {
    values.iter().flat_map(|v| v.to_le_bytes()).collect()
}

fn file(tensors: &[(&str, Dtype, Vec<usize>, Vec<u8>)]) -> Vec<u8> {
    let views: Vec<(String, TensorView)> = tensors
        .iter()
        .map(|(name, dtype, shape, data)| {
            (name.to_string(), TensorView::new(*dtype, shape.clone(), data).unwrap())
        })
        .collect();
    safetensors::serialize(views, &None).unwrap()
}

fn halves(words: &[u16]) -> Vec<u8> {
    words.iter().flat_map(|w| w.to_le_bytes()).collect()
}

#[test]
fn dense_tensors_are_read() {
    let raw = file(&[("a", Dtype::F32, vec![2, 2], bytes_of(&[1.0, -2.0, 3.5, 0.0]))]);
    let st = SafeTensors::deserialize(&raw).unwrap();
    let t = st_to_tensor(&st, "a").unwrap();
    assert_eq!(t.shape, vec![2, 2]);
    assert_eq!(dec(&t.data), vec![1.0, -2.0, 3.5, 0.0]);
}

#[test]
fn every_half_is_converted_exactly() {
    let words: Vec<u16> = (0..=u16::MAX).collect();
    let raw = file(&[("h", Dtype::F16, vec![65536], halves(&words))]);
    let t = read_tensor(&raw, "h").unwrap();
    for (w, bits) in words.iter().zip(t.data.iter()) {
        assert_eq!(*bits, half::f16::from_bits(*w).to_f32().to_bits(), "half {w:#x}");
    }
}

#[test]
fn every_bfloat_is_converted_exactly() {
    let words: Vec<u16> = (0..=u16::MAX).collect();
    let raw = file(&[("b", Dtype::BF16, vec![256, 256], halves(&words))]);
    let t = read_tensor(&raw, "b").unwrap();
    assert_eq!(t.shape, vec![256, 256]);
    for (w, bits) in words.iter().zip(t.data.iter()) {
        let plain = (*w as u32) << 16;
        let expected = if f32::from_bits(plain).is_nan() { plain | 0x40_0000 } else { plain };
        assert_eq!(*bits, expected, "bfloat {w:#x}");
    }
}

#[test]
fn absent_and_unsupported_tensors_are_refused() {
    let raw = file(&[("i", Dtype::I64, vec![1], vec![0; 8])]);
    assert!(matches!(read_tensor(&raw, "nothing"), Err(MinqError::SafeTensor(_))));
    match read_tensor(&raw, "i") {
        Err(MinqError::Model(ModelErrorOf::UnsupportedDtype { name, dtype })) => {
            assert_eq!((name.as_str(), dtype.as_str()), ("i", "I64"))
        }
        other => panic!("unexpected {other:?}"),
    }
    assert!(matches!(read_tensor(b"junk", "i"), Err(MinqError::SafeTensor(_))));
}

#[test]
fn plain_bytes_are_converted() {
    let t = StTensor { dtype: "F16".to_string(), shape: vec![2], data: &[0x00, 0x3C, 0x01, 0x80] };
    let t = convert(t, "x").unwrap();
    // One, and the smallest negative subnormal.
    assert_eq!(dec(&t.data), vec![1.0, -(2.0f32.powi(-24))]);
}

#[test]
fn later_files_replace_earlier_tensors() {
    let first = file(&[
        ("a", Dtype::F32, vec![1], bytes_of(&[1.0])),
        ("b", Dtype::F32, vec![1], bytes_of(&[2.0])),
    ]);
    let second = file(&[("a", Dtype::F32, vec![1], bytes_of(&[3.0]))]);
    let mut weights: Vec<(String, WeightTensor)> = Vec::new();
    add_file(&mut weights, &first).unwrap();
    add_file(&mut weights, &second).unwrap();
    let last = |name: &str| {
        weights.iter().rev().find(|(n, _)| n == name).map(|(_, w)| match w {
            WeightTensor::F32(t) => dec(&t.data)[0],
            WeightTensor::Quant(_) => panic!("dense expected"),
        })
    };
    assert_eq!(last("a"), Some(3.0));
    assert_eq!(last("b"), Some(2.0));
    assert_eq!(last("c"), None);
    let bad = file(&[("i", Dtype::U8, vec![1], vec![0])]);
    assert!(matches!(
        add_file(&mut weights, &bad),
        Err(MinqError::Model(ModelErrorOf::UnsupportedDtype { .. }))
    ));
    assert!(matches!(add_file(&mut weights, b""), Err(MinqError::SafeTensor(_))));
}

const CONFIG: &str = "{\"hidden_size\": 64, \"num_attention_heads\": 4, \
    \"intermediate_size\": 128, \"num_hidden_layers\": 1, \"vocab_size\": 8";

#[test]
fn config_defaults_are_filled_in() {
    let c = hf_config::<Native>(&format!("{CONFIG}}}")).unwrap();
    assert_eq!((c.hidden_size, c.intermediate_size, c.n_layers), (64, 128, 1));
    assert_eq!((c.n_heads, c.n_kv_heads, c.head_dim), (4, 4, 16));
    assert_eq!((c.vocab_size, c.max_seq_len), (8, 4096));
    assert_eq!(f32::from_bits(c.rope_theta), 10000.0);
    assert_eq!(f32::from_bits(c.rms_norm_eps), 1e-6);
    assert!(!c.has_qkv_bias);
    assert_eq!(c.dtype, "f32");
}

#[test]
fn config_values_are_read() {
    let c = hf_config::<Native>(&format!(
        "{CONFIG}, \"num_key_value_heads\": 2, \"head_dim\": 8, \"rope_theta\": 1000000, \
         \"rms_norm_eps\": 1e-05, \"max_position_embeddings\": 2048}}"
    ))
    .unwrap();
    assert_eq!((c.n_kv_heads, c.head_dim, c.max_seq_len), (2, 8, 2048));
    assert_eq!(f32::from_bits(c.rope_theta), 1000000.0);
    assert_eq!(f32::from_bits(c.rms_norm_eps), 1e-5);
}

#[test]
fn missing_keys_are_named_in_order() {
    let missing = |text: &str| match hf_config::<Native>(text) {
        Err(MinqError::Model(ModelErrorOf::MissingKey { key })) => key,
        other => panic!("unexpected {other:?}"),
    };
    assert_eq!(missing("{}"), "hidden_size");
    assert_eq!(missing("[1, 2]"), "hidden_size");
    assert_eq!(missing("{\"hidden_size\": -1}"), "hidden_size");
    assert_eq!(missing("{\"hidden_size\": 64}"), "num_attention_heads");
    assert_eq!(
        missing("{\"hidden_size\": 64, \"num_attention_heads\": 4}"),
        "intermediate_size"
    );
    assert_eq!(
        missing("{\"hidden_size\": 64, \"num_attention_heads\": 4, \"intermediate_size\": 1}"),
        "num_hidden_layers"
    );
    assert_eq!(
        missing(&CONFIG.replace("\"vocab_size\": 8", "\"vocab_size\": 0.5}")),
        "vocab_size"
    );
    assert!(matches!(hf_config::<Native>("{"), Err(MinqError::Json(_))));
    let no_heads = format!("{}}}", CONFIG.replace("_heads\": 4", "_heads\": 0"));
    assert!(matches!(
        hf_config::<Native>(&no_heads),
        Err(MinqError::Model(ModelErrorOf::ZeroHeads))
    ));
}

#[test]
fn fields_make_a_config() {
    let field = |key: &str, n: u64| JsonField {
        key: key.to_string(),
        count: Some(n),
        number: Some((n as f64).to_bits()),
        parts: Vec::new(),
        items: Vec::new(),
    };
    let fields = vec![
        field("hidden_size", 32),
        field("num_attention_heads", 2),
        field("intermediate_size", 64),
        field("num_hidden_layers", 3),
        field("vocab_size", 10),
        field("rope_theta", 500),
    ];
    let c = config_from_fields::<Native>(&fields).unwrap();
    assert_eq!((c.head_dim, c.n_layers, c.vocab_size), (16, 3, 10));
    assert_eq!(f32::from_bits(c.rope_theta), 500.0);
}

#[test]
fn headers_are_scanned_for_names() {
    let raw = file(&[
        ("w.b", Dtype::F32, vec![1], bytes_of(&[1.0])),
        ("w.a", Dtype::F32, vec![1], bytes_of(&[2.0])),
    ]);
    let len = safetensors_header_len(&raw).unwrap();
    let mut names = scan_safetensors_names(&raw[..8 + len as usize]).unwrap();
    names.sort();
    assert_eq!(names, vec!["w.a", "w.b"]);
    assert!(matches!(
        scan_safetensors_names(&raw[..8 + len as usize - 1]),
        Err(MinqError::Io(_))
    ));
}

#[test]
fn metadata_is_not_a_tensor() {
    let header = b"{\"__metadata__\":{\"format\":\"pt\"},\"x\":{}}";
    let mut raw = (header.len() as u64).to_le_bytes().to_vec();
    raw.extend_from_slice(header);
    assert_eq!(scan_safetensors_names(&raw).unwrap(), vec!["x"]);
}

#[test]
fn corrupt_headers_are_refused() {
    assert!(matches!(safetensors_header_len(&[0; 7]), Err(MinqError::Io(_))));
    let too_long = (64u64 * 1024 * 1024 + 1).to_le_bytes();
    assert!(matches!(
        safetensors_header_len(&too_long),
        Err(MinqError::Model(ModelErrorOf::HeaderTooLong { header_len: 0x400_0001 }))
    ));
    assert_eq!(safetensors_header_len(&(64u64 * 1024 * 1024).to_le_bytes()).unwrap(), 0x400_0000);
    let with_header = |header: &[u8]| {
        let mut raw = (header.len() as u64).to_le_bytes().to_vec();
        raw.extend_from_slice(header);
        scan_safetensors_names(&raw)
    };
    assert!(matches!(with_header(b"[]"), Err(MinqError::Model(ModelErrorOf::BadHeader))));
    assert!(matches!(with_header(b"{"), Err(MinqError::Json(_))));
}

fn checkpoint(bias: bool) -> Vec<(String, WeightTensor)> {
    let mut tensors: Vec<(String, Dtype, Vec<usize>, Vec<u8>)> = Vec::new();
    let mut add = |name: &str, shape: Vec<usize>| {
        let n: usize = shape.iter().product();
        let values: Vec<f32> = (0..n).map(|i| (i % 7) as f32 * 0.01).collect();
        tensors.push((name.to_string(), Dtype::F32, shape, bytes_of(&values)));
    };
    add("model.embed_tokens.weight", vec![8, 64]);
    add("model.norm.weight", vec![64]);
    let p = "model.layers.0.";
    add(&format!("{p}input_layernorm.weight"), vec![64]);
    add(&format!("{p}post_attention_layernorm.weight"), vec![64]);
    for w in ["q", "k", "v", "o"] {
        add(&format!("{p}self_attn.{w}_proj.weight"), vec![64, 64]);
    }
    if bias {
        add(&format!("{p}self_attn.q_proj.bias"), vec![64]);
    }
    add(&format!("{p}mlp.gate_proj.weight"), vec![128, 64]);
    add(&format!("{p}mlp.up_proj.weight"), vec![128, 64]);
    add(&format!("{p}mlp.down_proj.weight"), vec![64, 128]);
    let list: Vec<(&str, Dtype, Vec<usize>, Vec<u8>)> = tensors
        .iter()
        .map(|(n, d, s, b)| (n.as_str(), *d, s.clone(), b.clone()))
        .collect();
    let mut weights = Vec::new();
    add_file(&mut weights, &file(&list)).unwrap();
    weights
}

#[test]
fn a_checkpoint_becomes_a_model() {
    let mut config = hf_config::<Native>(&format!("{CONFIG}}}")).unwrap();
    config.max_seq_len = 16;
    for bias in [false, true] {
        let model = load_safetensors::<Native>(config.clone(), &checkpoint(bias)).unwrap();
        assert!(model.is_runnable());
        assert_eq!(model.config.has_qkv_bias, bias);
        assert_eq!(model.layers[0].q_bias.is_some(), bias);
        // Without a head of its own the model uses the embedding table.
        assert_eq!(model.lm_head, Linear::F32(model.embed.clone()));
        assert_eq!(model.forward_full::<Native>(&[1, 2, 3]).unwrap().len(), 8);
    }
}

fn with_header(header: &str) -> Vec<u8> {
    let mut raw = (header.len() as u64).to_le_bytes().to_vec();
    raw.extend_from_slice(header.as_bytes());
    raw
}

#[test]
fn tensors_beyond_every_file_are_refused() {
    let max = u64::MAX;
    let object = format!(
        "{{\"t\": {{\"dtype\": \"U8\", \"shape\": [{max}], \"data_offsets\": [0, {max}]}}}}"
    );
    let array = format!("{{\"t\": [\"U8\", [{max}], [0, {max}]]}}");
    for header in [object, array] {
        let raw = with_header(&header);
        assert!(!is_countable(&raw));
        assert!(matches!(read_tensor(&raw, "t"), Err(MinqError::SafeTensor(_))));
        let mut weights: Vec<(String, WeightTensor)> = Vec::new();
        assert!(matches!(add_file(&mut weights, &raw), Err(MinqError::SafeTensor(_))));
        assert!(weights.is_empty());
    }
    // An end that can be counted is left to the file's own length.
    let raw = with_header("{\"t\": {\"dtype\": \"U8\", \"shape\": [9], \"data_offsets\": [0, 9]}}");
    assert!(is_countable(&raw));
    assert!(matches!(read_tensor(&raw, "t"), Err(MinqError::SafeTensor(_))));
    assert!(is_countable(b"short"));
    assert!(is_countable(&with_header("not json")));
}

fn object(parts: Vec<(&str, Counts)>) -> JsonField {
    let parts = parts
        .into_iter()
        .map(|(key, counts)| JsonPart { key: key.to_string(), counts })
        .collect();
    JsonField { key: "t".to_string(), count: None, number: None, parts, items: Vec::new() }
}

fn array(items: Vec<Counts>) -> JsonField {
    JsonField { key: "t".to_string(), count: None, number: None, parts: Vec::new(), items }
}

#[test]
fn ends_are_found_in_both_layouts() {
    let pair = |a: u64, b: u64| Some(vec![Some(a), Some(b)]);
    let field = object(vec![("data_offsets", pair(3, 7)), ("dtype", None), ("shape", pair(1, 4))]);
    assert_eq!(declared_end(&field), Some(7));
    assert_eq!(declared_end(&array(vec![None, pair(1, 4), pair(3, 7)])), Some(7));
    // The third place counts in an array only, and the second count has to be there.
    let field = object(vec![("a", None), ("b", None), ("c", pair(3, 7))]);
    assert_eq!(declared_end(&field), None);
    assert_eq!(declared_end(&array(vec![None, pair(3, 7)])), None);
    assert_eq!(declared_end(&object(vec![("data_offsets", Some(vec![Some(1)]))])), None);
    assert_eq!(declared_end(&object(vec![("data_offsets", None)])), None);
    assert_eq!(declared_end(&object(Vec::new())), None);
}

#[test]
fn ends_are_bounded_with_the_header() {
    let field = |end: Option<u64>| object(vec![("data_offsets", Some(vec![Some(0), end]))]);
    let most = usize::MAX as u64 - 8 - 100;
    assert!(check_ends(&vec![field(None), field(Some(most))], 100));
    assert!(!check_ends(&vec![field(Some(0)), field(Some(most + 1))], 100));
}

#[test]
fn an_unreadable_file_leaves_only_what_can_be_read() {
    let first = file(&[("a", Dtype::F32, vec![1], bytes_of(&[1.0]))]);
    let mixed = file(&[
        ("b", Dtype::F32, vec![1], bytes_of(&[2.0])),
        ("c", Dtype::U8, vec![1], vec![0]),
        ("d", Dtype::F32, vec![1], bytes_of(&[4.0])),
    ]);
    let mut weights: Vec<(String, WeightTensor)> = Vec::new();
    add_file(&mut weights, &first).unwrap();
    match add_file(&mut weights, &mixed) {
        Err(MinqError::Model(ModelErrorOf::UnsupportedDtype { name, dtype })) => {
            assert_eq!((name.as_str(), dtype.as_str()), ("c", "U8"));
        }
        other => panic!("unexpected {other:?}"),
    }
    assert_eq!(weights[0].0, "a");
    for (name, weight) in &weights {
        let value = match weight {
            WeightTensor::F32(t) => dec(&t.data),
            WeightTensor::Quant(_) => panic!("dense expected"),
        };
        let expected = match name.as_str() {
            "a" => 1.0,
            "b" => 2.0,
            "d" => 4.0,
            other => panic!("unexpected {other}"),
        };
        assert_eq!(value, vec![expected]);
    }
}
