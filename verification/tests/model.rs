use minq::arith::Arith;
use minq::attention::apply_per_head_norm;
use minq::error::{ModelErrorOf, ShapeErrorOf};
use minq::model::{apply_rope, KVCache, Linear, Model, ModelConfig, RopeTables};
use minq::quantize::{QuantDtype, QuantizedTensor};
use minq::tensor::{dot, rmsnorm, Tensor};
use minq::MinqError;
use rand::rngs::StdRng;
use rand::{Rng, SeedableRng};

/// The machine's own floating point.
struct Native;

impl Arith for Native {
    fn add32(a: u32, b: u32) -> u32 {
        (f32::from_bits(a) + f32::from_bits(b)).to_bits()
    }
    fn sub32(a: u32, b: u32) -> u32 {
        (f32::from_bits(a) - f32::from_bits(b)).to_bits()
    }
    fn mul32(a: u32, b: u32) -> u32 {
        (f32::from_bits(a) * f32::from_bits(b)).to_bits()
    }
    fn div32(a: u32, b: u32) -> u32 {
        (f32::from_bits(a) / f32::from_bits(b)).to_bits()
    }
    fn sqrt32(a: u32) -> u32 {
        f32::from_bits(a).sqrt().to_bits()
    }
    fn exp32(a: u32) -> u32 {
        f32::from_bits(a).exp().to_bits()
    }
    fn pow32(base: u32, exponent: u32) -> u32 {
        f32::from_bits(base).powf(f32::from_bits(exponent)).to_bits()
    }
    fn sin32(a: u32) -> u32 {
        f32::from_bits(a).sin().to_bits()
    }
    fn cos32(a: u32) -> u32 {
        f32::from_bits(a).cos().to_bits()
    }
    fn count32(n: usize) -> u32 {
        (n as f32).to_bits()
    }
    fn int32(n: i32) -> u32 {
        (n as f32).to_bits()
    }
    fn narrow(a: u64) -> u32 {
        (f64::from_bits(a) as f32).to_bits()
    }
    fn widen(a: u32) -> u64 {
        (f32::from_bits(a) as f64).to_bits()
    }
    fn add64(a: u64, b: u64) -> u64 {
        (f64::from_bits(a) + f64::from_bits(b)).to_bits()
    }
    fn sub64(a: u64, b: u64) -> u64 {
        (f64::from_bits(a) - f64::from_bits(b)).to_bits()
    }
    fn div64(a: u64, b: u64) -> u64 {
        (f64::from_bits(a) / f64::from_bits(b)).to_bits()
    }
    fn exp64(a: u64) -> u64 {
        f64::from_bits(a).exp().to_bits()
    }
    fn ln64(a: u64) -> u64 {
        f64::from_bits(a).ln().to_bits()
    }
    fn count64(n: usize) -> u64 {
        (n as f64).to_bits()
    }
}

fn enc(values: &[f32]) -> Vec<u32> {
    values.iter().map(|v| v.to_bits()).collect()
}

fn dec(bits: &[u32]) -> Vec<f32> {
    bits.iter().map(|b| f32::from_bits(*b)).collect()
}

/// Tiny 2-layer config (dim 64, vocab 128).
fn tiny_config(n_kv_heads: usize) -> ModelConfig {
    ModelConfig {
        hidden_size: 64,
        intermediate_size: 128,
        n_layers: 2,
        n_heads: 4,
        n_kv_heads,
        head_dim: 16,
        vocab_size: 128,
        max_seq_len: 64,
        rope_theta: 10000.0f32.to_bits(),
        rms_norm_eps: 1e-5f32.to_bits(),
        has_qkv_bias: false,
        dtype: "f32".to_string(),
    }
}

fn rand_vec(n: usize, seed: u64) -> Vec<f32> {
    let mut rng = StdRng::seed_from_u64(seed);
    (0..n).map(|_| (rng.gen::<f32>() - 0.5) * 2.0).collect()
}

#[test]
fn rope_preserves_vector_norm() {
    // Rotation is orthogonal: per-pair norm, hence total norm, is kept.
    let n_heads = 2;
    let head_dim = 16;
    let x = rand_vec(n_heads * head_dim, 1);
    let before: f32 = x.iter().map(|v| v * v).sum::<f32>().sqrt();
    let mut bits = enc(&x);
    apply_rope::<Native>(&mut bits, 37, n_heads, head_dim, 10000.0f32.to_bits());
    let after: f32 = dec(&bits).iter().map(|v| v * v).sum::<f32>().sqrt();
    assert!((before - after).abs() < 1e-4, "{before} vs {after}");
}

#[test]
fn rope_tables_match_on_the_fly_computation() {
    // The precomputed tables must be bit-identical to apply_rope's
    // per-call math (same expression, evaluated once up front).
    let (head_dim, max_seq, theta) = (16usize, 64usize, 10000.0f32.to_bits());
    let tables = RopeTables::new::<Native>(head_dim, max_seq, theta);
    for pos in [0usize, 1, 7, 33, 63] {
        let mut a = enc(&rand_vec(2 * head_dim, 100 + pos as u64));
        let mut b = a.clone();
        apply_rope::<Native>(&mut a, pos, 2, head_dim, theta);
        tables.apply::<Native>(&mut b, pos);
        assert_eq!(a, b, "pos {pos} differs");
    }
}

#[test]
fn rope_encodes_relative_positions() {
    // dot(RoPE(q, m), RoPE(k, n)) must depend only on m - n.
    let head_dim = 16;
    let theta = 10000.0f32.to_bits();
    let q = enc(&rand_vec(head_dim, 2));
    let k = enc(&rand_vec(head_dim, 3));
    let (m, n, delta) = (9usize, 3usize, 5usize);

    let mut q1 = q.clone();
    let mut k1 = k.clone();
    apply_rope::<Native>(&mut q1, m, 1, head_dim, theta);
    apply_rope::<Native>(&mut k1, n, 1, head_dim, theta);

    let mut q2 = q.clone();
    let mut k2 = k.clone();
    apply_rope::<Native>(&mut q2, m + delta, 1, head_dim, theta);
    apply_rope::<Native>(&mut k2, n + delta, 1, head_dim, theta);

    let d1 = f32::from_bits(dot::<Native>(&q1, &k1));
    let d2 = f32::from_bits(dot::<Native>(&q2, &k2));
    assert!((d1 - d2).abs() < 1e-4, "{d1} vs {d2}");
}

#[test]
fn kv_cache_matches_full_forward() {
    let model = Model::random::<Native>(tiny_config(4), 7);
    let tokens: Vec<u32> = vec![5, 11, 23, 97, 3, 42];
    let reference = model.forward_full::<Native>(&tokens).unwrap();

    // (a) pure incremental decoding, one token at a time
    let mut cache = KVCache::new(&model.config);
    let mut last = Vec::new();
    for &t in &tokens {
        last = model.forward::<Native>(&[t], &mut cache).unwrap();
    }
    assert_logits_close(&reference, &last);
    assert_eq!(reference, last);

    // (b) prefill + decode split must give the same result
    let mut cache = KVCache::new(&model.config);
    model.forward::<Native>(&tokens[..4], &mut cache).unwrap();
    let last = model.forward::<Native>(&tokens[4..], &mut cache).unwrap();
    assert_logits_close(&reference, &last);
    assert_eq!(reference, last);
}

#[test]
fn gqa_broadcast_matches_expanded_kv() {
    // A GQA model with n_kv_heads = 1 must behave exactly like an MHA
    // model whose K/V projections are copies of the single KV head.
    let mut gqa = Model::random::<Native>(tiny_config(1), 42);
    let mut mha = gqa.clone();
    mha.config.n_kv_heads = 4;
    for (gqa_layer, mha_layer) in gqa.layers.iter_mut().zip(mha.layers.iter_mut()) {
        // Keep every weight identical except K/V, which we expand 4x.
        for (src, dst) in [
            (&gqa_layer.k, &mut mha_layer.k),
            (&gqa_layer.v, &mut mha_layer.v),
        ] {
            if let (Linear::F32(t), Linear::F32(d)) = (src, dst) {
                let (rows, cols) = (t.shape[0], t.shape[1]);
                let mut data = Vec::with_capacity(4 * rows * cols);
                for _ in 0..4 {
                    data.extend_from_slice(&t.data);
                }
                *d = Tensor::new(data, vec![4 * rows, cols]).unwrap();
            }
        }
    }
    gqa.config.n_kv_heads = 1;
    assert!(gqa.is_runnable() && mha.is_runnable());
    let tokens: Vec<u32> = vec![1, 2, 3, 4, 5];
    let a = gqa.forward_full::<Native>(&tokens).unwrap();
    let b = mha.forward_full::<Native>(&tokens).unwrap();
    assert_logits_close(&a, &b);
    assert_eq!(a, b);
}

/// Qwen3-style config: explicit head_dim decoupled from
/// hidden_size / n_heads (64 / 4 = 16, but head_dim = 8), no QKV bias.
fn qwen3_tiny_config() -> ModelConfig {
    ModelConfig {
        hidden_size: 64,
        intermediate_size: 128,
        n_layers: 2,
        n_heads: 4,
        n_kv_heads: 2,
        head_dim: 8,
        vocab_size: 128,
        max_seq_len: 64,
        rope_theta: 1000000.0f32.to_bits(),
        rms_norm_eps: 1e-6f32.to_bits(),
        has_qkv_bias: false,
        dtype: "f32".to_string(),
    }
}

/// Random Qwen3-style model: adds per-head q/k RMSNorm gains.
fn qwen3_random(seed: u64) -> Model {
    let mut model = Model::random::<Native>(qwen3_tiny_config(), seed);
    let mut rng = StdRng::seed_from_u64(seed + 1);
    let hd = model.config.head_dim;
    for layer in &mut model.layers {
        layer.q_norm = Some((0..hd).map(|_| (0.5 + rng.gen::<f32>()).to_bits()).collect());
        layer.k_norm = Some((0..hd).map(|_| (0.5 + rng.gen::<f32>()).to_bits()).collect());
    }
    model
}

#[test]
fn qwen3_kv_cache_matches_full_forward() {
    let model = qwen3_random(17);
    let tokens: Vec<u32> = vec![5, 11, 23, 97, 3, 42];
    let reference = model.forward_full::<Native>(&tokens).unwrap();

    // Pure incremental decoding.
    let mut cache = KVCache::new(&model.config);
    let mut last = Vec::new();
    for &t in &tokens {
        last = model.forward::<Native>(&[t], &mut cache).unwrap();
    }
    assert_logits_close(&reference, &last);

    // Prefill + decode split.
    let mut cache = KVCache::new(&model.config);
    model.forward::<Native>(&tokens[..2], &mut cache).unwrap();
    let last = model.forward::<Native>(&tokens[2..], &mut cache).unwrap();
    assert_logits_close(&reference, &last);
}

#[test]
fn qk_norm_actually_changes_output() {
    // Sanity: the q/k norms must be wired in, not silently ignored.
    let with_norms = qwen3_random(19);
    let mut without = with_norms.clone();
    for layer in &mut without.layers {
        layer.q_norm = None;
        layer.k_norm = None;
    }
    let tokens: Vec<u32> = vec![1, 2, 3];
    let a = dec(&with_norms.forward_full::<Native>(&tokens).unwrap());
    let b = dec(&without.forward_full::<Native>(&tokens).unwrap());
    let max_diff: f32 = a
        .iter()
        .zip(b.iter())
        .map(|(x, y)| (x - y).abs())
        .fold(0.0, f32::max);
    assert!(max_diff > 1e-3, "q/k norms had no effect ({max_diff})");
}

#[test]
fn head_dim_decoupled_from_hidden_size() {
    // qwen3_tiny_config: hidden/n_heads = 16 but head_dim = 8, so the Q
    // projection is [32, 64] and O is [64, 32]. This fails loudly if any
    // code path assumes head_dim == hidden_size / n_heads.
    let model = qwen3_random(23);
    let logits = model.forward_full::<Native>(&[7, 8, 9]).unwrap();
    assert_eq!(logits.len(), model.config.vocab_size);
}

fn assert_logits_close(a: &[u32], b: &[u32]) {
    let (a, b) = (dec(a), dec(b));
    assert_eq!(a.len(), b.len());
    let max_diff: f32 = a
        .iter()
        .zip(b.iter())
        .map(|(x, y)| (x - y).abs())
        .fold(0.0, f32::max);
    assert!(max_diff < 1e-3, "logits differ by up to {max_diff}");
}

#[test]
fn random_weights_follow_the_generator() {
    let model = Model::random::<Native>(tiny_config(2), 3);
    let mut rng = StdRng::seed_from_u64(3);
    let mut matrix = |rows: usize, cols: usize| -> Vec<f32> {
        let scale = (cols as f32).sqrt().recip();
        (0..rows * cols).map(|_| (rng.gen::<f32>() - 0.5) * 2.0 * scale).collect()
    };
    assert_eq!(dec(&model.embed.data), matrix(128, 64));
    let dense = |w: &Linear| match w {
        Linear::F32(t) => dec(&t.data),
        Linear::Quant(_) => panic!("dense expected"),
    };
    assert_eq!(dense(&model.lm_head), matrix(128, 64));
    for layer in &model.layers {
        assert_eq!(dense(&layer.q), matrix(64, 64));
        assert_eq!(dense(&layer.k), matrix(32, 64));
        assert_eq!(dense(&layer.v), matrix(32, 64));
        assert_eq!(dense(&layer.o), matrix(64, 64));
        assert_eq!(dense(&layer.gate), matrix(128, 64));
        assert_eq!(dense(&layer.up), matrix(128, 64));
        assert_eq!(dense(&layer.down), matrix(64, 128));
        assert!(dec(&layer.attn_norm).iter().all(|v| *v == 1.0));
    }
    assert!(model.is_runnable());
}

#[test]
fn cache_grows_by_one_row_per_token_and_resets() {
    let model = Model::random::<Native>(tiny_config(2), 8);
    let mut cache = KVCache::new(&model.config);
    model.forward::<Native>(&[1, 2, 3], &mut cache).unwrap();
    assert_eq!(cache.len, 3);
    for layer in &cache.layers {
        assert_eq!(layer.k.len(), 3 * 2 * 16);
        assert_eq!(layer.v.len(), 3 * 2 * 16);
    }
    cache.reset();
    assert_eq!(cache, KVCache::new(&model.config));
}

#[test]
fn length_limit_is_kept() {
    let mut config = tiny_config(4);
    config.max_seq_len = 3;
    let model = Model::random::<Native>(config, 9);
    let mut cache = KVCache::new(&model.config);
    assert!(matches!(
        model.forward::<Native>(&[1, 2, 3, 4], &mut cache),
        Err(MinqError::Model(ModelErrorOf::SequenceTooLong { max_seq_len: 3 }))
    ));
    assert_eq!(cache.len, 3);
    assert!(model.forward_full::<Native>(&[1, 2, 3]).is_ok());
    assert!(matches!(
        model.forward_full::<Native>(&[1, 2, 3, 4]),
        Err(MinqError::Model(ModelErrorOf::SequenceTooLong { max_seq_len: 3 }))
    ));
}

#[test]
fn bad_tokens_are_refused() {
    let model = Model::random::<Native>(tiny_config(4), 10);
    let mut cache = KVCache::new(&model.config);
    assert!(matches!(
        model.forward::<Native>(&[], &mut cache),
        Err(MinqError::Model(ModelErrorOf::EmptyTokens))
    ));
    assert!(matches!(
        model.forward::<Native>(&[128], &mut cache),
        Err(MinqError::Shape(ShapeErrorOf::RowOutOfBounds { row: 128, rows: 128 }))
    ));
    assert_eq!(cache, KVCache::new(&model.config));
    assert!(model.forward_full::<Native>(&[]).is_err());
}

#[test]
fn a_product_that_does_not_fit_is_refused() {
    let mut model = Model::random::<Native>(tiny_config(4), 11);
    model.layers[1].o = Linear::F32(Tensor::zeros(&[64, 60]));
    assert!(model.is_runnable());
    let mut cache = KVCache::new(&model.config);
    assert!(matches!(
        model.forward::<Native>(&[1], &mut cache),
        Err(MinqError::Shape(ShapeErrorOf::Matvec { len: 64, .. }))
    ));
    // The layers up to the one that failed have taken their keys and values.
    assert_eq!(cache.len, 0);
    assert_eq!(cache.layers[0].k.len(), 64);
    assert_eq!(cache.layers[1].k.len(), 64);
}

#[test]
fn unfitting_parts_are_not_runnable() {
    let mut model = Model::random::<Native>(tiny_config(4), 12);
    model.layers[0].attn_norm.pop();
    assert!(!model.is_runnable());
    let mut model = Model::random::<Native>(tiny_config(4), 12);
    model.config.n_kv_heads = 3;
    assert!(!model.is_runnable());
}

#[test]
fn sweep_is_causal() {
    let model = Model::random::<Native>(tiny_config(4), 13);
    let a = model.forward_full_states::<Native>(&[4, 5, 6, 7]).unwrap();
    let b = model.forward_full_states::<Native>(&[4, 5, 99]).unwrap();
    assert_eq!(a[0], b[0]);
    assert_eq!(a[1], b[1]);
    assert_ne!(a[2], b[2]);
}

#[test]
fn quantized_layers_run() {
    let mut model = Model::random::<Native>(tiny_config(2), 14);
    let reference = model.forward_full::<Native>(&[1, 2, 3]).unwrap();
    for layer in &mut model.layers {
        for w in [&mut layer.q, &mut layer.gate, &mut layer.down] {
            if let Linear::F32(t) = w {
                let q = QuantizedTensor::from_tensor::<Native>(t, QuantDtype::Q8_0).unwrap();
                *w = Linear::Quant(q);
            }
        }
    }
    assert!(model.is_runnable());
    let got = dec(&model.forward_full::<Native>(&[1, 2, 3]).unwrap());
    for (g, r) in got.iter().zip(dec(&reference)) {
        assert!((g - r).abs() < 0.1, "{g} vs {r}");
    }
}

#[test]
fn biases_are_added() {
    let mut model = Model::random::<Native>(tiny_config(2), 15);
    let plain = model.forward_full::<Native>(&[1, 2]).unwrap();
    model.layers[0].v_bias = Some(vec![0.5f32.to_bits(); 32]);
    assert!(model.is_runnable());
    let biased = model.forward_full::<Native>(&[1, 2]).unwrap();
    assert_ne!(plain, biased);
    let mut cache = KVCache::new(&model.config);
    assert_eq!(model.forward::<Native>(&[1, 2], &mut cache).unwrap(), biased);
}

#[test]
fn per_head_norm_normalizes_each_head() {
    let x = rand_vec(24, 16);
    let w = rand_vec(8, 17);
    let eps = 1e-6f32.to_bits();
    let mut got = enc(&x);
    apply_per_head_norm::<Native>(&mut got, &enc(&w), eps, 8);
    for h in 0..3 {
        let expected = rmsnorm::<Native>(&enc(&x[h * 8..h * 8 + 8]), &enc(&w), eps);
        assert_eq!(got[h * 8..h * 8 + 8], expected[..]);
    }
}

#[test]
fn rope_known_angle() {
    // Position 1, first pair: the angle is 1.
    let mut x = enc(&[1.0, 0.0, 0.0, 0.0]);
    apply_rope::<Native>(&mut x, 1, 1, 4, 10000.0f32.to_bits());
    assert_eq!(dec(&x), vec![1.0f32.cos(), 0.0, 1.0f32.sin(), 0.0]);
}

#[test]
fn shared_heads_match_a_copy_per_query_head() {
    // Two key/value heads for four query heads: each is repeated twice.
    let gqa = Model::random::<Native>(tiny_config(2), 43);
    let mut mha = gqa.clone();
    mha.config.n_kv_heads = 4;
    for (from, to) in gqa.layers.iter().zip(mha.layers.iter_mut()) {
        for (src, dst) in [(&from.k, &mut to.k), (&from.v, &mut to.v)] {
            if let (Linear::F32(t), Linear::F32(d)) = (src, dst) {
                let head = 16 * t.shape[1];
                let mut data = Vec::new();
                for h in [0, 0, 1, 1] {
                    data.extend_from_slice(&t.data[h * head..(h + 1) * head]);
                }
                *d = Tensor::new(data, vec![64, 64]).unwrap();
            }
        }
    }
    assert!(gqa.is_runnable() && mha.is_runnable());
    let tokens: Vec<u32> = vec![9, 8, 7, 6];
    let a = gqa.forward_full::<Native>(&tokens).unwrap();
    assert_eq!(a, mha.forward_full::<Native>(&tokens).unwrap());
}

#[test]
fn random_models_are_bounded_and_reproducible() {
    let model = Model::random::<Native>(tiny_config(2), 17);
    let again = Model::random::<Native>(tiny_config(2), 17);
    assert_eq!(model.embed, again.embed);
    assert_eq!(model.rope, again.rope);
    let tokens: Vec<u32> = vec![3, 1, 2];
    assert_eq!(
        model.forward_full::<Native>(&tokens).unwrap(),
        again.forward_full::<Native>(&tokens).unwrap()
    );
    assert_ne!(model.embed, Model::random::<Native>(tiny_config(2), 18).embed);
    assert!(dec(&model.embed.data).iter().all(|w| w.abs() <= 0.125));
    assert_eq!(model.rope.half, 8);
    assert_eq!((model.rope.cos.len(), model.rope.sin.len()), (64 * 8, 64 * 8));
}

#[test]
fn a_refused_call_leaves_the_cache() {
    let model = Model::random::<Native>(tiny_config(2), 9);
    let mut cache = KVCache::new(&model.config);
    model.forward::<Native>(&[1, 2], &mut cache).unwrap();
    let before = cache.clone();
    assert!(model.forward::<Native>(&[], &mut cache).is_err());
    assert!(model.forward::<Native>(&[500], &mut cache).is_err());
    assert_eq!(cache, before);
    // The tokens before the failing one are taken in.
    assert!(model.forward::<Native>(&[3, 500, 4], &mut cache).is_err());
    assert_eq!(cache.len, 3);
    assert!(model.forward::<Native>(&[1; 70], &mut cache).is_err());
    assert_eq!(cache.len, 64);
}
