use minq::arith::Arith;
use minq::error::{ModelErrorOf, ShapeErrorOf};
use minq::model::{Linear, Model, ModelConfig};
use minq::ppl::{can_score, eval_ppl, nll};
use minq::tensor::Tensor;
use minq::MinqError;

/// The machine's own floating point.
struct Native;

impl Arith for Native {
    fn add32(a: u32, b: u32) -> u32 {
        (f32::from_bits(a) + f32::from_bits(b)).to_bits()
    }
    fn sub32(a: u32, b: u32) -> u32 {
        (f32::from_bits(a) - f32::from_bits(b)).to_bits()
    }
    fn mul32(a: u32, b: u32) -> u32 {
        (f32::from_bits(a) * f32::from_bits(b)).to_bits()
    }
    fn div32(a: u32, b: u32) -> u32 {
        (f32::from_bits(a) / f32::from_bits(b)).to_bits()
    }
    fn sqrt32(a: u32) -> u32 {
        f32::from_bits(a).sqrt().to_bits()
    }
    fn exp32(a: u32) -> u32 {
        f32::from_bits(a).exp().to_bits()
    }
    fn pow32(base: u32, exponent: u32) -> u32 {
        f32::from_bits(base).powf(f32::from_bits(exponent)).to_bits()
    }
    fn sin32(a: u32) -> u32 {
        f32::from_bits(a).sin().to_bits()
    }
    fn cos32(a: u32) -> u32 {
        f32::from_bits(a).cos().to_bits()
    }
    fn count32(n: usize) -> u32 {
        (n as f32).to_bits()
    }
    fn int32(n: i32) -> u32 {
        (n as f32).to_bits()
    }
    fn narrow(a: u64) -> u32 {
        (f64::from_bits(a) as f32).to_bits()
    }
    fn widen(a: u32) -> u64 {
        (f32::from_bits(a) as f64).to_bits()
    }
    fn add64(a: u64, b: u64) -> u64 {
        (f64::from_bits(a) + f64::from_bits(b)).to_bits()
    }
    fn sub64(a: u64, b: u64) -> u64 {
        (f64::from_bits(a) - f64::from_bits(b)).to_bits()
    }
    fn div64(a: u64, b: u64) -> u64 {
        (f64::from_bits(a) / f64::from_bits(b)).to_bits()
    }
    fn exp64(a: u64) -> u64 {
        f64::from_bits(a).exp().to_bits()
    }
    fn ln64(a: u64) -> u64 {
        f64::from_bits(a).ln().to_bits()
    }
    fn count64(n: usize) -> u64 {
        (n as f64).to_bits()
    }
}

/// Tiny 2-layer config (dim 64, vocab 128).
fn tiny_config(n_kv_heads: usize) -> ModelConfig {
    ModelConfig {
        hidden_size: 64,
        intermediate_size: 128,
        n_layers: 2,
        n_heads: 4,
        n_kv_heads,
        head_dim: 16,
        vocab_size: 128,
        max_seq_len: 64,
        rope_theta: 10000.0f32.to_bits(),
        rms_norm_eps: 1e-5f32.to_bits(),
        has_qkv_bias: false,
        dtype: "f32".to_string(),
    }
}

/// Deterministic pseudo-random token ids in the tiny vocab (128).
fn token_seq(n: usize) -> Vec<u32> {
    (0..n).map(|i| ((i * 37 + 11) % 128) as u32).collect()
}

#[test]
fn ppl_is_finite_and_at_least_one() {
    let model = Model::random::<Native>(tiny_config(4), 5);
    let tokens = token_seq(40);
    let r = eval_ppl::<Native, _>(&model, &tokens, 16, |_, _, _| {}).unwrap();
    // Windows are 16/16/8 tokens -> 14 + 14 + 6 scored positions.
    assert_eq!(r.total_tokens, 40);
    assert_eq!(r.scored_positions, 34);
    let ppl = f64::from_bits(r.ppl);
    let mean_nll = f64::from_bits(r.mean_nll);
    assert!(ppl.is_finite(), "ppl must be finite, got {}", ppl);
    assert!(ppl >= 1.0, "ppl must be >= 1, got {}", ppl);
    assert!((ppl - mean_nll.exp()).abs() < 1e-9);
}

#[test]
fn ppl_is_similar_across_context_sizes() {
    // Same text, same convention: window size must not change the order
    // of magnitude of the result (positions scored differ slightly at
    // window boundaries, so exact equality is not expected).
    let model = Model::random::<Native>(tiny_config(4), 6);
    let tokens = token_seq(96);
    let ppl = |context: usize| {
        f64::from_bits(eval_ppl::<Native, _>(&model, &tokens, context, |_, _, _| {}).unwrap().ppl)
    };
    let p16 = ppl(16);
    let p32 = ppl(32);
    let p64 = ppl(64);
    for (a, b) in [(p16, p32), (p32, p64), (p16, p64)] {
        let ratio = a / b;
        assert!(
            (0.5..=2.0).contains(&ratio),
            "ppl ratio {ratio} out of range ({a} vs {b})"
        );
    }
}

#[test]
fn ppl_handles_uneven_final_window() {
    // 33 tokens with context 16 -> windows of 16, 16 and 1 token; the
    // 1-token tail has no scorable position and must not panic.
    let model = Model::random::<Native>(tiny_config(4), 7);
    let tokens = token_seq(33);
    let r = eval_ppl::<Native, _>(&model, &tokens, 16, |_, _, _| {}).unwrap();
    assert_eq!(r.scored_positions, 14 + 14);
    let ppl = f64::from_bits(r.ppl);
    assert!(ppl.is_finite() && ppl >= 1.0);
}

#[test]
fn arguments_are_checked_in_order() {
    let model = Model::random::<Native>(tiny_config(4), 8);
    let run = |n: usize, context: usize| {
        eval_ppl::<Native, _>(&model, &token_seq(n), context, |_, _, _| {})
    };
    assert!(matches!(run(2, 2), Err(MinqError::Model(ModelErrorOf::TooFewTokens { len: 2 }))));
    assert!(matches!(
        run(3, 2),
        Err(MinqError::Model(ModelErrorOf::ContextTooShort { context: 2 }))
    ));
    assert!(matches!(
        run(3, 65),
        Err(MinqError::Model(ModelErrorOf::ContextTooLong { context: 65, max_seq_len: 64 }))
    ));
    assert_eq!(run(3, 64).unwrap().scored_positions, 1);
}

#[test]
fn unknown_tokens_are_refused() {
    let model = Model::random::<Native>(tiny_config(4), 9);
    let result = eval_ppl::<Native, _>(&model, &[1, 2, 300], 3, |_, _, _| {});
    assert!(matches!(
        result,
        Err(MinqError::Shape(ShapeErrorOf::RowOutOfBounds { row: 300, rows: 128 }))
    ));
}

#[test]
fn nll_known_result() {
    // Two equal logits: each has probability one half.
    let logits = [3.0f32.to_bits(), 3.0f32.to_bits()];
    let got = f64::from_bits(nll::<Native>(&logits, 1));
    assert!((got - 2.0f64.ln()).abs() < 1e-12);
}

#[test]
fn scored_positions_are_summed_by_hand() {
    let model = Model::random::<Native>(tiny_config(4), 10);
    let tokens = token_seq(7);
    let mut windows = Vec::new();
    let r = eval_ppl::<Native, _>(&model, &tokens, 4, |done, total, ppl| {
        windows.push((done, total, f64::from_bits(ppl)));
    })
    .unwrap();
    // Windows of 4 and 3 tokens score positions 1, 2 and 1.
    let mut sum = 0.0f64;
    for (window, positions) in [(&tokens[..4], 2usize), (&tokens[4..], 1)] {
        for t in 1..=positions {
            let logits = model.forward_full::<Native>(&window[..t + 1]).unwrap();
            sum += f64::from_bits(nll::<Native>(&logits, window[t + 1]));
        }
    }
    assert_eq!(r.scored_positions, 3);
    assert_eq!(f64::from_bits(r.mean_nll), sum / 3.0);
    assert_eq!(f64::from_bits(r.ppl), (sum / 3.0).exp());
    assert_eq!(windows.len(), 2);
    assert_eq!((windows[0].0, windows[0].1), (1, 2));
    assert_eq!(windows[1].2, (sum / 3.0).exp());
}

#[test]
fn tokens_that_are_not_scored_need_no_logit() {
    let mut model = Model::random::<Native>(tiny_config(4), 11);
    let head = match &model.lm_head {
        Linear::F32(t) => t.data[..100 * 64].to_vec(),
        Linear::Quant(_) => panic!("dense expected"),
    };
    model.lm_head = Linear::F32(Tensor::new(head, vec![100, 64]).unwrap());
    assert!(can_score(&model, &[120, 121, 5, 6], 4));
    assert!(!can_score(&model, &[120, 121, 5, 120], 4));
    // A window that is refused ends the scoring, and so do arguments that are.
    assert!(can_score(&model, &[1, 2, 3, 4000, 5, 6, 120], 4));
    assert!(can_score(&model, &[120, 121, 5, 120], 2));
    let r = eval_ppl::<Native, _>(&model, &[120, 121, 5, 6], 4, |_, _, _| {}).unwrap();
    assert_eq!(r.scored_positions, 2);
}

#[test]
fn every_window_is_told_with_the_perplexity_so_far() {
    let model = Model::random::<Native>(tiny_config(2), 12);
    let tokens = token_seq(33);
    let mut told = Vec::new();
    let r = eval_ppl::<Native, _>(&model, &tokens, 16, |done, total, ppl| {
        told.push((done, total, ppl));
    })
    .unwrap();
    let upto = |n: usize| eval_ppl::<Native, _>(&model, &tokens[..n], 16, |_, _, _| {}).unwrap().ppl;
    assert_eq!(told, vec![(1, 3, upto(16)), (2, 3, upto(32)), (3, 3, r.ppl)]);

    // A window that cannot be scored ends the reports.
    let mut bad = tokens.clone();
    bad[20] = 4000;
    let mut seen = 0;
    let result = eval_ppl::<Native, _>(&model, &bad, 16, |_, _, _| seen += 1);
    assert!(result.is_err());
    assert_eq!(seen, 1);
}

#[test]
fn nothing_is_told_where_the_input_is_refused() {
    let model = Model::random::<Native>(tiny_config(4), 8);
    for (n, context) in [(2usize, 16usize), (3, 2), (3, 65), (0, 0)] {
        let mut seen = 0;
        let result = eval_ppl::<Native, _>(&model, &token_seq(n), context, |_, _, _| seen += 1);
        assert!(matches!(result, Err(MinqError::Model(_))));
        assert_eq!(seen, 0);
    }
}

#[test]
fn likelihoods_are_not_negative() {
    let logits: Vec<u32> = [80.0f32, -80.0, 0.0, 3.5, 80.0].iter().map(|v| v.to_bits()).collect();
    for target in 0..5 {
        assert!(f64::from_bits(nll::<Native>(&logits, target)) >= 0.0);
    }
    // One logit alone is certain.
    assert_eq!(f64::from_bits(nll::<Native>(&logits[..1], 0)), 0.0);
}
