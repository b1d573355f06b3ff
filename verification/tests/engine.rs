use minq::arith::Arith;
use minq::engine::{Engine, GenStats};
use minq::error::ModelErrorOf;
use minq::model::{KVCache, Model, ModelConfig};
use minq::sampler::{argmax, Sampler};
use minq::MinqError;

/// The machine's own floating point.
struct Native;

impl Arith for Native {
    fn add32(a: u32, b: u32) -> u32 {
        (f32::from_bits(a) + f32::from_bits(b)).to_bits()
    }
    fn sub32(a: u32, b: u32) -> u32 {
        (f32::from_bits(a) - f32::from_bits(b)).to_bits()
    }
    fn mul32(a: u32, b: u32) -> u32 {
        (f32::from_bits(a) * f32::from_bits(b)).to_bits()
    }
    fn div32(a: u32, b: u32) -> u32 {
        (f32::from_bits(a) / f32::from_bits(b)).to_bits()
    }
    fn sqrt32(a: u32) -> u32 {
        f32::from_bits(a).sqrt().to_bits()
    }
    fn exp32(a: u32) -> u32 {
        f32::from_bits(a).exp().to_bits()
    }
    fn pow32(base: u32, exponent: u32) -> u32 {
        f32::from_bits(base).powf(f32::from_bits(exponent)).to_bits()
    }
    fn sin32(a: u32) -> u32 {
        f32::from_bits(a).sin().to_bits()
    }
    fn cos32(a: u32) -> u32 {
        f32::from_bits(a).cos().to_bits()
    }
    fn count32(n: usize) -> u32 {
        (n as f32).to_bits()
    }
    fn int32(n: i32) -> u32 {
        (n as f32).to_bits()
    }
    fn narrow(a: u64) -> u32 {
        (f64::from_bits(a) as f32).to_bits()
    }
    fn widen(a: u32) -> u64 {
        (f32::from_bits(a) as f64).to_bits()
    }
    fn add64(a: u64, b: u64) -> u64 {
        (f64::from_bits(a) + f64::from_bits(b)).to_bits()
    }
    fn sub64(a: u64, b: u64) -> u64 {
        (f64::from_bits(a) - f64::from_bits(b)).to_bits()
    }
    fn div64(a: u64, b: u64) -> u64 {
        (f64::from_bits(a) / f64::from_bits(b)).to_bits()
    }
    fn exp64(a: u64) -> u64 {
        f64::from_bits(a).exp().to_bits()
    }
    fn ln64(a: u64) -> u64 {
        f64::from_bits(a).ln().to_bits()
    }
    fn count64(n: usize) -> u64 {
        (n as f64).to_bits()
    }
}

/// Tiny 2-layer config (dim 64, vocab 128).
fn tiny_config(n_kv_heads: usize) -> ModelConfig {
    ModelConfig {
        hidden_size: 64,
        intermediate_size: 128,
        n_layers: 2,
        n_heads: 4,
        n_kv_heads,
        head_dim: 16,
        vocab_size: 128,
        max_seq_len: 64,
        rope_theta: 10000.0f32.to_bits(),
        rms_norm_eps: 1e-5f32.to_bits(),
        has_qkv_bias: false,
        dtype: "f32".to_string(),
    }
}

#[test]
fn greedy_generation_is_deterministic() {
    // End-to-end: a randomly initialized 2-layer model (dim 64, vocab 128)
    // must produce identical token sequences across two identical runs.
    let prompt: Vec<u32> = vec![1, 2, 3];
    let run = || {
        let model = Model::random::<Native>(tiny_config(4), 1);
        let sampler = Sampler::new(0.0f32.to_bits(), 0, 1.0f32.to_bits(), 99);
        let mut engine = Engine::new(model, sampler);
        let mut out = Vec::new();
        let stats = engine
            .generate::<Native, _>(&prompt, 16, |t| {
                out.push(t);
                Ok(())
            })
            .expect("generation failed");
        assert_eq!(stats.gen_tokens, 16);
        out
    };
    assert_eq!(run(), run());
}

#[test]
fn rejects_empty_prompt() {
    let model = Model::random::<Native>(tiny_config(2), 5);
    let mut engine = Engine::new(model, Sampler::greedy());
    let result = engine.generate::<Native, _>(&[], 4, |_| Ok(()));
    assert!(result.is_err());
    assert!(matches!(result, Err(MinqError::Model(ModelErrorOf::EmptyPrompt))));
}

#[test]
fn callback_errors_abort_generation() {
    let model = Model::random::<Native>(tiny_config(2), 6);
    let mut engine = Engine::new(model, Sampler::greedy());
    let mut seen = 0;
    let result = engine.generate::<Native, _>(&[1, 2], 8, |_| {
        seen += 1;
        if seen == 2 {
            return Err(MinqError::Model(ModelErrorOf::Other {
                message: "sink closed".to_string(),
            }));
        }
        Ok(())
    });
    assert!(result.is_err());
    assert_eq!(seen, 2);
    match result {
        Err(MinqError::Model(ModelErrorOf::Other { message })) => assert_eq!(message, "sink closed"),
        other => panic!("unexpected {other:?}"),
    }
}

fn generate(seed: u64, stop: Vec<u32>, max: usize) -> (Vec<u32>, GenStats) {
    let model = Model::random::<Native>(tiny_config(4), 21);
    let sampler = Sampler::new(0.9f32.to_bits(), 20, 0.95f32.to_bits(), seed);
    let mut engine = Engine::new(model, sampler);
    engine.stop_tokens = stop;
    let mut out = Vec::new();
    let stats = engine
        .generate::<Native, _>(&[7, 8], max, |t| {
            out.push(t);
            Ok(())
        })
        .unwrap();
    (out, stats)
}

#[test]
fn a_stop_token_is_reported_and_counted() {
    let (free, _) = generate(4, Vec::new(), 20);
    assert_eq!(free.len(), 20);
    let stop = free[7];
    let first = free.iter().position(|t| *t == stop).unwrap();
    let (stopped, stats) = generate(4, vec![stop], 20);
    assert_eq!(stopped, free[..first + 1]);
    assert_eq!(stats.gen_tokens, first + 1);
    assert_eq!(stats.prompt_tokens, 2);
}

#[test]
fn sampled_generation_is_reproducible() {
    assert_eq!(generate(11, Vec::new(), 24).0, generate(11, Vec::new(), 24).0);
}

#[test]
fn no_tokens_are_generated_when_none_are_asked_for() {
    let (out, stats) = generate(1, Vec::new(), 0);
    assert!(out.is_empty());
    assert_eq!(stats.gen_tokens, 0);
}

#[test]
fn generation_ends_with_the_context() {
    let mut config = tiny_config(4);
    config.max_seq_len = 5;
    let model = Model::random::<Native>(config, 3);
    let mut engine = Engine::new(model, Sampler::greedy());
    let mut seen = 0;
    let result = engine.generate::<Native, _>(&[1, 2], 10, |_| {
        seen += 1;
        Ok(())
    });
    // Three tokens fit; the fourth is reported and then cannot be taken in.
    assert_eq!(seen, 4);
    assert!(matches!(
        result,
        Err(MinqError::Model(ModelErrorOf::SequenceTooLong { max_seq_len: 5 }))
    ));
}

#[test]
fn rates_are_tokens_over_seconds() {
    let stats = GenStats {
        prompt_tokens: 10,
        gen_tokens: 3,
        prefill_secs: 2.0f64.to_bits(),
        decode_secs: 0.0f64.to_bits(),
    };
    assert_eq!(f64::from_bits(stats.prefill_tokens_per_sec::<Native>()), 5.0);
    // No time at all counts as a nanosecond.
    assert_eq!(f64::from_bits(stats.decode_tokens_per_sec::<Native>()), 3.0 / 1e-9);
}

#[test]
fn times_are_measured() {
    let (_, stats) = generate(2, Vec::new(), 4);
    let prefill = f64::from_bits(stats.prefill_secs);
    let decode = f64::from_bits(stats.decode_secs);
    assert!(prefill > 0.0 && prefill < 20.0);
    assert!(decode > 0.0 && decode < 20.0);
}

#[test]
fn a_generation_that_fits_the_context_succeeds() {
    let mut config = tiny_config(4);
    config.max_seq_len = 5;
    for (max, seen_expected) in [(3usize, 3usize), (4, 4), (9, 4)] {
        let model = Model::random::<Native>(config.clone(), 3);
        let mut engine = Engine::new(model, Sampler::greedy());
        let mut seen = 0;
        let result = engine.generate::<Native, _>(&[1, 2], max, |_| {
            seen += 1;
            Ok(())
        });
        assert_eq!(result.is_ok(), max == 3);
        assert_eq!(seen, seen_expected);
    }
    let model = Model::random::<Native>(config, 3);
    let mut engine = Engine::new(model, Sampler::greedy());
    let result = engine.generate::<Native, _>(&[1, 2, 3, 4, 5, 6], 1, |_| {
        panic!("nothing can be reported")
    });
    assert!(matches!(
        result,
        Err(MinqError::Model(ModelErrorOf::SequenceTooLong { max_seq_len: 5 }))
    ));
}

#[test]
fn nothing_is_reported_where_the_prompt_is_refused() {
    let mut config = tiny_config(2);
    config.max_seq_len = 3;
    let prompts: [&[u32]; 3] = [&[], &[1, 2, 3, 4], &[1, 128]];
    for prompt in prompts {
        let model = Model::random::<Native>(config.clone(), 5);
        let mut engine = Engine::new(model, Sampler::greedy());
        let mut seen = 0;
        let result = engine.generate::<Native, _>(prompt, 4, |_| {
            seen += 1;
            Ok(())
        });
        assert!(result.is_err());
        assert_eq!(seen, 0);
    }
}

#[test]
fn greedy_tokens_are_the_largest_logits_of_the_text_so_far() {
    let prompt: Vec<u32> = vec![1, 2, 3];
    let model = Model::random::<Native>(tiny_config(2), 17);
    let mut engine = Engine::new(model, Sampler::greedy());
    let mut out = Vec::new();
    engine
        .generate::<Native, _>(&prompt, 12, |t| {
            out.push(t);
            Ok(())
        })
        .unwrap();
    for i in 0..out.len() {
        let text = [&prompt, &out[..i]].concat();
        let mut cache = KVCache::new(&engine.model.config);
        let logits = engine.model.forward::<Native>(&text, &mut cache).unwrap();
        assert_eq!(out[i], argmax(&logits));
    }
}

#[test]
fn sampled_tokens_are_drawn_from_the_text_so_far() {
    let (out, _) = generate(5, Vec::new(), 8);
    let model = Model::random::<Native>(tiny_config(4), 21);
    let mut sampler = Sampler::new(0.9f32.to_bits(), 20, 0.95f32.to_bits(), 5);
    for i in 0..out.len() {
        let text = [&[7, 8], &out[..i]].concat();
        let mut cache = KVCache::new(&model.config);
        let logits = model.forward::<Native>(&text, &mut cache).unwrap();
        assert_eq!(out[i], sampler.sample::<Native>(&logits));
    }
}

#[test]
fn a_refused_token_has_used_its_random_word() {
    let logits: Vec<u32> = (0..128).map(|i| ((i * 7 % 128) as f32 * 0.01).to_bits()).collect();
    let next = |sampler: &mut Sampler| -> Vec<u32> {
        (0..10).map(|_| sampler.sample::<Native>(&logits)).collect()
    };
    for refused in [0usize, 1, 4] {
        let model = Model::random::<Native>(tiny_config(4), 21);
        let sampler = Sampler::new(0.9f32.to_bits(), 0, 1.0f32.to_bits(), 8);
        let mut reference = sampler.clone();
        let mut engine = Engine::new(model, sampler);
        let mut seen = 0;
        let result = engine.generate::<Native, _>(&[7, 8], 9, |_| {
            seen += 1;
            if seen > refused {
                return Err(MinqError::Model(ModelErrorOf::EmptyTokens));
            }
            Ok(())
        });
        assert!(matches!(result, Err(MinqError::Model(ModelErrorOf::EmptyTokens))));
        for _ in 0..refused + 1 {
            reference.sample::<Native>(&logits);
        }
        assert_eq!(next(&mut engine.sampler), next(&mut reference));
    }
}
