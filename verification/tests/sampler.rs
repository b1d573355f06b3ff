use minq::arith::Arith;
use minq::rng::{random_prompt, uniform};
use minq::sampler::{argmax, Sampler};
use rand::rngs::StdRng;
use rand::{Rng, SeedableRng};

/// The machine's own floating point.
struct Native;

impl Arith for Native {
    fn add32(a: u32, b: u32) -> u32 {
        (f32::from_bits(a) + f32::from_bits(b)).to_bits()
    }
    fn sub32(a: u32, b: u32) -> u32 {
        (f32::from_bits(a) - f32::from_bits(b)).to_bits()
    }
    fn mul32(a: u32, b: u32) -> u32 {
        (f32::from_bits(a) * f32::from_bits(b)).to_bits()
    }
    fn div32(a: u32, b: u32) -> u32 {
        (f32::from_bits(a) / f32::from_bits(b)).to_bits()
    }
    fn sqrt32(a: u32) -> u32 {
        f32::from_bits(a).sqrt().to_bits()
    }
    fn exp32(a: u32) -> u32 {
        f32::from_bits(a).exp().to_bits()
    }
    fn pow32(base: u32, exponent: u32) -> u32 {
        f32::from_bits(base).powf(f32::from_bits(exponent)).to_bits()
    }
    fn sin32(a: u32) -> u32 {
        f32::from_bits(a).sin().to_bits()
    }
    fn cos32(a: u32) -> u32 {
        f32::from_bits(a).cos().to_bits()
    }
    fn count32(n: usize) -> u32 {
        (n as f32).to_bits()
    }
    fn int32(n: i32) -> u32 {
        (n as f32).to_bits()
    }
    fn narrow(a: u64) -> u32 {
        (f64::from_bits(a) as f32).to_bits()
    }
    fn widen(a: u32) -> u64 {
        (f32::from_bits(a) as f64).to_bits()
    }
    fn add64(a: u64, b: u64) -> u64 {
        (f64::from_bits(a) + f64::from_bits(b)).to_bits()
    }
    fn sub64(a: u64, b: u64) -> u64 {
        (f64::from_bits(a) - f64::from_bits(b)).to_bits()
    }
    fn div64(a: u64, b: u64) -> u64 {
        (f64::from_bits(a) / f64::from_bits(b)).to_bits()
    }
    fn exp64(a: u64) -> u64 {
        f64::from_bits(a).exp().to_bits()
    }
    fn ln64(a: u64) -> u64 {
        f64::from_bits(a).ln().to_bits()
    }
    fn count64(n: usize) -> u64 {
        (n as f64).to_bits()
    }
}

fn enc(values: &[f32]) -> Vec<u32> {
    values.iter().map(|v| v.to_bits()).collect()
}

fn dec(bits: &[u32]) -> Vec<f32> {
    bits.iter().map(|b| f32::from_bits(*b)).collect()
}

fn sampler(temperature: f32, top_k: usize, top_p: f32, seed: u64) -> Sampler {
    Sampler::new(temperature.to_bits(), top_k, top_p.to_bits(), seed)
}

fn rand_logits(n: usize, seed: u64) -> Vec<u32> {
    let mut rng = StdRng::seed_from_u64(seed);
    (0..n).map(|_| ((rng.gen::<f32>() - 0.5) * 20.0).to_bits()).collect()
}

#[test]
fn top_k_1_equals_greedy() {
    let logits = rand_logits(128, 1);
    let mut s = sampler(1.0, 1, 1.0, 123);
    assert_eq!(s.sample::<Native>(&logits), argmax(&logits));
}

#[test]
fn temperature_zero_equals_greedy() {
    let logits = rand_logits(128, 2);
    let mut s = sampler(0.0, 0, 1.0, 123);
    assert_eq!(s.sample::<Native>(&logits), argmax(&logits));
}

#[test]
fn sampling_is_reproducible_for_same_seed() {
    let logits = rand_logits(256, 3);
    let mut a = sampler(0.8, 40, 0.9, 42);
    let mut b = sampler(0.8, 40, 0.9, 42);
    let seq_a: Vec<u32> = (0..32).map(|_| a.sample::<Native>(&logits)).collect();
    let seq_b: Vec<u32> = (0..32).map(|_| b.sample::<Native>(&logits)).collect();
    assert_eq!(seq_a, seq_b);
}

#[test]
fn samples_are_within_vocabulary() {
    let logits = rand_logits(50, 4);
    let mut s = sampler(1.0, 0, 1.0, 7);
    for _ in 0..64 {
        assert!((s.sample::<Native>(&logits) as usize) < logits.len());
    }
}

#[test]
fn top_p_keeps_at_least_one_candidate() {
    // Degenerate logits: one token dominates; top-p must still return it.
    let mut logits = vec![-100.0f32; 32];
    logits[5] = 100.0;
    let mut s = sampler(1.0, 0, 0.5, 9);
    assert_eq!(s.sample::<Native>(&enc(&logits)), 5);
}

#[test]
fn argmax_resolves_ties_to_the_lowest_index() {
    assert_eq!(argmax(&enc(&[1.0, 3.0, 2.0, 3.0])), 1);
    assert_eq!(argmax(&[]), 0);
    // In the total order a positive zero is larger than a negative one, and a
    // positive NaN larger than everything.
    assert_eq!(argmax(&enc(&[-0.0, 0.0])), 1);
    assert_eq!(argmax(&enc(&[f32::INFINITY, f32::NAN])), 1);
}

#[test]
fn sampling_nothing_gives_zero() {
    assert_eq!(sampler(1.0, 0, 1.0, 1).sample::<Native>(&[]), 0);
}

#[test]
fn greedy_sampler_takes_the_largest() {
    let logits = rand_logits(64, 5);
    assert_eq!(Sampler::greedy().sample::<Native>(&logits), argmax(&logits));
}

#[test]
fn top_k_keeps_the_largest() {
    let logits = enc(&[5.0, 4.9, 0.0, 0.1, 0.2]);
    let mut s = sampler(1.0, 2, 1.0, 11);
    for _ in 0..64 {
        assert!(s.sample::<Native>(&logits) < 2);
    }
}

#[test]
fn a_draw_walks_the_distribution() {
    let s = sampler(1.0, 0, 1.0, 0);
    let probs = enc(&[0.25, 0.5, 0.25]);
    assert_eq!(s.draw::<Native>(&probs, 0.2f32.to_bits()), 0);
    assert_eq!(s.draw::<Native>(&probs, 0.25f32.to_bits()), 0);
    assert_eq!(s.draw::<Native>(&probs, 0.5f32.to_bits()), 1);
    assert_eq!(s.draw::<Native>(&probs, 0.9f32.to_bits()), 2);
}

#[test]
fn a_filtered_draw_walks_the_ranking() {
    // Candidates 1 and 2 (0.5 and 0.3) reach 0.75; their mass is 0.8.
    let s = sampler(1.0, 0, 0.75, 0);
    let probs = enc(&[0.1, 0.5, 0.3, 0.1]);
    assert_eq!(s.draw::<Native>(&probs, 0.0f32.to_bits()), 1);
    assert_eq!(s.draw::<Native>(&probs, 0.6f32.to_bits()), 1);
    assert_eq!(s.draw::<Native>(&probs, 0.7f32.to_bits()), 2);
    assert_eq!(s.draw::<Native>(&probs, 0.99f32.to_bits()), 2);
}

#[test]
fn samples_follow_the_generator() {
    // The number drawn is the one that the generator gives.
    let mut rng = StdRng::seed_from_u64(77);
    let logits = rand_logits(16, 6);
    let mut probs: Vec<f32> = dec(&logits);
    let max = probs.iter().copied().fold(f32::NEG_INFINITY, f32::max);
    let mut sum = 0.0f32;
    for p in probs.iter_mut() {
        *p = (*p - max).exp();
        sum += *p;
    }
    for p in probs.iter_mut() {
        *p /= sum;
    }
    let mut s = sampler(1.0, 0, 1.0, 77);
    for _ in 0..32 {
        let mut r = rng.gen::<f32>();
        let mut expected = probs.len() - 1;
        for (i, p) in probs.iter().enumerate() {
            r -= p;
            if r <= 0.0 {
                expected = i;
                break;
            }
        }
        assert_eq!(s.sample::<Native>(&logits) as usize, expected);
    }
}

#[test]
fn clones_draw_the_same_tokens() {
    let logits = rand_logits(100, 8);
    let mut a = sampler(1.0, 10, 0.9, 5);
    a.sample::<Native>(&logits);
    let mut b = a.clone();
    for _ in 0..16 {
        assert_eq!(a.sample::<Native>(&logits), b.sample::<Native>(&logits));
    }
}

#[test]
fn uniform_is_the_upper_bits_of_a_word() {
    for seed in 0..64u64 {
        let word: u32 = StdRng::seed_from_u64(seed).gen();
        let expected: f32 = StdRng::seed_from_u64(seed).gen();
        assert_eq!(f32::from_bits(uniform(word)), expected);
    }
    assert_eq!(f32::from_bits(uniform(0)), 0.0);
    assert_eq!(f32::from_bits(uniform(256)), 1.0 / 16777216.0);
    assert_eq!(f32::from_bits(uniform(u32::MAX)), 16777215.0 / 16777216.0);
}

#[test]
fn random_prompts_follow_the_generator() {
    let mut rng = StdRng::seed_from_u64(0);
    let expected: Vec<u32> = (0..128).map(|_| rng.gen_range(0..1000u32)).collect();
    assert_eq!(random_prompt(0, 128, 1000), expected);
    assert_eq!(random_prompt(3, 0, 0), Vec::<u32>::new());
}
