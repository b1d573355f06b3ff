use minq::arith::Arith;
use minq::error::{FormatErrorOf, ShapeErrorOf};
use minq::quantize::{
    dequantize_q4_0, dequantize_q8_0, matvec_row_q4_0, matvec_row_q8_0, quantize_q4_0,
    quantize_q8_0, read_f32_le, QuantDtype, QuantizedTensor,
};
use minq::tensor::{matvec, Tensor};
use minq::MinqError;
use rand::rngs::StdRng;
use rand::{Rng, SeedableRng};

/// The machine's own floating point.
struct Native;

impl Arith for Native {
    fn add32(a: u32, b: u32) -> u32 {
        (f32::from_bits(a) + f32::from_bits(b)).to_bits()
    }
    fn sub32(a: u32, b: u32) -> u32 {
        (f32::from_bits(a) - f32::from_bits(b)).to_bits()
    }
    fn mul32(a: u32, b: u32) -> u32 {
        (f32::from_bits(a) * f32::from_bits(b)).to_bits()
    }
    fn div32(a: u32, b: u32) -> u32 {
        (f32::from_bits(a) / f32::from_bits(b)).to_bits()
    }
    fn sqrt32(a: u32) -> u32 {
        f32::from_bits(a).sqrt().to_bits()
    }
    fn exp32(a: u32) -> u32 {
        f32::from_bits(a).exp().to_bits()
    }
    fn pow32(base: u32, exponent: u32) -> u32 {
        f32::from_bits(base).powf(f32::from_bits(exponent)).to_bits()
    }
    fn sin32(a: u32) -> u32 {
        f32::from_bits(a).sin().to_bits()
    }
    fn cos32(a: u32) -> u32 {
        f32::from_bits(a).cos().to_bits()
    }
    fn count32(n: usize) -> u32 {
        (n as f32).to_bits()
    }
    fn int32(n: i32) -> u32 {
        (n as f32).to_bits()
    }
    fn narrow(a: u64) -> u32 {
        (f64::from_bits(a) as f32).to_bits()
    }
    fn widen(a: u32) -> u64 {
        (f32::from_bits(a) as f64).to_bits()
    }
    fn add64(a: u64, b: u64) -> u64 {
        (f64::from_bits(a) + f64::from_bits(b)).to_bits()
    }
    fn sub64(a: u64, b: u64) -> u64 {
        (f64::from_bits(a) - f64::from_bits(b)).to_bits()
    }
    fn div64(a: u64, b: u64) -> u64 {
        (f64::from_bits(a) / f64::from_bits(b)).to_bits()
    }
    fn exp64(a: u64) -> u64 {
        f64::from_bits(a).exp().to_bits()
    }
    fn ln64(a: u64) -> u64 {
        f64::from_bits(a).ln().to_bits()
    }
    fn count64(n: usize) -> u64 {
        (n as f64).to_bits()
    }
}

fn enc(values: &[f32]) -> Vec<u32> {
    values.iter().map(|v| v.to_bits()).collect()
}

fn dec(bits: &[u32]) -> Vec<f32> {
    bits.iter().map(|b| f32::from_bits(*b)).collect()
}

fn rand_vec(n: usize, seed: u64) -> Vec<f32> {
    let mut rng = StdRng::seed_from_u64(seed);
    (0..n).map(|_| (rng.gen::<f32>() - 0.5) * 2.0).collect()
}

fn rel_err(a: &[f32], b: &[f32]) -> f32 {
    let err: f32 = a.iter().zip(b).map(|(x, y)| (x - y).powi(2)).sum();
    let mag: f32 = a.iter().map(|x| x * x).sum();
    (err / mag).sqrt()
}

fn roundtrip_q8(x: &[f32]) -> Vec<f32> {
    let bytes = quantize_q8_0::<Native>(&enc(x)).unwrap();
    let mut out = vec![0u32; x.len()];
    dequantize_q8_0::<Native>(&bytes, &mut out).unwrap();
    dec(&out)
}

fn roundtrip_q4(x: &[f32]) -> Vec<f32> {
    let bytes = quantize_q4_0::<Native>(&enc(x)).unwrap();
    let mut out = vec![0u32; x.len()];
    dequantize_q4_0::<Native>(&bytes, &mut out).unwrap();
    dec(&out)
}

#[test]
fn q8_0_roundtrip_error_is_bounded() {
    // Per-element error is at most d/2 = max|x|/254, so the relative
    // Frobenius error of ~uniform data stays well under 1%.
    let x = rand_vec(32 * 64, 7);
    let y = roundtrip_q8(&x);
    let rel = rel_err(&x, &y);
    assert!(rel < 0.01, "q8_0 relative error {rel} too large");
}

#[test]
fn q4_0_is_less_accurate_than_q8_0() {
    // Sanity monotonicity check: coarser quantization must lose accuracy.
    let x = rand_vec(32 * 64, 11);
    let rel8 = rel_err(&x, &roundtrip_q8(&x));
    let rel4 = rel_err(&x, &roundtrip_q4(&x));
    assert!(
        rel4 > rel8,
        "expected q4_0 error ({rel4}) > q8_0 error ({rel8})"
    );
    // d = max|x|/8 bounds the q4_0 per-element error by max|x|/16.
    assert!(rel4 < 0.25, "q4_0 relative error {rel4} too large");
}

#[test]
fn q8_0_block_uses_full_scale() {
    // A block spanning [-16, 15] must use d = 16/127 exactly.
    let x: Vec<f32> = (0..32).map(|i| i as f32 - 16.0).collect();
    let bytes = quantize_q8_0::<Native>(&enc(&x)).unwrap();
    let d = f32::from_bits(read_f32_le(&bytes));
    assert!((d - 16.0 / 127.0).abs() < 1e-9);
    let y = roundtrip_q8(&x);
    let max_err: f32 = x
        .iter()
        .zip(y.iter())
        .map(|(a, b)| (a - b).abs())
        .fold(0.0, f32::max);
    assert!(max_err <= d / 2.0 + 1e-6);
}

#[test]
fn quantized_matvec_matches_dequantized_matvec() {
    let w = Tensor::new(enc(&rand_vec(4 * 64, 3)), vec![4, 64]).unwrap();
    let x = enc(&rand_vec(64, 5));
    for dtype in [QuantDtype::Q8_0, QuantDtype::Q4_0] {
        let qt = QuantizedTensor::from_tensor::<Native>(&w, dtype).unwrap();
        let fast = dec(&qt.matvec::<Native>(&x).unwrap());
        let dense = qt.dequantize::<Native>().unwrap();
        let reference = dec(&matvec::<Native>(&dense, &x).unwrap());
        assert_eq!(fast.len(), 4);
        for (f, r) in fast.iter().zip(reference.iter()) {
            assert!(
                (f - r).abs() < 1e-3,
                "{:?}: fused {f} vs dequantized {r}",
                dtype
            );
        }
    }
}

#[test]
fn rejects_misaligned_input() {
    assert!(quantize_q8_0::<Native>(&enc(&[1.0; 17])).is_err());
    assert!(quantize_q4_0::<Native>(&enc(&[1.0; 33])).is_err());
}

#[test]
fn misaligned_input_is_named() {
    assert!(matches!(
        quantize_q8_0::<Native>(&enc(&[1.0; 17])),
        Err(MinqError::Shape(ShapeErrorOf::NotWholeBlocks { len: 17 }))
    ));
}

#[test]
fn q8_0_known_bytes() {
    // amax = 127 gives d = 1, so that every code is the value rounded.
    let mut x = vec![0.0f32; 32];
    x[0] = 127.0;
    x[1] = -127.0;
    x[2] = 2.5;
    x[3] = -2.5;
    x[4] = 0.4;
    let bytes = quantize_q8_0::<Native>(&enc(&x)).unwrap();
    assert_eq!(bytes.len(), 36);
    assert_eq!(&bytes[..4], &1.0f32.to_le_bytes());
    assert_eq!(bytes[4], 127);
    assert_eq!(bytes[5], (-127i8) as u8);
    assert_eq!(bytes[6], 3);
    assert_eq!(bytes[7], (-3i8) as u8);
    assert_eq!(bytes[8], 0);
}

#[test]
fn q4_0_known_bytes() {
    // amax = 8 gives d = 1: codes are the value rounded, plus 8, and clamped.
    let mut x = vec![0.0f32; 32];
    x[0] = 8.0;
    x[1] = -8.0;
    x[2] = 1.0;
    x[3] = -1.0;
    let bytes = quantize_q4_0::<Native>(&enc(&x)).unwrap();
    assert_eq!(bytes.len(), 20);
    assert_eq!(&bytes[..4], &1.0f32.to_le_bytes());
    assert_eq!(bytes[4], 0x0F);
    assert_eq!(bytes[5], 0x79);
    assert_eq!(bytes[6], 0x88);
    let mut out = vec![0u32; 32];
    dequantize_q4_0::<Native>(&bytes, &mut out).unwrap();
    assert_eq!(dec(&out)[..4], [7.0, -8.0, 1.0, -1.0]);
}

#[test]
fn a_block_of_zeros_has_zero_codes() {
    let x = enc(&[0.0; 32]);
    assert_eq!(quantize_q8_0::<Native>(&x).unwrap(), vec![0u8; 36]);
    assert_eq!(quantize_q4_0::<Native>(&x).unwrap(), vec![0u8; 20]);
}

#[test]
fn dequantize_checks_sizes() {
    let mut out = vec![7u32; 31];
    assert!(matches!(
        dequantize_q8_0::<Native>(&[0u8; 36], &mut out),
        Err(MinqError::Shape(ShapeErrorOf::Dequantize { bytes: 36, outputs: 31 }))
    ));
    assert_eq!(out, vec![7u32; 31]);
    assert!(dequantize_q4_0::<Native>(&[0u8; 21], &mut vec![0u32; 32]).is_err());
}

#[test]
fn dtype_names_parse_back() {
    for dtype in [QuantDtype::Q8_0, QuantDtype::Q4_0] {
        assert_eq!(QuantDtype::parse(dtype.name()).unwrap(), dtype);
    }
    assert_eq!(QuantDtype::Q8_0.block_bytes(), 36);
    assert_eq!(QuantDtype::Q4_0.block_bytes(), 20);
    match QuantDtype::parse("q5_0") {
        Err(MinqError::Format(FormatErrorOf::UnknownDtype { name })) => assert_eq!(name, "q5_0"),
        other => panic!("unexpected {other:?}"),
    }
}

#[test]
fn only_block_aligned_matrices_are_quantized() {
    let v = Tensor::zeros(&[64]);
    assert!(matches!(
        QuantizedTensor::from_tensor::<Native>(&v, QuantDtype::Q8_0),
        Err(MinqError::Shape(ShapeErrorOf::NotQuantizable { .. }))
    ));
    let m = Tensor::zeros(&[2, 33]);
    assert!(QuantizedTensor::from_tensor::<Native>(&m, QuantDtype::Q4_0).is_err());
    let ok = QuantizedTensor::from_tensor::<Native>(&Tensor::zeros(&[2, 64]), QuantDtype::Q4_0);
    assert_eq!(ok.unwrap().data.len(), 2 * 2 * 20);
}

#[test]
fn quantized_matvec_checks_width() {
    let q = QuantizedTensor::from_tensor::<Native>(&Tensor::zeros(&[2, 64]), QuantDtype::Q8_0);
    assert!(matches!(
        q.unwrap().matvec::<Native>(&enc(&[1.0; 32])),
        Err(MinqError::Shape(ShapeErrorOf::QuantMatvec { cols: 64, len: 32 }))
    ));
}

#[test]
fn row_products_apply_the_scale_once() {
    let x: Vec<f32> = (0..32).map(|i| i as f32).collect();
    let w: Vec<f32> = (0..32).map(|i| (i % 8) as f32 - 4.0).collect();
    let q8 = quantize_q8_0::<Native>(&enc(&w)).unwrap();
    let d = f32::from_bits(read_f32_le(&q8));
    let mut sum = 0.0f32;
    for i in 0..32 {
        sum += (q8[4 + i] as i8) as f32 * x[i];
    }
    let got = f32::from_bits(matvec_row_q8_0::<Native>(&q8, &enc(&x)));
    assert_eq!(got, 0.0 + d * sum);

    let q4 = quantize_q4_0::<Native>(&enc(&w)).unwrap();
    let d = f32::from_bits(read_f32_le(&q4));
    let mut sum = 0.0f32;
    for i in 0..16 {
        let lo = (q4[4 + i] & 0x0F) as i32 - 8;
        let hi = (q4[4 + i] >> 4) as i32 - 8;
        sum += lo as f32 * x[2 * i] + hi as f32 * x[2 * i + 1];
    }
    let got = f32::from_bits(matvec_row_q4_0::<Native>(&q4, &enc(&x)));
    assert_eq!(got, 0.0 + d * sum);
}

#[test]
fn codes_are_the_nearest_integers() {
    let x = rand_vec(64, 23);
    for (dtype, lo, hi) in [(QuantDtype::Q8_0, -127, 127), (QuantDtype::Q4_0, -8, 7)] {
        let bytes = match dtype {
            QuantDtype::Q8_0 => quantize_q8_0::<Native>(&enc(&x)).unwrap(),
            QuantDtype::Q4_0 => quantize_q4_0::<Native>(&enc(&x)).unwrap(),
        };
        for (n, block) in bytes.chunks_exact(dtype.block_bytes()).enumerate() {
            let inverse = 1.0 / f32::from_bits(read_f32_le(block));
            for i in 0..32 {
                let code = match dtype {
                    QuantDtype::Q8_0 => block[4 + i] as i8 as i32,
                    QuantDtype::Q4_0 => ((block[4 + i / 2] >> (4 * (i % 2))) & 15) as i32 - 8,
                };
                let v = x[32 * n + i] * inverse;
                assert!(lo <= code && code <= hi);
                if lo as f32 <= v && v <= hi as f32 {
                    assert!((code as f32 - v).abs() <= 0.5, "{v} as {code}");
                } else {
                    assert_eq!(code, if v > 0.0 { hi } else { lo });
                }
            }
        }
    }
}

#[test]
fn roundtrip_errors_are_bounded_by_the_block_maximum() {
    let x = rand_vec(32 * 40, 29);
    for (half, y) in [(254.0f32, roundtrip_q8(&x)), (16.0, roundtrip_q4(&x))] {
        for (block, read) in x.chunks_exact(32).zip(y.chunks_exact(32)) {
            let m = block.iter().fold(0.0f32, |m, v| m.max(v.abs()));
            for (v, r) in block.iter().zip(read) {
                let error = (v - r).abs();
                if half == 254.0 || *v <= 15.0 / 16.0 * m {
                    assert!(error <= m / half + 1e-6 * m, "{v} read back as {r}");
                } else {
                    assert_eq!(*r, 7.0 * (m / 8.0));
                    assert!(error <= m / 8.0 + 1e-6 * m);
                }
            }
        }
    }
    // No code stands for 8 scales: the largest value comes back as 7 of them.
    assert_eq!(roundtrip_q4(&[8.0; 32]), vec![7.0; 32]);
    assert_eq!(roundtrip_q8(&[0.0; 32]), vec![0.0; 32]);
    assert_eq!(roundtrip_q4(&[0.0; 32]), vec![0.0; 32]);
}

#[test]
fn operations_round_to_nearest() {
    // Half of the smallest positive number, and one part in 2^24.
    let tiny = f64::powi(2.0, -150);
    let part = f64::powi(2.0, -24);
    let close = |r: u32, ideal: f64| (f32::from_bits(r) as f64 - ideal).abs() <= ideal.abs() * part + tiny;
    let a = rand_vec(500, 31);
    let b = rand_vec(500, 32);
    for (i, (x, y)) in a.iter().zip(&b).enumerate() {
        // Over many magnitudes, subnormal results included.
        let x = *x * f32::powi(2.0, i as i32 % 80 - 70);
        let y = *y * f32::powi(2.0, i as i32 % 60 - 65);
        let (p, q) = (x.to_bits(), y.to_bits());
        assert!(close(Native::mul32(p, q), x as f64 * y as f64), "{x} * {y}");
        assert!(close(Native::div32(p, q), x as f64 / y as f64), "{x} / {y}");
        let sum = f32::from_bits(Native::add32(p, p)) as f64;
        assert_eq!(sum, x as f64 + x as f64);
    }
    for n in [-0x100_0000i32, -127, -8, 0, 1, 7, 127, 0xFF_FFFF] {
        assert_eq!(f32::from_bits(Native::int32(n)) as f64, n as f64);
    }
}

#[test]
fn roundtrip_errors_are_bounded_at_every_magnitude() {
    let x = rand_vec(32, 41);
    for exponent in [-100i32, -60, -1, 0, 40, 125] {
        let scale = f32::powi(2.0, exponent);
        let block: Vec<f32> = x.iter().map(|v| v * scale * 1.5).collect();
        let m = block.iter().fold(0.0f32, |m, v| m.max(v.abs())) as f64;
        let y8 = roundtrip_q8(&block);
        let y4 = roundtrip_q4(&block);
        for i in 0..32 {
            let v = block[i] as f64;
            assert!((y8[i] as f64 - v).abs() <= m / 254.0 + 1e-6 * m);
            let error = (y4[i] as f64 - v).abs();
            if 16.0 * v <= 15.0 * m {
                assert!(error <= m / 16.0 + 1e-6 * m);
            } else {
                assert_eq!(y4[i], 7.0 * (m as f32 / 8.0));
                assert!(error <= m / 8.0 + 1e-6 * m);
            }
        }
    }
}

#[test]
fn fused_products_are_close_to_the_sum_without_rounding() {
    // A row of eight blocks.
    let w = Tensor::new(enc(&rand_vec(256, 24)), vec![1, 256]).unwrap();
    let x = rand_vec(256, 23);
    let n = 8.0f64;
    for dtype in [QuantDtype::Q8_0, QuantDtype::Q4_0] {
        let q = QuantizedTensor::from_tensor::<Native>(&w, dtype).unwrap();
        let fused = f32::from_bits(q.matvec::<Native>(&enc(&x)).unwrap()[0]) as f64;
        let mut sum = 0.0f64;
        for (i, v) in x.iter().enumerate() {
            let block = &q.data[i / 32 * dtype.block_bytes()..];
            let d = f32::from_bits(read_f32_le(block)) as f64;
            let code = match dtype {
                QuantDtype::Q8_0 => block[4 + i % 32] as i8 as i32,
                QuantDtype::Q4_0 if i % 2 == 0 => (block[4 + i % 32 / 2] % 16) as i32 - 8,
                QuantDtype::Q4_0 => (block[4 + i % 32 / 2] / 16) as i32 - 8,
            };
            sum += code as f64 * d * *v as f64;
        }
        assert!((fused - sum).abs() <= (32.0 * n * n + 1188.0 * n) * f64::powi(2.0, -24));
        let dense = matvec::<Native>(&q.dequantize::<Native>().unwrap(), &enc(&x)).unwrap();
        let dense = f32::from_bits(dense[0]) as f64;
        assert!((fused - dense).abs() <= (1056.0 * n * n + 1316.0 * n) * f64::powi(2.0, -24));
    }
}
