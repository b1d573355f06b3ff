use minq::arith::Arith;
use minq::error::ShapeErrorOf;
use minq::tensor::{
    add_, compute_strides, dot, dot_scalar, matmul, matvec, mul_, rmsnorm, silu, softmax, Tensor,
};
use minq::MinqError;

/// The machine's own floating point.
struct Native;

impl Arith for Native {
    fn add32(a: u32, b: u32) -> u32 {
        (f32::from_bits(a) + f32::from_bits(b)).to_bits()
    }
    fn sub32(a: u32, b: u32) -> u32 {
        (f32::from_bits(a) - f32::from_bits(b)).to_bits()
    }
    fn mul32(a: u32, b: u32) -> u32 {
        (f32::from_bits(a) * f32::from_bits(b)).to_bits()
    }
    fn div32(a: u32, b: u32) -> u32 {
        (f32::from_bits(a) / f32::from_bits(b)).to_bits()
    }
    fn sqrt32(a: u32) -> u32 {
        f32::from_bits(a).sqrt().to_bits()
    }
    fn exp32(a: u32) -> u32 {
        f32::from_bits(a).exp().to_bits()
    }
    fn pow32(base: u32, exponent: u32) -> u32 {
        f32::from_bits(base).powf(f32::from_bits(exponent)).to_bits()
    }
    fn sin32(a: u32) -> u32 {
        f32::from_bits(a).sin().to_bits()
    }
    fn cos32(a: u32) -> u32 {
        f32::from_bits(a).cos().to_bits()
    }
    fn count32(n: usize) -> u32 {
        (n as f32).to_bits()
    }
    fn int32(n: i32) -> u32 {
        (n as f32).to_bits()
    }
    fn narrow(a: u64) -> u32 {
        (f64::from_bits(a) as f32).to_bits()
    }
    fn widen(a: u32) -> u64 {
        (f32::from_bits(a) as f64).to_bits()
    }
    fn add64(a: u64, b: u64) -> u64 {
        (f64::from_bits(a) + f64::from_bits(b)).to_bits()
    }
    fn sub64(a: u64, b: u64) -> u64 {
        (f64::from_bits(a) - f64::from_bits(b)).to_bits()
    }
    fn div64(a: u64, b: u64) -> u64 {
        (f64::from_bits(a) / f64::from_bits(b)).to_bits()
    }
    fn exp64(a: u64) -> u64 {
        f64::from_bits(a).exp().to_bits()
    }
    fn ln64(a: u64) -> u64 {
        f64::from_bits(a).ln().to_bits()
    }
    fn count64(n: usize) -> u64 {
        (n as f64).to_bits()
    }
}

fn enc(values: &[f32]) -> Vec<u32> {
    values.iter().map(|v| v.to_bits()).collect()
}

fn dec(bits: &[u32]) -> Vec<f32> {
    bits.iter().map(|b| f32::from_bits(*b)).collect()
}

#[test]
fn matmul_small_known_result() {
    // [[1, 2], [3, 4]] @ [[5, 6], [7, 8]] = [[19, 22], [43, 50]]
    let a = Tensor::new(enc(&[1.0, 2.0, 3.0, 4.0]), vec![2, 2]).unwrap();
    let b = Tensor::new(enc(&[5.0, 6.0, 7.0, 8.0]), vec![2, 2]).unwrap();
    let c = matmul::<Native>(&a, &b).unwrap();
    assert_eq!(c.shape, vec![2, 2]);
    assert_eq!(dec(&c.data), vec![19.0, 22.0, 43.0, 50.0]);
}

#[test]
fn rmsnorm_matches_hand_computed_reference() {
    let x = vec![1.0f32, 2.0, 3.0, 4.0];
    let w = vec![1.0f32; 4];
    let eps = 1e-5f32;
    // Reference computed by hand: rms = sqrt((1+4+9+16)/4 + eps).
    let rms = (30.0f32 / 4.0 + eps).sqrt();
    let expected: Vec<f32> = x.iter().map(|v| v / rms).collect();
    let got = dec(&rmsnorm::<Native>(&enc(&x), &enc(&w), eps.to_bits()));
    for (g, e) in got.iter().zip(expected.iter()) {
        assert!((g - e).abs() < 1e-6, "got {g}, expected {e}");
    }
    // A non-unit gain scales the output linearly.
    let w2 = vec![2.0f32; 4];
    let got2 = dec(&rmsnorm::<Native>(&enc(&x), &enc(&w2), eps.to_bits()));
    for (g2, g1) in got2.iter().zip(got.iter()) {
        assert!((g2 - 2.0 * g1).abs() < 1e-6);
    }
}

#[test]
fn softmax_sums_to_one() {
    let mut bits = enc(&[1.0f32, 2.0, 3.0, 4.0, 100.0]);
    softmax::<Native>(&mut bits);
    let v = dec(&bits);
    let sum: f32 = v.iter().sum();
    assert!((sum - 1.0).abs() < 1e-6);
    // Monotonicity is preserved.
    assert!(v[4] > v[3] && v[3] > v[2]);
}

#[test]
fn dot_is_the_scalar_dot() {
    for n in [1usize, 7, 8, 15, 16, 33, 64, 100, 1024] {
        let a: Vec<f32> = (0..n).map(|i| (i as f32 * 0.37).sin()).collect();
        let b: Vec<f32> = (0..n).map(|i| (i as f32 * 0.11).cos()).collect();
        let expected: f32 = a.iter().zip(b.iter()).map(|(x, y)| x * y).sum();
        let scalar = dot_scalar::<Native>(&enc(&a), &enc(&b));
        assert_eq!(f32::from_bits(scalar), expected);
        assert_eq!(dot::<Native>(&enc(&a), &enc(&b)), scalar);
    }
}

#[test]
fn softmax_of_nothing_is_nothing() {
    let mut empty: Vec<u32> = Vec::new();
    softmax::<Native>(&mut empty);
    assert!(empty.is_empty());
}

#[test]
fn softmax_keeps_a_sum_that_is_not_positive() {
    let mut bits = enc(&[f32::NAN, f32::NAN]);
    softmax::<Native>(&mut bits);
    assert!(dec(&bits).iter().all(|v| v.is_nan()));
}

#[test]
fn strides_are_row_major() {
    assert_eq!(compute_strides(&[2, 3, 4]), vec![12, 4, 1]);
    assert_eq!(compute_strides(&[]), Vec::<usize>::new());
    let t = Tensor::zeros(&[2, 3, 4]);
    assert_eq!(t.strides, vec![12, 4, 1]);
    assert_eq!(t.ndim(), 3);
    assert_eq!(t.numel(), 24);
    assert!(t.data.iter().all(|v| *v == 0));
}

#[test]
fn new_checks_the_number_of_elements() {
    let e = Tensor::new(enc(&[1.0, 2.0, 3.0]), vec![2, 2]).unwrap_err();
    match e {
        MinqError::Shape(ShapeErrorOf::Elements { shape, numel, len }) => {
            assert_eq!((shape, numel, len), (vec![2, 2], 4, 3));
        }
        other => panic!("unexpected {other:?}"),
    }
}

#[test]
fn rows_of_a_matrix() {
    let t = Tensor::new(enc(&[1.0, 2.0, 3.0, 4.0, 5.0, 6.0]), vec![2, 3]).unwrap();
    assert_eq!(dec(t.row(1).unwrap()), vec![4.0, 5.0, 6.0]);
    assert!(matches!(
        t.row(2),
        Err(MinqError::Shape(ShapeErrorOf::RowOutOfBounds { row: 2, rows: 2 }))
    ));
    let v = Tensor::new(enc(&[1.0, 2.0]), vec![2]).unwrap();
    assert!(matches!(v.row(0), Err(MinqError::Shape(ShapeErrorOf::RowOfNonMatrix { .. }))));
}

#[test]
fn products_of_unfitting_operands_are_refused() {
    let a = Tensor::zeros(&[2, 3]);
    let b = Tensor::zeros(&[2, 3]);
    assert!(matches!(
        matmul::<Native>(&a, &b),
        Err(MinqError::Shape(ShapeErrorOf::Matmul { .. }))
    ));
    assert!(matches!(
        matvec::<Native>(&a, &enc(&[1.0, 2.0])),
        Err(MinqError::Shape(ShapeErrorOf::Matvec { len: 2, .. }))
    ));
}

#[test]
fn matvec_known_result() {
    let w = Tensor::new(enc(&[1.0, 2.0, 3.0, 4.0, 5.0, 6.0]), vec![3, 2]).unwrap();
    let y = matvec::<Native>(&w, &enc(&[10.0, 1.0])).unwrap();
    assert_eq!(dec(&y), vec![12.0, 34.0, 56.0]);
}

#[test]
fn elementwise_known_results() {
    let mut a = enc(&[1.0, 2.0, 3.0]);
    add_::<Native>(&mut a, &enc(&[0.5, 0.25, 0.125]));
    assert_eq!(dec(&a), vec![1.5, 2.25, 3.125]);
    mul_::<Native>(&mut a, &enc(&[2.0, 4.0, 8.0]));
    assert_eq!(dec(&a), vec![3.0, 9.0, 25.0]);
    let s = dec(&silu::<Native>(&enc(&[0.0, 1.0])));
    assert_eq!(s[0], 0.0);
    assert_eq!(s[1], 1.0f32 / (1.0 + (-1.0f32).exp()));
}

#[test]
fn softmax_keeps_the_order() {
    let values = [3.0f32, -1.5, 0.0, 7.25, 7.0, -20.0, 0.5];
    let mut bits = enc(&values);
    softmax::<Native>(&mut bits);
    let probs = dec(&bits);
    for i in 0..values.len() {
        for j in 0..values.len() {
            if values[i] <= values[j] {
                assert!(probs[i] <= probs[j]);
            }
        }
    }
}

#[test]
fn softmax_is_a_distribution_up_to_rounding() {
    for n in [1usize, 5, 100, 1000] {
        let mut x: Vec<u32> =
            (0..n).map(|i| (((i * 37) % 101) as f32 * 0.3 - 12.0).to_bits()).collect();
        softmax::<Native>(&mut x);
        let y = dec(&x);
        assert!(y.iter().all(|v| *v >= 0.0));
        let sum: f64 = y.iter().map(|v| *v as f64).sum();
        let bound = (2 * n + 2) as f64 * f64::powi(2.0, -24);
        assert!((sum - 1.0).abs() <= bound, "{n} values sum to {sum}");
    }
}
