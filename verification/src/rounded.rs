//! The formulas of the kernels where every operation rounds to nearest: what a gate,
//! a score and a scaled logit are, but for a few roundings.

use vstd::arithmetic::power2::{lemma_pow2_adds, lemma_pow2_strictly_increases, pow2};
use vstd::prelude::*;

use crate::arith;
use crate::arith::Arith;
use crate::attention;
use crate::bits;
use crate::nearest::{
    finite, lemma_constants, lemma_even, lemma_powers, lemma_quotient_error, near_product,
    near_quotient, near_sum, rounds_to_nearest, size, PARTS,
};
use crate::quantize::distance;
use crate::sampler;
use crate::tensor;

verus! {

/// Whether square roots round to nearest, and counts of up to 24 bits are represented as
/// they are: the square of a root is within three parts of the number.
pub open spec fn roots_to_nearest<A: Arith>() -> bool {
    &&& forall|a: u32|
        finite(a) && bits::scaled_value(a) >= 0 ==> near_root(#[trigger] arith::sqrt_of::<A>(a), a)
    &&& forall|n: usize|
        n <= 0x100_0000 ==> finite(#[trigger] arith::count_of::<A>(n)) && bits::scaled_value(
            arith::count_of::<A>(n),
        ) == n * pow2(150)
}

/// Whether `r` is finite, not negative and close to the square root of `a`.
pub open spec fn near_root(r: u32, a: u32) -> bool {
    let v = bits::scaled_value(r);
    let whole = bits::scaled_value(a) * pow2(150);
    &&& finite(r)
    &&& v >= 0
    &&& PARTS * distance(v * v, whole) <= 3 * whole
}

/// Where every operation rounds to nearest, SiLU times one plus the exponential of the
/// negated number is the number, but for three roundings.
pub proof fn law_silu_nearest<A: Arith>(x: Seq<u32>, i: int)
    requires
        rounds_to_nearest::<A>(),
        0 <= i < x.len(),
        finite(x[i]),
        size(bits::scaled_value(x[i])) <= pow2(276),
        ({
            let e = arith::exp_of::<A>(bits::neg_of(x[i]));
            finite(e) && 0 <= bits::scaled_value(e) <= pow2(276)
        }),
    ensures
        ({
            let e = bits::scaled_value(arith::exp_of::<A>(bits::neg_of(x[i])));
            let below = pow2(150) + e;
            let y = tensor::silu_of::<A>(x)[i];
            &&& finite(y)
            &&& PARTS * distance(
                bits::scaled_value(y) * below,
                bits::scaled_value(x[i]) * pow2(150),
            ) <= 3 * (size(bits::scaled_value(x[i])) * pow2(150)) + 4 * (PARTS * below)
        }),
{
    lemma_powers();
    lemma_constants();
    let unit = pow2(150) as int;
    let a = bits::scaled_value(x[i]);
    let h = size(a);
    let e = arith::exp_of::<A>(bits::neg_of(x[i]));
    let b = unit + bits::scaled_value(e);
    let below = arith::add_of::<A>(bits::ONE, e);
    assert(unit <= pow2(276)) by {
        lemma_pow2_strictly_increases(150, 276);
    }
    assert(near_sum(below, bits::ONE, e));
    let t = bits::scaled_value(below);
    assert(2 * t >= b && t <= 2 * b);
    assert(h <= t * pow2(127)) by (nonlinear_arith)
        requires
            h <= pow2(276),
            pow2(276) * 2 == unit * pow2(127),
            2 * t >= unit,
    ;
    let y = tensor::silu_of::<A>(x)[i];
    assert(near_quotient(y, x[i], below));
    let s = bits::scaled_value(y);
    let au = a * unit;
    let hu = h * unit;
    assert(-hu <= au <= hu) by (nonlinear_arith)
        requires
            au == a * unit,
            hu == h * unit,
            -h <= a <= h,
            unit > 0,
    ;
    let st = s * t;
    let sb = s * b;
    let k = size(s);
    // What the rounding of the divisor adds.
    assert(-(k * b) <= PARTS * (sb - st) <= k * b) by (nonlinear_arith)
        requires
            -b <= PARTS * (t - b) <= b,
            sb == s * b,
            st == s * t,
            k == if s >= 0 { s } else { -s },
            b > 0,
    ;
    let kt = k * t;
    assert(kt == size(st)) by (nonlinear_arith)
        requires
            kt == k * t,
            st == s * t,
            k == if s >= 0 { s } else { -s },
            size(st) == if st >= 0 { st } else { -st },
            t > 0,
    ;
    assert(k * b <= 2 * kt) by (nonlinear_arith)
        requires
            b <= 2 * t,
            kt == k * t,
            k >= 0,
    ;
    assert(PARTS * (k * b) <= PARTS * kt + kt + kt) by {
        assert(PARTS * (k * b) - PARTS * kt <= k * b) by (nonlinear_arith)
            requires
                PARTS * (b - t) <= b,
                kt == k * t,
                k >= 0,
        ;
    }
}

/// Where every operation rounds to nearest, a score times the root of the size of a head
/// is the product of query and key, but for three roundings, and the root times itself is
/// the size of a head, but for three.
pub proof fn law_score_nearest<A: Arith>(
    query: Seq<u32>,
    k: Seq<u32>,
    kv_dim: int,
    off: int,
    len: int,
    head_dim: usize,
    t: int,
)
    requires
        rounds_to_nearest::<A>(),
        roots_to_nearest::<A>(),
        0 < head_dim <= 0x100_0000,
        query.len() == head_dim,
        0 <= t < len,
        ({
            let at = t * kv_dim + off;
            let dot = tensor::dot_of::<A>(query, k.subrange(at, at + head_dim));
            finite(dot) && size(bits::scaled_value(dot)) <= pow2(250)
        }),
    ensures
        ({
            let at = t * kv_dim + off;
            let dot = bits::scaled_value(
                tensor::dot_of::<A>(query, k.subrange(at, at + head_dim)),
            );
            let score = attention::scores_of::<A>(
                query,
                k,
                kv_dim,
                off,
                len,
                attention::scale_of::<A>(head_dim),
            )[t];
            let unit = pow2(150) as int;
            exists|r: int|
                {
                    &&& r > 0
                    &&& PARTS * distance(#[trigger] (r * r), head_dim * (unit * unit)) <= 3 * (head_dim
                        * (unit * unit))
                    &&& PARTS * distance(bits::scaled_value(score) * r, dot * unit) <= 3 * (size(dot)
                        * unit) + PARTS * r
                }
        }),
{
    lemma_powers();
    lemma_constants();
    let unit = pow2(150) as int;
    let at = t * kv_dim + off;
    let dot = tensor::dot_of::<A>(query, k.subrange(at, at + head_dim));
    let v = bits::scaled_value(dot);
    let count = arith::count_of::<A>(head_dim);
    let root = arith::sqrt_of::<A>(count);
    let scale = attention::scale_of::<A>(head_dim);
    let score = arith::mul_of::<A>(dot, scale);
    let n = head_dim as int;
    let square = unit * unit;
    assert(bits::scaled_value(count) == n * unit);
    assert(n * unit >= 0) by (nonlinear_arith)
        requires
            n > 0,
            unit > 0,
    ;
    assert(near_root(root, count));
    let r = bits::scaled_value(root);
    assert((n * unit) * unit == n * square) by (nonlinear_arith)
        requires
            square == unit * unit,
    ;
    assert(square > 0 && n * square >= square) by (nonlinear_arith)
        requires
            square == unit * unit,
            unit > 0,
            n >= 1,
    ;
    // The root is from a half to 5000.
    assert(2 * r >= unit) by {
        assert(4 * (r * r) >= square);
        assert(2 * r >= unit) by (nonlinear_arith)
            requires
                4 * (r * r) >= unit * unit,
                r >= 0,
                unit > 0,
        ;
    }
    assert(r <= 5000 * unit) by {
        assert(n * square <= 0x100_0000 * square) by (nonlinear_arith)
            requires
                n <= 0x100_0000,
                square > 0,
        ;
        assert(r * r <= 25_000_000 * square);
        assert(r <= 5000 * unit) by (nonlinear_arith)
            requires
                r * r <= 25_000_000 * (unit * unit),
                r >= 0,
                unit > 0,
        ;
    }
    lemma_even(root);
    assert(unit <= r * pow2(127)) by {
        vstd::arithmetic::power2::lemma2_to64();
        lemma_pow2_strictly_increases(1, 127);
        assert(unit <= r * pow2(127)) by (nonlinear_arith)
            requires
                2 * r >= unit,
                pow2(127) >= 2,
                unit > 0,
        ;
    }
    assert(near_quotient(scale, bits::ONE, root));
    let c = bits::scaled_value(scale);
    assert(4 * (PARTS * r) <= square) by (nonlinear_arith)
        requires
            r <= 5000 * unit,
            square == unit * unit,
            unit >= 0x4_0000_0000_0000,
            PARTS == 0x100_0000,
    ;
    // The product is in range.
    assert(0 < c * r <= 2 * square);
    let h = size(v);
    assert(size(v * c) <= pow2(427)) by {
        lemma_pow2_adds(250, 150);
        lemma_pow2_adds(400, 27);
        vstd::arithmetic::power2::lemma2_to64();
        assert(0 < c <= 4 * unit) by (nonlinear_arith)
            requires
                0 < c * r <= 2 * (unit * unit),
                2 * r >= unit,
                r > 0,
                unit > 0,
        ;
        let vc = v * c;
        assert(-(4 * (pow2(250) * unit)) <= vc <= 4 * (pow2(250) * unit)) by (nonlinear_arith)
            requires
                vc == v * c,
                -pow2(250) <= v <= pow2(250),
                0 < c <= 4 * unit,
        ;
        assert(4 * pow2(400) <= pow2(400) * pow2(27)) by (nonlinear_arith)
            requires
                pow2(27) >= 4,
        ;
    }
    assert(near_product(score, dot, scale));
    lemma_quotient_error(unit, h, r, c, bits::scaled_value(score), v);
    assert(r * r == bits::scaled_value(root) * bits::scaled_value(root));
}

/// Where every operation rounds to nearest, tokens are drawn from the softmax of numbers
/// each of which, times the temperature, is its logit, but for one rounding.
pub proof fn law_temperature_nearest<A: Arith>(logits: Seq<u32>, temperature: u32)
    requires
        rounds_to_nearest::<A>(),
        finite(temperature),
        bits::scaled_value(temperature) > 0,
        forall|i: int|
            0 <= i < logits.len() ==> finite(#[trigger] logits[i]) && size(
                bits::scaled_value(logits[i]),
            ) <= bits::scaled_value(temperature) * pow2(127),
    ensures
        exists|scaled: Seq<u32>|
            {
                &&& sampler::distribution::<A>(logits, temperature)
                    == #[trigger] tensor::softmax_of::<A>(scaled)
                &&& scaled.len() == logits.len()
                &&& forall|i: int|
                    0 <= i < logits.len() ==> {
                        let v = bits::scaled_value(logits[i]);
                        let t = bits::scaled_value(temperature);
                        &&& finite(#[trigger] scaled[i])
                        &&& PARTS * distance(
                            bits::scaled_value(scaled[i]) * t,
                            v * pow2(150),
                        ) <= size(v) * pow2(150) + PARTS * t
                    }
            },
{
    let scaled = Seq::new(logits.len(), |i: int| arith::div_of::<A>(logits[i], temperature));
    assert(sampler::distribution::<A>(logits, temperature) == tensor::softmax_of::<A>(scaled));
    assert forall|i: int| 0 <= i < logits.len() implies near_quotient(
        #[trigger] scaled[i],
        logits[i],
        temperature,
    ) by {
        assert(finite(logits[i]));
        assert(scaled[i] == arith::div_of::<A>(logits[i], temperature));
    }
}

} // verus!
