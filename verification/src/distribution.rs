//! Softmax gives a distribution: where every operation rounds to nearest, its
//! values are not negative and sum to 1 but for a few roundings per value.

use vstd::arithmetic::power2::pow2;
use vstd::prelude::*;

use crate::arith;
use crate::arith::Arith;
use crate::bits;
use crate::nearest::{
    finite, lemma_even, lemma_powers, near_quotient, near_sum, rounds_to_nearest, size, PARTS,
};
use crate::quantize::distance;
use crate::tensor;

verus! {

/// Whether a difference to something larger is at most 0, and 0 if there is no
/// difference, and whether the exponential of what is at most 0 is from 0 to 1, and
/// 1 for 0.
pub open spec fn exponentiates<A: Arith>() -> bool {
    &&& forall|a: u32, m: u32|
        finite(a) && finite(m) && bits::le_of(a, m) ==> bits::le_of(
            #[trigger] arith::sub_of::<A>(a, m),
            bits::ZERO,
        )
    &&& forall|m: u32| finite(m) ==> bits::magnitude(#[trigger] arith::sub_of::<A>(m, m)) == 0
    &&& forall|a: u32|
        bits::le_of(a, bits::ZERO) ==> finite(#[trigger] arith::exp_of::<A>(a)) && 0
            <= bits::scaled_value(arith::exp_of::<A>(a)) <= pow2(150)
    &&& forall|a: u32|
        bits::magnitude(a) == 0 ==> bits::scaled_value(#[trigger] arith::exp_of::<A>(a)) == pow2(
            150,
        )
}

/// The sum of the first `n` values without rounding, in units of `2^-150`.
pub open spec fn total_upto(x: Seq<u32>, n: int) -> int
    decreases n,
{
    if n <= 0 {
        0
    } else {
        total_upto(x, n - 1) + bits::scaled_value(x[n - 1])
    }
}

/// Whether the values are between 0 and 1.
spec fn in_unit_interval(x: Seq<u32>) -> bool {
    forall|i: int|
        0 <= i < x.len() ==> finite(#[trigger] x[i]) && 0 <= bits::scaled_value(x[i]) <= pow2(150)
}

/// A sum of values that are not negative is no smaller than any of them.
proof fn lemma_total(x: Seq<u32>, n: int, j: int)
    requires
        in_unit_interval(x),
        0 <= n <= x.len(),
    ensures
        0 <= total_upto(x, n) <= n * pow2(150),
        0 <= j < n ==> bits::scaled_value(x[j]) <= total_upto(x, n),
    decreases n,
{
    let unit = pow2(150) as int;
    if n > 0 {
        lemma_total(x, n - 1, j);
        assert(finite(x[n - 1]));
        assert(n * unit == (n - 1) * unit + unit) by (nonlinear_arith);
    } else {
        assert(0 * unit == 0);
    }
}

/// The rounded sum of the first `n` values.
proof fn lemma_sum<A: Arith>(x: Seq<u32>, n: int)
    requires
        rounds_to_nearest::<A>(),
        in_unit_interval(x),
        0 <= n <= x.len() <= 0x10_0000,
    ensures
        finite(tensor::sum_upto::<A>(x, n)),
        PARTS * distance(bits::scaled_value(tensor::sum_upto::<A>(x, n)), total_upto(x, n)) <= 2 * (n
            * total_upto(x, n)),
    decreases n,
{
    lemma_powers();
    if n > 0 {
        let k = n - 1;
        lemma_sum::<A>(x, k);
        lemma_total(x, k, 0);
        lemma_total(x, n, 0);
        assert(finite(x[k]));
        let before = tensor::sum_upto::<A>(x, k);
        let s = bits::scaled_value(before);
        let e = bits::scaled_value(x[k]);
        let t = total_upto(x, k);
        let u = total_upto(x, n);
        let kt = k * t;
        assert(8 * kt <= PARTS * t) by (nonlinear_arith)
            requires
                kt == k * t,
                0 <= k <= 0x10_0000,
                t >= 0,
                PARTS == 0x100_0000,
        ;
        assert(size(s + e) <= 2 * u);
        assert(2 * u <= pow2(277)) by {
            let unit = pow2(150) as int;
            vstd::arithmetic::power2::lemma2_to64();
            vstd::arithmetic::power2::lemma_pow2_strictly_increases(21, 127);
            assert(2 * u <= unit * pow2(127)) by (nonlinear_arith)
                requires
                    u <= n * unit,
                    n <= 0x10_0000,
                    pow2(127) >= 0x20_0000,
                    unit > 0,
            ;
        }
        assert(near_sum(arith::add_of::<A>(before, x[k]), before, x[k]));
        assert(kt <= k * u && n * u == k * u + u) by (nonlinear_arith)
            requires
                kt == k * t,
                t <= u,
                k >= 0,
                n == k + 1,
        ;
    } else {
        vstd::arithmetic::mul::lemma_mul_basics(pow2(1) as int);
    }
}

/// The values over their rounded sum, summed without rounding.
proof fn lemma_quotients<A: Arith>(x: Seq<u32>, y: Seq<u32>, total: u32, n: int)
    requires
        rounds_to_nearest::<A>(),
        in_unit_interval(x),
        finite(total),
        2 * bits::scaled_value(total) >= pow2(150),
        y.len() == x.len(),
        forall|i: int| 0 <= i < x.len() ==> #[trigger] y[i] == arith::div_of::<A>(x[i], total),
        0 <= n <= x.len(),
    ensures
        forall|i: int| 0 <= i < n ==> finite(#[trigger] y[i]) && 0 <= bits::scaled_value(y[i]),
        PARTS * distance(
            total_upto(y, n) * bits::scaled_value(total),
            total_upto(x, n) * pow2(150),
        ) <= total_upto(x, n) * pow2(150) + PARTS * (n * bits::scaled_value(total)),
    decreases n,
{
    lemma_powers();
    let unit = pow2(150) as int;
    let s = bits::scaled_value(total);
    if n > 0 {
        let k = n - 1;
        lemma_quotients::<A>(x, y, total, k);
        assert(finite(x[k]));
        let e = bits::scaled_value(x[k]);
        let p = bits::scaled_value(y[k]);
        vstd::arithmetic::power2::lemma2_to64();
        vstd::arithmetic::power2::lemma_pow2_strictly_increases(1, 127);
        assert(e <= s * pow2(127)) by (nonlinear_arith)
            requires
                e <= unit <= 2 * s,
                unit > 0,
                pow2(127) >= 2,
        ;
        assert(y[k] == arith::div_of::<A>(x[k], total));
        assert(near_quotient(y[k], x[k], total));
        // The quotient is not negative.
        let eu = e * unit;
        assert(eu >= 0) by (nonlinear_arith)
            requires
                eu == e * unit,
                e >= 0,
                unit > 0,
        ;
        lemma_even(y[k]);
        assert(p >= -1) by (nonlinear_arith)
            requires
                PARTS * (p * s - eu) >= -(eu + PARTS * s),
                PARTS == 0x100_0000,
                eu >= 0,
                s > 0,
        ;
        let before = total_upto(y, k);
        let t = total_upto(x, k);
        assert((before + p) * s == before * s + p * s) by (nonlinear_arith);
        assert((t + e) * unit == t * unit + eu) by (nonlinear_arith)
            requires
                eu == e * unit,
        ;
        assert(n * s == k * s + s) by (nonlinear_arith)
            requires
                n == k + 1,
        ;
    } else {
        assert(0 * s == 0);
        assert(0 * unit == 0);
    }
}

/// How far the sum `p` of quotients by a rounded sum `s` is from 1, where `t` is
/// that sum without rounding.
proof fn lemma_sum_of_quotients(n: int, p: int, s: int, t: int)
    requires
        0 < n <= 0x10_0000,
        0 < s,
        0 < t,
        PARTS * distance(s, t) <= 2 * (n * t),
        PARTS * distance(p * s, t * pow2(150)) <= t * pow2(150) + PARTS * (n * s),
    ensures
        PARTS * distance(p, pow2(150) as int) <= (3 * n + 3) * pow2(150),
        n <= 1000 ==> PARTS * distance(p, pow2(150) as int) <= (2 * n + 2) * pow2(150),
{
    lemma_powers();
    let unit = pow2(150) as int;
    let nt = n * t;
    let ns = n * s;
    let tu = t * unit;
    let su = s * unit;
    let ntu = nt * unit;
    // The rounded sum.
    assert(8 * nt <= PARTS * t / 2) by (nonlinear_arith)
        requires
            nt == n * t,
            n <= 0x10_0000,
            t > 0,
            PARTS == 0x100_0000,
    ;
    assert(7 * t <= 8 * s);
    assert(-(2 * ntu) <= PARTS * (su - tu) <= 2 * ntu) by (nonlinear_arith)
        requires
            -(2 * nt) <= PARTS * (s - t) <= 2 * nt,
            su == s * unit,
            tu == t * unit,
            ntu == nt * unit,
            unit > 0,
    ;
    // Both errors together.
    let far = p - unit;
    let fs = far * s;
    assert(fs == (p * s - tu) + (tu - su)) by (nonlinear_arith)
        requires
            fs == far * s,
            far == p - unit,
            su == s * unit,
    ;
    assert(-(tu + PARTS * ns + 2 * ntu) <= PARTS * fs <= tu + PARTS * ns + 2 * ntu);
    assert(2 * (PARTS * ns) <= su) by (nonlinear_arith)
        requires
            ns == n * s,
            su == s * unit,
            n <= 0x10_0000,
            PARTS == 0x100_0000,
            unit >= 0x4_0000_0000_0000,
            s > 0,
    ;
    let nsu = ns * unit;
    assert(7 * tu <= 8 * su && 7 * ntu <= 8 * nsu && su <= nsu && su > 0) by (nonlinear_arith)
        requires
            7 * t <= 8 * s,
            tu == t * unit,
            su == s * unit,
            ntu == nt * unit,
            nsu == ns * unit,
            nt == n * t,
            ns == n * s,
            n >= 1,
            unit > 0,
            s > 0,
    ;
    let wide = (3 * n + 3) * unit;
    assert(wide * s == 3 * nsu + 3 * su) by (nonlinear_arith)
        requires
            wide == (3 * n + 3) * unit,
            nsu == ns * unit,
            ns == n * s,
            su == s * unit,
    ;
    assert(-(wide * s) <= PARTS * fs <= wide * s);
    assert(-wide <= PARTS * far <= wide) by (nonlinear_arith)
        requires
            -(wide * s) <= PARTS * fs <= wide * s,
            fs == far * s,
            s > 0,
    ;
    if n <= 1000 {
        let narrow = (2 * n + 2) * unit;
        assert(narrow * s == 2 * nsu + 2 * su) by (nonlinear_arith)
            requires
                narrow == (2 * n + 2) * unit,
                nsu == ns * unit,
                ns == n * s,
                su == s * unit,
        ;
        // With few values the rounded sum is closer still.
        assert(PARTS * ntu <= PARTS * nsu + 2000 * ntu) by (nonlinear_arith)
            requires
                PARTS * t <= PARTS * s + 2 * nt,
                nt == n * t,
                ns == n * s,
                ntu == nt * unit,
                nsu == ns * unit,
                1 <= n <= 1000,
                unit > 0,
                t > 0,
        ;
        assert(ntu <= 1000 * tu) by (nonlinear_arith)
            requires
                ntu == nt * unit,
                nt == n * t,
                tu == t * unit,
                n <= 1000,
                t > 0,
                unit > 0,
        ;
        assert(PARTS * tu <= PARTS * su + 2 * ntu);
        assert(-(narrow * s) <= PARTS * fs <= narrow * s);
        assert(-narrow <= PARTS * far <= narrow) by (nonlinear_arith)
            requires
                -(narrow * s) <= PARTS * fs <= narrow * s,
                fs == far * s,
                s > 0,
        ;
    }
}

/// Where every operation rounds to nearest, the softmax of finite numbers is a
/// distribution: no value is negative, and without further rounding they sum to 1
/// but for three roundings per value, or two where there are few.
pub proof fn law_softmax_sums_to_one<A: Arith>(x: Seq<u32>)
    requires
        rounds_to_nearest::<A>(),
        exponentiates::<A>(),
        0 < x.len() <= 0x10_0000,
        forall|i: int| 0 <= i < x.len() ==> finite(#[trigger] x[i]),
    ensures
        ({
            let n = x.len() as int;
            let y = tensor::softmax_of::<A>(x);
            let far = distance(total_upto(y, n), pow2(150) as int);
            &&& y.len() == n
            &&& forall|i: int|
                0 <= i < n ==> finite(#[trigger] y[i]) && 0 <= bits::scaled_value(y[i])
            &&& PARTS * far <= (3 * n + 3) * pow2(150)
            &&& n <= 1000 ==> PARTS * far <= (2 * n + 2) * pow2(150)
        }),
{
    lemma_powers();
    let n = x.len() as int;
    let unit = pow2(150) as int;
    let max = bits::max_upto(bits::NEG_INFINITY, x, n);
    let e = tensor::shifted_exp::<A>(x);
    let total = tensor::sum_upto::<A>(e, n);
    let y = tensor::softmax_of::<A>(x);
    // One of the numbers is the largest, and its exponential is 1.
    bits::law_max_upto(bits::NEG_INFINITY, x, n);
    assert(finite(x[0]));
    assert(bits::le_of(x[0], max));
    let top = choose|i: int| 0 <= i < n && #[trigger] x[i] == max;
    assert(finite(x[top]));
    assert forall|i: int| 0 <= i < e.len() implies finite(#[trigger] e[i]) && 0
        <= bits::scaled_value(e[i]) <= unit by {
        assert(finite(x[i]));
        assert(bits::le_of(x[i], max));
        assert(bits::le_of(arith::sub_of::<A>(x[i], max), bits::ZERO));
    }
    assert(bits::magnitude(arith::sub_of::<A>(max, max)) == 0);
    assert(bits::scaled_value(e[top]) == unit);
    lemma_total(e, n, top);
    lemma_sum::<A>(e, n);
    let t = total_upto(e, n);
    let s = bits::scaled_value(total);
    assert(8 * (n * t) <= PARTS * t / 2) by (nonlinear_arith)
        requires
            0 < n <= 0x10_0000,
            t > 0,
            PARTS == 0x100_0000,
    ;
    assert(2 * s >= unit);
    lemma_even(total);
    assert(bits::lt_of(bits::ZERO, total));
    lemma_quotients::<A>(e, y, total, n);
    lemma_sum_of_quotients(n, total_upto(y, n), s, t);
}

} // verus!
