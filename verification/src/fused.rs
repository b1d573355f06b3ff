//! How far the fused product of a quantized row is from that of the dequantized
//! row, where every operation rounds to nearest.

use vstd::arithmetic::power2::pow2;
use vstd::prelude::*;

use crate::arith;
use crate::arith::Arith;
use crate::bits;
use crate::exact::{
    block_sum, lemma_dequantized_row, lemma_scale_once, row_code, row_scale, weighted_sum,
};
use crate::nearest::{
    finite, lemma_constants, lemma_powers, near_product, near_quotient, near_sum, rounds_to_nearest,
    size, PARTS,
};
use crate::quantize;
use crate::quantize::{distance, QuantDtype, QuantizedView};
use crate::tensor;

verus! {

/// Which integer a bit pattern stands for, in units of `2^-150`.
pub open spec fn scaled() -> spec_fn(u32) -> int {
    |b: u32| bits::scaled_value(b)
}

/// Whether the vector's elements are between -1 and 1.
pub open spec fn unit_vector(x: Seq<u32>) -> bool {
    forall|i: int|
        0 <= i < x.len() ==> finite(#[trigger] x[i]) && size(bits::scaled_value(x[i])) <= pow2(150)
}

/// Whether a block's codes are in range, and none of them times the scale is more
/// than a thousandth above 1.
pub open spec fn moderate_block(dtype: QuantDtype, block: Seq<u8>) -> bool {
    let d = quantize::block_scale(block);
    &&& finite(d)
    &&& 1000 * (quantize::divisor(dtype) * size(bits::scaled_value(d))) <= 1001 * pow2(150)
    &&& forall|i: int|
        0 <= i < 32 ==> quantize::in_range(dtype, #[trigger] quantize::block_code(dtype, block, i))
}

/// Whether the first `n` blocks of a row are moderate.
pub open spec fn moderate_row(dtype: QuantDtype, row: Seq<u8>, n: int) -> bool {
    forall|b: int|
        0 <= b < n ==> moderate_block(dtype, #[trigger] quantize::bytes_of_block(dtype, row, b))
}

/// A rounded sum of two numbers that are themselves `a` and `e` parts away from
/// what they stand for.
proof fn lemma_accumulate(
    sum: int,
    term: int,
    next: int,
    true_sum: int,
    true_term: int,
    a: int,
    e: int,
    m: int,
)
    requires
        PARTS * distance(sum, true_sum) <= a,
        PARTS * distance(term, true_term) <= e,
        PARTS * size(true_sum + true_term) + a + e <= PARTS * m,
        PARTS * distance(next, sum + term) <= size(sum + term),
    ensures
        size(sum + term) <= m,
        PARTS * distance(next, true_sum + true_term) <= a + e + m,
{
}

/// The same as above, of a sum that is computed as such.
proof fn lemma_add<A: Arith>(
    sum: u32,
    term: u32,
    true_sum: int,
    true_term: int,
    a: int,
    e: int,
    m: int,
    scale: int,
)
    requires
        rounds_to_nearest::<A>(),
        finite(sum),
        finite(term),
        scale >= 1,
        PARTS * distance(bits::scaled_value(sum) * scale, true_sum) <= a,
        PARTS * distance(bits::scaled_value(term) * scale, true_term) <= e,
        PARTS * size(true_sum + true_term) + a + e <= PARTS * m,
        m <= scale * pow2(277),
    ensures
        finite(arith::add_of::<A>(sum, term)),
        PARTS * distance(
            bits::scaled_value(arith::add_of::<A>(sum, term)) * scale,
            true_sum + true_term,
        ) <= a + e + m,
{
    let s = bits::scaled_value(sum);
    let t = bits::scaled_value(term);
    let next = arith::add_of::<A>(sum, term);
    let r = bits::scaled_value(next);
    assert((s + t) * scale == s * scale + t * scale) by (nonlinear_arith);
    assert(size((s + t) * scale) <= m);
    let st = s + t;
    let top = pow2(277) as int;
    assert(-top <= st <= top) by (nonlinear_arith)
        requires
            -m <= st * scale <= m,
            m <= scale * top,
            scale >= 1,
    ;
    assert(near_sum(next, sum, term));
    let g = r - st;
    let h = size(st);
    assert(r * scale - st * scale == g * scale) by (nonlinear_arith)
        requires
            g == r - st,
    ;
    assert(-(h * scale) <= PARTS * (g * scale) <= h * scale) by (nonlinear_arith)
        requires
            -h <= PARTS * g <= h,
            scale >= 1,
    ;
    assert(h * scale == size(st * scale)) by (nonlinear_arith)
        requires
            h == size(st),
            scale >= 1,
            size(st) == if st >= 0 { st } else { -st },
            size(st * scale) == if st * scale >= 0 { st * scale } else { -(st * scale) },
    ;
    lemma_accumulate(s * scale, t * scale, r * scale, true_sum, true_term, a, e, m);
}

/// The product of a code with an element of the vector.
proof fn lemma_code_times<A: Arith>(
    dtype: QuantDtype,
    block: Seq<u8>,
    x: Seq<u32>,
    base: int,
    i: int,
)
    requires
        rounds_to_nearest::<A>(),
        moderate_block(dtype, block),
        unit_vector(x),
        0 <= i < 32,
        0 <= base + i < x.len(),
    ensures
        ({
            let r = quantize::code_times::<A>(dtype, block, x, base, i);
            let ideal = quantize::block_code(dtype, block, i) * bits::scaled_value(x[base + i]);
            let g = quantize::divisor(dtype) * pow2(150);
            &&& finite(r)
            &&& size(ideal) <= g
            &&& PARTS * distance(bits::scaled_value(r), ideal) <= 2 * g
        }),
{
    lemma_powers();
    let unit = pow2(150) as int;
    let n = quantize::divisor(dtype);
    let c = quantize::block_code(dtype, block, i);
    assert(quantize::in_range(dtype, c));
    let code = arith::int_of::<A>(c as i32);
    let v = bits::scaled_value(x[base + i]);
    let ideal = c * v;
    let g = n * unit;
    let r = bits::scaled_value(quantize::code_times::<A>(dtype, block, x, base, i));
    assert(finite(x[base + i]) && size(v) <= unit);
    assert(-g <= ideal <= g) by (nonlinear_arith)
        requires
            -n <= c <= n,
            -unit <= v <= unit,
            ideal == c * v,
            g == n * unit,
    ;
    assert(bits::scaled_value(code) * v == ideal * unit) by (nonlinear_arith)
        requires
            bits::scaled_value(code) == c * unit,
            ideal == c * v,
    ;
    assert(-(127 * (unit * unit)) <= ideal * unit <= 127 * (unit * unit)) by (nonlinear_arith)
        requires
            -g <= ideal <= g,
            g == n * unit,
            0 < n <= 127,
            unit > 0,
    ;
    assert(near_product(quantize::code_times::<A>(dtype, block, x, base, i), code, x[base + i]));
    let far = r - ideal;
    let h = size(ideal);
    assert(size(ideal * unit) == h * unit) by (nonlinear_arith)
        requires
            h == if ideal >= 0 { ideal } else { -ideal },
            size(ideal * unit) == if ideal * unit >= 0 { ideal * unit } else { -(ideal * unit) },
            unit > 0,
    ;
    assert(r * unit - ideal * unit == far * unit) by (nonlinear_arith)
        requires
            far == r - ideal,
    ;
    assert(-(h + PARTS) <= PARTS * far <= h + PARTS) by (nonlinear_arith)
        requires
            -(h * unit + PARTS * unit) <= PARTS * (far * unit) <= h * unit + PARTS * unit,
            unit > 0,
    ;
    assert(PARTS <= g) by (nonlinear_arith)
        requires
            g == n * unit,
            n >= 1,
            unit >= 0x4_0000_0000_0000,
    ;
}

/// The sum of the codes of a block times the elements of the vector, without
/// rounding, is no larger than the number of elements allows.
proof fn lemma_block_sum_size<A: Arith>(
    dtype: QuantDtype,
    block: Seq<u8>,
    x: Seq<u32>,
    base: int,
    n: int,
)
    requires
        rounds_to_nearest::<A>(),
        moderate_block(dtype, block),
        unit_vector(x),
        0 <= n <= 32,
        0 <= base,
        base + n <= x.len(),
    ensures
        size(block_sum(scaled(), dtype, block, x, base, n)) <= n * (quantize::divisor(dtype) * pow2(
            150,
        )),
    decreases n,
{
    let g = quantize::divisor(dtype) * pow2(150);
    if n > 0 {
        lemma_block_sum_size::<A>(dtype, block, x, base, n - 1);
        lemma_code_times::<A>(dtype, block, x, base, n - 1);
        assert(n * g == (n - 1) * g + g) by (nonlinear_arith);
    } else {
        assert(0 * g == 0);
    }
}

/// The rounded sum over the first `n` elements of a Q8_0 block.
proof fn lemma_block_dot_q8<A: Arith>(block: Seq<u8>, x: Seq<u32>, base: int, n: int)
    requires
        rounds_to_nearest::<A>(),
        moderate_block(QuantDtype::Q8_0, block),
        unit_vector(x),
        0 <= n <= 32,
        0 <= base,
        base + n <= x.len(),
    ensures
        ({
            let r = quantize::block_dot_upto::<A>(QuantDtype::Q8_0, block, x, base, n);
            let g = 127 * pow2(150) as int;
            &&& finite(r)
            &&& PARTS * distance(
                bits::scaled_value(r),
                block_sum(scaled(), QuantDtype::Q8_0, block, x, base, n),
            ) <= (n * n + 3 * n) * g
        }),
    decreases n,
{
    lemma_powers();
    let dtype = QuantDtype::Q8_0;
    let g = 127 * pow2(150) as int;
    if n > 0 {
        let i = n - 1;
        lemma_block_dot_q8::<A>(block, x, base, i);
        lemma_code_times::<A>(dtype, block, x, base, i);
        lemma_block_sum_size::<A>(dtype, block, x, base, n);
        let sum = quantize::block_dot_upto::<A>(dtype, block, x, base, i);
        let term = quantize::code_times::<A>(dtype, block, x, base, i);
        let a = (i * i + 3 * i) * g;
        let m = 2 * (n * g);
        assert(a + 2 * g + m == (n * n + 3 * n) * g) by (nonlinear_arith)
            requires
                a == (i * i + 3 * i) * g,
                m == 2 * (n * g),
                i == n - 1,
        ;
        assert(a + 2 * g <= PARTS * (n * g)) by (nonlinear_arith)
            requires
                a == (i * i + 3 * i) * g,
                i == n - 1,
                1 <= n <= 32,
                g > 0,
        ;
        assert(m <= pow2(277)) by {
            lemma_in_range(n * 127);
            assert(n * g == (n * 127) * pow2(150)) by (nonlinear_arith)
                requires
                    g == 127 * pow2(150),
            ;
        }
        lemma_add::<A>(
            sum,
            term,
            block_sum(scaled(), dtype, block, x, base, i),
            quantize::block_code(dtype, block, i) * bits::scaled_value(x[base + i]),
            a,
            2 * g,
            m,
            1,
        );
    } else {
        assert(0 * g == 0);
        vstd::arithmetic::mul::lemma_mul_basics(pow2(1) as int);
    }
}

/// A few thousand units are far below the largest number.
proof fn lemma_in_range(k: int)
    requires
        0 <= k <= 0x1000_0000,
    ensures
        2 * (k * pow2(150)) <= pow2(277),
        2 * (k * (pow2(150) * pow2(150))) <= pow2(150) * pow2(277),
{
    lemma_powers();
    let unit = pow2(150) as int;
    vstd::arithmetic::power2::lemma2_to64();
    vstd::arithmetic::power2::lemma_pow2_strictly_increases(29, 127);
    assert(2 * (k * unit) <= unit * pow2(127)) by (nonlinear_arith)
        requires
            0 <= k <= 0x1000_0000,
            pow2(127) >= 0x2000_0000,
            unit > 0,
    ;
    let top = pow2(277) as int;
    assert(2 * (k * (unit * unit)) <= unit * top) by (nonlinear_arith)
        requires
            2 * (k * unit) <= top,
            unit > 0,
    ;
}

/// The rounded sum over the first `n` pairs of elements of a Q4_0 block.
proof fn lemma_block_dot_q4<A: Arith>(block: Seq<u8>, x: Seq<u32>, base: int, n: int)
    requires
        rounds_to_nearest::<A>(),
        moderate_block(QuantDtype::Q4_0, block),
        unit_vector(x),
        0 <= n <= 16,
        0 <= base,
        base + 2 * n <= x.len(),
    ensures
        ({
            let r = quantize::block_dot_upto::<A>(QuantDtype::Q4_0, block, x, base, n);
            let g = 8 * pow2(150) as int;
            &&& finite(r)
            &&& PARTS * distance(
                bits::scaled_value(r),
                block_sum(scaled(), QuantDtype::Q4_0, block, x, base, 2 * n),
            ) <= (2 * (n * n) + 9 * n) * g
        }),
    decreases n,
{
    lemma_powers();
    reveal_with_fuel(block_sum, 3);
    let dtype = QuantDtype::Q4_0;
    let g = 8 * pow2(150) as int;
    if n > 0 {
        let k = n - 1;
        let i = 2 * k;
        lemma_block_dot_q4::<A>(block, x, base, k);
        lemma_code_times::<A>(dtype, block, x, base, i);
        lemma_code_times::<A>(dtype, block, x, base, i + 1);
        lemma_block_sum_size::<A>(dtype, block, x, base, 2 * n);
        let sum = quantize::block_dot_upto::<A>(dtype, block, x, base, k);
        let lo = quantize::code_times::<A>(dtype, block, x, base, i);
        let hi = quantize::code_times::<A>(dtype, block, x, base, i + 1);
        let p = quantize::block_code(dtype, block, i) * bits::scaled_value(x[base + i]);
        let q = quantize::block_code(dtype, block, i + 1) * bits::scaled_value(x[base + i + 1]);
        lemma_in_range(1000);
        lemma_add::<A>(lo, hi, p, q, 2 * g, 2 * g, 3 * g, 1);
        let a = (2 * (k * k) + 9 * k) * g;
        let m = 4 * (n * g);
        assert(a + 7 * g + m == (2 * (n * n) + 9 * n) * g) by (nonlinear_arith)
            requires
                a == (2 * (k * k) + 9 * k) * g,
                m == 4 * (n * g),
                k == n - 1,
        ;
        assert(a + 7 * g <= PARTS * (n * g)) by (nonlinear_arith)
            requires
                a == (2 * (k * k) + 9 * k) * g,
                k == n - 1,
                1 <= n <= 16,
                g > 0,
        ;
        assert(2 * n * g == 2 * (n * g)) by (nonlinear_arith);
        assert(m <= pow2(277)) by {
            lemma_in_range(n * 16);
            assert(4 * (n * g) == 2 * ((n * 16) * pow2(150))) by (nonlinear_arith)
                requires
                    g == 8 * pow2(150),
            ;
        }
        assert(block_sum(scaled(), dtype, block, x, base, i + 1) == block_sum(
            scaled(),
            dtype,
            block,
            x,
            base,
            i,
        ) + p);
        assert(block_sum(scaled(), dtype, block, x, base, i + 2) == block_sum(
            scaled(),
            dtype,
            block,
            x,
            base,
            i + 1,
        ) + q);
        lemma_add::<A>(
            sum,
            arith::add_of::<A>(lo, hi),
            block_sum(scaled(), dtype, block, x, base, i),
            p + q,
            a,
            7 * g,
            m,
            1,
        );
    } else {
        assert(0 * g == 0);
        vstd::arithmetic::mul::lemma_mul_basics(pow2(1) as int);
    }
}

/// The scale of a block times the rounded sum over its elements.
proof fn lemma_block_product<A: Arith>(dtype: QuantDtype, block: Seq<u8>, x: Seq<u32>, base: int)
    requires
        rounds_to_nearest::<A>(),
        moderate_block(dtype, block),
        unit_vector(x),
        0 <= base,
        base + 32 <= x.len(),
    ensures
        ({
            let d = quantize::block_scale(block);
            let r = arith::mul_of::<A>(
                d,
                quantize::block_dot_upto::<A>(
                    dtype,
                    block,
                    x,
                    base,
                    quantize::block_steps(dtype),
                ),
            );
            let ideal = bits::scaled_value(d) * block_sum(scaled(), dtype, block, x, base, 32);
            let square = pow2(150) * pow2(150);
            &&& finite(r)
            &&& 1000 * size(ideal) <= 32032 * square
            &&& PARTS * distance(bits::scaled_value(r) * pow2(150), ideal) <= 1156 * square
        }),
{
    lemma_powers();
    let unit = pow2(150) as int;
    let n = quantize::divisor(dtype);
    let g = n * unit;
    let d = quantize::block_scale(block);
    let s = bits::scaled_value(d);
    let dot = quantize::block_dot_upto::<A>(dtype, block, x, base, quantize::block_steps(dtype));
    let b = bits::scaled_value(dot);
    let z = block_sum(scaled(), dtype, block, x, base, 32);
    lemma_block_sum_size::<A>(dtype, block, x, base, 32);
    assert(g > 0) by (nonlinear_arith)
        requires
            g == n * unit,
            n > 0,
            unit > 0,
    ;
    match dtype {
        QuantDtype::Q8_0 => {
            lemma_block_dot_q8::<A>(block, x, base, 32);
            assert((32 * 32 + 3 * 32) * g == 1120 * g);
        },
        QuantDtype::Q4_0 => {
            lemma_block_dot_q4::<A>(block, x, base, 16);
            assert((2 * (16 * 16) + 9 * 16) * g == 656 * g);
        },
    }
    assert(PARTS * distance(b, z) <= 1120 * g);
    let square = unit * unit;
    let sg = size(s) * g;
    assert(1000 * sg <= 1001 * square) by (nonlinear_arith)
        requires
            1000 * (n * size(s)) <= 1001 * unit,
            sg == size(s) * g,
            g == n * unit,
            square == unit * unit,
            unit > 0,
    ;
    assert(-(32 * sg) <= s * z <= 32 * sg) by (nonlinear_arith)
        requires
            -size(s) <= s <= size(s),
            -(32 * g) <= z <= 32 * g,
            sg == size(s) * g,
    ;
    let f = b - z;
    assert(-(1120 * sg) <= PARTS * (s * f) <= 1120 * sg) by (nonlinear_arith)
        requires
            -size(s) <= s <= size(s),
            -(1120 * g) <= PARTS * f <= 1120 * g,
            sg == size(s) * g,
    ;
    assert(s * b == s * z + s * f) by (nonlinear_arith)
        requires
            f == b - z,
    ;
    assert(square >= PARTS * unit) by (nonlinear_arith)
        requires
            square == unit * unit,
            unit >= 0x4_0000_0000_0000,
    ;
    assert(unit > 0);
    let r = arith::mul_of::<A>(d, dot);
    assert(size(s * b) <= 33 * square);
    assert(near_product(r, d, dot));
}

/// A row's exact product is no larger than the number of elements allows.
proof fn lemma_weighted_size<A: Arith>(dtype: QuantDtype, row: Seq<u8>, x: Seq<u32>, n: int)
    requires
        rounds_to_nearest::<A>(),
        unit_vector(x),
        0 <= n <= x.len(),
        moderate_row(dtype, row, x.len() as int / 32),
        x.len() % 32 == 0,
    ensures
        1000 * size(weighted_sum(scaled(), dtype, row, x, n)) <= 1001 * (n * (pow2(150) * pow2(150))),
    decreases n,
{
    let unit = pow2(150) as int;
    let square = unit * unit;
    if n > 0 {
        let i = n - 1;
        lemma_weighted_size::<A>(dtype, row, x, i);
        let block = quantize::bytes_of_block(dtype, row, i / 32);
        assert(moderate_block(dtype, block));
        let c = row_code(dtype, row, i);
        assert(quantize::in_range(dtype, quantize::block_code(dtype, block, i % 32)));
        let s = bits::scaled_value(row_scale(dtype, row, i));
        let v = bits::scaled_value(x[i]);
        assert(finite(x[i]) && size(v) <= unit);
        lemma_term_size(quantize::divisor(dtype), c, s, v);
        assert(n * square == i * square + square) by (nonlinear_arith)
            requires
                i == n - 1,
        ;
    } else {
        assert(0 * square == 0);
    }
}

/// The size of a code times a scale times an element.
proof fn lemma_term_size(n: int, c: int, s: int, v: int)
    requires
        n > 0,
        -n <= c <= n,
        1000 * (n * size(s)) <= 1001 * pow2(150),
        size(v) <= pow2(150),
    ensures
        1000 * size(c * s) <= 1001 * pow2(150),
        1000 * size((c * s) * v) <= 1001 * (pow2(150) * pow2(150)),
{
    let unit = pow2(150) as int;
    let h = size(s);
    let cs = c * s;
    assert(-(n * h) <= cs <= n * h) by (nonlinear_arith)
        requires
            -n <= c <= n,
            -h <= s <= h,
            cs == c * s,
    ;
    let csv = cs * v;
    assert(-(1001 * (unit * unit)) <= 1000 * csv <= 1001 * (unit * unit)) by (nonlinear_arith)
        requires
            -(1001 * unit) <= 1000 * cs <= 1001 * unit,
            -unit <= v <= unit,
            csv == cs * v,
    ;
}

/// The rounded sum over the first `n` blocks of a row.
proof fn lemma_row<A: Arith>(dtype: QuantDtype, row: Seq<u8>, x: Seq<u32>, n: int)
    requires
        rounds_to_nearest::<A>(),
        unit_vector(x),
        0 <= n <= 1000,
        n * 32 <= x.len(),
        x.len() % 32 == 0,
        moderate_row(dtype, row, x.len() as int / 32),
    ensures
        finite(quantize::row_dot_upto::<A>(dtype, row, x, n)),
        PARTS * distance(
            bits::scaled_value(quantize::row_dot_upto::<A>(dtype, row, x, n)) * pow2(150),
            weighted_sum(scaled(), dtype, row, x, n * 32),
        ) <= (32 * (n * n) + 1188 * n) * (pow2(150) * pow2(150)),
    decreases n,
{
    lemma_powers();
    let unit = pow2(150) as int;
    let square = unit * unit;
    assert(square > 0) by (nonlinear_arith)
        requires
            unit > 0,
            square == unit * unit,
    ;
    if n > 0 {
        let b = n - 1;
        lemma_row::<A>(dtype, row, x, b);
        let block = quantize::bytes_of_block(dtype, row, b);
        assert(moderate_block(dtype, block));
        lemma_block_product::<A>(dtype, block, x, b * 32);
        lemma_scale_once(scaled(), dtype, row, x, b, 32);
        lemma_weighted_size::<A>(dtype, row, x, n * 32);
        let d = quantize::block_scale(block);
        let sum = quantize::row_dot_upto::<A>(dtype, row, x, b);
        let term = arith::mul_of::<A>(
            d,
            quantize::block_dot_upto::<A>(dtype, block, x, b * 32, quantize::block_steps(dtype)),
        );
        let a = (32 * (b * b) + 1188 * b) * square;
        let m = 64 * (n * square);
        assert(a + 1156 * square + m == (32 * (n * n) + 1188 * n) * square) by (nonlinear_arith)
            requires
                a == (32 * (b * b) + 1188 * b) * square,
                m == 64 * (n * square),
                b == n - 1,
        ;
        assert(a + 1156 * square <= PARTS * (n * square)) by (nonlinear_arith)
            requires
                a == (32 * (b * b) + 1188 * b) * square,
                b == n - 1,
                1 <= n <= 1000,
                square > 0,
        ;
        assert((n * 32) * square == 32 * (n * square)) by (nonlinear_arith);
        assert(m <= unit * pow2(277)) by {
            lemma_in_range(32 * n);
            assert(64 * (n * square) == 2 * ((32 * n) * square)) by (nonlinear_arith);
        }
        lemma_add::<A>(
            sum,
            term,
            weighted_sum(scaled(), dtype, row, x, b * 32),
            bits::scaled_value(d) * block_sum(scaled(), dtype, block, x, b * 32, 32),
            a,
            1156 * square,
            m,
            unit,
        );
    } else {
        assert(0 * square == 0);
        assert(0 * unit == 0);
        vstd::arithmetic::mul::lemma_mul_basics(pow2(1) as int);
    }
}

/// One term of the product of the dequantized row.
proof fn lemma_dense_term<A: Arith>(dtype: QuantDtype, row: Seq<u8>, x: Seq<u32>, i: int)
    requires
        rounds_to_nearest::<A>(),
        unit_vector(x),
        0 <= i < x.len(),
        x.len() % 32 == 0,
        moderate_row(dtype, row, x.len() as int / 32),
    ensures
        ({
            let term = arith::mul_of::<A>(quantize::dequantized_at::<A>(dtype, row, i), x[i]);
            let ideal = (row_code(dtype, row, i) * bits::scaled_value(row_scale(dtype, row, i)))
                * bits::scaled_value(x[i]);
            &&& finite(term)
            &&& PARTS * distance(bits::scaled_value(term) * pow2(150), ideal) <= 3 * (pow2(150)
                * pow2(150))
        }),
{
    lemma_powers();
    let unit = pow2(150) as int;
    let square = unit * unit;
    assert(square >= 0x1000 * (PARTS * unit)) by (nonlinear_arith)
        requires
            square == unit * unit,
            unit >= 0x4_0000_0000_0000,
    ;
    let block = quantize::bytes_of_block(dtype, row, i / 32);
    assert(moderate_block(dtype, block));
    let c = row_code(dtype, row, i);
    assert(quantize::in_range(dtype, quantize::block_code(dtype, block, i % 32)));
    let code = arith::int_of::<A>(c as i32);
    let d = row_scale(dtype, row, i);
    let s = bits::scaled_value(d);
    let v = bits::scaled_value(x[i]);
    assert(finite(x[i]) && size(v) <= unit);
    lemma_term_size(quantize::divisor(dtype), c, s, v);
    // The dequantized weight.
    let y = quantize::dequantized_at::<A>(dtype, row, i);
    let w = bits::scaled_value(y);
    let cs = c * s;
    assert(bits::scaled_value(code) * s == cs * unit) by (nonlinear_arith)
        requires
            bits::scaled_value(code) == c * unit,
            cs == c * s,
    ;
    let h = size(cs);
    assert(size(cs * unit) == h * unit) by (nonlinear_arith)
        requires
            h == if cs >= 0 { cs } else { -cs },
            size(cs * unit) == if cs * unit >= 0 { cs * unit } else { -(cs * unit) },
            unit > 0,
    ;
    assert(h * unit <= 2 * square) by (nonlinear_arith)
        requires
            1000 * h <= 1001 * unit,
            square == unit * unit,
            unit > 0,
    ;
    assert(near_product(y, code, d));
    let e = w - cs;
    assert(w * unit - cs * unit == e * unit) by (nonlinear_arith)
        requires
            e == w - cs,
    ;
    assert(-(h + PARTS) <= PARTS * e <= h + PARTS) by (nonlinear_arith)
        requires
            -(h * unit + PARTS * unit) <= PARTS * (e * unit) <= h * unit + PARTS * unit,
            unit > 0,
    ;
    // The product with the element.
    let wv = w * v;
    let ev = e * v;
    let csv = cs * v;
    assert(wv == csv + ev) by (nonlinear_arith)
        requires
            e == w - cs,
            wv == w * v,
            ev == e * v,
            csv == cs * v,
    ;
    assert(-((h + PARTS) * unit) <= PARTS * ev <= (h + PARTS) * unit) by (nonlinear_arith)
        requires
            -(h + PARTS) <= PARTS * e <= h + PARTS,
            -unit <= v <= unit,
            ev == e * v,
            h >= 0,
    ;
    assert((h + PARTS) * unit == h * unit + PARTS * unit) by (nonlinear_arith);
    assert(1000 * (h * unit) <= 1001 * square) by (nonlinear_arith)
        requires
            1000 * h <= 1001 * unit,
            square == unit * unit,
            unit > 0,
    ;
    assert(1000 * (PARTS * size(ev)) <= 1002 * square);
    assert(1000 * size(wv) <= 1002 * square);
    assert(near_product(arith::mul_of::<A>(y, x[i]), y, x[i]));
}

/// The rounded sum over the first `n` elements of the dequantized row.
proof fn lemma_dense<A: Arith>(dtype: QuantDtype, row: Seq<u8>, x: Seq<u32>, n: int)
    requires
        rounds_to_nearest::<A>(),
        unit_vector(x),
        0 <= n <= x.len() <= 32000,
        x.len() % 32 == 0,
        x.len() == quantize::dequantized::<A>(dtype, row).len(),
        moderate_row(dtype, row, x.len() as int / 32),
    ensures
        ({
            let r = tensor::dot_upto::<A>(quantize::dequantized::<A>(dtype, row), x, n);
            &&& finite(r)
            &&& PARTS * distance(
                bits::scaled_value(r) * pow2(150),
                weighted_sum(scaled(), dtype, row, x, n),
            ) <= (n * n + 4 * n) * (pow2(150) * pow2(150))
        }),
    decreases n,
{
    lemma_powers();
    let unit = pow2(150) as int;
    let square = unit * unit;
    assert(square > 0) by (nonlinear_arith)
        requires
            unit > 0,
            square == unit * unit,
    ;
    if n > 0 {
        let i = n - 1;
        let dense = quantize::dequantized::<A>(dtype, row);
        lemma_dense::<A>(dtype, row, x, i);
        lemma_dense_term::<A>(dtype, row, x, i);
        lemma_weighted_size::<A>(dtype, row, x, n);
        assert(dense[i] == quantize::dequantized_at::<A>(dtype, row, i));
        let a = (i * i + 4 * i) * square;
        let m = 2 * (n * square);
        assert(a + 3 * square + m == (n * n + 4 * n) * square) by (nonlinear_arith)
            requires
                a == (i * i + 4 * i) * square,
                m == 2 * (n * square),
                i == n - 1,
        ;
        assert(2 * (a + 3 * square) <= PARTS * (n * square)) by (nonlinear_arith)
            requires
                a == (i * i + 4 * i) * square,
                i == n - 1,
                1 <= n <= 32000,
                square > 0,
        ;
        lemma_in_range(n);
        lemma_add::<A>(
            tensor::dot_upto::<A>(dense, x, i),
            arith::mul_of::<A>(dense[i], x[i]),
            weighted_sum(scaled(), dtype, row, x, i),
            (row_code(dtype, row, i) * bits::scaled_value(row_scale(dtype, row, i)))
                * bits::scaled_value(x[i]),
            a,
            3 * square,
            m,
            unit,
        );
    } else {
        assert(0 * square == 0);
        assert(0 * unit == 0);
        vstd::arithmetic::mul::lemma_mul_basics(pow2(1) as int);
    }
}

/// The bound on the difference between the two products of a row of `n` blocks, in
/// parts of 1.
pub open spec fn fused_bound(n: int) -> int {
    1056 * (n * n) + 1316 * n
}

/// Where every operation rounds to nearest, the fused product of a row of blocks
/// with a vector of numbers between -1 and 1 is as close to the sum of code times
/// scale times element as the number of blocks allows, and to the dot product of
/// the dequantized row with the vector.
pub proof fn law_fused_row_nearest<A: Arith>(dtype: QuantDtype, row: Seq<u8>, x: Seq<u32>)
    requires
        rounds_to_nearest::<A>(),
        unit_vector(x),
        x.len() <= 32000,
        x.len() == row.len() as int / dtype.block_len() * 32,
        moderate_row(dtype, row, row.len() as int / dtype.block_len()),
    ensures
        ({
            let n = row.len() as int / dtype.block_len();
            PARTS * distance(
                bits::scaled_value(quantize::row_dot::<A>(dtype, row, x)) * pow2(150),
                weighted_sum(scaled(), dtype, row, x, n * 32),
            ) <= (32 * (n * n) + 1188 * n) * (pow2(150) * pow2(150))
        }),
        PARTS * distance(
            bits::scaled_value(quantize::row_dot::<A>(dtype, row, x)),
            bits::scaled_value(
                tensor::dot_of::<A>(quantize::dequantized::<A>(dtype, row), x),
            ),
        ) <= fused_bound(row.len() as int / dtype.block_len()) * pow2(150),
{
    lemma_powers();
    let unit = pow2(150) as int;
    let square = unit * unit;
    let n = row.len() as int / dtype.block_len();
    assert(n >= 0);
    lemma_row::<A>(dtype, row, x, n);
    lemma_dense::<A>(dtype, row, x, n * 32);
    let fused = bits::scaled_value(quantize::row_dot::<A>(dtype, row, x));
    let dense = bits::scaled_value(
        tensor::dot_of::<A>(quantize::dequantized::<A>(dtype, row), x),
    );
    let k = n * 32;
    assert((32 * (n * n) + 1188 * n) * square + (k * k + 4 * k) * square == (fused_bound(n) * unit)
        * unit) by (nonlinear_arith)
        requires
            k == n * 32,
            fused_bound(n) == 1056 * (n * n) + 1316 * n,
            square == unit * unit,
    ;
    let far = fused - dense;
    let bound = fused_bound(n) * unit;
    assert(fused * unit - dense * unit == far * unit) by (nonlinear_arith)
        requires
            far == fused - dense,
    ;
    assert(-bound <= PARTS * far <= bound) by (nonlinear_arith)
        requires
            -(bound * unit) <= PARTS * (far * unit) <= bound * unit,
            unit > 0,
    ;
}

/// Quantizing numbers between -1 and 1 gives a moderate block.
proof fn lemma_quantized_is_moderate<A: Arith>(dtype: QuantDtype, w: Seq<u32>, k: int)
    requires
        rounds_to_nearest::<A>(),
        unit_vector(w),
        w.len() % 32 == 0,
        0 <= k < w.len() as int / 32,
    ensures
        moderate_block(
            dtype,
            quantize::bytes_of_block(dtype, quantize::quantized::<A>(dtype, w), k),
        ),
{
    lemma_powers();
    lemma_constants();
    let unit = pow2(150) as int;
    let elements = quantize::elements_of_block(w, k);
    quantize::lemma_quantized_blocks::<A>(dtype, w, w.len() as int / 32, k);
    quantize::lemma_codes_in_range::<A>(dtype, elements);
    let d = quantize::scale_of::<A>(dtype, elements);
    quantize::law_block_roundtrip(dtype, d, quantize::codes_of::<A>(dtype, elements));
    // The scale.
    let max = quantize::abs_max(elements);
    let top = bits::scaled_value(max);
    quantize::law_abs_max(elements);
    if max != bits::ZERO {
        let j = choose|j: int|
            0 <= j < elements.len() && bits::abs_of(#[trigger] elements[j]) == max;
        assert(elements[j] == w[k * 32 + j]);
        assert(finite(w[k * 32 + j]));
        bits::law_magnitudes_order_values(elements[j], elements[j]);
    } else {
        vstd::arithmetic::mul::lemma_mul_basics(pow2(1) as int);
    }
    assert(0 <= top <= unit && finite(max));
    let n = quantize::divisor(dtype);
    let s = bits::scaled_value(d);
    assert(top <= n * unit * pow2(127)) by (nonlinear_arith)
        requires
            top <= unit,
            n >= 1,
            pow2(127) >= 1,
            unit > 0,
    ;
    assert(n * unit > 0) by (nonlinear_arith)
        requires
            n >= 1,
            unit > 0,
    ;
    assert(PARTS * distance(s * (n * unit), top * unit) <= top * unit + PARTS * (n * unit)) by {
        assert(near_quotient(
            d,
            max,
            match dtype {
                QuantDtype::Q8_0 => bits::ONE_TWENTY_SEVEN,
                QuantDtype::Q4_0 => bits::EIGHT,
            },
        ));
    }
    let far = n * s - top;
    assert(s * (n * unit) - top * unit == far * unit) by (nonlinear_arith)
        requires
            far == n * s - top,
    ;
    assert(-(top + PARTS * n) <= PARTS * far <= top + PARTS * n) by (nonlinear_arith)
        requires
            -(top * unit + PARTS * (n * unit)) <= PARTS * (far * unit) <= top * unit + PARTS * (n
                * unit),
            unit > 0,
    ;
    assert(n * size(s) == size(n * s)) by (nonlinear_arith)
        requires
            n >= 1,
            size(s) == if s >= 0 { s } else { -s },
            size(n * s) == if n * s >= 0 { n * s } else { -(n * s) },
    ;
}

/// Row `i` of a matrix of numbers between -1 and 1, quantized, is moderate.
proof fn lemma_row_is_moderate<A: Arith>(q: QuantizedView, w: Seq<u32>, i: int)
    requires
        rounds_to_nearest::<A>(),
        unit_vector(w),
        q.wf(),
        0 < q.cols,
        w.len() == q.rows * q.cols,
        q.data == quantize::quantized::<A>(q.dtype, w),
        0 <= i < q.rows,
    ensures
        ({
            let row = q.data.subrange(i * q.row_len(), i * q.row_len() + q.row_len());
            &&& row.len() as int / q.dtype.block_len() == q.cols as int / 32
            &&& moderate_row(q.dtype, row, q.cols as int / 32)
        }),
{
    lemma_dequantized_row::<A>(q, i);
    let dtype = q.dtype;
    let bb = dtype.block_len();
    let c = q.cols as int / 32;
    let len = q.row_len();
    let rows = q.rows as int;
    vstd::arithmetic::div_mod::lemma_div_by_multiple(c, bb);
    let row = q.data.subrange(i * len, i * len + len);
    assert(w.len() == (rows * c) * 32) by (nonlinear_arith)
        requires
            w.len() == rows * q.cols,
            q.cols == c * 32,
    ;
    assert forall|b: int| 0 <= b < c implies moderate_block(
        dtype,
        #[trigger] quantize::bytes_of_block(dtype, row, b),
    ) by {
        let k = i * c + b;
        assert(0 <= k < rows * c) by (nonlinear_arith)
            requires
                k == i * c + b,
                0 <= b < c,
                0 <= i,
                i + 1 <= rows,
        ;
        lemma_quantized_is_moderate::<A>(dtype, w, k);
        assert(k * bb == i * len + b * bb) by (nonlinear_arith)
            requires
                k == i * c + b,
                len == c * bb,
        ;
        assert(0 <= b * bb && b * bb + bb <= len) by (nonlinear_arith)
            requires
                0 <= b,
                b + 1 <= c,
                len == c * bb,
                bb > 0,
        ;
        assert(quantize::bytes_of_block(dtype, row, b) =~= quantize::bytes_of_block(
            dtype,
            q.data,
            k,
        ));
    }
}

/// The bound for two blocks is less than a thousandth.
proof fn lemma_two_blocks(far: int)
    requires
        0 <= far,
        PARTS * far <= fused_bound(2) * pow2(150),
    ensures
        1000 * far < pow2(150),
{
    lemma_powers();
    assert(fused_bound(2) == 6856) by (nonlinear_arith)
        requires
            fused_bound(2) == 1056 * (2 * 2) + 1316 * 2,
    ;
    let b = fused_bound(2);
    let unit = pow2(150) as int;
    assert(1000 * far < unit) by (nonlinear_arith)
        requires
            PARTS * far <= b * unit,
            PARTS == 0x100_0000,
            b == 6856,
            unit > 0,
    ;
}

/// Where every operation rounds to nearest, the fused product of a quantized matrix
/// with a vector is as close to the product of the dequantized matrix with it as
/// the number of columns allows, if all weights and elements are between -1 and 1.
/// With 64 columns the two differ by less than a thousandth.
pub proof fn law_fused_matvec_nearest<A: Arith>(
    q: QuantizedView,
    w: Seq<u32>,
    x: Seq<u32>,
    i: int,
)
    requires
        rounds_to_nearest::<A>(),
        unit_vector(w),
        unit_vector(x),
        q.wf(),
        0 < q.cols == x.len() <= 32000,
        w.len() == q.rows * q.cols,
        q.data == quantize::quantized::<A>(q.dtype, w),
        0 <= i < q.rows,
    ensures
        quantize::quant_matvec_of::<A>(q, x).len() == q.rows,
        tensor::matvec_of::<A>(quantize::dequantized::<A>(q.dtype, q.data), x).len() == q.rows,
        ({
            let fused = quantize::quant_matvec_of::<A>(q, x)[i];
            let dense = tensor::matvec_of::<A>(quantize::dequantized::<A>(q.dtype, q.data), x)[i];
            let far = distance(bits::scaled_value(fused), bits::scaled_value(dense));
            &&& PARTS * far <= fused_bound(q.cols as int / 32) * pow2(150)
            &&& q.cols == 64 ==> 1000 * far < pow2(150)
        }),
{
    lemma_dequantized_row::<A>(q, i);
    lemma_row_is_moderate::<A>(q, w, i);
    vstd::arithmetic::div_mod::lemma_div_by_multiple(q.rows as int, q.cols as int);
    let row = q.data.subrange(i * q.row_len(), i * q.row_len() + q.row_len());
    law_fused_row_nearest::<A>(q.dtype, row, x);
    let fused = quantize::quant_matvec_of::<A>(q, x)[i];
    let dense = tensor::matvec_of::<A>(quantize::dequantized::<A>(q.dtype, q.data), x)[i];
    assert(fused == quantize::row_dot::<A>(q.dtype, row, x));
    assert(dense == tensor::dot_of::<A>(quantize::dequantized::<A>(q.dtype, row), x));
    let far = distance(bits::scaled_value(fused), bits::scaled_value(dense));
    assert(PARTS * far <= fused_bound(q.cols as int / 32) * pow2(150));
    if q.cols == 64 {
        assert(q.cols as int / 32 == 2);
        lemma_two_blocks(far);
    }
}

} // verus!
