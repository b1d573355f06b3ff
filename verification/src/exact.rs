//! What the kernels compute where nothing is rounded.
//!
//! Two ways of computing the same number agree up to rounding, and no further.
//! The laws here speak of an arithmetic that adds, subtracts and multiplies in
//! the integers modulo `m`, where the two ways can be compared: that they agree
//! there, for every modulus, says that they are the same polynomial of their
//! inputs.

use vstd::prelude::*;

use crate::arith;
use crate::arith::Arith;
use crate::bits;
use crate::quantize;
use crate::quantize::{QuantDtype, QuantizedView};
use crate::rope;
use crate::tensor;

verus! {

/// Whether two integers are the same modulo `m`.
pub open spec fn same(a: int, b: int, m: int) -> bool {
    (a - b) % m == 0
}

/// Whether the arithmetic is that of the integers modulo `m`, where `value`
/// says which integer a bit pattern stands for.
pub open spec fn exact<A: Arith>(value: spec_fn(u32) -> int, m: int) -> bool {
    &&& m > 0
    &&& forall|a: u32, b: u32|
        same(value(#[trigger] arith::add_of::<A>(a, b)), value(a) + value(b), m)
    &&& forall|a: u32, b: u32|
        same(value(#[trigger] arith::sub_of::<A>(a, b)), value(a) - value(b), m)
    &&& forall|a: u32, b: u32|
        same(value(#[trigger] arith::mul_of::<A>(a, b)), value(a) * value(b), m)
    &&& forall|n: i32| same(value(#[trigger] arith::int_of::<A>(n)), n as int, m)
    &&& same(value(bits::ZERO), 0, m)
    &&& same(value(bits::NEG_ZERO), 0, m)
}

pub(crate) proof fn lemma_same(a: int, b: int, m: int)
    requires
        m > 0,
        same(a, b, m),
    ensures
        a - b == m * ((a - b) / m),
{
    vstd::arithmetic::div_mod::lemma_fundamental_div_mod(a - b, m);
}

pub(crate) proof fn lemma_same_by(a: int, b: int, k: int, m: int)
    requires
        m > 0,
        a - b == m * k,
    ensures
        same(a, b, m),
{
    vstd::arithmetic::div_mod::lemma_mod_multiples_basic(k, m);
    assert(m * k == k * m) by (nonlinear_arith);
}

pub(crate) proof fn lemma_same_refl(a: int, m: int)
    requires
        m > 0,
    ensures
        same(a, a, m),
{
    lemma_same_by(a, a, 0, m);
}

pub(crate) proof fn lemma_same_trans(a: int, b: int, c: int, m: int)
    requires
        m > 0,
        same(a, b, m),
        same(b, c, m),
    ensures
        same(a, c, m),
        same(b, a, m),
{
    lemma_same(a, b, m);
    lemma_same(b, c, m);
    let j = (a - b) / m;
    let k = (b - c) / m;
    assert(m * j + m * k == m * (j + k)) by (nonlinear_arith);
    assert(-(m * j) == m * (-j)) by (nonlinear_arith);
    lemma_same_by(a, c, j + k, m);
    lemma_same_by(b, a, -j, m);
}

pub(crate) proof fn lemma_same_ops(a: int, b: int, c: int, d: int, m: int)
    requires
        m > 0,
        same(a, b, m),
        same(c, d, m),
    ensures
        same(a + c, b + d, m),
        same(a - c, b - d, m),
        same(a * c, b * d, m),
{
    lemma_same(a, b, m);
    lemma_same(c, d, m);
    let j = (a - b) / m;
    let k = (c - d) / m;
    assert(m * j + m * k == m * (j + k)) by (nonlinear_arith);
    assert(m * j - m * k == m * (j - k)) by (nonlinear_arith);
    assert(a * c - b * d == m * (j * c + b * k)) by (nonlinear_arith)
        requires
            a - b == m * j,
            c - d == m * k,
    ;
    lemma_same_by(a + c, b + d, j + k, m);
    lemma_same_by(a - c, b - d, j - k, m);
    lemma_same_by(a * c, b * d, j * c + b * k, m);
}

pub(crate) proof fn lemma_ops<A: Arith>(
    value: spec_fn(u32) -> int,
    m: int,
    a: u32,
    x: int,
    b: u32,
    y: int,
)
    requires
        exact::<A>(value, m),
        same(value(a), x, m),
        same(value(b), y, m),
    ensures
        same(value(arith::add_of::<A>(a, b)), x + y, m),
        same(value(arith::sub_of::<A>(a, b)), x - y, m),
        same(value(arith::mul_of::<A>(a, b)), x * y, m),
{
    lemma_same_ops(value(a), x, value(b), y, m);
    lemma_same_trans(value(arith::add_of::<A>(a, b)), value(a) + value(b), x + y, m);
    lemma_same_trans(value(arith::sub_of::<A>(a, b)), value(a) - value(b), x - y, m);
    lemma_same_trans(value(arith::mul_of::<A>(a, b)), value(a) * value(b), x * y, m);
}

/// The sum of the products of `n` pairs from `start` on.
pub open spec fn pairs_sum(
    value: spec_fn(u32) -> int,
    a: Seq<u32>,
    b: Seq<u32>,
    start: int,
    n: int,
) -> int
    decreases n,
{
    if n <= 0 {
        0
    } else {
        pairs_sum(value, a, b, start, n - 1) + value(a[start + n - 1]) * value(b[start + n - 1])
    }
}

/// Without rounding, the dot product is the sum of the products.
pub proof fn law_dot_is_exact<A: Arith>(
    value: spec_fn(u32) -> int,
    m: int,
    a: Seq<u32>,
    b: Seq<u32>,
    n: int,
)
    requires
        exact::<A>(value, m),
    ensures
        same(value(tensor::dot_upto::<A>(a, b, n)), pairs_sum(value, a, b, 0, n), m),
    decreases n,
{
    if n > 0 {
        law_dot_is_exact::<A>(value, m, a, b, n - 1);
        let before = tensor::dot_upto::<A>(a, b, n - 1);
        let term = arith::mul_of::<A>(a[n - 1], b[n - 1]);
        let sum = pairs_sum(value, a, b, 0, n - 1);
        lemma_ops::<A>(value, m, before, sum, term, value(a[n - 1]) * value(b[n - 1]));
    }
}

/// The code that a row of blocks holds for its element `i`.
pub open spec fn row_code(dtype: QuantDtype, row: Seq<u8>, i: int) -> int {
    quantize::block_code(dtype, quantize::bytes_of_block(dtype, row, i / 32), i % 32)
}

/// The scale of the block that holds element `i` of a row.
pub open spec fn row_scale(dtype: QuantDtype, row: Seq<u8>, i: int) -> u32 {
    quantize::block_scale(quantize::bytes_of_block(dtype, row, i / 32))
}

/// The sum of code times scale times vector element over the first `n`
/// elements of a row.
pub open spec fn weighted_sum(
    value: spec_fn(u32) -> int,
    dtype: QuantDtype,
    row: Seq<u8>,
    x: Seq<u32>,
    n: int,
) -> int
    decreases n,
{
    if n <= 0 {
        0
    } else {
        weighted_sum(value, dtype, row, x, n - 1) + (row_code(dtype, row, n - 1) * value(
            row_scale(dtype, row, n - 1),
        )) * value(x[n - 1])
    }
}

/// The sum of code times vector element over the first `n` elements of a
/// block that starts at element `base`.
pub(crate) open spec fn block_sum(
    value: spec_fn(u32) -> int,
    dtype: QuantDtype,
    block: Seq<u8>,
    x: Seq<u32>,
    base: int,
    n: int,
) -> int
    decreases n,
{
    if n <= 0 {
        0
    } else {
        block_sum(value, dtype, block, x, base, n - 1) + quantize::block_code(dtype, block, n - 1)
            * value(x[base + n - 1])
    }
}

proof fn lemma_code_times<A: Arith>(
    value: spec_fn(u32) -> int,
    m: int,
    dtype: QuantDtype,
    block: Seq<u8>,
    x: Seq<u32>,
    base: int,
    i: int,
)
    requires
        exact::<A>(value, m),
    ensures
        same(
            value(quantize::code_times::<A>(dtype, block, x, base, i)),
            quantize::block_code(dtype, block, i) * value(x[base + i]),
            m,
        ),
{
    let code = quantize::block_code(dtype, block, i);
    let v = x[base + i];
    lemma_same_refl(value(v), m);
    lemma_ops::<A>(value, m, arith::int_of::<A>(code as i32), code, v, value(v));
}

/// A step of a block adds one element of a Q8_0 block and two of a Q4_0 block.
spec fn elements_per_step(dtype: QuantDtype) -> int {
    match dtype {
        QuantDtype::Q8_0 => 1,
        QuantDtype::Q4_0 => 2,
    }
}

proof fn lemma_block<A: Arith>(
    value: spec_fn(u32) -> int,
    m: int,
    dtype: QuantDtype,
    block: Seq<u8>,
    x: Seq<u32>,
    base: int,
    n: int,
)
    requires
        exact::<A>(value, m),
        n >= 0,
    ensures
        same(
            value(quantize::block_dot_upto::<A>(dtype, block, x, base, n)),
            block_sum(value, dtype, block, x, base, elements_per_step(dtype) * n),
            m,
        ),
    decreases n,
{
    reveal_with_fuel(block_sum, 3);
    if n > 0 {
        lemma_block::<A>(value, m, dtype, block, x, base, n - 1);
        let before = quantize::block_dot_upto::<A>(dtype, block, x, base, n - 1);
        match dtype {
            QuantDtype::Q8_0 => {
                let i = n - 1;
                lemma_code_times::<A>(value, m, dtype, block, x, base, i);
                lemma_ops::<A>(
                    value,
                    m,
                    before,
                    block_sum(value, dtype, block, x, base, i),
                    quantize::code_times::<A>(dtype, block, x, base, i),
                    quantize::block_code(dtype, block, i) * value(x[base + i]),
                );
            },
            QuantDtype::Q4_0 => {
                let i = 2 * (n - 1);
                lemma_code_times::<A>(value, m, dtype, block, x, base, i);
                lemma_code_times::<A>(value, m, dtype, block, x, base, i + 1);
                let lo = quantize::code_times::<A>(dtype, block, x, base, i);
                let hi = quantize::code_times::<A>(dtype, block, x, base, i + 1);
                let p = quantize::block_code(dtype, block, i) * value(x[base + i]);
                let q = quantize::block_code(dtype, block, i + 1) * value(x[base + i + 1]);
                lemma_ops::<A>(value, m, lo, p, hi, q);
                lemma_ops::<A>(
                    value,
                    m,
                    before,
                    block_sum(value, dtype, block, x, base, i),
                    arith::add_of::<A>(lo, hi),
                    p + q,
                );
                assert(2 * n == i + 2);
                assert(block_sum(value, dtype, block, x, base, i + 1) == block_sum(
                    value,
                    dtype,
                    block,
                    x,
                    base,
                    i,
                ) + p);
                assert(block_sum(value, dtype, block, x, base, i + 2) == block_sum(
                    value,
                    dtype,
                    block,
                    x,
                    base,
                    i + 1,
                ) + q);
            },
        }
    }
}

/// A scale can be applied to every element of its block, or once to their sum.
pub(crate) proof fn lemma_scale_once(
    value: spec_fn(u32) -> int,
    dtype: QuantDtype,
    row: Seq<u8>,
    x: Seq<u32>,
    b: int,
    n: int,
)
    requires
        b >= 0,
        0 <= n <= 32,
    ensures
        weighted_sum(value, dtype, row, x, b * 32 + n) == weighted_sum(
            value,
            dtype,
            row,
            x,
            b * 32,
        ) + value(quantize::block_scale(quantize::bytes_of_block(dtype, row, b))) * block_sum(
            value,
            dtype,
            quantize::bytes_of_block(dtype, row, b),
            x,
            b * 32,
            n,
        ),
    decreases n,
{
    let block = quantize::bytes_of_block(dtype, row, b);
    let d = value(quantize::block_scale(block));
    if n > 0 {
        lemma_scale_once(value, dtype, row, x, b, n - 1);
        let i = b * 32 + n - 1;
        assert(i / 32 == b && i % 32 == n - 1);
        let c = quantize::block_code(dtype, block, n - 1);
        let v = value(x[i]);
        let t = block_sum(value, dtype, block, x, b * 32, n - 1);
        assert(d * (t + c * v) == d * t + (c * d) * v) by (nonlinear_arith);
    } else {
        assert(d * 0 == 0);
    }
}

pub(crate) proof fn lemma_row<A: Arith>(
    value: spec_fn(u32) -> int,
    m: int,
    dtype: QuantDtype,
    row: Seq<u8>,
    x: Seq<u32>,
    n: int,
)
    requires
        exact::<A>(value, m),
        n >= 0,
    ensures
        same(
            value(quantize::row_dot_upto::<A>(dtype, row, x, n)),
            weighted_sum(value, dtype, row, x, n * 32),
            m,
        ),
    decreases n,
{
    if n > 0 {
        let b = n - 1;
        lemma_row::<A>(value, m, dtype, row, x, b);
        let block = quantize::bytes_of_block(dtype, row, b);
        let steps = quantize::block_steps(dtype);
        lemma_block::<A>(value, m, dtype, block, x, b * 32, steps);
        lemma_scale_once(value, dtype, row, x, b, 32);
        let d = quantize::block_scale(block);
        let dot = quantize::block_dot_upto::<A>(dtype, block, x, b * 32, steps);
        let sum = block_sum(value, dtype, block, x, b * 32, 32);
        assert(elements_per_step(dtype) * steps == 32);
        lemma_same_refl(value(d), m);
        lemma_ops::<A>(value, m, d, value(d), dot, sum);
        lemma_ops::<A>(
            value,
            m,
            quantize::row_dot_upto::<A>(dtype, row, x, b),
            weighted_sum(value, dtype, row, x, b * 32),
            arith::mul_of::<A>(d, dot),
            value(d) * sum,
        );
    }
}

proof fn lemma_dense<A: Arith>(
    value: spec_fn(u32) -> int,
    m: int,
    dtype: QuantDtype,
    row: Seq<u8>,
    x: Seq<u32>,
    n: int,
)
    requires
        exact::<A>(value, m),
        n <= quantize::dequantized::<A>(dtype, row).len(),
        n <= x.len(),
    ensures
        same(
            value(tensor::dot_upto::<A>(quantize::dequantized::<A>(dtype, row), x, n)),
            weighted_sum(value, dtype, row, x, n),
            m,
        ),
    decreases n,
{
    if n > 0 {
        let i = n - 1;
        lemma_dense::<A>(value, m, dtype, row, x, i);
        let dense = quantize::dequantized::<A>(dtype, row);
        let code = row_code(dtype, row, i);
        let c = arith::int_of::<A>(code as i32);
        let d = row_scale(dtype, row, i);
        lemma_same_refl(value(d), m);
        lemma_same_refl(value(x[i]), m);
        lemma_ops::<A>(value, m, c, code, d, value(d));
        assert(dense[i] == arith::mul_of::<A>(c, d));
        lemma_ops::<A>(value, m, dense[i], code * value(d), x[i], value(x[i]));
        lemma_ops::<A>(
            value,
            m,
            tensor::dot_upto::<A>(dense, x, i),
            weighted_sum(value, dtype, row, x, i),
            arith::mul_of::<A>(dense[i], x[i]),
            (code * value(d)) * value(x[i]),
        );
    }
}

/// Without rounding, the fused product of a row of blocks with a vector is the
/// dot product of the dequantized row with it.
pub proof fn law_fused_row<A: Arith>(
    value: spec_fn(u32) -> int,
    m: int,
    dtype: QuantDtype,
    row: Seq<u8>,
    x: Seq<u32>,
)
    requires
        exact::<A>(value, m),
        x.len() == row.len() as int / dtype.block_len() * 32,
    ensures
        same(
            value(quantize::row_dot::<A>(dtype, row, x)),
            value(tensor::dot_of::<A>(quantize::dequantized::<A>(dtype, row), x)),
            m,
        ),
{
    let n = row.len() as int / dtype.block_len();
    assert(n >= 0);
    lemma_row::<A>(value, m, dtype, row, x, n);
    lemma_dense::<A>(value, m, dtype, row, x, n * 32);
    let fused = value(quantize::row_dot::<A>(dtype, row, x));
    let dense = value(tensor::dot_of::<A>(quantize::dequantized::<A>(dtype, row), x));
    let sum = weighted_sum(value, dtype, row, x, n * 32);
    lemma_same_refl(sum, m);
    lemma_same_trans(dense, sum, sum, m);
    lemma_same_trans(fused, sum, dense, m);
}

/// Row `i` of a dequantized matrix is the dequantized row `i`.
pub(crate) proof fn lemma_dequantized_row<A: Arith>(q: QuantizedView, i: int)
    requires
        q.wf(),
        q.cols > 0,
        0 <= i < q.rows,
    ensures
        q.data.len() as int / q.row_len() == q.rows,
        quantize::dequantized::<A>(q.dtype, q.data).len() == q.rows * q.cols,
        0 <= i * q.row_len() <= i * q.row_len() + q.row_len() <= q.data.len(),
        0 <= i * q.cols <= i * q.cols + q.cols <= q.rows * q.cols,
        q.row_len() / q.dtype.block_len() * 32 == q.cols,
        quantize::dequantized::<A>(
            q.dtype,
            q.data.subrange(i * q.row_len(), i * q.row_len() + q.row_len()),
        ) == quantize::dequantized::<A>(q.dtype, q.data).subrange(
            i * q.cols,
            i * q.cols + q.cols,
        ),
{
    let dtype = q.dtype;
    let bb = dtype.block_len();
    let c = q.cols as int / 32;
    let rows = q.rows as int;
    let len = q.row_len();
    assert(len > 0) by (nonlinear_arith)
        requires
            len == c * bb,
            c > 0,
            bb > 0,
    ;
    vstd::arithmetic::div_mod::lemma_div_by_multiple(rows, len);
    vstd::arithmetic::div_mod::lemma_div_by_multiple(c, bb);
    assert(rows * len == (rows * c) * bb) by (nonlinear_arith)
        requires
            len == c * bb,
    ;
    vstd::arithmetic::div_mod::lemma_div_by_multiple(rows * c, bb);
    assert((rows * c) * 32 == rows * q.cols) by (nonlinear_arith)
        requires
            q.cols == c * 32,
    ;
    assert(0 <= i * len && i * len + len <= rows * len) by (nonlinear_arith)
        requires
            0 <= i,
            i + 1 <= rows,
            len > 0,
    ;
    assert(0 <= i * q.cols && i * q.cols + q.cols <= rows * q.cols) by (nonlinear_arith)
        requires
            0 <= i,
            i + 1 <= rows,
            q.cols > 0,
    ;
    let row = q.data.subrange(i * len, i * len + len);
    let dense = quantize::dequantized::<A>(dtype, q.data);
    let part = dense.subrange(i * q.cols, i * q.cols + q.cols);
    assert forall|j: int| 0 <= j < q.cols implies quantize::dequantized::<A>(dtype, row)[j]
        == part[j] by {
        let k = j / 32;
        let n = i * c + k;
        assert(i * q.cols == (i * c) * 32) by (nonlinear_arith)
            requires
                q.cols == c * 32,
        ;
        assert((i * q.cols + j) / 32 == n && (i * q.cols + j) % 32 == j % 32);
        assert(n * bb == i * len + k * bb) by (nonlinear_arith)
            requires
                n == i * c + k,
                len == c * bb,
        ;
        assert(0 <= k * bb && k * bb + bb <= len) by (nonlinear_arith)
            requires
                0 <= k,
                k + 1 <= c,
                len == c * bb,
                bb > 0,
        ;
        assert(quantize::bytes_of_block(dtype, row, k) =~= quantize::bytes_of_block(
            dtype,
            q.data,
            n,
        ));
    }
    assert(quantize::dequantized::<A>(dtype, row) =~= part);
}

/// Without rounding, the fused matrix-vector product is the product of the
/// dequantized matrix with the vector, row by row.
pub proof fn law_fused_matvec<A: Arith>(
    value: spec_fn(u32) -> int,
    m: int,
    q: QuantizedView,
    x: Seq<u32>,
    i: int,
)
    requires
        exact::<A>(value, m),
        q.wf(),
        0 < q.cols == x.len(),
        0 <= i < q.rows,
    ensures
        quantize::quant_matvec_of::<A>(q, x).len() == q.rows,
        tensor::matvec_of::<A>(quantize::dequantized::<A>(q.dtype, q.data), x).len() == q.rows,
        same(
            value(quantize::quant_matvec_of::<A>(q, x)[i]),
            value(tensor::matvec_of::<A>(quantize::dequantized::<A>(q.dtype, q.data), x)[i]),
            m,
        ),
{
    lemma_dequantized_row::<A>(q, i);
    vstd::arithmetic::div_mod::lemma_div_by_multiple(q.rows as int, q.cols as int);
    let row = q.data.subrange(i * q.row_len(), i * q.row_len() + q.row_len());
    law_fused_row::<A>(value, m, q.dtype, row, x);
}

proof fn lemma_pairs_split(
    value: spec_fn(u32) -> int,
    a: Seq<u32>,
    b: Seq<u32>,
    start: int,
    n: int,
    k: int,
)
    requires
        n >= 0,
        k >= 0,
    ensures
        pairs_sum(value, a, b, start, n + k) == pairs_sum(value, a, b, start, n) + pairs_sum(
            value,
            a,
            b,
            start + n,
            k,
        ),
    decreases k,
{
    if k > 0 {
        lemma_pairs_split(value, a, b, start, n, k - 1);
        assert(start + n + k - 1 == start + (n + k) - 1);
    }
}

/// The two elements of pair `i` of head `h` after a rotation.
proof fn lemma_rotated_pair<A: Arith>(
    value: spec_fn(u32) -> int,
    m: int,
    x: Seq<u32>,
    cos: Seq<u32>,
    sin: Seq<u32>,
    h: int,
    i: int,
)
    requires
        exact::<A>(value, m),
        0 <= h,
        0 <= i < cos.len(),
        h * (2 * cos.len()) + 2 * cos.len() <= x.len(),
    ensures
        ({
            let at = h * (2 * cos.len()) + i;
            let half = cos.len() as int;
            let r = rope::rotated::<A>(x, cos, sin);
            let (c, s) = (value(cos[i]), value(sin[i]));
            &&& same(value(r[at]), value(x[at]) * c - value(x[at + half]) * s, m)
            &&& same(value(r[at + half]), value(x[at + half]) * c + value(x[at]) * s, m)
        }),
{
    let half = cos.len() as int;
    let size = 2 * half;
    let at = h * size + i;
    assert(0 <= h * size) by (nonlinear_arith)
        requires
            0 <= h,
            0 <= size,
    ;
    vstd::arithmetic::div_mod::lemma_fundamental_div_mod_converse(at, size, h, i);
    vstd::arithmetic::div_mod::lemma_fundamental_div_mod_converse(at + half, size, h, i + half);
    let (x1, x2) = (x[at], x[at + half]);
    let (c, s) = (cos[i], sin[i]);
    lemma_same_refl(value(x1), m);
    lemma_same_refl(value(x2), m);
    lemma_same_refl(value(c), m);
    lemma_same_refl(value(s), m);
    lemma_ops::<A>(value, m, x1, value(x1), c, value(c));
    lemma_ops::<A>(value, m, x2, value(x2), s, value(s));
    lemma_ops::<A>(value, m, x2, value(x2), c, value(c));
    lemma_ops::<A>(value, m, x1, value(x1), s, value(s));
    lemma_ops::<A>(
        value,
        m,
        arith::mul_of::<A>(x1, c),
        value(x1) * value(c),
        arith::mul_of::<A>(x2, s),
        value(x2) * value(s),
    );
    lemma_ops::<A>(
        value,
        m,
        arith::mul_of::<A>(x2, c),
        value(x2) * value(c),
        arith::mul_of::<A>(x1, s),
        value(x1) * value(s),
    );
    let r = rope::rotated::<A>(x, cos, sin);
    assert(r[at] == rope::rotated_at::<A>(x, cos, sin, at));
    assert(r[at + half] == rope::rotated_at::<A>(x, cos, sin, at + half));
}

/// Whether rotation 2 is behind rotation 1 by the angles whose cosines and
/// sines are `c` and `s`, pair by pair: `cos(a - b) = cos a cos b + sin a sin b`
/// and `sin(a - b) = sin a cos b - cos a sin b`.
pub open spec fn differ_by(
    value: spec_fn(u32) -> int,
    m: int,
    cos1: Seq<u32>,
    sin1: Seq<u32>,
    cos2: Seq<u32>,
    sin2: Seq<u32>,
    c: spec_fn(int) -> int,
    s: spec_fn(int) -> int,
) -> bool {
    forall|i: int|
        #![trigger cos1[i]]
        0 <= i < cos1.len() ==> {
            &&& same(
                value(cos1[i]) * value(cos2[i]) + value(sin1[i]) * value(sin2[i]),
                c(i),
                m,
            )
            &&& same(
                value(sin1[i]) * value(cos2[i]) - value(cos1[i]) * value(sin2[i]),
                s(i),
                m,
            )
        }
}

/// What pair `i` of a head that starts at `b` contributes to the product of
/// `q` and `k`, turned by the angle with cosine `c` and sine `s`.
spec fn turned_pair(
    value: spec_fn(u32) -> int,
    q: Seq<u32>,
    k: Seq<u32>,
    at: int,
    half: int,
    c: int,
    s: int,
) -> int {
    (value(q[at]) * value(k[at]) + value(q[at + half]) * value(k[at + half])) * c + (value(q[at])
        * value(k[at + half]) - value(q[at + half]) * value(k[at])) * s
}

/// The contributions of the first `n` pairs of a head that starts at `b`.
spec fn turned_head(
    value: spec_fn(u32) -> int,
    q: Seq<u32>,
    k: Seq<u32>,
    b: int,
    half: int,
    c: spec_fn(int) -> int,
    s: spec_fn(int) -> int,
    n: int,
) -> int
    decreases n,
{
    if n <= 0 {
        0
    } else {
        turned_head(value, q, k, b, half, c, s, n - 1) + turned_pair(
            value,
            q,
            k,
            b + n - 1,
            half,
            c(n - 1),
            s(n - 1),
        )
    }
}

/// The contributions of the first `n` heads.
spec fn turned(
    value: spec_fn(u32) -> int,
    q: Seq<u32>,
    k: Seq<u32>,
    half: int,
    c: spec_fn(int) -> int,
    s: spec_fn(int) -> int,
    n: int,
) -> int
    decreases n,
{
    if n <= 0 {
        0
    } else {
        turned(value, q, k, half, c, s, n - 1) + turned_head(
            value,
            q,
            k,
            (n - 1) * (2 * half),
            half,
            c,
            s,
            half,
        )
    }
}

proof fn lemma_pair_identity(
    q1: int,
    q2: int,
    k1: int,
    k2: int,
    c1: int,
    s1: int,
    c2: int,
    s2: int,
)
    ensures
        (q1 * c1 - q2 * s1) * (k1 * c2 - k2 * s2) + (q2 * c1 + q1 * s1) * (k2 * c2 + k1 * s2) == (q1
            * k1 + q2 * k2) * (c1 * c2 + s1 * s2) + (q1 * k2 - q2 * k1) * (s1 * c2 - c1 * s2),
{
    let (a, b, c, d) = (q1 * c1, q2 * s1, k1 * c2, k2 * s2);
    let (e, f, g, h) = (q2 * c1, q1 * s1, k2 * c2, k1 * s2);
    assert((a - b) * (c - d) == a * c - a * d - b * c + b * d) by (nonlinear_arith);
    assert((e + f) * (g + h) == e * g + e * h + f * g + f * h) by (nonlinear_arith);
    let (p, r, t, u) = (q1 * k1, q2 * k2, q1 * k2, q2 * k1);
    let (cc, ss, sc, cs) = (c1 * c2, s1 * s2, s1 * c2, c1 * s2);
    assert((p + r) * (cc + ss) == p * cc + p * ss + r * cc + r * ss) by (nonlinear_arith);
    assert((t - u) * (sc - cs) == t * sc - t * cs - u * sc + u * cs) by (nonlinear_arith);
    assert(a * c == p * cc) by (nonlinear_arith)
        requires
            a == q1 * c1,
            c == k1 * c2,
            p == q1 * k1,
            cc == c1 * c2,
    ;
    assert(a * d == t * cs) by (nonlinear_arith)
        requires
            a == q1 * c1,
            d == k2 * s2,
            t == q1 * k2,
            cs == c1 * s2,
    ;
    assert(b * c == u * sc) by (nonlinear_arith)
        requires
            b == q2 * s1,
            c == k1 * c2,
            u == q2 * k1,
            sc == s1 * c2,
    ;
    assert(b * d == r * ss) by (nonlinear_arith)
        requires
            b == q2 * s1,
            d == k2 * s2,
            r == q2 * k2,
            ss == s1 * s2,
    ;
    assert(e * g == r * cc) by (nonlinear_arith)
        requires
            e == q2 * c1,
            g == k2 * c2,
            r == q2 * k2,
            cc == c1 * c2,
    ;
    assert(e * h == u * cs) by (nonlinear_arith)
        requires
            e == q2 * c1,
            h == k1 * s2,
            u == q2 * k1,
            cs == c1 * s2,
    ;
    assert(f * g == t * sc) by (nonlinear_arith)
        requires
            f == q1 * s1,
            g == k2 * c2,
            t == q1 * k2,
            sc == s1 * c2,
    ;
    assert(f * h == p * ss) by (nonlinear_arith)
        requires
            f == q1 * s1,
            h == k1 * s2,
            p == q1 * k1,
            ss == s1 * s2,
    ;
}

proof fn lemma_turned_head<A: Arith>(
    value: spec_fn(u32) -> int,
    m: int,
    q: Seq<u32>,
    k: Seq<u32>,
    cos1: Seq<u32>,
    sin1: Seq<u32>,
    cos2: Seq<u32>,
    sin2: Seq<u32>,
    c: spec_fn(int) -> int,
    s: spec_fn(int) -> int,
    h: int,
    n: int,
)
    requires
        exact::<A>(value, m),
        differ_by(value, m, cos1, sin1, cos2, sin2, c, s),
        cos1.len() == cos2.len(),
        q.len() == k.len(),
        0 <= h,
        h * (2 * cos1.len()) + 2 * cos1.len() <= q.len(),
        0 <= n <= cos1.len(),
    ensures
        ({
            let half = cos1.len() as int;
            let b = h * (2 * half);
            let rq = rope::rotated::<A>(q, cos1, sin1);
            let rk = rope::rotated::<A>(k, cos2, sin2);
            same(
                pairs_sum(value, rq, rk, b, n) + pairs_sum(value, rq, rk, b + half, n),
                turned_head(value, q, k, b, half, c, s, n),
                m,
            )
        }),
    decreases n,
{
    let half = cos1.len() as int;
    let b = h * (2 * half);
    let rq = rope::rotated::<A>(q, cos1, sin1);
    let rk = rope::rotated::<A>(k, cos2, sin2);
    if n <= 0 {
        lemma_same_refl(0, m);
    } else {
        let i = n - 1;
        let at = b + i;
        lemma_turned_head::<A>(value, m, q, k, cos1, sin1, cos2, sin2, c, s, h, i);
        lemma_rotated_pair::<A>(value, m, q, cos1, sin1, h, i);
        lemma_rotated_pair::<A>(value, m, k, cos2, sin2, h, i);
        let (q1, q2) = (value(q[at]), value(q[at + half]));
        let (k1, k2) = (value(k[at]), value(k[at + half]));
        let (c1, s1) = (value(cos1[i]), value(sin1[i]));
        let (c2, s2) = (value(cos2[i]), value(sin2[i]));
        let (qa, qb) = (q1 * c1 - q2 * s1, q2 * c1 + q1 * s1);
        let (ka, kb) = (k1 * c2 - k2 * s2, k2 * c2 + k1 * s2);
        lemma_same_ops(value(rq[at]), qa, value(rk[at]), ka, m);
        lemma_same_ops(value(rq[at + half]), qb, value(rk[at + half]), kb, m);
        let first = value(rq[at]) * value(rk[at]);
        let second = value(rq[at + half]) * value(rk[at + half]);
        lemma_same_ops(first, qa * ka, second, qb * kb, m);
        lemma_pair_identity(q1, q2, k1, k2, c1, s1, c2, s2);
        let (dot, cross) = (q1 * k1 + q2 * k2, q1 * k2 - q2 * k1);
        let (cd, sd) = (c1 * c2 + s1 * s2, s1 * c2 - c1 * s2);
        lemma_same_refl(dot, m);
        lemma_same_refl(cross, m);
        lemma_same_ops(dot, dot, cd, c(i), m);
        lemma_same_ops(cross, cross, sd, s(i), m);
        lemma_same_ops(dot * cd, dot * c(i), cross * sd, cross * s(i), m);
        let pair = turned_pair(value, q, k, at, half, c(i), s(i));
        lemma_same_trans(first + second, qa * ka + qb * kb, pair, m);
        lemma_same_ops(
            pairs_sum(value, rq, rk, b, i) + pairs_sum(value, rq, rk, b + half, i),
            turned_head(value, q, k, b, half, c, s, i),
            first + second,
            pair,
            m,
        );
        assert(b + half + n - 1 == at + half);
    }
}

proof fn lemma_turned<A: Arith>(
    value: spec_fn(u32) -> int,
    m: int,
    q: Seq<u32>,
    k: Seq<u32>,
    cos1: Seq<u32>,
    sin1: Seq<u32>,
    cos2: Seq<u32>,
    sin2: Seq<u32>,
    c: spec_fn(int) -> int,
    s: spec_fn(int) -> int,
    n: int,
)
    requires
        exact::<A>(value, m),
        differ_by(value, m, cos1, sin1, cos2, sin2, c, s),
        cos1.len() == cos2.len(),
        q.len() == k.len(),
        0 <= n,
        n * (2 * cos1.len()) <= q.len(),
    ensures
        same(
            pairs_sum(
                value,
                rope::rotated::<A>(q, cos1, sin1),
                rope::rotated::<A>(k, cos2, sin2),
                0,
                n * (2 * cos1.len()),
            ),
            turned(value, q, k, cos1.len() as int, c, s, n),
            m,
        ),
    decreases n,
{
    let half = cos1.len() as int;
    let size = 2 * half;
    let rq = rope::rotated::<A>(q, cos1, sin1);
    let rk = rope::rotated::<A>(k, cos2, sin2);
    if n <= 0 {
        assert(n * size == 0) by (nonlinear_arith)
            requires
                n == 0,
        ;
        lemma_same_refl(0, m);
    } else {
        let h = n - 1;
        let b = h * size;
        assert(n * size == b + size) by (nonlinear_arith)
            requires
                b == (n - 1) * size,
        ;
        assert(0 <= b) by (nonlinear_arith)
            requires
                b == h * size,
                h >= 0,
                size >= 0,
        ;
        lemma_turned::<A>(value, m, q, k, cos1, sin1, cos2, sin2, c, s, h);
        lemma_turned_head::<A>(value, m, q, k, cos1, sin1, cos2, sin2, c, s, h, half);
        lemma_pairs_split(value, rq, rk, 0, b, size);
        lemma_pairs_split(value, rq, rk, b, half, half);
        lemma_same_ops(
            pairs_sum(value, rq, rk, 0, b),
            turned(value, q, k, half, c, s, h),
            pairs_sum(value, rq, rk, b, size),
            turned_head(value, q, k, b, half, c, s, half),
            m,
        );
    }
}

/// The product of two rotated sequences of heads, where one rotation is behind
/// the other by given angles.
proof fn lemma_rotated_dot<A: Arith>(
    value: spec_fn(u32) -> int,
    m: int,
    q: Seq<u32>,
    k: Seq<u32>,
    cos1: Seq<u32>,
    sin1: Seq<u32>,
    cos2: Seq<u32>,
    sin2: Seq<u32>,
    c: spec_fn(int) -> int,
    s: spec_fn(int) -> int,
)
    requires
        exact::<A>(value, m),
        differ_by(value, m, cos1, sin1, cos2, sin2, c, s),
        0 < cos1.len() == cos2.len(),
        q.len() == k.len(),
        q.len() % (2 * cos1.len()) == 0,
    ensures
        same(
            value(
                tensor::dot_of::<A>(
                    rope::rotated::<A>(q, cos1, sin1),
                    rope::rotated::<A>(k, cos2, sin2),
                ),
            ),
            turned(
                value,
                q,
                k,
                cos1.len() as int,
                c,
                s,
                q.len() as int / (2 * cos1.len() as int),
            ),
            m,
        ),
{
    let size = 2 * cos1.len() as int;
    let n = q.len() as int / size;
    let rq = rope::rotated::<A>(q, cos1, sin1);
    let rk = rope::rotated::<A>(k, cos2, sin2);
    vstd::arithmetic::div_mod::lemma_fundamental_div_mod(q.len() as int, size);
    assert(n * size == size * n) by (nonlinear_arith);
    vstd::arithmetic::div_mod::lemma_div_pos_is_pos(q.len() as int, size);
    lemma_turned::<A>(value, m, q, k, cos1, sin1, cos2, sin2, c, s, n);
    law_dot_is_exact::<A>(value, m, rq, rk, q.len() as int);
    lemma_same_trans(
        value(tensor::dot_of::<A>(rq, rk)),
        pairs_sum(value, rq, rk, 0, q.len() as int),
        turned(value, q, k, cos1.len() as int, c, s, n),
        m,
    );
}

proof fn lemma_unturned(
    value: spec_fn(u32) -> int,
    q: Seq<u32>,
    k: Seq<u32>,
    half: int,
    c: spec_fn(int) -> int,
    s: spec_fn(int) -> int,
    b: int,
    n: int,
)
    requires
        forall|i: int| #[trigger] c(i) == 1,
        forall|i: int| #[trigger] s(i) == 0,
    ensures
        turned_head(value, q, k, b, half, c, s, n) == pairs_sum(value, q, k, b, n) + pairs_sum(
            value,
            q,
            k,
            b + half,
            n,
        ),
    decreases n,
{
    if n > 0 {
        lemma_unturned(value, q, k, half, c, s, b, n - 1);
        let at = b + n - 1;
        assert(c(n - 1) == 1 && s(n - 1) == 0);
        let dot = value(q[at]) * value(k[at]) + value(q[at + half]) * value(k[at + half]);
        let cross = value(q[at]) * value(k[at + half]) - value(q[at + half]) * value(k[at]);
        assert(dot * 1 + cross * 0 == dot) by (nonlinear_arith);
        assert(b + half + n - 1 == at + half);
    }
}

proof fn lemma_unturned_heads(
    value: spec_fn(u32) -> int,
    q: Seq<u32>,
    k: Seq<u32>,
    half: int,
    c: spec_fn(int) -> int,
    s: spec_fn(int) -> int,
    n: int,
)
    requires
        forall|i: int| #[trigger] c(i) == 1,
        forall|i: int| #[trigger] s(i) == 0,
        half >= 0,
        n >= 0,
    ensures
        turned(value, q, k, half, c, s, n) == pairs_sum(value, q, k, 0, n * (2 * half)),
    decreases n,
{
    let size = 2 * half;
    if n == 0 {
        assert(n * size == 0) by (nonlinear_arith)
            requires
                n == 0,
        ;
    } else {
        let b = (n - 1) * size;
        assert(n * size == b + size) by (nonlinear_arith)
            requires
                b == (n - 1) * size,
        ;
        assert(0 <= b) by (nonlinear_arith)
            requires
                b == (n - 1) * size,
                n >= 1,
                size >= 0,
        ;
        lemma_unturned_heads(value, q, k, half, c, s, n - 1);
        lemma_unturned(value, q, k, half, c, s, b, half);
        lemma_pairs_split(value, q, k, 0, b, size);
        lemma_pairs_split(value, q, k, b, half, half);
    }
}

/// Without rounding, rotating two sequences of heads by the same angles keeps
/// their product; with one and the same sequence for both, it keeps the norm.
pub proof fn law_rotation_keeps_products<A: Arith>(
    value: spec_fn(u32) -> int,
    m: int,
    q: Seq<u32>,
    k: Seq<u32>,
    cos: Seq<u32>,
    sin: Seq<u32>,
)
    requires
        exact::<A>(value, m),
        forall|i: int|
            0 <= i < cos.len() ==> same(
                value(#[trigger] cos[i]) * value(cos[i]) + value(sin[i]) * value(sin[i]),
                1,
                m,
            ),
        0 < cos.len(),
        q.len() == k.len(),
        q.len() % (2 * cos.len()) == 0,
    ensures
        same(
            value(
                tensor::dot_of::<A>(
                    rope::rotated::<A>(q, cos, sin),
                    rope::rotated::<A>(k, cos, sin),
                ),
            ),
            value(tensor::dot_of::<A>(q, k)),
            m,
        ),
{
    let c = |i: int| 1int;
    let s = |i: int| 0int;
    assert forall|i: int| #![trigger cos[i]] 0 <= i < cos.len() implies same(
        value(sin[i]) * value(cos[i]) - value(cos[i]) * value(sin[i]),
        s(i),
        m,
    ) by {
        assert(value(sin[i]) * value(cos[i]) == value(cos[i]) * value(sin[i])) by (nonlinear_arith);
        lemma_same_refl(0, m);
    }
    lemma_rotated_dot::<A>(value, m, q, k, cos, sin, cos, sin, c, s);
    let half = cos.len() as int;
    let size = 2 * half;
    let n = q.len() as int / size;
    vstd::arithmetic::div_mod::lemma_fundamental_div_mod(q.len() as int, size);
    assert(n * size == size * n) by (nonlinear_arith);
    vstd::arithmetic::div_mod::lemma_div_pos_is_pos(q.len() as int, size);
    lemma_unturned_heads(value, q, k, half, c, s, n);
    law_dot_is_exact::<A>(value, m, q, k, q.len() as int);
    let sum = pairs_sum(value, q, k, 0, q.len() as int);
    let plain = value(tensor::dot_of::<A>(q, k));
    lemma_same_refl(sum, m);
    lemma_same_trans(plain, sum, sum, m);
    lemma_same_trans(
        value(
            tensor::dot_of::<A>(rope::rotated::<A>(q, cos, sin), rope::rotated::<A>(k, cos, sin)),
        ),
        sum,
        plain,
        m,
    );
}

/// Whether the angles of two positions differ by an amount that depends on the
/// distance between the positions alone: `c` and `s` are the cosine and the
/// sine for a distance and a pair.
pub open spec fn angles_subtract<A: Arith>(
    value: spec_fn(u32) -> int,
    m: int,
    head_dim: usize,
    theta: u32,
    c: spec_fn(int, int) -> int,
    s: spec_fn(int, int) -> int,
) -> bool {
    forall|p: usize, n: usize|
        differ_by(
            value,
            m,
            #[trigger] rope::cos_row::<A>(p as int, head_dim, theta),
            rope::sin_row::<A>(p as int, head_dim, theta),
            #[trigger] rope::cos_row::<A>(n as int, head_dim, theta),
            rope::sin_row::<A>(n as int, head_dim, theta),
            |i: int| c(p - n, i),
            |i: int| s(p - n, i),
        )
}

/// Without rounding, the product of a query at position `p` with a key at
/// position `n` depends on `p - n` alone: it is the same for any two positions
/// that are as far apart.
pub proof fn law_rope_is_relative<A: Arith>(
    value: spec_fn(u32) -> int,
    m: int,
    head_dim: usize,
    theta: u32,
    c: spec_fn(int, int) -> int,
    s: spec_fn(int, int) -> int,
    q: Seq<u32>,
    k: Seq<u32>,
    p: usize,
    n: usize,
    p2: usize,
    n2: usize,
)
    requires
        exact::<A>(value, m),
        angles_subtract::<A>(value, m, head_dim, theta, c, s),
        p - n == p2 - n2,
        head_dim > 0,
        head_dim % 2 == 0,
        q.len() == k.len(),
        q.len() % (head_dim as nat) == 0,
    ensures
        same(
            value(
                tensor::dot_of::<A>(
                    rope::rope_of::<A>(q, p as int, head_dim, theta),
                    rope::rope_of::<A>(k, n as int, head_dim, theta),
                ),
            ),
            value(
                tensor::dot_of::<A>(
                    rope::rope_of::<A>(q, p2 as int, head_dim, theta),
                    rope::rope_of::<A>(k, n2 as int, head_dim, theta),
                ),
            ),
            m,
        ),
{
    let c1 = |i: int| c(p - n, i);
    let s1 = |i: int| s(p - n, i);
    let cos_p = rope::cos_row::<A>(p as int, head_dim, theta);
    let sin_p = rope::sin_row::<A>(p as int, head_dim, theta);
    let cos_n = rope::cos_row::<A>(n as int, head_dim, theta);
    let sin_n = rope::sin_row::<A>(n as int, head_dim, theta);
    let cos_p2 = rope::cos_row::<A>(p2 as int, head_dim, theta);
    let sin_p2 = rope::sin_row::<A>(p2 as int, head_dim, theta);
    let cos_n2 = rope::cos_row::<A>(n2 as int, head_dim, theta);
    let sin_n2 = rope::sin_row::<A>(n2 as int, head_dim, theta);
    assert(2 * cos_p.len() == head_dim);
    assert(differ_by(value, m, cos_p, sin_p, cos_n, sin_n, c1, s1));
    assert(differ_by(
        value,
        m,
        cos_p2,
        sin_p2,
        cos_n2,
        sin_n2,
        |i: int| c(p2 - n2, i),
        |i: int| s(p2 - n2, i),
    ));
    assert(differ_by(value, m, cos_p2, sin_p2, cos_n2, sin_n2, c1, s1));
    lemma_rotated_dot::<A>(value, m, q, k, cos_p, sin_p, cos_n, sin_n, c1, s1);
    lemma_rotated_dot::<A>(value, m, q, k, cos_p2, sin_p2, cos_n2, sin_n2, c1, s1);
    let here = value(
        tensor::dot_of::<A>(
            rope::rope_of::<A>(q, p as int, head_dim, theta),
            rope::rope_of::<A>(k, n as int, head_dim, theta),
        ),
    );
    let there = value(
        tensor::dot_of::<A>(
            rope::rope_of::<A>(q, p2 as int, head_dim, theta),
            rope::rope_of::<A>(k, n2 as int, head_dim, theta),
        ),
    );
    let sum = turned(
        value,
        q,
        k,
        cos_p.len() as int,
        c1,
        s1,
        q.len() as int / (2 * cos_p.len() as int),
    );
    lemma_same_refl(sum, m);
    lemma_same_trans(there, sum, sum, m);
    lemma_same_trans(here, sum, there, m);
}

} // verus!
