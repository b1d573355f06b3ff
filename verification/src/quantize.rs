//! Block-quantized weight formats and their fused dequantize-multiply kernels.
//!
//! The layouts follow the GGML family: weights are split into blocks of 32
//! values, and each block stores one binary32 scale plus the quantized codes.
//!
//! - `Q8_0`: 36 bytes/block = scale + 32 signed bytes, `x ~ q * d` with
//!   `d = max|x| / 127`.
//! - `Q4_0`: 20 bytes/block = scale + 32 codes of 4 bits packed into 16 bytes
//!   (low nibble = element 2i, high nibble = element 2i+1), `x ~ (code - 8) * d`
//!   with `d = max|x| / 8`.
//!
//! The inference hot path is [`QuantizedTensor::matvec`], which fuses
//! dequantization into the multiply-accumulate loop so that weights are never
//! materialized densely.

use vstd::arithmetic::power2::pow2;
use vstd::bytes::*;
use vstd::prelude::*;

use crate::arith;
use crate::arith::Arith;
use crate::bits;
use crate::error::{FormatErrorOf, MinqError, ShapeErrorOf};
use crate::parallel;
use crate::tensor;
use crate::tensor::{Tensor, TensorView};

verus! {

/// Number of weights per quantization block.
pub const BLOCK_SIZE: usize = 32;

/// Serialized size of one Q8_0 block (4-byte scale + 32 signed codes).
pub const Q8_0_BLOCK_BYTES: usize = 36;

/// Serialized size of one Q4_0 block (4-byte scale + 16 packed bytes).
pub const Q4_0_BLOCK_BYTES: usize = 20;

/// Supported quantization dtypes.
#[derive(Clone, Copy, Debug, PartialEq, Eq, Structural)]
pub enum QuantDtype {
    Q8_0,
    Q4_0,
}

impl QuantDtype {
    /// Serialized size of one block.
    pub open spec fn block_len(self) -> int {
        match self {
            QuantDtype::Q8_0 => 36,
            QuantDtype::Q4_0 => 20,
        }
    }

    /// The dtype's name.
    pub open spec fn name_of(self) -> Seq<char> {
        match self {
            QuantDtype::Q8_0 => "q8_0"@,
            QuantDtype::Q4_0 => "q4_0"@,
        }
    }

    /// Serialized size of one block.
    pub fn block_bytes(self) -> (r: usize)
        ensures
            r == self.block_len(),
    {
        match self {
            QuantDtype::Q8_0 => Q8_0_BLOCK_BYTES,
            QuantDtype::Q4_0 => Q4_0_BLOCK_BYTES,
        }
    }

    /// The dtype's name.
    pub fn name(self) -> (r: &'static str)
        ensures
            r@ == self.name_of(),
    {
        match self {
            QuantDtype::Q8_0 => "q8_0",
            QuantDtype::Q4_0 => "q4_0",
        }
    }

    /// Parses a dtype name (`q8_0` / `q4_0`), e.g. from the command line.
    pub fn parse(s: &str) -> (r: Result<QuantDtype, MinqError>)
        ensures
            match r {
                Ok(d) => s@ == d.name_of(),
                Err(e) => s@ != "q8_0"@ && s@ != "q4_0"@ && e.is_format(
                    FormatErrorOf::UnknownDtype { name: s@ },
                ),
            },
    {
        let name = s.to_owned();
        if name == "q8_0".to_owned() {
            Ok(QuantDtype::Q8_0)
        } else if name == "q4_0".to_owned() {
            Ok(QuantDtype::Q4_0)
        } else {
            Err(MinqError::Format(FormatErrorOf::UnknownDtype { name }))
        }
    }
}

/// A dtype is the only one with its name, so that parsing the name gives the
/// dtype back.
pub proof fn law_dtype_names(d: QuantDtype, e: QuantDtype)
    ensures
        d.name_of() == e.name_of() <==> d == e,
{
    reveal_strlit("q8_0");
    reveal_strlit("q4_0");
    assert("q8_0"@[1] == '8');
    assert("q4_0"@[1] == '4');
}

/// The absolute values of a sequence.
pub open spec fn abs_seq(x: Seq<u32>) -> Seq<u32> {
    Seq::new(x.len(), |i: int| bits::abs_of(x[i]))
}

/// The largest absolute value of a block, NaNs aside.
pub open spec fn abs_max(block: Seq<u32>) -> u32 {
    bits::max_upto(bits::ZERO, abs_seq(block), block.len() as int)
}

/// No weight of a block, NaNs aside, exceeds the block's largest absolute
/// value, which is that of one of its weights, or 0 if there is none.
pub proof fn law_abs_max(block: Seq<u32>)
    ensures
        !bits::nan(abs_max(block)),
        forall|i: int|
            0 <= i < block.len() && !bits::nan(#[trigger] block[i]) ==> bits::le_of(
                bits::abs_of(block[i]),
                abs_max(block),
            ),
        abs_max(block) == bits::ZERO || exists|i: int|
            0 <= i < block.len() && bits::abs_of(#[trigger] block[i]) == abs_max(block),
{
    let s = abs_seq(block);
    bits::law_max_upto(bits::ZERO, s, block.len() as int);
    assert forall|i: int| 0 <= i < block.len() && !bits::nan(#[trigger] block[i]) implies bits::le_of(
        bits::abs_of(block[i]),
        abs_max(block),
    ) by {
        assert(s[i] == bits::abs_of(block[i]));
    }
    if abs_max(block) != bits::ZERO {
        let i = choose|i: int| 0 <= i < block.len() && #[trigger] s[i] == abs_max(block);
        assert(bits::abs_of(block[i]) == abs_max(block));
    }
}

/// The scale of a block: the largest absolute value divided by the largest
/// code.
pub open spec fn scale_of<A: Arith>(dtype: QuantDtype, block: Seq<u32>) -> u32 {
    arith::div_of::<A>(
        abs_max(block),
        match dtype {
            QuantDtype::Q8_0 => bits::ONE_TWENTY_SEVEN,
            QuantDtype::Q4_0 => bits::EIGHT,
        },
    )
}

/// The number of codes by which the largest absolute value is divided for the
/// scale.
pub open spec fn divisor(dtype: QuantDtype) -> int {
    match dtype {
        QuantDtype::Q8_0 => 127,
        QuantDtype::Q4_0 => 8,
    }
}

/// The largest code.
pub open spec fn top_code(dtype: QuantDtype) -> int {
    match dtype {
        QuantDtype::Q8_0 => 127,
        QuantDtype::Q4_0 => 7,
    }
}

/// The weight divided by the scale of its block, as computed.
pub open spec fn quotient_of<A: Arith>(v: u32, d: u32) -> u32 {
    arith::mul_of::<A>(v, arith::div_of::<A>(bits::ONE, d))
}

/// The integer that stands for `v` in a block with scale `d`.
pub open spec fn code_of<A: Arith>(dtype: QuantDtype, v: u32, d: u32) -> int {
    if bits::magnitude(d) == 0 {
        match dtype {
            QuantDtype::Q8_0 => 0,
            QuantDtype::Q4_0 => -8,
        }
    } else {
        bits::round_clamp_of(quotient_of::<A>(v, d), -divisor(dtype), top_code(dtype))
    }
}

/// The codes of a block.
pub open spec fn codes_of<A: Arith>(dtype: QuantDtype, block: Seq<u32>) -> Seq<int> {
    Seq::new(block.len(), |i: int| code_of::<A>(dtype, block[i], scale_of::<A>(dtype, block)))
}

/// The range of the codes: `-127..=127` or `-8..=7`.
pub open spec fn in_range(dtype: QuantDtype, code: int) -> bool {
    match dtype {
        QuantDtype::Q8_0 => -127 <= code <= 127,
        QuantDtype::Q4_0 => -8 <= code <= 7,
    }
}

/// A signed byte as its two's-complement bit pattern.
pub open spec fn signed_byte(code: int) -> u8 {
    if code < 0 {
        (code + 256) as u8
    } else {
        code as u8
    }
}

/// The bytes that hold the codes of a block.
pub open spec fn pack(dtype: QuantDtype, codes: Seq<int>) -> Seq<u8> {
    match dtype {
        QuantDtype::Q8_0 => Seq::new(32, |i: int| signed_byte(codes[i])),
        QuantDtype::Q4_0 => Seq::new(
            16,
            |i: int| ((codes[2 * i] + 8) + 16 * (codes[2 * i + 1] + 8)) as u8,
        ),
    }
}

/// The bytes of a block with the given scale and codes.
pub open spec fn block_of(dtype: QuantDtype, scale: u32, codes: Seq<int>) -> Seq<u8> {
    spec_u32_to_le_bytes(scale) + pack(dtype, codes)
}

/// The scale that a block holds.
pub open spec fn block_scale(block: Seq<u8>) -> u32 {
    spec_u32_from_le_bytes(block.subrange(0, 4))
}

/// The code that a block holds for its element `i`.
pub open spec fn block_code(dtype: QuantDtype, block: Seq<u8>, i: int) -> int {
    match dtype {
        QuantDtype::Q8_0 => if block[4 + i] >= 128 {
            block[4 + i] - 256
        } else {
            block[4 + i] as int
        },
        QuantDtype::Q4_0 => if i % 2 == 0 {
            block[4 + i / 2] % 16 - 8
        } else {
            block[4 + i / 2] / 16 - 8
        },
    }
}

/// What is packed into a block can be read back from it: the scale, and every
/// code of the dtype's range.
pub proof fn law_block_roundtrip(dtype: QuantDtype, scale: u32, codes: Seq<int>)
    requires
        codes.len() == 32,
        forall|i: int| 0 <= i < 32 ==> in_range(dtype, #[trigger] codes[i]),
    ensures
        block_of(dtype, scale, codes).len() == dtype.block_len(),
        block_scale(block_of(dtype, scale, codes)) == scale,
        forall|i: int|
            0 <= i < 32 ==> #[trigger] block_code(dtype, block_of(dtype, scale, codes), i)
                == codes[i],
{
    lemma_auto_spec_u32_to_from_le_bytes();
    let b = block_of(dtype, scale, codes);
    assert(b.subrange(0, 4) =~= spec_u32_to_le_bytes(scale));
    assert forall|i: int| 0 <= i < 32 implies #[trigger] block_code(dtype, b, i) == codes[i] by {
        match dtype {
            QuantDtype::Q8_0 => {
                assert(b[4 + i] == pack(dtype, codes)[i]);
                assert(in_range(dtype, codes[i]));
            },
            QuantDtype::Q4_0 => {
                let h = i / 2;
                assert(b[4 + h] == pack(dtype, codes)[h]);
                assert(in_range(dtype, codes[2 * h]));
                assert(in_range(dtype, codes[2 * h + 1]));
                assert(i == 2 * h || i == 2 * h + 1);
            },
        }
    }
}

/// The code of a weight is the integer of the dtype's range nearest to the
/// weight divided by the scale, as computed: within half a unit of it, or the
/// end of the range that it passes.
pub proof fn law_code_is_nearest<A: Arith>(dtype: QuantDtype, v: u32, d: u32)
    requires
        bits::magnitude(d) != 0,
        bits::magnitude(quotient_of::<A>(v, d)) < bits::INFINITY,
    ensures
        bits::nearest_within(
            code_of::<A>(dtype, v, d),
            quotient_of::<A>(v, d),
            -divisor(dtype),
            top_code(dtype),
        ),
{
    bits::law_round_clamp_is_nearest(quotient_of::<A>(v, d), -divisor(dtype), top_code(dtype));
}

/// Block `n` of a sequence of elements.
pub open spec fn elements_of_block(x: Seq<u32>, n: int) -> Seq<u32> {
    x.subrange(n * 32, n * 32 + 32)
}

/// The bytes of the first `n` blocks of a sequence of elements.
pub open spec fn quantized_upto<A: Arith>(dtype: QuantDtype, x: Seq<u32>, n: int) -> Seq<u8>
    decreases n,
{
    if n <= 0 {
        Seq::empty()
    } else {
        let block = elements_of_block(x, n - 1);
        quantized_upto::<A>(dtype, x, n - 1) + block_of(
            dtype,
            scale_of::<A>(dtype, block),
            codes_of::<A>(dtype, block),
        )
    }
}

/// The block bytes of a sequence of elements.
pub open spec fn quantized<A: Arith>(dtype: QuantDtype, x: Seq<u32>) -> Seq<u8> {
    quantized_upto::<A>(dtype, x, x.len() as int / 32)
}

/// Block `n` of a sequence of block bytes.
pub open spec fn bytes_of_block(dtype: QuantDtype, bytes: Seq<u8>, n: int) -> Seq<u8> {
    bytes.subrange(n * dtype.block_len(), n * dtype.block_len() + dtype.block_len())
}

/// The value of element `i` of a sequence of block bytes: its code times the
/// scale of its block.
pub open spec fn dequantized_at<A: Arith>(dtype: QuantDtype, bytes: Seq<u8>, i: int) -> u32 {
    let block = bytes_of_block(dtype, bytes, i / 32);
    arith::mul_of::<A>(
        arith::int_of::<A>(block_code(dtype, block, i % 32) as i32),
        block_scale(block),
    )
}

/// The values of all elements of a sequence of block bytes.
pub open spec fn dequantized<A: Arith>(dtype: QuantDtype, bytes: Seq<u8>) -> Seq<u32> {
    Seq::new(
        (bytes.len() as int / dtype.block_len() * 32) as nat,
        |i: int| dequantized_at::<A>(dtype, bytes, i),
    )
}

pub(crate) proof fn lemma_code_in_range<A: Arith>(dtype: QuantDtype, v: u32, d: u32)
    ensures
        in_range(dtype, code_of::<A>(dtype, v, d)),
{
    let q = arith::mul_of::<A>(v, arith::div_of::<A>(bits::ONE, d));
    bits::lemma_rounded_nonneg(q);
}

pub(crate) proof fn lemma_codes_in_range<A: Arith>(dtype: QuantDtype, block: Seq<u32>)
    ensures
        forall|i: int|
            0 <= i < block.len() ==> in_range(dtype, #[trigger] codes_of::<A>(dtype, block)[i]),
{
    assert forall|i: int| 0 <= i < block.len() implies in_range(
        dtype,
        #[trigger] codes_of::<A>(dtype, block)[i],
    ) by {
        lemma_code_in_range::<A>(dtype, block[i], scale_of::<A>(dtype, block));
    }
}

pub(crate) proof fn lemma_quantized_blocks<A: Arith>(dtype: QuantDtype, x: Seq<u32>, n: int, k: int)
    requires
        0 <= n,
        n * 32 <= x.len(),
    ensures
        quantized_upto::<A>(dtype, x, n).len() == n * dtype.block_len(),
        0 <= k < n ==> bytes_of_block(dtype, quantized_upto::<A>(dtype, x, n), k) == block_of(
            dtype,
            scale_of::<A>(dtype, elements_of_block(x, k)),
            codes_of::<A>(dtype, elements_of_block(x, k)),
        ),
    decreases n,
{
    if n > 0 {
        lemma_quantized_blocks::<A>(dtype, x, n - 1, k);
        let block = elements_of_block(x, n - 1);
        lemma_codes_in_range::<A>(dtype, block);
        law_block_roundtrip(dtype, scale_of::<A>(dtype, block), codes_of::<A>(dtype, block));
        let before = quantized_upto::<A>(dtype, x, n - 1);
        let all = quantized_upto::<A>(dtype, x, n);
        let bb = dtype.block_len();
        assert((n - 1) * bb + bb == n * bb) by (nonlinear_arith);
        if 0 <= k < n - 1 {
            assert(k * bb + bb <= (n - 1) * bb) by (nonlinear_arith)
                requires
                    k + 1 <= n - 1,
                    bb > 0,
            ;
            assert(0 <= k * bb) by (nonlinear_arith)
                requires
                    k >= 0,
                    bb > 0,
            ;
            assert(bytes_of_block(dtype, all, k) =~= bytes_of_block(dtype, before, k));
        } else if k == n - 1 {
            assert(bytes_of_block(dtype, all, k) =~= block_of(
                dtype,
                scale_of::<A>(dtype, block),
                codes_of::<A>(dtype, block),
            ));
        }
    }
}

/// Dequantizing what was quantized gives, for every element, its code times
/// the scale of its block.
pub proof fn law_dequantize_quantized<A: Arith>(dtype: QuantDtype, x: Seq<u32>, i: int)
    requires
        x.len() % 32 == 0,
        0 <= i < x.len(),
    ensures
        quantized::<A>(dtype, x).len() == x.len() as int / 32 * dtype.block_len(),
        dequantized::<A>(dtype, quantized::<A>(dtype, x)).len() == x.len(),
        dequantized::<A>(dtype, quantized::<A>(dtype, x))[i] == ({
            let block = elements_of_block(x, i / 32);
            arith::mul_of::<A>(
                arith::int_of::<A>(
                    code_of::<A>(dtype, x[i], scale_of::<A>(dtype, block)) as i32,
                ),
                scale_of::<A>(dtype, block),
            )
        }),
{
    let n = x.len() as int / 32;
    let k = i / 32;
    lemma_quantized_blocks::<A>(dtype, x, n, k);
    let block = elements_of_block(x, k);
    lemma_codes_in_range::<A>(dtype, block);
    law_block_roundtrip(dtype, scale_of::<A>(dtype, block), codes_of::<A>(dtype, block));
    let bytes = quantized::<A>(dtype, x);
    vstd::arithmetic::div_mod::lemma_div_by_multiple(n, dtype.block_len());
    assert(bytes.len() as int / dtype.block_len() == n);
    let packed = bytes_of_block(dtype, bytes, k);
    assert(block_code(dtype, packed, i % 32) == codes_of::<A>(dtype, block)[i % 32]);
    assert(block[i % 32] == x[i]);
}

/// How far apart two integers are.
pub open spec fn distance(a: int, b: int) -> int {
    if a >= b {
        a - b
    } else {
        b - a
    }
}

/// How far rounding takes the quantizer away from real numbers, for a weight `v`
/// of a block with the largest absolute value `top` and the scale `d`, which is
/// read back as `out`: the quotient times the scale misses the weight by `e1` at
/// most, what is read back misses the code times the scale by `e2`, and the scale
/// times the divisor misses the largest absolute value by `e3`. Values are in
/// units of `2^-150`, and `e1` in the square of it.
pub open spec fn rounds_by<A: Arith>(
    dtype: QuantDtype,
    v: u32,
    top: u32,
    d: u32,
    out: u32,
    e1: int,
    e2: int,
    e3: int,
) -> bool {
    let sd = bits::scaled_value(d);
    &&& e1 >= 0
    &&& bits::magnitude(d) != 0 ==> distance(
        bits::scaled_value(quotient_of::<A>(v, d)) * sd,
        bits::scaled_value(v) * pow2(150),
    ) <= e1
    &&& distance(bits::scaled_value(out), code_of::<A>(dtype, v, d) * sd) <= e2
    &&& distance(divisor(dtype) * sd, bits::scaled_value(top)) <= e3
}

/// The error of the round trip of one weight, in real numbers but for the three
/// errors of rounding.
proof fn lemma_roundtrip_error<A: Arith>(
    dtype: QuantDtype,
    v: u32,
    top: u32,
    d: u32,
    out: u32,
    e1: int,
    e2: int,
    e3: int,
)
    requires
        rounds_by::<A>(dtype, v, top, d, out, e1, e2, e3),
        d < bits::SIGN,
        top < bits::SIGN,
        bits::magnitude(v) <= bits::magnitude(top),
        bits::magnitude(d) != 0 ==> bits::magnitude(quotient_of::<A>(v, d)) < bits::INFINITY,
    ensures
        ({
            let unit = pow2(150) as int;
            let sd = bits::scaled_value(d);
            let error = 2 * unit * distance(bits::scaled_value(out), bits::scaled_value(v));
            let slack = 2 * e1 + 2 * unit * e2 + 2 * unit * e3;
            &&& 0 <= sd
            &&& error <= 2 * (unit * sd) + slack
            &&& if dtype is Q8_0 || 2 * bits::scaled_value(v) <= 15 * sd {
                error <= unit * sd + slack
            } else {
                error <= 2 * (unit * (bits::scaled_value(v) - 7 * sd)) + slack
            }
        }),
{
    let unit = pow2(150) as int;
    vstd::arithmetic::power2::lemma_pow2_pos(150);
    bits::law_magnitudes_order_values(d, d);
    bits::law_magnitudes_order_values(v, top);
    bits::law_magnitudes_order_values(top, top);
    let s = bits::scaled_value(d);
    let w = bits::scaled_value(v);
    let o = bits::scaled_value(out);
    let m = bits::scaled_value(top);
    let c = code_of::<A>(dtype, v, d);
    assert(0 <= s);
    assert(-m <= w <= m);
    assert(0 <= unit * s) by (nonlinear_arith)
        requires
            unit > 0,
            s >= 0,
    ;
    // What is read back, and the code times the scale.
    assert(-(unit * e2) <= unit * (o - c * s) <= unit * e2) by (nonlinear_arith)
        requires
            -e2 <= o - c * s <= e2,
            unit > 0,
    ;
    let n = divisor(dtype);
    // The weight is at most the divisor times the scale, up to `e3`.
    assert(unit * w <= unit * (n * s) + unit * e3 && -(unit * (n * s)) - unit * e3 <= unit * w)
        by (nonlinear_arith)
        requires
            -m <= w <= m,
            m <= n * s + e3,
            unit > 0,
    ;
    assert(unit * e3 >= 0 && unit * e2 >= 0) by (nonlinear_arith)
        requires
            unit > 0,
            e2 >= 0,
            e3 >= 0,
    ;
    assert(unit * (o - w) == unit * (o - c * s) + (unit * (c * s) - unit * w)) by (nonlinear_arith);
    assert(unit * (n * s) == n * (unit * s)) by (nonlinear_arith);
    assert(unit * (c * s) == c * (unit * s)) by (nonlinear_arith);
    let t = unit * s;
    assert(unit * (w - 7 * s) == unit * w - 7 * t) by (nonlinear_arith)
        requires
            t == unit * s,
    ;
    if 2 * w > 15 * s {
        assert(2 * (unit * w) > 15 * t) by (nonlinear_arith)
            requires
                2 * w > 15 * s,
                unit > 0,
                t == unit * s,
        ;
    }
    if bits::magnitude(d) == 0 {
        assert(s == 0) by {
            vstd::arithmetic::mul::lemma_mul_basics(pow2(bits::exponent(d) as nat) as int);
        }
        assert(t == 0) by (nonlinear_arith)
            requires
                t == unit * s,
                s == 0,
        ;
        assert(c * t == 0 && n * t == 0) by (nonlinear_arith)
            requires
                t == 0,
        ;
    } else {
        let q = bits::scaled_value(quotient_of::<A>(v, d));
        law_code_is_nearest::<A>(dtype, v, d);
        let hi = top_code(dtype);
        let lo = -n;
        assert(w * unit == unit * w) by (nonlinear_arith);
        if q > hi * unit {
            assert(c == hi);
            assert(q * s >= hi * t) by (nonlinear_arith)
                requires
                    q >= hi * unit,
                    s >= 0,
                    t == unit * s,
            ;
            if 2 * w <= 15 * s {
                assert(2 * (unit * w) <= 15 * t) by (nonlinear_arith)
                    requires
                        2 * w <= 15 * s,
                        unit > 0,
                        t == unit * s,
                ;
            }
        } else if q < lo * unit {
            assert(c == lo);
            assert(q * s <= lo * t) by (nonlinear_arith)
                requires
                    q <= lo * unit,
                    s >= 0,
                    t == unit * s,
            ;
        } else {
            assert(-t <= 2 * (c * t - q * s) <= t) by (nonlinear_arith)
                requires
                    -unit <= 2 * (c * unit - q) <= unit,
                    s >= 0,
                    t == unit * s,
            ;
        }
    }
    let far = distance(o, w);
    assert(2 * unit * far == 2 * (unit * far)) by (nonlinear_arith);
    assert(2 * unit * e2 == 2 * (unit * e2)) by (nonlinear_arith);
    assert(2 * unit * e3 == 2 * (unit * e3)) by (nonlinear_arith);
    assert(unit * (w - o) == -(unit * (o - w))) by (nonlinear_arith);
}

/// What quantizing and dequantizing do to weight `i`: what is read back is within
/// half a scale of the weight, and so within the block's largest absolute value
/// over 254 for Q8_0 and over 16 for Q4_0, up to the errors of rounding. Only a
/// Q4_0 weight of more than 15 half scales can be further away, since no code
/// stands for 8: it is within a whole scale, which is the largest absolute value
/// over 8, and as far away as from 7 scales. A quotient above the range gives the
/// largest code, and so that many scales. A block without a scale gives 0.
pub proof fn law_roundtrip_error<A: Arith>(
    dtype: QuantDtype,
    x: Seq<u32>,
    i: int,
    e1: int,
    e2: int,
    e3: int,
)
    requires
        x.len() % 32 == 0,
        0 <= i < x.len(),
        ({
            let block = elements_of_block(x, i / 32);
            let d = scale_of::<A>(dtype, block);
            &&& !bits::nan(x[i])
            &&& d < bits::SIGN
            &&& bits::magnitude(d) != 0 ==> bits::magnitude(quotient_of::<A>(x[i], d))
                < bits::INFINITY
            &&& rounds_by::<A>(
                dtype,
                x[i],
                abs_max(block),
                d,
                dequantized::<A>(dtype, quantized::<A>(dtype, x))[i],
                e1,
                e2,
                e3,
            )
        }),
    ensures
        ({
            let block = elements_of_block(x, i / 32);
            let d = scale_of::<A>(dtype, block);
            let unit = pow2(150) as int;
            let sd = bits::scaled_value(d);
            let v = bits::scaled_value(x[i]);
            let top = bits::scaled_value(abs_max(block));
            let out = bits::scaled_value(dequantized::<A>(dtype, quantized::<A>(dtype, x))[i]);
            let n = divisor(dtype);
            let error = 2 * unit * distance(out, v);
            let slack = 2 * e1 + 2 * unit * e2 + 2 * unit * e3;
            let near = dtype is Q8_0 || 2 * v <= 15 * sd;
            &&& error <= 2 * (unit * sd) + slack
            &&& n * error <= 2 * (unit * (top + e3)) + n * slack
            &&& !near ==> error <= 2 * (unit * (v - 7 * sd)) + slack
            &&& near ==> error <= unit * sd + slack
            &&& near ==> n * error <= unit * (top + e3) + n * slack
            &&& bits::magnitude(d) != 0 && bits::scaled_value(quotient_of::<A>(x[i], d))
                > top_code(dtype) * unit ==> distance(out, top_code(dtype) * sd) <= e2
            &&& bits::magnitude(d) == 0 ==> distance(out, 0) <= e2
        }),
{
    let block = elements_of_block(x, i / 32);
    let d = scale_of::<A>(dtype, block);
    let max = abs_max(block);
    let read = dequantized::<A>(dtype, quantized::<A>(dtype, x))[i];
    law_abs_max(block);
    assert(block[i % 32] == x[i]);
    if max != bits::ZERO {
        let k = choose|k: int|
            0 <= k < block.len() && bits::abs_of(#[trigger] block[k]) == max;
        assert(max == bits::magnitude(block[k]));
    }
    lemma_roundtrip_error::<A>(dtype, x[i], max, d, read, e1, e2, e3);
    let unit = pow2(150) as int;
    vstd::arithmetic::power2::lemma_pow2_pos(150);
    let sd = bits::scaled_value(d);
    let top = bits::scaled_value(max);
    let n = divisor(dtype);
    let t = unit * sd;
    assert(n * t <= unit * (top + e3)) by (nonlinear_arith)
        requires
            t == unit * sd,
            n * sd <= top + e3,
            unit > 0,
    ;
    let out = bits::scaled_value(read);
    let error = 2 * unit * distance(out, bits::scaled_value(x[i]));
    let slack = 2 * e1 + 2 * unit * e2 + 2 * unit * e3;
    assert(error <= 2 * t + slack ==> n * error <= 2 * (n * t) + n * slack) by (nonlinear_arith)
        requires
            n > 0,
    ;
    assert(error <= t + slack ==> n * error <= n * t + n * slack) by (nonlinear_arith)
        requires
            n > 0,
    ;
    if bits::magnitude(d) != 0 {
        law_code_is_nearest::<A>(dtype, x[i], d);
    } else {
        vstd::arithmetic::mul::lemma_mul_basics(pow2(bits::exponent(d) as nat) as int);
        vstd::arithmetic::mul::lemma_mul_basics(code_of::<A>(dtype, x[i], d));
    }
}

/// Where nothing is rounded, what is read back misses a weight by the largest
/// absolute value of its block over 254 for Q8_0, and over 16 for Q4_0 unless the
/// weight is above 15/16 of that value, and over 8 if it is.
pub proof fn law_roundtrip_error_unrounded<A: Arith>(dtype: QuantDtype, x: Seq<u32>, i: int)
    requires
        x.len() % 32 == 0,
        0 <= i < x.len(),
        ({
            let block = elements_of_block(x, i / 32);
            let d = scale_of::<A>(dtype, block);
            &&& !bits::nan(x[i])
            &&& d < bits::SIGN
            &&& bits::magnitude(d) != 0 ==> bits::magnitude(quotient_of::<A>(x[i], d))
                < bits::INFINITY
            &&& rounds_by::<A>(
                dtype,
                x[i],
                abs_max(block),
                d,
                dequantized::<A>(dtype, quantized::<A>(dtype, x))[i],
                0,
                0,
                0,
            )
        }),
    ensures
        ({
            let v = bits::scaled_value(x[i]);
            let top = bits::scaled_value(abs_max(elements_of_block(x, i / 32)));
            let out = bits::scaled_value(dequantized::<A>(dtype, quantized::<A>(dtype, x))[i]);
            match dtype {
                QuantDtype::Q8_0 => 254 * distance(out, v) <= top,
                QuantDtype::Q4_0 => {
                    &&& 8 * distance(out, v) <= top
                    &&& 16 * v <= 15 * top ==> 16 * distance(out, v) <= top
                },
            }
        }),
{
    law_roundtrip_error::<A>(dtype, x, i, 0, 0, 0);
    let unit = pow2(150) as int;
    vstd::arithmetic::power2::lemma_pow2_pos(150);
    let top = bits::scaled_value(abs_max(elements_of_block(x, i / 32)));
    let far = distance(
        bits::scaled_value(dequantized::<A>(dtype, quantized::<A>(dtype, x))[i]),
        bits::scaled_value(x[i]),
    );
    let n = divisor(dtype);
    assert(n * (2 * unit * far) == unit * (2 * n * far)) by (nonlinear_arith);
    assert(unit * (2 * n * far) <= unit * top ==> 2 * n * far <= top) by (nonlinear_arith)
        requires
            unit > 0,
    ;
    assert(2 * (unit * top) == unit * (2 * top)) by (nonlinear_arith);
    assert(unit * (2 * n * far) <= unit * (2 * top) ==> n * far <= top) by (nonlinear_arith)
        requires
            unit > 0,
    ;
    assert(2 * unit * 0 == 0) by (nonlinear_arith);
    assert(n * 0 == 0) by (nonlinear_arith);
}

/// Reads a binary32 bit pattern from the first four bytes.
pub fn read_f32_le(bytes: &[u8]) -> (r: u32)
    requires
        bytes@.len() >= 4,
    ensures
        r == block_scale(bytes@),
{
    u32_from_le_bytes(vstd::slice::slice_subrange(bytes, 0, 4))
}

/// Rejects a number of elements that is not a whole number of blocks.
pub fn check_len(x: &[u32]) -> (r: Result<(), MinqError>)
    ensures
        match r {
            Ok(()) => x@.len() % 32 == 0,
            Err(e) => x@.len() % 32 != 0 && e.is_shape(
                ShapeErrorOf::NotWholeBlocks { len: x@.len() as usize },
            ),
        },
{
    if x.len() % BLOCK_SIZE != 0 {
        Err(MinqError::Shape(ShapeErrorOf::NotWholeBlocks { len: x.len() }))
    } else {
        Ok(())
    }
}

fn block_abs_max(block: &[u32]) -> (r: u32)
    ensures
        r == abs_max(block@),
{
    let mut best: u32 = bits::ZERO;
    let mut i: usize = 0;
    while i < block.len()
        invariant
            i <= block@.len(),
            best == bits::max_upto(bits::ZERO, abs_seq(block@), i as int),
        decreases block@.len() - i,
    {
        best = bits::larger(best, bits::abs(block[i]));
        i += 1;
    }
    best
}

/// The code of an element of a block with scale `d`, whose reciprocal is
/// `inverse`.
fn element_code<A: Arith>(dtype: QuantDtype, v: u32, d: u32, inverse: u32) -> (r: i32)
    requires
        arith::deterministic::<A>() ==> inverse == arith::div_of::<A>(bits::ONE, d),
    ensures
        in_range(dtype, r as int),
        arith::deterministic::<A>() ==> r == code_of::<A>(dtype, v, d),
{
    if bits::abs(d) == 0 {
        match dtype {
            QuantDtype::Q8_0 => 0,
            QuantDtype::Q4_0 => -8,
        }
    } else {
        let q: u32 = A::mul32(v, inverse);
        match dtype {
            QuantDtype::Q8_0 => bits::round_clamp(q, -127, 127),
            QuantDtype::Q4_0 => bits::round_clamp(q, -8, 7),
        }
    }
}

/// Whether `bytes` are blocks of codes in the dtype's range.
pub open spec fn well_coded(dtype: QuantDtype, bytes: Seq<u8>) -> bool {
    forall|n: int, i: int|
        0 <= n < bytes.len() as int / dtype.block_len() && 0 <= i < 32 ==> in_range(
            dtype,
            #[trigger] block_code(dtype, bytes_of_block(dtype, bytes, n), i),
        )
}

fn signed(code: i32) -> (r: u8)
    requires
        -128 <= code < 128,
    ensures
        r == signed_byte(code as int),
{
    if code < 0 {
        (code + 256) as u8
    } else {
        code as u8
    }
}

/// Appends one block to the bytes of the blocks before it.
fn push_block<A: Arith>(dtype: QuantDtype, block: &[u32], out: &mut Vec<u8>)
    requires
        block@.len() == 32,
    ensures
        exists|scale: u32, codes: Seq<int>|
            {
                &&& codes.len() == 32
                &&& forall|i: int| 0 <= i < 32 ==> in_range(dtype, #[trigger] codes[i])
                &&& final(out)@ == old(out)@ + #[trigger] block_of(dtype, scale, codes)
            },
        arith::deterministic::<A>() ==> final(out)@ == old(out)@ + block_of(
            dtype,
            scale_of::<A>(dtype, block@),
            codes_of::<A>(dtype, block@),
        ),
{
    let top: u32 = match dtype {
        QuantDtype::Q8_0 => bits::ONE_TWENTY_SEVEN,
        QuantDtype::Q4_0 => bits::EIGHT,
    };
    let d: u32 = A::div32(block_abs_max(block), top);
    let inverse: u32 = A::div32(bits::ONE, d);
    let mut head = u32_to_le_bytes(d);
    let ghost before = out@;
    out.append(&mut head);
    let ghost mut codes: Seq<int> = Seq::empty();
    match dtype {
        QuantDtype::Q8_0 => {
            let mut i: usize = 0;
            while i < BLOCK_SIZE
                invariant
                    i <= 32 == block@.len(),
                    dtype is Q8_0,
                    arith::deterministic::<A>() ==> inverse == arith::div_of::<A>(bits::ONE, d),
                    codes.len() == i,
                    forall|j: int| 0 <= j < i ==> in_range(dtype, #[trigger] codes[j]),
                    arith::deterministic::<A>() ==> forall|j: int|
                        0 <= j < i ==> codes[j] == code_of::<A>(dtype, block@[j], d),
                    out@ == before + spec_u32_to_le_bytes(d) + Seq::new(
                        i as nat,
                        |j: int| signed_byte(codes[j]),
                    ),
                decreases 32 - i,
            {
                let q: i32 = element_code::<A>(dtype, block[i], d, inverse);
                let ghost old_codes = codes;
                out.push(signed(q));
                proof {
                    codes = codes.push(q as int);
                    assert(forall|j: int| 0 <= j < i ==> codes[j] == old_codes[j]);
                    assert(out@ =~= before + spec_u32_to_le_bytes(d) + Seq::new(
                        (i + 1) as nat,
                        |j: int| signed_byte(codes[j]),
                    ));
                }
                i += 1;
            }
            assert(out@ =~= before + block_of(dtype, d, codes));
        },
        QuantDtype::Q4_0 => {
            let mut i: usize = 0;
            while i < BLOCK_SIZE / 2
                invariant
                    i <= 16,
                    block@.len() == 32,
                    dtype is Q4_0,
                    arith::deterministic::<A>() ==> inverse == arith::div_of::<A>(bits::ONE, d),
                    codes.len() == 2 * i,
                    forall|j: int| 0 <= j < 2 * i ==> in_range(dtype, #[trigger] codes[j]),
                    arith::deterministic::<A>() ==> forall|j: int|
                        0 <= j < 2 * i ==> codes[j] == code_of::<A>(dtype, block@[j], d),
                    out@ == before + spec_u32_to_le_bytes(d) + Seq::new(
                        i as nat,
                        |j: int| ((codes[2 * j] + 8) + 16 * (codes[2 * j + 1] + 8)) as u8,
                    ),
                decreases 16 - i,
            {
                let lo: i32 = element_code::<A>(dtype, block[2 * i], d, inverse);
                let hi: i32 = element_code::<A>(dtype, block[2 * i + 1], d, inverse);
                let ghost old_codes = codes;
                out.push(((lo + 8) + 16 * (hi + 8)) as u8);
                proof {
                    codes = codes.push(lo as int).push(hi as int);
                    assert(forall|j: int| 0 <= j < 2 * i ==> codes[j] == old_codes[j]);
                    assert(codes[2 * i] == lo && codes[2 * i + 1] == hi);
                    assert forall|j: int| 0 <= j < 2 * i + 2 implies in_range(
                        dtype,
                        #[trigger] codes[j],
                    ) by {
                        if j < 2 * i {
                            assert(in_range(dtype, old_codes[j]));
                        }
                    }
                    assert(out@ =~= before + spec_u32_to_le_bytes(d) + Seq::new(
                        (i + 1) as nat,
                        |j: int| ((codes[2 * j] + 8) + 16 * (codes[2 * j + 1] + 8)) as u8,
                    ));
                }
                i += 1;
            }
            assert(out@ =~= before + block_of(dtype, d, codes));
        },
    }
    proof {
        if arith::deterministic::<A>() {
            assert(codes =~= codes_of::<A>(dtype, block@));
        }
    }
}

proof fn lemma_push_block_coded(dtype: QuantDtype, before: Seq<u8>, n: int, scale: u32, codes: Seq<int>)
    requires
        n >= 0,
        before.len() == n * dtype.block_len(),
        well_coded(dtype, before),
        codes.len() == 32,
        forall|i: int| 0 <= i < 32 ==> in_range(dtype, #[trigger] codes[i]),
    ensures
        well_coded(dtype, before + block_of(dtype, scale, codes)),
        (before + block_of(dtype, scale, codes)).len() == (n + 1) * dtype.block_len(),
{
    let bb = dtype.block_len();
    let after = before + block_of(dtype, scale, codes);
    law_block_roundtrip(dtype, scale, codes);
    assert((n + 1) * bb == n * bb + bb) by (nonlinear_arith);
    vstd::arithmetic::div_mod::lemma_div_by_multiple(n + 1, bb);
    vstd::arithmetic::div_mod::lemma_div_by_multiple(n, bb);
    assert forall|k: int, i: int|
        0 <= k < after.len() as int / bb && 0 <= i < 32 implies in_range(
        dtype,
        #[trigger] block_code(dtype, bytes_of_block(dtype, after, k), i),
    ) by {
        assert(0 <= k * bb) by (nonlinear_arith)
            requires
                k >= 0,
                bb > 0,
        ;
        if k < n {
            assert(k * bb + bb <= n * bb) by (nonlinear_arith)
                requires
                    k + 1 <= n,
                    bb > 0,
            ;
            assert(bytes_of_block(dtype, after, k) =~= bytes_of_block(dtype, before, k));
        } else {
            assert(bytes_of_block(dtype, after, k) =~= block_of(dtype, scale, codes));
            assert(in_range(dtype, codes[i]));
        }
    }
}

/// Quantizes `x` into the byte layout of `dtype`.
fn quantize_blocks<A: Arith>(dtype: QuantDtype, x: &[u32]) -> (r: Result<Vec<u8>, MinqError>)
    ensures
        match r {
            Ok(bytes) => {
                &&& x@.len() % 32 == 0
                &&& bytes@.len() == x@.len() as int / 32 * dtype.block_len()
                &&& well_coded(dtype, bytes@)
                &&& arith::deterministic::<A>() ==> bytes@ == quantized::<A>(dtype, x@)
            },
            Err(e) => x@.len() % 32 != 0 && e.is_shape(
                ShapeErrorOf::NotWholeBlocks { len: x@.len() as usize },
            ),
        },
{
    match check_len(x) {
        Ok(()) => {},
        Err(e) => {
            return Err(e);
        },
    }
    let mut out: Vec<u8> = Vec::new();
    let blocks: usize = x.len() / BLOCK_SIZE;
    let mut n: usize = 0;
    while n < blocks
        invariant
            n <= blocks,
            blocks * 32 == x@.len() <= usize::MAX,
            out@.len() == n * dtype.block_len(),
            well_coded(dtype, out@),
            arith::deterministic::<A>() ==> out@ == quantized_upto::<A>(dtype, x@, n as int),
        decreases blocks - n,
    {
        let block = vstd::slice::slice_subrange(x, n * BLOCK_SIZE, n * BLOCK_SIZE + BLOCK_SIZE);
        let ghost before = out@;
        push_block::<A>(dtype, block, &mut out);
        proof {
            let (scale, codes) = choose|scale: u32, codes: Seq<int>|
                {
                    &&& codes.len() == 32
                    &&& forall|i: int| 0 <= i < 32 ==> in_range(dtype, #[trigger] codes[i])
                    &&& out@ == before + #[trigger] block_of(dtype, scale, codes)
                };
            lemma_push_block_coded(dtype, before, n as int, scale, codes);
            assert(block@ == elements_of_block(x@, n as int));
        }
        n += 1;
    }
    Ok(out)
}

/// Quantizes `x` into the Q8_0 byte layout.
pub fn quantize_q8_0<A: Arith>(x: &[u32]) -> (r: Result<Vec<u8>, MinqError>)
    ensures
        match r {
            Ok(bytes) => {
                &&& x@.len() % 32 == 0
                &&& bytes@.len() == x@.len() as int / 32 * 36
                &&& well_coded(QuantDtype::Q8_0, bytes@)
                &&& arith::deterministic::<A>() ==> bytes@ == quantized::<A>(QuantDtype::Q8_0, x@)
            },
            Err(e) => x@.len() % 32 != 0 && e.is_shape(
                ShapeErrorOf::NotWholeBlocks { len: x@.len() as usize },
            ),
        },
{
    quantize_blocks::<A>(QuantDtype::Q8_0, x)
}

/// Quantizes `x` into the Q4_0 byte layout.
pub fn quantize_q4_0<A: Arith>(x: &[u32]) -> (r: Result<Vec<u8>, MinqError>)
    ensures
        match r {
            Ok(bytes) => {
                &&& x@.len() % 32 == 0
                &&& bytes@.len() == x@.len() as int / 32 * 20
                &&& well_coded(QuantDtype::Q4_0, bytes@)
                &&& arith::deterministic::<A>() ==> bytes@ == quantized::<A>(QuantDtype::Q4_0, x@)
            },
            Err(e) => x@.len() % 32 != 0 && e.is_shape(
                ShapeErrorOf::NotWholeBlocks { len: x@.len() as usize },
            ),
        },
{
    quantize_blocks::<A>(QuantDtype::Q4_0, x)
}

/// Reads the code of element `i` of a block.
fn read_code(dtype: QuantDtype, block: &[u8], i: usize) -> (r: i32)
    requires
        block@.len() == dtype.block_len(),
        i < 32,
    ensures
        r == block_code(dtype, block@, i as int),
        -128 <= r < 128,
{
    match dtype {
        QuantDtype::Q8_0 => {
            let byte: u8 = block[4 + i];
            if byte >= 128 {
                byte as i32 - 256
            } else {
                byte as i32
            }
        },
        QuantDtype::Q4_0 => {
            let byte: u8 = block[4 + i / 2];
            if i % 2 == 0 {
                (byte % 16) as i32 - 8
            } else {
                (byte / 16) as i32 - 8
            }
        },
    }
}

/// Whether the bytes are whole blocks for exactly `outputs` elements.
pub open spec fn sizes_agree(dtype: QuantDtype, bytes: int, outputs: int) -> bool {
    bytes % dtype.block_len() == 0 && outputs == bytes / dtype.block_len() * 32
}

fn dequantize_blocks<A: Arith>(dtype: QuantDtype, bytes: &[u8], out: &mut [u32]) -> (r: Result<
    (),
    MinqError,
>)
    ensures
        final(out)@.len() == old(out)@.len(),
        match r {
            Ok(()) => {
                &&& sizes_agree(dtype, bytes@.len() as int, old(out)@.len() as int)
                &&& arith::deterministic::<A>() ==> final(out)@ == dequantized::<A>(dtype, bytes@)
            },
            Err(e) => {
                &&& !sizes_agree(dtype, bytes@.len() as int, old(out)@.len() as int)
                &&& final(out)@ == old(out)@
                &&& e.is_shape(
                    ShapeErrorOf::Dequantize {
                        bytes: bytes@.len() as usize,
                        outputs: old(out)@.len() as usize,
                    },
                )
            },
        },
{
    let bb: usize = dtype.block_bytes();
    let total: usize = out.len();
    if bytes.len() % bb != 0 || total % BLOCK_SIZE != 0 || total / BLOCK_SIZE != bytes.len() / bb {
        return Err(
            MinqError::Shape(ShapeErrorOf::Dequantize { bytes: bytes.len(), outputs: out.len() }),
        );
    }
    let blocks: usize = bytes.len() / bb;
    let mut n: usize = 0;
    proof {
        assert(blocks * bb == bytes@.len());
    }
    while n < blocks
        invariant
            n <= blocks,
            bb == dtype.block_len(),
            blocks * bb == bytes@.len() <= usize::MAX,
            out@.len() == total == blocks * 32,
            arith::deterministic::<A>() ==> forall|j: int|
                0 <= j < n * 32 ==> out@[j] == #[trigger] dequantized_at::<A>(dtype, bytes@, j),
        decreases blocks - n,
    {
        proof {
            assert(n * bb + bb <= blocks * bb) by (nonlinear_arith)
                requires
                    n + 1 <= blocks,
                    bb > 0,
            ;
            assert(0 <= n * bb) by (nonlinear_arith)
                requires
                    n >= 0,
                    bb > 0,
            ;
        }
        let block = vstd::slice::slice_subrange(bytes, n * bb, n * bb + bb);
        let d: u32 = read_f32_le(block);
        let mut i: usize = 0;
        while i < BLOCK_SIZE
            invariant
                i <= 32,
                n < blocks,
                out@.len() == total == blocks * 32,
                bb == dtype.block_len(),
                block@ == bytes_of_block(dtype, bytes@, n as int),
                block@.len() == bb,
                d == block_scale(block@),
                arith::deterministic::<A>() ==> forall|j: int|
                    0 <= j < n * 32 + i ==> out@[j] == #[trigger] dequantized_at::<A>(
                        dtype,
                        bytes@,
                        j,
                    ),
            decreases 32 - i,
        {
            let q: i32 = read_code(dtype, block, i);
            let at: usize = n * BLOCK_SIZE + i;
            let ghost before = out@;
            out[at] = A::mul32(A::int32(q), d);
            proof {
                if arith::deterministic::<A>() {
                    assert(at as int / 32 == n && at as int % 32 == i);
                    assert forall|j: int| 0 <= j < n * 32 + i + 1 implies out@[j]
                        == #[trigger] dequantized_at::<A>(dtype, bytes@, j) by {
                        if j < n * 32 + i {
                            assert(before[j] == dequantized_at::<A>(dtype, bytes@, j));
                        }
                    }
                }
            }
            i += 1;
        }
        n += 1;
    }
    proof {
        if arith::deterministic::<A>() {
            assert forall|j: int| 0 <= j < total implies out@[j] == dequantized::<A>(
                dtype,
                bytes@,
            )[j] by {
                assert(out@[j] == dequantized_at::<A>(dtype, bytes@, j));
            }
            assert(out@ =~= dequantized::<A>(dtype, bytes@));
        }
    }
    Ok(())
}

/// Inverse of [`quantize_q8_0`]; `out.len()` must equal `bytes.len() / 36 * 32`.
pub fn dequantize_q8_0<A: Arith>(bytes: &[u8], out: &mut [u32]) -> (r: Result<(), MinqError>)
    ensures
        final(out)@.len() == old(out)@.len(),
        match r {
            Ok(()) => {
                &&& sizes_agree(QuantDtype::Q8_0, bytes@.len() as int, old(out)@.len() as int)
                &&& arith::deterministic::<A>() ==> final(out)@ == dequantized::<A>(
                    QuantDtype::Q8_0,
                    bytes@,
                )
            },
            Err(e) => {
                &&& !sizes_agree(QuantDtype::Q8_0, bytes@.len() as int, old(out)@.len() as int)
                &&& final(out)@ == old(out)@
                &&& e.is_shape(
                    ShapeErrorOf::Dequantize {
                        bytes: bytes@.len() as usize,
                        outputs: old(out)@.len() as usize,
                    },
                )
            },
        },
{
    dequantize_blocks::<A>(QuantDtype::Q8_0, bytes, out)
}

/// Inverse of [`quantize_q4_0`]; `out.len()` must equal `bytes.len() / 20 * 32`.
pub fn dequantize_q4_0<A: Arith>(bytes: &[u8], out: &mut [u32]) -> (r: Result<(), MinqError>)
    ensures
        final(out)@.len() == old(out)@.len(),
        match r {
            Ok(()) => {
                &&& sizes_agree(QuantDtype::Q4_0, bytes@.len() as int, old(out)@.len() as int)
                &&& arith::deterministic::<A>() ==> final(out)@ == dequantized::<A>(
                    QuantDtype::Q4_0,
                    bytes@,
                )
            },
            Err(e) => {
                &&& !sizes_agree(QuantDtype::Q4_0, bytes@.len() as int, old(out)@.len() as int)
                &&& final(out)@ == old(out)@
                &&& e.is_shape(
                    ShapeErrorOf::Dequantize {
                        bytes: bytes@.len() as usize,
                        outputs: old(out)@.len() as usize,
                    },
                )
            },
        },
{
    dequantize_blocks::<A>(QuantDtype::Q4_0, bytes, out)
}

/// A 2-D weight matrix held in block-quantized form, row-major by block.
#[derive(Debug, PartialEq)]
pub struct QuantizedTensor {
    pub dtype: QuantDtype,
    pub rows: usize,
    pub cols: usize,
    /// Raw block bytes; row `r` occupies `cols / 32 * block_bytes` bytes.
    pub data: Vec<u8>,
}

/// The contents of a [`QuantizedTensor`].
pub struct QuantizedView {
    pub dtype: QuantDtype,
    pub rows: usize,
    pub cols: usize,
    pub data: Seq<u8>,
}

impl View for QuantizedTensor {
    type V = QuantizedView;

    open spec fn view(&self) -> QuantizedView {
        QuantizedView { dtype: self.dtype, rows: self.rows, cols: self.cols, data: self.data@ }
    }
}

impl QuantizedView {
    /// The number of bytes of a row.
    pub open spec fn row_len(self) -> int {
        self.cols as int / 32 * self.dtype.block_len()
    }

    /// Whether the rows are whole blocks and the data is that of all rows.
    pub open spec fn wf(self) -> bool {
        self.cols as int % 32 == 0 && self.data.len() == self.rows * self.row_len()
    }
}

impl Clone for QuantizedTensor {
    fn clone(&self) -> (t: QuantizedTensor)
        ensures
            t@ == self@,
    {
        QuantizedTensor {
            dtype: self.dtype,
            rows: self.rows,
            cols: self.cols,
            data: self.data.clone(),
        }
    }
}

/// The terms that the codes of one block contribute to a row product, for the
/// first `n` steps. A step is one element of a Q8_0 block, and a pair of
/// elements of a Q4_0 block.
pub open spec fn block_dot_upto<A: Arith>(
    dtype: QuantDtype,
    block: Seq<u8>,
    x: Seq<u32>,
    base: int,
    n: int,
) -> u32
    decreases n,
{
    if n <= 0 {
        bits::ZERO
    } else {
        let sum = block_dot_upto::<A>(dtype, block, x, base, n - 1);
        match dtype {
            QuantDtype::Q8_0 => arith::add_of::<A>(
                sum,
                code_times::<A>(dtype, block, x, base, n - 1),
            ),
            QuantDtype::Q4_0 => arith::add_of::<A>(
                sum,
                arith::add_of::<A>(
                    code_times::<A>(dtype, block, x, base, 2 * (n - 1)),
                    code_times::<A>(dtype, block, x, base, 2 * (n - 1) + 1),
                ),
            ),
        }
    }
}

/// The code of element `i` of a block times the vector's element at
/// `base + i`.
pub open spec fn code_times<A: Arith>(
    dtype: QuantDtype,
    block: Seq<u8>,
    x: Seq<u32>,
    base: int,
    i: int,
) -> u32 {
    arith::mul_of::<A>(arith::int_of::<A>(block_code(dtype, block, i) as i32), x[base + i])
}

/// The number of steps over one block.
pub open spec fn block_steps(dtype: QuantDtype) -> int {
    match dtype {
        QuantDtype::Q8_0 => 32,
        QuantDtype::Q4_0 => 16,
    }
}

/// The product of the first `n` blocks of a row with a vector: the scale is
/// applied once per block.
pub open spec fn row_dot_upto<A: Arith>(
    dtype: QuantDtype,
    row: Seq<u8>,
    x: Seq<u32>,
    n: int,
) -> u32
    decreases n,
{
    if n <= 0 {
        bits::ZERO
    } else {
        let block = bytes_of_block(dtype, row, n - 1);
        arith::add_of::<A>(
            row_dot_upto::<A>(dtype, row, x, n - 1),
            arith::mul_of::<A>(
                block_scale(block),
                block_dot_upto::<A>(dtype, block, x, (n - 1) * 32, block_steps(dtype)),
            ),
        )
    }
}

/// The product of a row with a vector.
pub open spec fn row_dot<A: Arith>(dtype: QuantDtype, row: Seq<u8>, x: Seq<u32>) -> u32 {
    row_dot_upto::<A>(dtype, row, x, row.len() as int / dtype.block_len())
}

fn row_product<A: Arith>(dtype: QuantDtype, row: &[u8], x: &[u32]) -> (acc: u32)
    requires
        row@.len() as int / dtype.block_len() * 32 <= x@.len(),
    ensures
        arith::deterministic::<A>() ==> acc == row_dot::<A>(dtype, row@, x@),
{
    let bb: usize = dtype.block_bytes();
    let blocks: usize = row.len() / bb;
    let width: usize = x.len();
    let mut acc: u32 = bits::ZERO;
    let mut n: usize = 0;
    proof {
        assert(blocks * bb <= row@.len());
    }
    while n < blocks
        invariant
            n <= blocks,
            bb == dtype.block_len(),
            blocks * bb <= row@.len() <= usize::MAX,
            blocks * 32 <= width == x@.len(),
            arith::deterministic::<A>() ==> acc == row_dot_upto::<A>(dtype, row@, x@, n as int),
        decreases blocks - n,
    {
        proof {
            assert(n * bb + bb <= blocks * bb) by (nonlinear_arith)
                requires
                    n + 1 <= blocks,
                    bb > 0,
            ;
            assert(0 <= n * bb) by (nonlinear_arith)
                requires
                    n >= 0,
                    bb > 0,
            ;
        }
        let block = vstd::slice::slice_subrange(row, n * bb, n * bb + bb);
        let d: u32 = read_f32_le(block);
        let base: usize = n * BLOCK_SIZE;
        let mut sum: u32 = bits::ZERO;
        let steps: usize = match dtype {
            QuantDtype::Q8_0 => 32,
            QuantDtype::Q4_0 => 16,
        };
        let mut i: usize = 0;
        while i < steps
            invariant
                i <= steps == block_steps(dtype),
                base == n * 32,
                base + 32 <= width == x@.len(),
                block@.len() == dtype.block_len(),
                arith::deterministic::<A>() ==> sum == block_dot_upto::<A>(
                    dtype,
                    block@,
                    x@,
                    base as int,
                    i as int,
                ),
            decreases steps - i,
        {
            match dtype {
                QuantDtype::Q8_0 => {
                    let q: i32 = read_code(dtype, block, i);
                    sum = A::add32(sum, A::mul32(A::int32(q), x[base + i]));
                },
                QuantDtype::Q4_0 => {
                    let lo: i32 = read_code(dtype, block, 2 * i);
                    let hi: i32 = read_code(dtype, block, 2 * i + 1);
                    sum = A::add32(
                        sum,
                        A::add32(
                            A::mul32(A::int32(lo), x[base + 2 * i]),
                            A::mul32(A::int32(hi), x[base + 2 * i + 1]),
                        ),
                    );
                },
            }
            i += 1;
        }
        acc = A::add32(acc, A::mul32(d, sum));
        n += 1;
    }
    acc
}

/// Fused dequantize-multiply of one Q8_0 row with `x`.
pub fn matvec_row_q8_0<A: Arith>(row: &[u8], x: &[u32]) -> (acc: u32)
    requires
        row@.len() as int / 36 * 32 <= x@.len(),
    ensures
        arith::deterministic::<A>() ==> acc == row_dot::<A>(QuantDtype::Q8_0, row@, x@),
{
    row_product::<A>(QuantDtype::Q8_0, row, x)
}

/// Fused dequantize-multiply of one Q4_0 row with `x`.
pub fn matvec_row_q4_0<A: Arith>(row: &[u8], x: &[u32]) -> (acc: u32)
    requires
        row@.len() as int / 20 * 32 <= x@.len(),
    ensures
        arith::deterministic::<A>() ==> acc == row_dot::<A>(QuantDtype::Q4_0, row@, x@),
{
    row_product::<A>(QuantDtype::Q4_0, row, x)
}

/// The products of the whole rows of a block-quantized matrix with a vector.
pub open spec fn quant_matvec_of<A: Arith>(q: QuantizedView, x: Seq<u32>) -> Seq<u32> {
    Seq::new(
        (q.data.len() as int / q.row_len()) as nat,
        |i: int|
            row_dot::<A>(q.dtype, q.data.subrange(i * q.row_len(), i * q.row_len() + q.row_len()), x),
    )
}

/// Whether a tensor can be block-quantized.
pub open spec fn quantizable(w: TensorView) -> bool {
    w.shape.len() == 2 && w.shape[1] % 32 == 0
}

impl QuantizedTensor {
    /// Quantizes a 2-D weight matrix `[rows, cols]`; `cols` must be a multiple
    /// of the block size.
    pub fn from_tensor<A: Arith>(w: &Tensor, dtype: QuantDtype) -> (r: Result<
        QuantizedTensor,
        MinqError,
    >)
        ensures
            match r {
                Ok(q) => {
                    &&& quantizable(w@) && w.data@.len() % 32 == 0
                    &&& q.dtype == dtype
                    &&& q.rows == w.shape@[0]
                    &&& q.cols == w.shape@[1]
                    &&& w@.wf() ==> q@.wf()
                    &&& q.data@.len() == w.data@.len() as int / 32 * dtype.block_len()
                    &&& well_coded(dtype, q.data@)
                    &&& arith::deterministic::<A>() ==> q.data@ == quantized::<A>(dtype, w.data@)
                },
                Err(e) => if !quantizable(w@) {
                    e.is_shape(ShapeErrorOf::NotQuantizable { shape: w.shape@ })
                } else {
                    w.data@.len() % 32 != 0 && e.is_shape(
                        ShapeErrorOf::NotWholeBlocks { len: w.data@.len() as usize },
                    )
                },
            },
    {
        if w.ndim() != 2 || w.shape[1] % BLOCK_SIZE != 0 {
            return Err(MinqError::Shape(ShapeErrorOf::NotQuantizable { shape: w.shape.clone() }));
        }
        let data = match dtype {
            QuantDtype::Q8_0 => quantize_q8_0::<A>(&w.data),
            QuantDtype::Q4_0 => quantize_q4_0::<A>(&w.data),
        };
        match data {
            Ok(data) => {
                let q = QuantizedTensor { dtype, rows: w.shape[0], cols: w.shape[1], data };
                proof {
                    if w@.wf() {
                        tensor::lemma_numel_2(w.shape@);
                        let rows = w.shape@[0] as int;
                        let c = w.shape@[1] as int / 32;
                        let bb = dtype.block_len();
                        assert(rows * (c * 32) == (rows * c) * 32) by (nonlinear_arith);
                        assert((rows * c) * 32 / 32 == rows * c);
                        assert((rows * c) * bb == rows * (c * bb)) by (nonlinear_arith);
                    }
                }
                Ok(q)
            },
            Err(e) => Err(e),
        }
    }

    /// Materializes the weights densely (used for verification, not inference).
    pub fn dequantize<A: Arith>(&self) -> (r: Result<Tensor, MinqError>)
        requires
            self.rows * self.cols <= usize::MAX,
        ensures
            match r {
                Ok(t) => {
                    &&& sizes_agree(self.dtype, self.data@.len() as int, self.rows * self.cols)
                    &&& t@.wf()
                    &&& t.shape@ == seq![self.rows, self.cols]
                    &&& arith::deterministic::<A>() ==> t.data@ == dequantized::<A>(
                        self.dtype,
                        self.data@,
                    )
                },
                Err(e) => {
                    &&& !sizes_agree(self.dtype, self.data@.len() as int, self.rows * self.cols)
                    &&& e.is_shape(
                        ShapeErrorOf::Dequantize {
                            bytes: self.data@.len() as usize,
                            outputs: (self.rows * self.cols) as usize,
                        },
                    )
                },
            },
    {
        let mut out: Vec<u32> = vec![bits::ZERO; self.rows * self.cols];
        let done = match self.dtype {
            QuantDtype::Q8_0 => dequantize_q8_0::<A>(&self.data, out.as_mut_slice()),
            QuantDtype::Q4_0 => dequantize_q4_0::<A>(&self.data, out.as_mut_slice()),
        };
        match done {
            Ok(()) => {},
            Err(e) => {
                return Err(e);
            },
        }
        let mut shape: Vec<usize> = Vec::new();
        shape.push(self.rows);
        shape.push(self.cols);
        proof {
            tensor::lemma_numel_2(shape@);
            assert(shape@ =~= seq![self.rows, self.cols]);
        }
        Tensor::new(out, shape)
    }

    /// Fused dequantize-multiply: `y = W @ x` without materializing W.
    ///
    /// For each block the sum of `q_i * x_i` is accumulated and the block scale
    /// is applied once, which keeps both the dequantization work and the memory
    /// traffic minimal.
    pub fn matvec<A: Arith>(&self, x: &[u32]) -> (r: Result<Vec<u32>, MinqError>)
        requires
            self.cols == x@.len() ==> 0 < self@.row_len() <= usize::MAX,
        ensures
            match r {
                Ok(y) => {
                    &&& self.cols == x@.len()
                    &&& y@.len() == self.data@.len() as int / self@.row_len()
                    &&& arith::deterministic::<A>() ==> y@ == quant_matvec_of::<A>(self@, x@)
                },
                Err(e) => self.cols != x@.len() && e.is_shape(
                    ShapeErrorOf::QuantMatvec { cols: self.cols, len: x@.len() as usize },
                ),
            },
    {
        if x.len() != self.cols {
            return Err(
                MinqError::Shape(ShapeErrorOf::QuantMatvec { cols: self.cols, len: x.len() }),
            );
        }
        let dtype = self.dtype;
        let row_bytes: usize = self.cols / BLOCK_SIZE * dtype.block_bytes();
        proof {
            vstd::arithmetic::div_mod::lemma_div_by_multiple(
                self.cols as int / 32,
                dtype.block_len(),
            );
        }
        let row_dot = |row: &[u8]| -> (y: u32)
            requires
                row@.len() == self@.row_len(),
                self.cols == x@.len(),
                row@.len() as int / dtype.block_len() == self.cols as int / 32,
            ensures
                arith::deterministic::<A>() ==> y == row_dot::<A>(dtype, row@, x@),
        {
            match dtype {
                QuantDtype::Q8_0 => matvec_row_q8_0::<A>(row, x),
                QuantDtype::Q4_0 => matvec_row_q4_0::<A>(row, x),
            }
        };
        let out = parallel::map_chunks(self.data.as_slice(), row_bytes, row_dot);
        proof {
            if arith::deterministic::<A>() {
                assert(out@ =~= quant_matvec_of::<A>(self@, x@));
            }
        }
        Ok(out)
    }
}

} // verus!
