//! What the kernels compute where every operation rounds to nearest.
//!
//! Of a multiplication, a division and an addition, rounding to nearest in
//! binary32 promises that the result is within one part in `2^24` of the real
//! one, or within half of the smallest positive number if it is tiny. The laws
//! here bound what these errors can add up to.

use vstd::arithmetic::power2::{lemma_pow2_adds, lemma_pow2_pos, lemma_pow2_strictly_increases, pow2};
use vstd::prelude::*;

use crate::arith;
use crate::arith::Arith;
use crate::bits;
use crate::quantize;
use crate::quantize::{distance, QuantDtype};

verus! {

/// `2^24`: a result of normal size is within one part in this of the real one.
pub const PARTS: u32 = 0x100_0000;

/// Whether the encoding is a finite number.
pub open spec fn finite(b: u32) -> bool {
    bits::magnitude(b) < bits::INFINITY
}

/// The absolute value of an integer.
pub open spec fn size(a: int) -> int {
    distance(a, 0)
}

/// Whether `r` is finite and close to the product of `a` and `b`.
pub open spec fn near_product(r: u32, a: u32, b: u32) -> bool {
    let product = bits::scaled_value(a) * bits::scaled_value(b);
    &&& finite(r)
    &&& PARTS * distance(bits::scaled_value(r) * pow2(150), product) <= size(product) + PARTS
        * pow2(150)
}

/// Whether `r` is finite and close to `a` divided by `b`.
pub open spec fn near_quotient(r: u32, a: u32, b: u32) -> bool {
    let (va, vb) = (bits::scaled_value(a), bits::scaled_value(b));
    &&& finite(r)
    &&& PARTS * distance(bits::scaled_value(r) * vb, va * pow2(150)) <= size(va) * pow2(150) + PARTS
        * size(vb)
}

/// Whether `r` is finite and close to the sum of `a` and `b`.
pub open spec fn near_sum(r: u32, a: u32, b: u32) -> bool {
    let sum = bits::scaled_value(a) + bits::scaled_value(b);
    &&& finite(r)
    &&& PARTS * distance(bits::scaled_value(r), sum) <= size(sum)
}

/// Whether the arithmetic rounds to nearest: the result of an operation on finite
/// numbers is finite and close to the real one, as long as that is no larger than
/// `2^127`, and integers of up to 24 bits are represented as they are. Binary32 as
/// in IEEE 754 does so.
pub open spec fn rounds_to_nearest<A: Arith>() -> bool {
    &&& forall|a: u32, b: u32|
        finite(a) && finite(b) && size(bits::scaled_value(a) * bits::scaled_value(b)) <= pow2(427)
            ==> near_product(#[trigger] arith::mul_of::<A>(a, b), a, b)
    &&& forall|a: u32, b: u32|
        finite(a) && finite(b) && bits::scaled_value(b) != 0 && size(bits::scaled_value(a)) <= size(
            bits::scaled_value(b),
        ) * pow2(127) ==> near_quotient(#[trigger] arith::div_of::<A>(a, b), a, b)
    &&& forall|a: u32, b: u32|
        finite(a) && finite(b) && size(bits::scaled_value(a) + bits::scaled_value(b)) <= pow2(277)
            ==> near_sum(#[trigger] arith::add_of::<A>(a, b), a, b)
    &&& forall|n: i32|
        -0x100_0000 <= n <= 0x100_0000 ==> finite(#[trigger] arith::int_of::<A>(n))
            && bits::scaled_value(arith::int_of::<A>(n)) == n * pow2(150)
}

/// The powers of two that the bounds are made of.
pub(crate) proof fn lemma_powers()
    ensures
        pow2(50) == 0x4_0000_0000_0000,
        pow2(150) >= 0x4_0000_0000_0000,
        pow2(276) * 2 == pow2(277),
        pow2(277) == pow2(150) * pow2(127),
        pow2(427) == pow2(277) * pow2(150),
        pow2(276) * 0x100_0000 == pow2(150) * pow2(150),
        pow2(150) == pow2(50) * pow2(100),
        pow2(100) <= pow2(127),
        pow2(150) * pow2(150) * 0x1000 <= pow2(427),
{
    vstd::arithmetic::power2::lemma2_to64();
    vstd::arithmetic::power2::lemma2_to64_rest();
    lemma_pow2_strictly_increases(50, 150);
    lemma_pow2_adds(276, 1);
    lemma_pow2_adds(150, 127);
    lemma_pow2_adds(277, 150);
    lemma_pow2_adds(276, 24);
    lemma_pow2_adds(150, 150);
    lemma_pow2_adds(50, 100);
    lemma_pow2_strictly_increases(100, 127);
    lemma_pow2_adds(300, 12);
    lemma_pow2_strictly_increases(312, 427);
}

/// The constants that the quantizer divides by.
pub(crate) proof fn lemma_constants()
    ensures
        bits::scaled_value(bits::ONE) == pow2(150),
        bits::scaled_value(bits::EIGHT) == 8 * pow2(150),
        bits::scaled_value(bits::ONE_TWENTY_SEVEN) == 127 * pow2(150),
        finite(bits::ONE),
        finite(bits::EIGHT),
        finite(bits::ONE_TWENTY_SEVEN),
{
    vstd::arithmetic::power2::lemma2_to64();
    lemma_pow2_adds(23, 127);
    lemma_pow2_adds(23, 130);
    lemma_pow2_adds(3, 150);
    lemma_pow2_adds(17, 133);
    let p = pow2(133) as int;
    assert(0xFE_0000 * p == 127 * (0x2_0000 * p)) by (nonlinear_arith);
}

/// The value of an encoding is even in units of `2^-150`, and only a zero has the
/// value 0.
pub(crate) proof fn lemma_even(b: u32)
    ensures
        bits::scaled_value(b) % 2 == 0,
        size(bits::scaled_value(b)) <= 1 ==> bits::scaled_value(b) == 0,
        bits::scaled_value(b) == 0 ==> bits::magnitude(b) == 0,
        bits::magnitude(b) == 0 ==> bits::scaled_value(b) == 0,
        bits::scaled_value(b) > 0 ==> b < bits::SIGN,
{
    let e = bits::exponent(b) as nat;
    let m = bits::significand(b);
    lemma_pow2_adds(1, (e - 1) as nat);
    lemma_pow2_pos((e - 1) as nat);
    vstd::arithmetic::power2::lemma2_to64();
    let h = pow2((e - 1) as nat) as int;
    assert(m * pow2(e) == 2 * (m * h)) by (nonlinear_arith)
        requires
            pow2(e) == 2 * h,
    ;
    assert(m * h >= 0 && (m * h == 0 ==> m == 0)) by (nonlinear_arith)
        requires
            m >= 0,
            h > 0,
    ;
    if m == 0 {
        assert(m * h == 0) by (nonlinear_arith)
            requires
                m == 0,
        ;
    }
}

/// How far the quotient times the scale is from the weight, where `inverse` is
/// close to one over the scale and `quotient` to the weight times that. All in
/// units of one over `unit`.
pub(crate) proof fn lemma_quotient_error(unit: int, top: int, d: int, inverse: int, quotient: int, w: int)
    requires
        unit > 0,
        0 < d,
        -top <= w <= top,
        4 * (PARTS * d) <= unit * unit,
        PARTS * distance(inverse * d, unit * unit) <= unit * unit + PARTS * d,
        PARTS * distance(quotient * unit, w * inverse) <= size(w * inverse) + PARTS * unit,
    ensures
        PARTS * distance(quotient * d, w * unit) <= 3 * (top * unit) + PARTS * d,
{
    let square = unit * unit;
    let a = quotient * unit - w * inverse;
    let b = inverse * d - square;
    assert((quotient * d - w * unit) * unit == a * d + w * b) by (nonlinear_arith)
        requires
            a == quotient * unit - w * inverse,
            b == inverse * d - square,
            square == unit * unit,
    ;
    let id = inverse * d;
    assert(square > 0) by (nonlinear_arith)
        requires
            unit > 0,
            square == unit * unit,
    ;
    assert(id > 0 && 8 * id <= 9 * square);
    assert(inverse > 0) by (nonlinear_arith)
        requires
            inverse * d > 0,
            d > 0,
    ;
    // The error of the product.
    let wi = size(w * inverse);
    assert(wi <= top * inverse) by (nonlinear_arith)
        requires
            -top <= w <= top,
            inverse > 0,
            wi == w * inverse || wi == -(w * inverse),
    ;
    assert(top >= 0);
    assert(8 * (top * id) <= 9 * (top * square)) by (nonlinear_arith)
        requires
            8 * id <= 9 * square,
            top >= 0,
    ;
    let ud = unit * d;
    assert(-(top * id) - PARTS * ud <= PARTS * (a * d) <= top * id + PARTS * ud) by (nonlinear_arith)
        requires
            -wi - PARTS * unit <= PARTS * a <= wi + PARTS * unit,
            wi <= top * inverse,
            d > 0,
            id == inverse * d,
            ud == unit * d,
    ;
    // The error of the inverse.
    assert(-10 * (top * square) <= 8 * (PARTS * (w * b)) <= 10 * (top * square)) by {
        let g = PARTS * b;
        assert(-10 * square <= 8 * g <= 10 * square);
        assert(-10 * (top * square) <= 8 * (w * g) <= 10 * (top * square)) by (nonlinear_arith)
            requires
                -10 * square <= 8 * g <= 10 * square,
                -top <= w <= top,
                square > 0,
        ;
        assert(w * g == PARTS * (w * b)) by (nonlinear_arith)
            requires
                g == PARTS * b,
        ;
    }
    let far = quotient * d - w * unit;
    let ts = top * square;
    assert(ts >= 0) by (nonlinear_arith)
        requires
            ts == top * square,
            top >= 0,
            square > 0,
    ;
    assert(-3 * ts - PARTS * ud <= PARTS * (far * unit) <= 3 * ts + PARTS * ud);
    let tu = top * unit;
    assert(-3 * tu - PARTS * d <= PARTS * far <= 3 * tu + PARTS * d) by (nonlinear_arith)
        requires
            -3 * ts - PARTS * ud <= PARTS * (far * unit) <= 3 * ts + PARTS * ud,
            ts == top * square,
            square == unit * unit,
            ud == unit * d,
            tu == top * unit,
            unit > 0,
    ;
}

/// The numbers that stand for a block's largest absolute value `top`, its scale
/// `d`, the inverse of that and a weight `w` of the block over it, as rounding to
/// nearest gives them. `n` is the number of codes that the largest absolute value
/// is divided by, and everything is in units of `2^-150`.
spec fn rounded_block(n: int, top: int, d: int, w: int, quotient: int) -> bool {
    let unit = pow2(150) as int;
    &&& n == 127 || n == 8
    &&& pow2(50) <= top <= pow2(276)
    &&& -top <= w <= top
    &&& PARTS * distance(n * d, top) <= top + PARTS * n
    &&& PARTS * distance(quotient * d, w * unit) <= 3 * (top * unit) + PARTS * d
}

/// What is known of the scale and of a weight over it.
proof fn lemma_block<A: Arith>(dtype: QuantDtype, block: Seq<u32>, i: int)
    requires
        rounds_to_nearest::<A>(),
        block.len() == 32,
        0 <= i < 32,
        forall|k: int| 0 <= k < 32 ==> finite(#[trigger] block[k]),
        pow2(50) <= bits::scaled_value(quantize::abs_max(block)) <= pow2(276),
    ensures
        ({
            let d = quantize::scale_of::<A>(dtype, block);
            let q = quantize::quotient_of::<A>(block[i], d);
            &&& finite(d)
            &&& d < bits::SIGN
            &&& bits::magnitude(d) != 0
            &&& finite(q)
            &&& rounded_block(
                quantize::divisor(dtype),
                bits::scaled_value(quantize::abs_max(block)),
                bits::scaled_value(d),
                bits::scaled_value(block[i]),
                bits::scaled_value(q),
            )
        }),
{
    lemma_powers();
    lemma_constants();
    let unit = pow2(150) as int;
    let max = quantize::abs_max(block);
    let top = bits::scaled_value(max);
    let n = quantize::divisor(dtype);
    let w = bits::scaled_value(block[i]);
    quantize::law_abs_max(block);
    if max != bits::ZERO {
        let k = choose|k: int|
            0 <= k < block.len() && bits::abs_of(#[trigger] block[k]) == max;
        assert(finite(block[k]));
    }
    assert(finite(max) && max < bits::SIGN);
    bits::law_magnitudes_order_values(block[i], max);
    // The scale.
    let d = quantize::scale_of::<A>(dtype, block);
    let vd = bits::scaled_value(d);
    assert(top <= n * unit * pow2(127)) by (nonlinear_arith)
        requires
            top <= pow2(276),
            pow2(276) * 2 == unit * pow2(127),
            n >= 1,
    ;
    assert(PARTS * distance(vd * (n * unit), top * unit) <= top * unit + PARTS * (n * unit));
    let far = n * vd - top;
    assert(vd * (n * unit) - top * unit == far * unit) by (nonlinear_arith)
        requires
            far == n * vd - top,
    ;
    assert(-(top + PARTS * n) <= PARTS * far <= top + PARTS * n) by (nonlinear_arith)
        requires
            -(top * unit + PARTS * (n * unit)) <= PARTS * (far * unit) <= top * unit + PARTS * (n
                * unit),
            unit > 0,
    ;
    assert(n * vd >= 0x1_0000_0000);
    assert(0 < vd <= top);
    lemma_even(d);
    // Its inverse.
    let inv = arith::div_of::<A>(bits::ONE, d);
    let vi = bits::scaled_value(inv);
    assert(127 * vd >= 0x3_0000_0000_0000);
    assert(vd >= 0x100_0000_0000);
    assert(unit <= vd * pow2(127)) by {
        lemma_pow2_adds(40, 110);
        vstd::arithmetic::power2::lemma2_to64();
        vstd::arithmetic::power2::lemma2_to64_rest();
        lemma_pow2_strictly_increases(110, 127);
        assert(unit <= vd * pow2(127)) by (nonlinear_arith)
            requires
                unit == pow2(40) * pow2(110),
                pow2(40) == 0x100_0000_0000,
                vd >= 0x100_0000_0000,
                pow2(110) <= pow2(127),
        ;
    }
    assert(near_quotient(inv, bits::ONE, d));
    assert(4 * (PARTS * vd) <= unit * unit) by {
        assert(4 * vd <= pow2(276));
        assert(4 * (PARTS * vd) <= unit * unit) by (nonlinear_arith)
            requires
                4 * vd <= pow2(276),
                pow2(276) * 0x100_0000 == unit * unit,
        ;
    }
    // The weight over it.
    let q = quantize::quotient_of::<A>(block[i], d);
    let wi = w * vi;
    let square = unit * unit;
    assert(0 < vi * vd <= 2 * square);
    assert(size(wi) <= pow2(427)) by {
        assert(top <= 256 * vd);
        assert(-(512 * square) <= wi <= 512 * square) by (nonlinear_arith)
            requires
                wi == w * vi,
                -top <= w <= top,
                top <= 256 * vd,
                0 < vi * vd <= 2 * square,
                vd > 0,
        ;
    }
    assert(near_product(q, block[i], inv));
    lemma_quotient_error(unit, top, vd, vi, bits::scaled_value(q), w);
}

/// The bounds that the errors of rounding add up to, for a weight `w` that is read
/// back as `out`, `far` away. The errors are those of the quotient (`e1`), of what is
/// read back (`e2`) and of the scale (`e3`).
proof fn lemma_total_error(
    n: int,
    top: int,
    d: int,
    w: int,
    far: int,
    e1: int,
    e2: int,
    e3: int,
)
    requires
        n == 127 || n == 8,
        pow2(50) <= top,
        0 < d,
        0 <= far,
        w <= top,
        PARTS * e1 <= 3 * (top * pow2(150)) + PARTS * d,
        PARTS * e2 <= n * d + PARTS,
        PARTS * e3 <= top + PARTS * n,
        PARTS * distance(n * d, top) <= top + PARTS * n,
        ({
            let unit = pow2(150) as int;
            let slack = 2 * e1 + 2 * unit * e2 + 2 * unit * e3;
            let error = 2 * unit * far;
            &&& error <= 2 * (unit * d) + slack
            &&& if n == 127 || 2 * w <= 15 * d {
                error <= unit * d + slack
            } else {
                error <= 2 * (unit * (w - 7 * d)) + slack
            }
        }),
    ensures
        n == 127 ==> 1_000_000 * (254 * far) <= 1_000_254 * top,
        n == 8 ==> 1_000_000 * (8 * far) <= 1_000_008 * top,
        n == 8 && 16 * w <= 15 * top ==> 1_000_000 * (16 * far) <= 1_000_016 * top,
{
    lemma_powers();
    let unit = pow2(150) as int;
    // The errors of rounding, without the unit.
    let slack = 2 * e1 + 2 * unit * e2 + 2 * unit * e3;
    assert(2 * unit * e2 == unit * (2 * e2) && 2 * unit * e3 == unit * (2 * e3)) by (nonlinear_arith);
    let te = top * unit;
    assert(n * d == if n == 127 {
        127 * d
    } else {
        8 * d
    });
    assert(n * d <= 2 * top);
    assert(2 * (PARTS * d) <= te) by (nonlinear_arith)
        requires
            te == top * unit,
            unit >= 0x4_0000_0000_0000,
            0 < d <= top,
    ;
    let rest = 13 * top + 2 * PARTS + 2 * (PARTS * n);
    assert(PARTS * slack <= unit * rest) by {
        let k = unit * (PARTS * (2 * e2 + 2 * e3));
        assert(k <= unit * (2 * (2 * top + PARTS) + 2 * (top + PARTS * n))) by (nonlinear_arith)
            requires
                k == unit * (PARTS * (2 * e2 + 2 * e3)),
                PARTS * e2 <= 2 * top + PARTS,
                PARTS * e3 <= top + PARTS * n,
                unit > 0,
        ;
        assert(PARTS * slack == 2 * (PARTS * e1) + k) by (nonlinear_arith)
            requires
                slack == 2 * e1 + unit * (2 * e2) + unit * (2 * e3),
                k == unit * (PARTS * (2 * e2 + 2 * e3)),
        ;
        assert(7 * te + unit * (2 * (2 * top + PARTS) + 2 * (top + PARTS * n)) == unit * rest)
            by (nonlinear_arith)
            requires
                te == top * unit,
                rest == 13 * top + 2 * PARTS + 2 * (PARTS * n),
        ;
    }
    // The unit cancels.
    assert forall|bound: int| 2 * unit * far <= #[trigger] (unit * bound) + slack implies 2 * (PARTS
        * far) <= PARTS * bound + rest by {
        assert(2 * (PARTS * far) <= PARTS * bound + rest) by (nonlinear_arith)
            requires
                2 * unit * far <= unit * bound + slack,
                PARTS * slack <= unit * rest,
                unit > 0,
        ;
    }
    assert(2 * (unit * d) == unit * (2 * d)) by (nonlinear_arith);
    assert(2 * (unit * (w - 7 * d)) == unit * (2 * (w - 7 * d))) by (nonlinear_arith);
    assert(2 * (PARTS * far) <= PARTS * (2 * d) + rest);
    if n == 127 || 2 * w <= 15 * d {
        assert(2 * (PARTS * far) <= PARTS * d + rest);
    } else {
        assert(2 * (PARTS * far) <= PARTS * (2 * (w - 7 * d)) + rest);
    }
}

/// A Q4_0 weight above 15/16 of the largest absolute value is nearer to 7 scales
/// than to 6.
proof fn lemma_large_weight(top: int, d: int, w: int, quotient: int)
    requires
        rounded_block(8, top, d, w, quotient),
        16 * w > 15 * top,
        d > 0,
    ensures
        2 * quotient > 13 * pow2(150),
{
    lemma_powers();
    let unit = pow2(150) as int;
    let tu = top * unit;
    let du = d * unit;
    let qd = quotient * d;
    assert(15 * tu <= 16 * (w * unit)) by (nonlinear_arith)
        requires
            16 * w > 15 * top,
            tu == top * unit,
            unit > 0,
    ;
    assert(PARTS * (8 * du) <= PARTS * tu + tu + 8 * (PARTS * unit)) by (nonlinear_arith)
        requires
            PARTS * (8 * d) <= PARTS * top + top + 8 * PARTS,
            tu == top * unit,
            du == d * unit,
            unit > 0,
    ;
    assert(PARTS * unit <= du && PARTS * d <= du) by (nonlinear_arith)
        requires
            d >= PARTS,
            unit >= PARTS,
            du == d * unit,
    ;
    if 2 * quotient <= 13 * unit {
        assert(2 * qd <= 13 * du) by (nonlinear_arith)
            requires
                2 * quotient <= 13 * unit,
                qd == quotient * d,
                du == d * unit,
                d > 0,
        ;
    }
}

/// A block of zeros is read back as zeros.
proof fn lemma_zero_block<A: Arith>(dtype: QuantDtype, block: Seq<u32>, i: int)
    requires
        rounds_to_nearest::<A>(),
        block.len() == 32,
        0 <= i < 32,
        forall|k: int| 0 <= k < 32 ==> finite(#[trigger] block[k]),
        bits::scaled_value(quantize::abs_max(block)) == 0,
    ensures
        ({
            let d = quantize::scale_of::<A>(dtype, block);
            let c = quantize::code_of::<A>(dtype, block[i], d);
            let read = arith::mul_of::<A>(arith::int_of::<A>(c as i32), d);
            &&& bits::scaled_value(block[i]) == 0
            &&& bits::scaled_value(read) == 0
            &&& finite(read)
            &&& bits::magnitude(read) == 0
        }),
{
    lemma_powers();
    lemma_constants();
    let unit = pow2(150) as int;
    let max = quantize::abs_max(block);
    quantize::law_abs_max(block);
    if max != bits::ZERO {
        let k = choose|k: int|
            0 <= k < block.len() && bits::abs_of(#[trigger] block[k]) == max;
        assert(finite(block[k]));
    }
    bits::law_magnitudes_order_values(block[i], max);
    let n = quantize::divisor(dtype);
    let d = quantize::scale_of::<A>(dtype, block);
    let vd = bits::scaled_value(d);
    assert(0 * unit == 0);
    assert(0 <= n * unit * pow2(127)) by (nonlinear_arith)
        requires
            n > 0,
            unit > 0,
    ;
    assert(PARTS * distance(vd * (n * unit), 0) <= PARTS * (n * unit));
    assert(-1 <= vd <= 1) by (nonlinear_arith)
        requires
            -(n * unit) <= vd * (n * unit) <= n * unit,
            n > 0,
            unit > 0,
    ;
    lemma_even(d);
    let c = quantize::code_of::<A>(dtype, block[i], d);
    let code = arith::int_of::<A>(c as i32);
    let read = arith::mul_of::<A>(code, d);
    let out = bits::scaled_value(read);
    assert(bits::scaled_value(code) * vd == 0) by (nonlinear_arith)
        requires
            vd == 0,
    ;
    assert(near_product(read, code, d));
    assert(-1 <= out <= 1) by (nonlinear_arith)
        requires
            -unit <= out * unit <= unit,
            unit > 0,
    ;
    lemma_even(read);
}

/// What quantizing and dequantizing do to weight `i` where every operation rounds
/// to nearest. What is read back is within the block's largest absolute value over
/// 254 of the weight for Q8_0, and over 16 for Q4_0, up to one part in a million of
/// that value. A Q4_0 weight above 15/16 of the largest absolute value is read back
/// as 7 scales, and is within the largest absolute value over 8. A block of zeros
/// is read back as zeros. The largest absolute value is 0, or from `2^-100` to
/// `2^126`, so that neither the scale nor its inverse is out of range.
pub proof fn law_roundtrip_error_nearest<A: Arith>(dtype: QuantDtype, x: Seq<u32>, i: int)
    requires
        rounds_to_nearest::<A>(),
        x.len() % 32 == 0,
        0 <= i < x.len(),
        ({
            let block = quantize::elements_of_block(x, i / 32);
            let top = bits::scaled_value(quantize::abs_max(block));
            &&& forall|k: int| 0 <= k < 32 ==> finite(#[trigger] block[k])
            &&& top == 0 || pow2(50) <= top <= pow2(276)
        }),
    ensures
        ({
            let block = quantize::elements_of_block(x, i / 32);
            let top = bits::scaled_value(quantize::abs_max(block));
            let v = bits::scaled_value(x[i]);
            let read = quantize::dequantized::<A>(dtype, quantize::quantized::<A>(dtype, x))[i];
            let far = distance(bits::scaled_value(read), v);
            &&& finite(read)
            &&& top == 0 ==> bits::magnitude(read) == 0
            &&& match dtype {
                QuantDtype::Q8_0 => 1_000_000 * (254 * far) <= 1_000_254 * top,
                QuantDtype::Q4_0 => {
                    &&& 1_000_000 * (8 * far) <= 1_000_008 * top
                    &&& 16 * v <= 15 * top ==> 1_000_000 * (16 * far) <= 1_000_016 * top
                    &&& 16 * v > 15 * top ==> read == arith::mul_of::<A>(
                        arith::int_of::<A>(7),
                        quantize::scale_of::<A>(dtype, block),
                    )
                },
            }
        }),
{
    lemma_powers();
    lemma_constants();
    let unit = pow2(150) as int;
    let block = quantize::elements_of_block(x, i / 32);
    let max = quantize::abs_max(block);
    let top = bits::scaled_value(max);
    let d = quantize::scale_of::<A>(dtype, block);
    let vd = bits::scaled_value(d);
    let v = bits::scaled_value(x[i]);
    let read = quantize::dequantized::<A>(dtype, quantize::quantized::<A>(dtype, x))[i];
    let out = bits::scaled_value(read);
    let n = quantize::divisor(dtype);
    let c = quantize::code_of::<A>(dtype, x[i], d);
    let code = arith::int_of::<A>(c as i32);
    quantize::law_dequantize_quantized::<A>(dtype, x, i);
    quantize::lemma_code_in_range::<A>(dtype, x[i], d);
    assert(block[i % 32] == x[i]);
    if top == 0 {
        lemma_zero_block::<A>(dtype, block, i % 32);
    } else {
        lemma_block::<A>(dtype, block, i % 32);
        let q = bits::scaled_value(quantize::quotient_of::<A>(x[i], d));
        // What is read back.
        let cd = c * vd;
        assert(bits::scaled_value(code) * vd == cd * unit) by (nonlinear_arith)
            requires
                bits::scaled_value(code) == c * unit,
                cd == c * vd,
        ;
        lemma_even(d);
        assert(vd > 0);
        assert(-(n * vd) <= cd <= n * vd) by (nonlinear_arith)
            requires
                -n <= c <= n,
                cd == c * vd,
                vd > 0,
        ;
        assert(size(cd * unit) <= pow2(427) && size(cd * unit) <= n * vd * unit) by {
            assert(n * vd <= pow2(277));
            let m = n * vd;
            assert(-(m * unit) <= cd * unit <= m * unit && m * unit <= pow2(277) * unit)
                by (nonlinear_arith)
                requires
                    -m <= cd <= m <= pow2(277),
                    unit > 0,
            ;
        }
        assert(near_product(read, code, d));
        let e1 = distance(q * vd, v * unit);
        let e2 = distance(out, cd);
        let e3 = distance(n * vd, top);
        assert(PARTS * e2 <= n * vd + PARTS) by {
            let m = n * vd;
            let g = out - cd;
            assert(out * unit - cd * unit == g * unit) by (nonlinear_arith)
                requires
                    g == out - cd,
            ;
            assert(-(m + PARTS) <= PARTS * g <= m + PARTS) by (nonlinear_arith)
                requires
                    -(m * unit + PARTS * unit) <= PARTS * (g * unit) <= m * unit + PARTS * unit,
                    unit > 0,
            ;
        }
        quantize::law_roundtrip_error::<A>(dtype, x, i, e1, e2, e3);
        lemma_total_error(n, top, vd, v, distance(out, v), e1, e2, e3);
        if dtype is Q4_0 && 16 * v > 15 * top {
            quantize::law_code_is_nearest::<A>(dtype, x[i], d);
            lemma_large_weight(top, vd, v, q);
            if q <= 7 * unit {
                assert(c > 6) by (nonlinear_arith)
                    requires
                        2 * q > 13 * unit,
                        -unit <= 2 * (c * unit - q),
                        unit > 0,
                ;
            }
        }
    }
}

} // verus!
