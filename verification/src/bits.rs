//! Binary32 and binary64 values as bit patterns.
//!
//! The library holds a single-precision number as the `u32` that encodes it
//! and a double-precision one as a `u64`. What can be read off the encoding
//! (order, sign, rounding to a small integer, exact scaling of an integer) is
//! decided here, on integers.

use vstd::arithmetic::power2::*;
use vstd::prelude::*;

verus! {

/// `0.0`.
pub const ZERO: u32 = 0;

/// `-0.0`, the neutral element of addition.
pub const NEG_ZERO: u32 = 0x8000_0000;

/// `0.5`.
pub const ONE_HALF: u32 = 0x3F00_0000;

/// `1.0`.
pub const ONE: u32 = 0x3F80_0000;

/// `2.0`.
pub const TWO: u32 = 0x4000_0000;

/// `8.0`.
pub const EIGHT: u32 = 0x4100_0000;

/// `127.0`.
pub const ONE_TWENTY_SEVEN: u32 = 0x42FE_0000;

/// Positive infinity; a larger magnitude is a NaN.
pub const INFINITY: u32 = 0x7F80_0000;

/// Negative infinity.
pub const NEG_INFINITY: u32 = 0xFF80_0000;

/// Positive infinity in double precision.
pub const INFINITY_64: u64 = 0x7FF0_0000_0000_0000;

/// The weight of the sign bit.
pub const SIGN: u32 = 0x8000_0000;

/// The weight of the sign bit in double precision.
pub const SIGN_64: u64 = 0x8000_0000_0000_0000;

/// The encoding without its sign: it grows with the absolute value.
pub open spec fn magnitude(b: u32) -> int {
    if b >= SIGN {
        b - SIGN
    } else {
        b as int
    }
}

/// Whether the encoding is a NaN.
pub open spec fn nan(b: u32) -> bool {
    magnitude(b) > INFINITY
}

/// The place of a number that is not a NaN in the order of its values; both
/// zeros have the place 0.
pub open spec fn rank(b: u32) -> int {
    if b >= SIGN {
        -magnitude(b)
    } else {
        magnitude(b)
    }
}

/// `a < b` on values: false if either is a NaN.
pub open spec fn lt_of(a: u32, b: u32) -> bool {
    !nan(a) && !nan(b) && rank(a) < rank(b)
}

/// `a <= b` on values: false if either is a NaN.
pub open spec fn le_of(a: u32, b: u32) -> bool {
    !nan(a) && !nan(b) && rank(a) <= rank(b)
}

/// The larger value; a NaN gives way to the other operand.
pub open spec fn max_of(a: u32, b: u32) -> u32 {
    if nan(b) || (!nan(a) && rank(b) <= rank(a)) {
        a
    } else {
        b
    }
}

/// The value with the opposite sign.
pub open spec fn neg_of(b: u32) -> u32 {
    if b >= SIGN {
        (b - SIGN) as u32
    } else {
        (b + SIGN) as u32
    }
}

/// The absolute value.
pub open spec fn abs_of(b: u32) -> u32 {
    magnitude(b) as u32
}

/// The place of an encoding in the total order of IEEE 754: negative
/// encodings come first, larger magnitudes before smaller ones, and `-0.0`
/// comes just before `0.0`.
pub open spec fn total_rank(b: u32) -> int {
    if b >= SIGN {
        -magnitude(b) - 1
    } else {
        magnitude(b)
    }
}

/// The exponent field; a subnormal number shares the exponent of the smallest
/// normal ones.
pub open spec fn exponent(b: u32) -> int {
    let e = magnitude(b) / 0x80_0000;
    if e == 0 {
        1
    } else {
        e
    }
}

/// The significand as an integer: the absolute value of a finite number is
/// `significand(b) * 2^(exponent(b) - 150)`.
pub open spec fn significand(b: u32) -> int {
    if magnitude(b) < 0x80_0000 {
        magnitude(b)
    } else {
        magnitude(b) % 0x80_0000 + 0x80_0000
    }
}

/// The absolute value rounded to the nearest integer, halves up.
pub open spec fn rounded_magnitude(b: u32) -> int {
    if exponent(b) >= 150 {
        significand(b) * pow2((exponent(b) - 150) as nat)
    } else {
        (significand(b) + pow2((149 - exponent(b)) as nat)) / (pow2((150 - exponent(b)) as nat) as int)
    }
}

/// The value rounded to the nearest integer, halves away from zero, and kept
/// within `lo..=hi`; a NaN gives 0.
pub open spec fn round_clamp_of(b: u32, lo: int, hi: int) -> int {
    if nan(b) {
        0
    } else if b >= SIGN {
        if rounded_magnitude(b) > -lo {
            lo
        } else {
            -rounded_magnitude(b)
        }
    } else {
        if rounded_magnitude(b) > hi {
            hi
        } else {
            rounded_magnitude(b)
        }
    }
}

/// A rounded magnitude is not negative.
pub proof fn lemma_rounded_nonneg(b: u32)
    ensures
        rounded_magnitude(b) >= 0,
{
    let s = significand(b);
    if exponent(b) >= 150 {
        let p = pow2((exponent(b) - 150) as nat);
        assert(s * p >= 0) by (nonlinear_arith)
            requires
                s >= 0,
                p >= 0,
        ;
    } else {
        let k = pow2((150 - exponent(b)) as nat) as int;
        lemma_pow2_pos((150 - exponent(b)) as nat);
        let m = s + pow2((149 - exponent(b)) as nat);
        assert(m / k >= 0) by (nonlinear_arith)
            requires
                m >= 0,
                k > 0,
        ;
    }
}

/// The value of a finite number, in units of `2^-150`.
pub open spec fn scaled_value(b: u32) -> int {
    let m = significand(b) * pow2(exponent(b) as nat);
    if b >= SIGN {
        -m
    } else {
        m
    }
}

/// A smaller exponent makes a smaller number.
pub(crate) proof fn lemma_smaller_exponent(a: u32, b: u32)
    requires
        exponent(a) < exponent(b),
    ensures
        significand(a) * pow2(exponent(a) as nat) < significand(b) * pow2(exponent(b) as nat),
{
    let ea = exponent(a) as nat;
    let eb = exponent(b) as nat;
    lemma_pow2_unfold(ea + 1);
    if ea + 1 < eb {
        lemma_pow2_strictly_increases(ea + 1, eb);
    }
    lemma_pow2_pos(ea);
    let p = pow2(ea) as int;
    let q = pow2(eb) as int;
    let sa = significand(a);
    let sb = significand(b);
    assert(sa < 0x100_0000 && sb >= 0x80_0000);
    assert(sa * p < sb * q) by (nonlinear_arith)
        requires
            0 <= sa < 0x100_0000,
            sb >= 0x80_0000,
            q >= 2 * p,
            p > 0,
    ;
}

/// Encodings are ordered like the absolute values that they stand for.
pub proof fn law_magnitudes_order_values(a: u32, b: u32)
    requires
        magnitude(a) <= magnitude(b),
    ensures
        scaled_value(abs_of(a)) <= scaled_value(abs_of(b)),
        0 <= scaled_value(abs_of(a)),
        scaled_value(a) == scaled_value(abs_of(a)) || scaled_value(a) == -scaled_value(abs_of(a)),
{
    let x = abs_of(a);
    let y = abs_of(b);
    let p = pow2(exponent(x) as nat) as int;
    lemma_pow2_pos(exponent(x) as nat);
    let sx = significand(x);
    assert(sx * p >= 0) by (nonlinear_arith)
        requires
            sx >= 0,
            p > 0,
    ;
    if exponent(x) < exponent(y) {
        lemma_smaller_exponent(x, y);
    } else {
        let sy = significand(y);
        assert(exponent(x) == exponent(y));
        assert(sx <= sy);
        assert(sx * p <= sy * p) by (nonlinear_arith)
            requires
                sx <= sy,
                p > 0,
        ;
    }
}

/// Whether `r` is the integer of `lo..=hi` that stands for the finite number
/// `b`: no further from it than half a unit if it lies between the bounds,
/// and the bound that it passes if it does not.
pub open spec fn nearest_within(r: int, b: u32, lo: int, hi: int) -> bool {
    let unit = pow2(150) as int;
    &&& lo <= r <= hi
    &&& lo * unit <= scaled_value(b) <= hi * unit ==> -unit <= 2 * (r * unit - scaled_value(b))
        <= unit
    &&& scaled_value(b) > hi * unit ==> r == hi
    &&& scaled_value(b) < lo * unit ==> r == lo
}

/// Rounding moves a magnitude by half a unit at most, and not past an integer.
proof fn lemma_rounded_magnitude(b: u32, bound: int)
    requires
        bound >= 0,
    ensures
        ({
            let unit = pow2(150) as int;
            let value = significand(b) * pow2(exponent(b) as nat);
            let r = rounded_magnitude(b);
            &&& -unit <= 2 * (r * unit - value) <= unit
            &&& value <= bound * unit ==> r <= bound
            &&& value > bound * unit ==> r >= bound
        }),
{
    let unit = pow2(150) as int;
    let m = significand(b);
    let e = exponent(b);
    let r = rounded_magnitude(b);
    let f = pow2(e as nat) as int;
    let value = m * f;
    lemma_pow2_pos(e as nat);
    lemma_pow2_pos(150);
    if e >= 150 {
        let p = pow2((e - 150) as nat) as int;
        lemma_pow2_adds((e - 150) as nat, 150);
        assert(r * unit == value) by (nonlinear_arith)
            requires
                r == m * p,
                value == m * f,
                p * unit == f,
        ;
        assert(value <= bound * unit ==> r <= bound) by (nonlinear_arith)
            requires
                r * unit == value,
                unit > 0,
        ;
        assert(value > bound * unit ==> r >= bound) by (nonlinear_arith)
            requires
                r * unit == value,
                unit > 0,
        ;
    } else {
        let k = pow2((150 - e) as nat) as int;
        let h = pow2((149 - e) as nat) as int;
        lemma_pow2_unfold((150 - e) as nat);
        lemma_pow2_pos((149 - e) as nat);
        lemma_pow2_adds((150 - e) as nat, e as nat);
        vstd::arithmetic::div_mod::lemma_fundamental_div_mod(m + h, k);
        vstd::arithmetic::div_mod::lemma_mod_division_less_than_divisor(m + h, k);
        let rest = (m + h) % k;
        assert(k * r == r * k) by (nonlinear_arith);
        assert(2 * (r * unit - value) == (k - 2 * rest) * f) by (nonlinear_arith)
            requires
                k * f == unit,
                value == m * f,
                m + h == r * k + rest,
                k == 2 * h,
        ;
        assert(-unit <= (k - 2 * rest) * f <= unit) by (nonlinear_arith)
            requires
                k * f == unit,
                0 <= rest <= k,
                f > 0,
        ;
        assert(bound * unit == (bound * k) * f) by (nonlinear_arith)
            requires
                k * f == unit,
        ;
        assert(value <= bound * unit ==> m <= bound * k) by (nonlinear_arith)
            requires
                bound * unit == (bound * k) * f,
                value == m * f,
                f > 0,
        ;
        assert(value > bound * unit ==> m > bound * k) by (nonlinear_arith)
            requires
                bound * unit == (bound * k) * f,
                value == m * f,
                f > 0,
        ;
        assert(m <= bound * k ==> r <= bound) by (nonlinear_arith)
            requires
                m + h == r * k + rest,
                rest >= 0,
                k == 2 * h,
                h > 0,
        ;
        assert(m > bound * k ==> r >= bound) by (nonlinear_arith)
            requires
                m + h == r * k + rest,
                rest < k,
                k == 2 * h,
                h > 0,
        ;
    }
}

/// Rounding within bounds gives the nearest integer: it moves a finite number
/// between the bounds by half a unit at most, and any other to the bound that
/// it passes.
pub proof fn law_round_clamp_is_nearest(b: u32, lo: int, hi: int)
    requires
        magnitude(b) < INFINITY,
        lo <= 0 <= hi,
    ensures
        nearest_within(round_clamp_of(b, lo, hi), b, lo, hi),
{
    let unit = pow2(150) as int;
    lemma_pow2_pos(150);
    lemma_rounded_nonneg(b);
    let value = significand(b) * pow2(exponent(b) as nat);
    assert(value >= 0) by {
        vstd::arithmetic::mul::lemma_mul_nonnegative(
            significand(b),
            pow2(exponent(b) as nat) as int,
        );
    }
    let r = rounded_magnitude(b);
    let bound = if b >= SIGN {
        -lo
    } else {
        hi
    };
    let other = if b >= SIGN {
        hi
    } else {
        -lo
    };
    lemma_rounded_magnitude(b, bound);
    assert((-lo) * unit == -(lo * unit)) by (nonlinear_arith);
    assert(other * unit >= 0) by (nonlinear_arith)
        requires
            other >= 0,
            unit > 0,
    ;
    assert((-r) * unit == -(r * unit)) by (nonlinear_arith);
    if r > bound {
        assert(value > bound * unit);
    }
}

/// The encoding without its sign.
pub fn abs(b: u32) -> (r: u32)
    ensures
        r == abs_of(b),
        r == magnitude(b),
        r < SIGN,
{
    if b >= SIGN {
        b - SIGN
    } else {
        b
    }
}

/// Whether the encoding is a NaN.
pub fn is_nan(b: u32) -> (r: bool)
    ensures
        r == nan(b),
{
    abs(b) > INFINITY
}

/// The value with the opposite sign.
pub fn neg(b: u32) -> (r: u32)
    ensures
        r == neg_of(b),
{
    if b >= SIGN {
        b - SIGN
    } else {
        b + SIGN
    }
}

fn signed_rank(b: u32) -> (r: i64)
    ensures
        r == rank(b),
{
    if b >= SIGN {
        -((b - SIGN) as i64)
    } else {
        b as i64
    }
}

/// `a < b` on values.
pub fn less(a: u32, b: u32) -> (r: bool)
    ensures
        r == lt_of(a, b),
{
    !is_nan(a) && !is_nan(b) && signed_rank(a) < signed_rank(b)
}

/// `a <= b` on values.
pub fn less_eq(a: u32, b: u32) -> (r: bool)
    ensures
        r == le_of(a, b),
{
    !is_nan(a) && !is_nan(b) && signed_rank(a) <= signed_rank(b)
}

/// The larger value; a NaN gives way to the other operand.
pub fn larger(a: u32, b: u32) -> (r: u32)
    ensures
        r == max_of(a, b),
{
    if is_nan(b) || (!is_nan(a) && signed_rank(b) <= signed_rank(a)) {
        a
    } else {
        b
    }
}

/// The largest value of the first `n` elements, NaNs aside, starting from
/// `start`.
pub open spec fn max_upto(start: u32, s: Seq<u32>, n: int) -> u32
    decreases n,
{
    if n <= 0 {
        start
    } else {
        max_of(max_upto(start, s, n - 1), s[n - 1])
    }
}

/// The largest value is not a NaN, no element exceeds it, and it is the start
/// or an element.
pub proof fn law_max_upto(start: u32, s: Seq<u32>, n: int)
    requires
        !nan(start),
        0 <= n <= s.len(),
    ensures
        !nan(max_upto(start, s, n)),
        le_of(start, max_upto(start, s, n)),
        forall|i: int| 0 <= i < n && !nan(s[i]) ==> le_of(#[trigger] s[i], max_upto(start, s, n)),
        max_upto(start, s, n) == start || exists|i: int|
            0 <= i < n && #[trigger] s[i] == max_upto(start, s, n),
    decreases n,
{
    if n > 0 {
        law_max_upto(start, s, n - 1);
        let m = max_upto(start, s, n - 1);
        if max_of(m, s[n - 1]) == m && m != start {
            let i = choose|i: int| 0 <= i < n - 1 && #[trigger] s[i] == m;
            assert(s[i] == max_upto(start, s, n));
        } else if m != max_of(m, s[n - 1]) {
            assert(s[n - 1] == max_upto(start, s, n));
        }
    }
}

/// The largest value of a slice, NaNs aside; negative infinity if there is
/// none.
pub fn max_value(s: &[u32]) -> (r: u32)
    ensures
        r == max_upto(NEG_INFINITY, s@, s@.len() as int),
{
    let mut best: u32 = NEG_INFINITY;
    let mut i: usize = 0;
    while i < s.len()
        invariant
            i <= s@.len(),
            best == max_upto(NEG_INFINITY, s@, i as int),
        decreases s@.len() - i,
    {
        best = larger(best, s[i]);
        i += 1;
    }
    best
}

/// The place in the total order, shifted so that the smallest place is 0.
pub fn total_key(b: u32) -> (r: u32)
    ensures
        r == total_rank(b) + SIGN,
{
    if b >= SIGN {
        0xFFFF_FFFF - b
    } else {
        b + SIGN
    }
}

/// The power of two with exponent `k`.
fn power(k: u32) -> (r: u64)
    requires
        k < 63,
    ensures
        r == pow2(k as nat),
{
    let mut r: u64 = 1;
    let mut i: u32 = 0;
    proof {
        lemma_pow2_unfold(1);
        lemma2_to64();
        lemma2_to64_rest();
    }
    while i < k
        invariant
            i <= k < 63,
            r == pow2(i as nat),
            pow2(63) == 0x8000_0000_0000_0000,
        decreases k - i,
    {
        proof {
            lemma_pow2_unfold((i + 1) as nat);
            lemma_pow2_strictly_increases((i + 1) as nat, 63);
        }
        r = r * 2;
        i += 1;
    }
    r
}

/// Rounds to the nearest integer, halves away from zero, within `lo..=hi`.
pub fn round_clamp(b: u32, lo: i32, hi: i32) -> (r: i32)
    requires
        -0x80_0000 < lo <= 0 <= hi < 0x80_0000,
    ensures
        r == round_clamp_of(b, lo as int, hi as int),
        lo <= r <= hi,
{
    if is_nan(b) {
        return 0;
    }
    let m: u32 = abs(b);
    let field: u32 = m / 0x80_0000;
    let e: u32 = if field == 0 {
        1
    } else {
        field
    };
    let sig: u32 = if m < 0x80_0000 {
        m
    } else {
        m % 0x80_0000 + 0x80_0000
    };
    let bound: u32 = if b >= SIGN {
        (-lo) as u32
    } else {
        hi as u32
    };
    let kept: u32;
    if e >= 150 {
        proof {
            let p = pow2((e - 150) as nat);
            lemma_pow2_pos((e - 150) as nat);
            assert(sig * p >= sig) by (nonlinear_arith)
                requires
                    p >= 1,
                    sig >= 0,
            ;
        }
        kept = bound;
    } else if e < 125 {
        proof {
            let k = (150 - e) as nat;
            lemma_pow2_unfold(k);
            lemma2_to64();
            if k - 1 > 25 {
                lemma_pow2_strictly_increases(25, (k - 1) as nat);
            }
            let half = pow2((k - 1) as nat) as int;
            assert(half >= 0x200_0000);
            vstd::arithmetic::div_mod::lemma_basic_div(sig + half, 2 * half);
        }
        kept = 0;
    } else {
        let k: u32 = 150 - e;
        let half: u64 = power(k - 1);
        proof {
            lemma_pow2_unfold(k as nat);
            lemma2_to64();
            if k < 25 {
                lemma_pow2_strictly_increases(k as nat, 25);
            }
            if k - 1 < 24 {
                lemma_pow2_strictly_increases((k - 1) as nat, 24);
            }
            lemma_pow2_pos((k - 1) as nat);
        }
        let q: u64 = (sig as u64 + half) / (2 * half);
        proof {
            assert(q <= sig as u64 + half) by (nonlinear_arith)
                requires
                    q == (sig as u64 + half) / (2 * half),
                    half >= 1,
            ;
        }
        kept = if q > bound as u64 {
            bound
        } else {
            q as u32
        };
    }
    if b >= SIGN {
        -(kept as i32)
    } else {
        kept as i32
    }
}

/// Whether `r` encodes `k * 2^-24` exactly, as a number from 0 to below 1.
///
/// `significand * 2^(exponent - 150) == k * 2^-24`, multiplied by `2^150`.
pub open spec fn encodes_24(r: u32, k: u32) -> bool {
    r < ONE && significand(r) * pow2(exponent(r) as nat) == k * pow2(126)
}

/// The encoding of `k * 2^-24`.
pub open spec fn scaled_24_of(k: u32) -> u32 {
    choose|r: u32| encodes_24(r, k)
}

/// No two encodings from 0 to below 1 have the same value.
proof fn lemma_encodes_unique(a: u32, b: u32, k: u32)
    requires
        encodes_24(a, k),
        encodes_24(b, k),
    ensures
        a == b,
{
    if exponent(a) < exponent(b) {
        lemma_smaller_exponent(a, b);
    } else if exponent(b) < exponent(a) {
        lemma_smaller_exponent(b, a);
    } else {
        let p = pow2(exponent(a) as nat) as int;
        lemma_pow2_pos(exponent(a) as nat);
        let sa = significand(a);
        let sb = significand(b);
        assert(sa == sb) by (nonlinear_arith)
            requires
                sa * p == sb * p,
                p > 0,
        ;
    }
}

/// A number with the leading bit `p`: the bits below it are the fraction.
proof fn lemma_encoding(k: u32, p: nat, r: u32)
    requires
        p <= 23,
        pow2(p) <= k < 2 * pow2(p),
        r == (p + 103) * 0x80_0000 + (k - pow2(p)) * pow2((23 - p) as nat),
    ensures
        encodes_24(r, k),
{
    let top = pow2(p) as int;
    let q = pow2((23 - p) as nat) as int;
    let rest = (k - top) * q;
    lemma2_to64();
    lemma_pow2_adds(p, (23 - p) as nat);
    lemma_pow2_pos((23 - p) as nat);
    assert(0 <= rest < 0x80_0000) by (nonlinear_arith)
        requires
            rest == (k - top) * q,
            top * q == 0x80_0000,
            top <= k < 2 * top,
            q > 0,
    ;
    assert(magnitude(r) / 0x80_0000 == p + 103);
    assert(magnitude(r) % 0x80_0000 == rest);
    assert(significand(r) == k * q) by (nonlinear_arith)
        requires
            significand(r) == rest + 0x80_0000,
            rest == (k - top) * q,
            top * q == 0x80_0000,
    ;
    lemma_pow2_adds((23 - p) as nat, p + 103);
    let s = pow2(p + 103) as int;
    assert((k * q) * s == k * (q * s)) by (nonlinear_arith);
}

/// Some encoding stands for `k * 2^-24`, for a number below `2^(p + 1)`.
proof fn lemma_encoded(k: u32, p: nat) -> (r: u32)
    requires
        p <= 23,
        k < 2 * pow2(p),
    ensures
        encodes_24(r, k),
    decreases p,
{
    if k == 0 {
        vstd::arithmetic::mul::lemma_mul_basics(pow2(exponent(ZERO) as nat) as int);
        vstd::arithmetic::mul::lemma_mul_basics(pow2(126) as int);
        ZERO
    } else if k >= pow2(p) {
        let top = pow2(p) as int;
        let q = pow2((23 - p) as nat) as int;
        lemma2_to64();
        lemma_pow2_adds(p, (23 - p) as nat);
        assert(0 <= (k - top) * q < 0x80_0000) by (nonlinear_arith)
            requires
                top * q == 0x80_0000,
                top <= k < 2 * top,
        ;
        let r = ((p + 103) * 0x80_0000 + (k - top) * q) as u32;
        lemma_encoding(k, p, r);
        r
    } else {
        if p == 0 {
            lemma2_to64();
        }
        lemma_pow2_unfold(p);
        lemma_encoded(k, (p - 1) as nat)
    }
}

/// The encoding of `k * 2^-24` is a number from 0 to below 1 with that value.
pub proof fn lemma_scaled_24(k: u32)
    requires
        k < 0x100_0000,
    ensures
        encodes_24(scaled_24_of(k), k),
{
    lemma2_to64();
    let r = lemma_encoded(k, 23);
    assert(encodes_24(r, k));
}

/// The encoding of `k * 2^-24`.
pub fn scaled_24(k: u32) -> (r: u32)
    requires
        k < 0x100_0000,
    ensures
        encodes_24(r, k),
        r == scaled_24_of(k),
{
    let r: u32 = shifted_24(k);
    proof {
        lemma_encodes_unique(r, scaled_24_of(k), k);
    }
    r
}

fn shifted_24(k: u32) -> (r: u32)
    requires
        k < 0x100_0000,
    ensures
        encodes_24(r, k),
{
    if k == 0 {
        proof {
            vstd::arithmetic::mul::lemma_mul_basics(pow2(exponent(ZERO) as nat) as int);
            vstd::arithmetic::mul::lemma_mul_basics(pow2(126) as int);
        }
        return ZERO;
    }
    let mut p: u32 = 23;
    let mut top: u32 = 0x80_0000;
    proof {
        lemma2_to64();
    }
    // `top` is the power of two with exponent `p`; it ends as the leading bit of `k`.
    while top > k
        invariant
            0 < k < 2 * top,
            p <= 23,
            top == pow2(p as nat),
        decreases p,
    {
        proof {
            if p == 0 {
                lemma2_to64();
                assert(false);
            }
            lemma_pow2_unfold(p as nat);
        }
        p -= 1;
        top = top / 2;
    }
    let mut rest: u32 = k - top;
    let mut i: u32 = p;
    proof {
        lemma2_to64();
        assert(rest * pow2(0) == rest);
    }
    // Shift the bits below the leading one to the top of the fraction.
    while i < 23
        invariant
            p <= i <= 23,
            0 < top <= k < 2 * top,
            top == pow2(p as nat),
            rest == (k - top) * pow2((i - p) as nat),
            rest < pow2(i as nat),
            pow2(23) == 0x80_0000,
        decreases 23 - i,
    {
        proof {
            lemma_pow2_unfold((i + 1) as nat);
            lemma_pow2_unfold((i + 1 - p) as nat);
            if i < 23 {
                lemma_pow2_strictly_increases(i as nat, 23);
            }
            let q = pow2((i - p) as nat);
            assert((k - top) * (2 * q) == 2 * ((k - top) * q)) by (nonlinear_arith);
        }
        rest = rest * 2;
        i += 1;
    }
    let r: u32 = (p + 103) * 0x80_0000 + rest;
    proof {
        lemma_encoding(k, p as nat, r);
    }
    r
}

/// The encoding without its sign, in double precision.
pub open spec fn magnitude_64(b: u64) -> int {
    if b >= SIGN_64 {
        b - SIGN_64
    } else {
        b as int
    }
}

/// Whether the encoding is a NaN, in double precision.
pub open spec fn nan_64(b: u64) -> bool {
    magnitude_64(b) > INFINITY_64
}

/// The place in the order of values, in double precision.
pub open spec fn rank_64(b: u64) -> int {
    if b >= SIGN_64 {
        -magnitude_64(b)
    } else {
        magnitude_64(b)
    }
}

/// The larger value in double precision; a NaN gives way to the other operand.
pub open spec fn max_64_of(a: u64, b: u64) -> u64 {
    if nan_64(b) || (!nan_64(a) && rank_64(b) <= rank_64(a)) {
        a
    } else {
        b
    }
}

/// The larger value in double precision.
pub fn larger_64(a: u64, b: u64) -> (r: u64)
    ensures
        r == max_64_of(a, b),
{
    let ma: u64 = if a >= SIGN_64 {
        a - SIGN_64
    } else {
        a
    };
    let mb: u64 = if b >= SIGN_64 {
        b - SIGN_64
    } else {
        b
    };
    let ra: i128 = if a >= SIGN_64 {
        -(ma as i128)
    } else {
        ma as i128
    };
    let rb: i128 = if b >= SIGN_64 {
        -(mb as i128)
    } else {
        mb as i128
    };
    if mb > INFINITY_64 || (ma <= INFINITY_64 && rb <= ra) {
        a
    } else {
        b
    }
}

} // verus!
