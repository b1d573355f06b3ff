//! The floating-point unit as a parameter.
//!
//! Every kernel is generic in an [`Arith`], which supplies the rounded
//! operations of binary32 and binary64 on bit patterns. Nothing is assumed of
//! it: a contract that speaks of computed values is guarded by
//! [`deterministic`], which says that each operation is a function of its
//! operands, and then names each result by the operation that gave it
//! (`add_of`, `mul_of`, ...). So what is proved is which operations are
//! performed, on which operands and in which order.

use vstd::prelude::*;

verus! {

/// Rounded floating-point operations on bit patterns: `u32` is binary32 and
/// `u64` is binary64.
pub trait Arith {
    fn add32(a: u32, b: u32) -> u32;

    fn sub32(a: u32, b: u32) -> u32;

    fn mul32(a: u32, b: u32) -> u32;

    fn div32(a: u32, b: u32) -> u32;

    fn sqrt32(a: u32) -> u32;

    fn exp32(a: u32) -> u32;

    /// `base` raised to `exponent`.
    fn pow32(base: u32, exponent: u32) -> u32;

    fn sin32(a: u32) -> u32;

    fn cos32(a: u32) -> u32;

    /// The nearest value to a count.
    fn count32(n: usize) -> u32;

    /// The nearest value to a signed integer.
    fn int32(n: i32) -> u32;

    /// The nearest single-precision value.
    fn narrow(a: u64) -> u32;

    /// The same value in double precision.
    fn widen(a: u32) -> u64;

    fn add64(a: u64, b: u64) -> u64;

    fn sub64(a: u64, b: u64) -> u64;

    fn div64(a: u64, b: u64) -> u64;

    fn exp64(a: u64) -> u64;

    /// The natural logarithm.
    fn ln64(a: u64) -> u64;

    /// The nearest double-precision value to a count.
    fn count64(n: usize) -> u64;
}

pub open spec fn add_of<A: Arith>(a: u32, b: u32) -> u32 {
    choose|r: u32| call_ensures(A::add32, (a, b), r)
}

pub open spec fn sub_of<A: Arith>(a: u32, b: u32) -> u32 {
    choose|r: u32| call_ensures(A::sub32, (a, b), r)
}

pub open spec fn mul_of<A: Arith>(a: u32, b: u32) -> u32 {
    choose|r: u32| call_ensures(A::mul32, (a, b), r)
}

pub open spec fn div_of<A: Arith>(a: u32, b: u32) -> u32 {
    choose|r: u32| call_ensures(A::div32, (a, b), r)
}

pub open spec fn sqrt_of<A: Arith>(a: u32) -> u32 {
    choose|r: u32| call_ensures(A::sqrt32, (a,), r)
}

pub open spec fn exp_of<A: Arith>(a: u32) -> u32 {
    choose|r: u32| call_ensures(A::exp32, (a,), r)
}

pub open spec fn pow_of<A: Arith>(base: u32, exponent: u32) -> u32 {
    choose|r: u32| call_ensures(A::pow32, (base, exponent), r)
}

pub open spec fn sin_of<A: Arith>(a: u32) -> u32 {
    choose|r: u32| call_ensures(A::sin32, (a,), r)
}

pub open spec fn cos_of<A: Arith>(a: u32) -> u32 {
    choose|r: u32| call_ensures(A::cos32, (a,), r)
}

pub open spec fn count_of<A: Arith>(n: usize) -> u32 {
    choose|r: u32| call_ensures(A::count32, (n,), r)
}

pub open spec fn int_of<A: Arith>(n: i32) -> u32 {
    choose|r: u32| call_ensures(A::int32, (n,), r)
}

pub open spec fn narrow_of<A: Arith>(a: u64) -> u32 {
    choose|r: u32| call_ensures(A::narrow, (a,), r)
}

pub open spec fn widen_of<A: Arith>(a: u32) -> u64 {
    choose|r: u64| call_ensures(A::widen, (a,), r)
}

pub open spec fn add64_of<A: Arith>(a: u64, b: u64) -> u64 {
    choose|r: u64| call_ensures(A::add64, (a, b), r)
}

pub open spec fn sub64_of<A: Arith>(a: u64, b: u64) -> u64 {
    choose|r: u64| call_ensures(A::sub64, (a, b), r)
}

pub open spec fn div64_of<A: Arith>(a: u64, b: u64) -> u64 {
    choose|r: u64| call_ensures(A::div64, (a, b), r)
}

pub open spec fn exp64_of<A: Arith>(a: u64) -> u64 {
    choose|r: u64| call_ensures(A::exp64, (a,), r)
}

pub open spec fn ln64_of<A: Arith>(a: u64) -> u64 {
    choose|r: u64| call_ensures(A::ln64, (a,), r)
}

pub open spec fn count64_of<A: Arith>(n: usize) -> u64 {
    choose|r: u64| call_ensures(A::count64, (n,), r)
}

/// Whether each operation is a function of its operands: the same operands
/// give the same result whenever it is performed.
pub open spec fn deterministic<A: Arith>() -> bool {
    &&& forall|a: u32, b: u32, r: u32| #[trigger]
        call_ensures(A::add32, (a, b), r) ==> r == add_of::<A>(a, b)
    &&& forall|a: u32, b: u32, r: u32| #[trigger]
        call_ensures(A::sub32, (a, b), r) ==> r == sub_of::<A>(a, b)
    &&& forall|a: u32, b: u32, r: u32| #[trigger]
        call_ensures(A::mul32, (a, b), r) ==> r == mul_of::<A>(a, b)
    &&& forall|a: u32, b: u32, r: u32| #[trigger]
        call_ensures(A::div32, (a, b), r) ==> r == div_of::<A>(a, b)
    &&& forall|a: u32, r: u32| #[trigger]
        call_ensures(A::sqrt32, (a,), r) ==> r == sqrt_of::<A>(a)
    &&& forall|a: u32, r: u32| #[trigger]
        call_ensures(A::exp32, (a,), r) ==> r == exp_of::<A>(a)
    &&& forall|a: u32, b: u32, r: u32| #[trigger]
        call_ensures(A::pow32, (a, b), r) ==> r == pow_of::<A>(a, b)
    &&& forall|a: u32, r: u32| #[trigger]
        call_ensures(A::sin32, (a,), r) ==> r == sin_of::<A>(a)
    &&& forall|a: u32, r: u32| #[trigger]
        call_ensures(A::cos32, (a,), r) ==> r == cos_of::<A>(a)
    &&& forall|n: usize, r: u32| #[trigger]
        call_ensures(A::count32, (n,), r) ==> r == count_of::<A>(n)
    &&& forall|n: i32, r: u32| #[trigger]
        call_ensures(A::int32, (n,), r) ==> r == int_of::<A>(n)
    &&& forall|a: u64, r: u32| #[trigger]
        call_ensures(A::narrow, (a,), r) ==> r == narrow_of::<A>(a)
    &&& forall|a: u32, r: u64| #[trigger]
        call_ensures(A::widen, (a,), r) ==> r == widen_of::<A>(a)
    &&& forall|a: u64, b: u64, r: u64| #[trigger]
        call_ensures(A::add64, (a, b), r) ==> r == add64_of::<A>(a, b)
    &&& forall|a: u64, b: u64, r: u64| #[trigger]
        call_ensures(A::sub64, (a, b), r) ==> r == sub64_of::<A>(a, b)
    &&& forall|a: u64, b: u64, r: u64| #[trigger]
        call_ensures(A::div64, (a, b), r) ==> r == div64_of::<A>(a, b)
    &&& forall|a: u64, r: u64| #[trigger]
        call_ensures(A::exp64, (a,), r) ==> r == exp64_of::<A>(a)
    &&& forall|a: u64, r: u64| #[trigger]
        call_ensures(A::ln64, (a,), r) ==> r == ln64_of::<A>(a)
    &&& forall|n: usize, r: u64| #[trigger]
        call_ensures(A::count64, (n,), r) ==> r == count64_of::<A>(n)
}

} // verus!
