//! Arithmetic in a ring: what the formulas of the kernels come to where nothing
//! is rounded.
//!
//! The integers modulo `m` are a ring in which every operation of the kernels can
//! be exact at once: a number may be divided by a unit, and has a square root where
//! there is one. An exponential that turns sums into products exists there too, such
//! as `1 + k * x` modulo `k * k`. A formula that holds in every such ring holds
//! because of what is added, multiplied, divided and exponentiated, and of nothing
//! else.

use vstd::prelude::*;

use crate::arith;
use crate::arith::Arith;
use crate::bits;
use crate::exact;

verus! {

/// The integers modulo `m`, with an exponential. `value` says which one a bit
/// pattern stands for.
pub struct Ring {
    pub value: spec_fn(u32) -> int,
    pub power: spec_fn(int) -> int,
    pub m: int,
}

/// The sum of `f` over the first `n` indices.
pub open spec fn sum_of(f: spec_fn(int) -> int, n: int) -> int
    decreases n,
{
    if n <= 0 {
        0
    } else {
        sum_of(f, n - 1) + f(n - 1)
    }
}

/// Whether a bit pattern is a positive number.
pub open spec fn positive(a: u32) -> bool {
    bits::lt_of(bits::ZERO, a)
}

impl Ring {
    /// The number that a bit pattern stands for.
    pub open spec fn val(self, a: u32) -> int {
        (self.value)(a)
    }

    /// The exponential of a number.
    pub open spec fn exp(self, x: int) -> int {
        (self.power)(x)
    }

    /// Whether two integers are the same number.
    pub open spec fn eq(self, a: int, b: int) -> bool {
        exact::same(a, b, self.m)
    }

    /// Whether the product of two numbers is 1.
    pub open spec fn inverse(self, a: int, b: int) -> bool {
        self.eq(a * b, 1)
    }

    /// Whether a number can be divided by.
    pub open spec fn unit(self, a: int) -> bool {
        exists|b: int| #[trigger] self.inverse(a, b)
    }

    /// Whether `r` is a square root of `a`.
    pub open spec fn root(self, r: int, a: int) -> bool {
        self.eq(r * r, a)
    }

    /// Whether the arithmetic is that of the ring.
    pub open spec fn of<A: Arith>(self) -> bool {
        &&& exact::exact::<A>(self.value, self.m)
        &&& self.eq(self.val(bits::ONE), 1)
        &&& self.eq(self.val(bits::TWO), 2)
        &&& forall|a: u32| self.eq(self.val(#[trigger] bits::neg_of(a)), -self.val(a))
        &&& forall|n: usize| self.eq(self.val(#[trigger] arith::count_of::<A>(n)), n as int)
        &&& forall|a: u32, b: u32|
            self.unit(self.val(b)) ==> self.eq(
                self.val(#[trigger] arith::div_of::<A>(a, b)) * self.val(b),
                self.val(a),
            )
        &&& forall|a: u32, r: int| #[trigger]
            self.root(r, self.val(a)) ==> self.root(
                self.val(arith::sqrt_of::<A>(a)),
                self.val(a),
            )
        &&& self.exponential::<A>()
    }

    /// Whether the exponential of a sum is the product of the exponentials.
    pub open spec fn multiplies(self, x: int, y: int) -> bool {
        self.eq(self.exp(x + y), self.exp(x) * self.exp(y))
    }

    /// Whether the same number has the same exponential.
    pub open spec fn respects(self, x: int, y: int) -> bool {
        self.eq(x, y) ==> self.eq(self.exp(x), self.exp(y))
    }

    /// Whether the exponential turns sums into products, and exponentials and what
    /// is added to them count as positive.
    pub open spec fn exponential<A: Arith>(self) -> bool {
        &&& forall|a: u32| self.eq(self.val(#[trigger] arith::exp_of::<A>(a)), self.exp(self.val(a)))
        &&& forall|x: int, y: int| #[trigger] self.multiplies(x, y)
        &&& forall|x: int, y: int| #[trigger] self.respects(x, y)
        &&& self.eq(self.exp(0), 1)
        &&& forall|a: u32| positive(#[trigger] arith::exp_of::<A>(a))
        &&& forall|a: u32, b: u32|
            (a == bits::ZERO || positive(a)) && positive(b) ==> positive(
                #[trigger] arith::add_of::<A>(a, b),
            )
    }

    /// The same number is the same, in either order, and so are sums, differences
    /// and products of the same numbers.
    pub(crate) proof fn same(self, a: int, b: int, c: int, d: int)
        requires
            self.m > 0,
            self.eq(a, b),
            self.eq(c, d),
        ensures
            self.eq(b, a),
            self.eq(a + c, b + d),
            self.eq(a - c, b - d),
            self.eq(a * c, b * d),
    {
        exact::lemma_same_ops(a, b, c, d, self.m);
        exact::lemma_same_refl(b, self.m);
        exact::lemma_same_trans(a, b, b, self.m);
    }

    pub(crate) proof fn refl(self, a: int)
        requires
            self.m > 0,
        ensures
            self.eq(a, a),
    {
        exact::lemma_same_refl(a, self.m);
    }

    pub(crate) proof fn sym(self, a: int, b: int)
        requires
            self.m > 0,
            self.eq(a, b),
        ensures
            self.eq(b, a),
    {
        self.refl(b);
        exact::lemma_same_trans(a, b, b, self.m);
    }

    pub(crate) proof fn trans(self, a: int, b: int, c: int)
        requires
            self.m > 0,
            self.eq(a, b),
            self.eq(b, c),
        ensures
            self.eq(a, c),
    {
        exact::lemma_same_trans(a, b, c, self.m);
    }

    /// The same factor keeps numbers the same.
    pub(crate) proof fn times(self, a: int, b: int, c: int)
        requires
            self.m > 0,
            self.eq(a, b),
        ensures
            self.eq(a * c, b * c),
            self.eq(c * a, c * b),
    {
        self.refl(c);
        self.same(a, b, c, c);
        assert(a * c == c * a && b * c == c * b) by (nonlinear_arith);
    }

    /// A unit can be cancelled.
    pub(crate) proof fn cancel(self, a: int, b: int, c: int)
        requires
            self.m > 0,
            self.unit(c),
            self.eq(a * c, b * c),
        ensures
            self.eq(a, b),
    {
        let d = choose|d: int| #[trigger] self.inverse(c, d);
        self.times(a * c, b * c, d);
        self.times(c * d, 1, a);
        self.times(c * d, 1, b);
        assert((a * c) * d == a * (c * d) && (b * c) * d == b * (c * d)) by (nonlinear_arith);
        assert(a * 1 == a && b * 1 == b);
        self.sym(a * (c * d), a);
        self.trans(a, a * (c * d), b * (c * d));
        self.trans(a, b * (c * d), b);
    }

    /// A factor of a unit is a unit.
    pub(crate) proof fn factor(self, a: int, b: int, c: int)
        requires
            self.m > 0,
            self.eq(a * b, c),
            self.unit(c),
        ensures
            self.unit(a),
            self.unit(b),
    {
        let d = choose|d: int| #[trigger] self.inverse(c, d);
        self.times(a * b, c, d);
        self.trans((a * b) * d, c * d, 1);
        assert((a * b) * d == a * (b * d) && (a * b) * d == b * (a * d)) by (nonlinear_arith);
        assert(self.inverse(a, b * d));
        assert(self.inverse(b, a * d));
    }

    /// What is the same as a unit is a unit.
    pub(crate) proof fn unit_same(self, a: int, b: int)
        requires
            self.m > 0,
            self.eq(a, b),
            self.unit(b),
        ensures
            self.unit(a),
    {
        assert(a * 1 == a);
        self.factor(a, 1, b);
    }

    /// What operations give.
    pub(crate) proof fn ops<A: Arith>(self, a: u32, x: int, b: u32, y: int)
        requires
            self.of::<A>(),
            self.eq(self.val(a), x),
            self.eq(self.val(b), y),
        ensures
            self.eq(self.val(arith::add_of::<A>(a, b)), x + y),
            self.eq(self.val(arith::sub_of::<A>(a, b)), x - y),
            self.eq(self.val(arith::mul_of::<A>(a, b)), x * y),
            self.unit(y) ==> self.eq(self.val(arith::div_of::<A>(a, b)) * y, x),
    {
        exact::lemma_ops::<A>(self.value, self.m, a, x, b, y);
        if self.unit(y) {
            self.unit_same(self.val(b), y);
            let q = self.val(arith::div_of::<A>(a, b));
            self.times(self.val(b), y, q);
            self.sym(q * self.val(b), q * y);
            self.trans(q * y, q * self.val(b), self.val(a));
            self.trans(q * y, self.val(a), x);
        }
    }

    /// Sums of the same numbers are the same.
    pub(crate) proof fn sums(self, f: spec_fn(int) -> int, g: spec_fn(int) -> int, n: int)
        requires
            self.m > 0,
            forall|i: int| 0 <= i < n ==> self.eq(#[trigger] f(i), g(i)),
        ensures
            self.eq(sum_of(f, n), sum_of(g, n)),
        decreases n,
    {
        if n > 0 {
            self.sums(f, g, n - 1);
            assert(self.eq(f(n - 1), g(n - 1)));
            self.same(sum_of(f, n - 1), sum_of(g, n - 1), f(n - 1), g(n - 1));
        } else {
            self.refl(0);
        }
    }
}

/// A factor can be applied to every term of a sum, or once to the sum.
pub(crate) proof fn lemma_sum_times(f: spec_fn(int) -> int, g: spec_fn(int) -> int, c: int, n: int)
    requires
        forall|i: int| 0 <= i < n ==> #[trigger] g(i) == f(i) * c,
    ensures
        sum_of(g, n) == sum_of(f, n) * c,
    decreases n,
{
    if n > 0 {
        lemma_sum_times(f, g, c, n - 1);
        assert(g(n - 1) == f(n - 1) * c);
        let s = sum_of(f, n - 1);
        let t = f(n - 1);
        assert((s + t) * c == s * c + t * c) by (nonlinear_arith);
    } else {
        assert(0 * c == 0);
    }
}

/// Sums of equal terms are equal.
pub(crate) proof fn lemma_sum_equal(f: spec_fn(int) -> int, g: spec_fn(int) -> int, n: int)
    requires
        forall|i: int| 0 <= i < n ==> #[trigger] f(i) == g(i),
    ensures
        sum_of(f, n) == sum_of(g, n),
    decreases n,
{
    if n > 0 {
        lemma_sum_equal(f, g, n - 1);
        assert(f(n - 1) == g(n - 1));
    }
}

} // verus!
