//! What the kernels compute, as relations between their inputs and results, where
//! nothing is rounded.

use vstd::prelude::*;

use crate::arith;
use crate::arith::Arith;
use crate::attention;
use crate::bits;
use crate::config::Heads;
use crate::exact;
use crate::format::WeightView;
use crate::quantize;
use crate::ring::{lemma_sum_equal, lemma_sum_times, positive, sum_of, Ring};
use crate::rope;
use crate::tensor;

verus! {

impl Ring {
    /// The inner product of `n` elements of `a` from `at` on and of `b` from `bt` on.
    pub open spec fn inner(self, a: Seq<u32>, at: int, b: Seq<u32>, bt: int, n: int) -> int {
        sum_of(|j: int| self.val(a[at + j]) * self.val(b[bt + j]), n)
    }

    /// The weight in row `i` and column `j` of a matrix. That of a quantized matrix
    /// is its code times the scale of its block.
    pub open spec fn weight(self, w: WeightView, i: int, j: int) -> int {
        match w {
            WeightView::F32(t) => self.val(t.data[i * t.shape[1] + j]),
            WeightView::Quant(q) => {
                let row = q.data.subrange(i * q.row_len(), i * q.row_len() + q.row_len());
                exact::row_code(q.dtype, row, j) * self.val(exact::row_scale(q.dtype, row, j))
            },
        }
    }

    /// Whether `y` is the product of a matrix with `x`: element `i` is the sum of the
    /// weights of row `i` times the elements of `x`.
    pub open spec fn projects(self, w: WeightView, x: Seq<u32>, y: Seq<u32>) -> bool {
        &&& y.len() == w.rows()
        &&& forall|i: int|
            0 <= i < y.len() ==> self.eq(
                self.val(#[trigger] y[i]),
                sum_of(|j: int| self.weight(w, i, j) * self.val(x[j]), x.len() as int),
            )
    }

    /// Whether `y` is the sum of `a` and `b`, element by element.
    pub open spec fn adds(self, a: Seq<u32>, b: Seq<u32>, y: Seq<u32>) -> bool {
        &&& y.len() == a.len()
        &&& forall|i: int|
            0 <= i < y.len() ==> self.eq(
                self.val(#[trigger] y[i]),
                self.val(a[i]) + self.val(b[i]),
            )
    }

    /// Whether `r` times itself is the mean square of `x`, plus `eps`.
    pub open spec fn steadied(self, x: Seq<u32>, eps: u32, r: int) -> bool {
        let n = x.len() as int;
        self.eq((r * r) * n, self.inner(x, 0, x, 0, n) + n * self.val(eps))
    }

    /// Whether `y` is `x` over the root of its mean square plus `eps`, times a gain
    /// per element: wherever there is such a root that can be divided by.
    pub open spec fn normalizes(self, x: Seq<u32>, gain: Seq<u32>, eps: u32, y: Seq<u32>) -> bool {
        &&& y.len() == x.len()
        &&& self.unit(x.len() as int) && (exists|r: int| #[trigger]
            self.steadied(x, eps, r) && self.unit(r)) ==> exists|r: int|
            {
                &&& #[trigger] self.steadied(x, eps, r)
                &&& self.unit(r)
                &&& forall|i: int|
                    0 <= i < y.len() ==> self.eq(
                        self.val(#[trigger] y[i]) * r,
                        self.val(x[i]) * self.val(gain[i]),
                    )
            }
    }

    /// Whether `h` is the gated hidden state of `gate` and `up`: each element is that
    /// of `gate` times its logistic function times that of `up`.
    pub open spec fn gated(self, gate: Seq<u32>, up: Seq<u32>, h: Seq<u32>) -> bool {
        &&& h.len() == gate.len()
        &&& forall|i: int|
            0 <= i < h.len() && self.unit(1 + self.exp(-self.val(gate[i]))) ==> self.eq(
                self.val(#[trigger] h[i]) * (1 + self.exp(-self.val(gate[i]))),
                self.val(gate[i]) * self.val(up[i]),
            )
    }

    /// Whether `y` is the softmax of `x`: each element times the sum of all
    /// exponentials is its own exponential.
    pub open spec fn softens(self, x: Seq<u32>, y: Seq<u32>) -> bool {
        let total = sum_of(|j: int| self.exp(self.val(x[j])), x.len() as int);
        &&& y.len() == x.len()
        &&& self.unit(total) ==> forall|i: int|
            0 <= i < y.len() ==> self.eq(
                self.val(#[trigger] y[i]) * total,
                self.exp(self.val(x[i])),
            )
    }

    /// Whether each pair of elements of each head of `x`, `half` elements apart, is
    /// turned by the angle with the given cosine and sine to give `y`.
    pub open spec fn turns(self, x: Seq<u32>, cos: Seq<u32>, sin: Seq<u32>, y: Seq<u32>) -> bool {
        let half = cos.len() as int;
        &&& y.len() == x.len()
        &&& forall|n: int, i: int|
            #![trigger y[n * (2 * half) + i]]
            0 <= n && 0 <= i < half && n * (2 * half) + i + half < x.len() ==> {
                let a = n * (2 * half) + i;
                let b = a + half;
                &&& self.eq(
                    self.val(y[a]),
                    self.val(x[a]) * self.val(cos[i]) - self.val(x[b]) * self.val(sin[i]),
                )
                &&& self.eq(
                    self.val(y[b]),
                    self.val(x[b]) * self.val(cos[i]) + self.val(x[a]) * self.val(sin[i]),
                )
            }
    }
}

/// The inner product is what the dot product computes.
proof fn lemma_pairs(ring: Ring, a: Seq<u32>, b: Seq<u32>, n: int)
    ensures
        exact::pairs_sum(ring.value, a, b, 0, n) == ring.inner(a, 0, b, 0, n),
    decreases n,
{
    let f = |j: int| ring.val(a[0 + j]) * ring.val(b[0 + j]);
    if n > 0 {
        lemma_pairs(ring, a, b, n - 1);
        assert(f(n - 1) == ring.val(a[n - 1]) * ring.val(b[n - 1]));
    }
}

/// Without rounding, the dot product is the inner product.
pub proof fn law_dot<A: Arith>(ring: Ring, a: Seq<u32>, b: Seq<u32>)
    requires
        ring.of::<A>(),
        a.len() == b.len(),
    ensures
        ring.eq(
            ring.val(tensor::dot_of::<A>(a, b)),
            ring.inner(a, 0, b, 0, a.len() as int),
        ),
{
    exact::law_dot_is_exact::<A>(ring.value, ring.m, a, b, a.len() as int);
    lemma_pairs(ring, a, b, a.len() as int);
}

/// Without rounding, the elementwise sum adds the elements.
pub proof fn law_add<A: Arith>(ring: Ring, a: Seq<u32>, b: Seq<u32>)
    requires
        ring.of::<A>(),
        a.len() == b.len(),
    ensures
        ring.adds(a, b, tensor::add_seq::<A>(a, b)),
{
    let y = tensor::add_seq::<A>(a, b);
    assert forall|i: int| 0 <= i < y.len() implies ring.eq(
        ring.val(#[trigger] y[i]),
        ring.val(a[i]) + ring.val(b[i]),
    ) by {
        ring.refl(ring.val(a[i]));
        ring.refl(ring.val(b[i]));
        ring.ops::<A>(a[i], ring.val(a[i]), b[i], ring.val(b[i]));
    }
}

/// Without rounding, a normalized vector times the root of its mean square (plus the
/// constant that steadies it) is the vector times the gain.
pub proof fn law_rmsnorm<A: Arith>(ring: Ring, x: Seq<u32>, gain: Seq<u32>, eps: u32)
    requires
        ring.of::<A>(),
        x.len() == gain.len() <= usize::MAX,
    ensures
        ring.normalizes(x, gain, eps, tensor::rmsnorm_of::<A>(x, gain, eps)),
{
    let y = tensor::rmsnorm_of::<A>(x, gain, eps);
    let n = x.len() as int;
    if ring.unit(n) && exists|r: int| #[trigger] ring.steadied(x, eps, r) && ring.unit(r) {
        let r0 = choose|r: int| #[trigger] ring.steadied(x, eps, r) && ring.unit(r);
        let dot = tensor::dot_of::<A>(x, x);
        let count = arith::count_of::<A>(x.len() as usize);
        let mean = arith::div_of::<A>(dot, count);
        let sum = arith::add_of::<A>(mean, eps);
        let s = ring.inner(x, 0, x, 0, n);
        let e = ring.val(eps);
        law_dot::<A>(ring, x, x);
        ring.ops::<A>(dot, s, count, n);
        let vm = ring.val(mean);
        ring.refl(vm);
        ring.refl(e);
        ring.ops::<A>(mean, vm, eps, e);
        // The square is r0 * r0.
        let vs = ring.val(sum);
        ring.times(vs, vm + e, n);
        assert((vm + e) * n == vm * n + n * e) by (nonlinear_arith);
        ring.refl(n * e);
        ring.same(vm * n, s, n * e, n * e);
        ring.trans(vs * n, vm * n + n * e, s + n * e);
        ring.sym((r0 * r0) * n, s + n * e);
        ring.trans(vs * n, s + n * e, (r0 * r0) * n);
        ring.cancel(vs, r0 * r0, n);
        ring.sym(vs, r0 * r0);
        assert(ring.root(r0, vs));
        let root = arith::sqrt_of::<A>(sum);
        let r = ring.val(root);
        ring.trans(r * r, vs, r0 * r0);
        ring.times(r * r, r0 * r0, n);
        ring.trans((r * r) * n, (r0 * r0) * n, s + n * e);
        assert(ring.steadied(x, eps, r));
        // It can be divided by.
        let i0 = choose|b: int| #[trigger] ring.inverse(r0, b);
        ring.same(r0 * i0, 1, r0 * i0, 1);
        assert((r0 * i0) * (r0 * i0) == (r0 * r0) * (i0 * i0)) by (nonlinear_arith);
        assert(ring.inverse(r0 * r0, i0 * i0));
        ring.factor(r, r, r0 * r0);
        let inv = arith::div_of::<A>(bits::ONE, root);
        let vi = ring.val(inv);
        ring.refl(r);
        ring.ops::<A>(bits::ONE, 1, root, r);
        assert(ring.eq(vi * r, 1));
        assert forall|i: int| 0 <= i < y.len() implies ring.eq(
            ring.val(#[trigger] y[i]) * r,
            ring.val(x[i]) * ring.val(gain[i]),
        ) by {
            let a = ring.val(x[i]);
            let g = ring.val(gain[i]);
            ring.refl(a);
            ring.refl(vi);
            ring.refl(g);
            ring.ops::<A>(x[i], a, inv, vi);
            ring.ops::<A>(arith::mul_of::<A>(x[i], inv), a * vi, gain[i], g);
            ring.times(ring.val(y[i]), (a * vi) * g, r);
            assert(((a * vi) * g) * r == (a * g) * (vi * r)) by (nonlinear_arith);
            ring.times(vi * r, 1, a * g);
            assert((a * g) * 1 == a * g);
            ring.trans(ring.val(y[i]) * r, (a * g) * (vi * r), a * g);
        }
    }
}

/// Without rounding, SiLU times an elementwise factor gates the factor: the result
/// times one plus the exponential of the negated gate is gate times factor.
pub proof fn law_gated<A: Arith>(ring: Ring, gate: Seq<u32>, up: Seq<u32>)
    requires
        ring.of::<A>(),
        gate.len() == up.len(),
    ensures
        ring.gated(gate, up, tensor::mul_seq::<A>(tensor::silu_of::<A>(gate), up)),
{
    let h = tensor::mul_seq::<A>(tensor::silu_of::<A>(gate), up);
    assert forall|i: int|
        0 <= i < h.len() && ring.unit(1 + ring.exp(-ring.val(gate[i]))) implies ring.eq(
        ring.val(#[trigger] h[i]) * (1 + ring.exp(-ring.val(gate[i]))),
        ring.val(gate[i]) * ring.val(up[i]),
    ) by {
        let g = ring.val(gate[i]);
        let u = ring.val(up[i]);
        let negated = bits::neg_of(gate[i]);
        let e = arith::exp_of::<A>(negated);
        let p = ring.exp(-g);
        assert(ring.eq(ring.val(negated), -g));
        assert(ring.respects(ring.val(negated), -g));
        ring.trans(ring.val(e), ring.exp(ring.val(negated)), p);
        ring.ops::<A>(bits::ONE, 1, e, p);
        let below = arith::add_of::<A>(bits::ONE, e);
        ring.refl(g);
        ring.ops::<A>(gate[i], g, below, 1 + p);
        let s = tensor::silu_of::<A>(gate)[i];
        let vs = ring.val(s);
        assert(ring.eq(vs * (1 + p), g));
        ring.refl(vs);
        ring.refl(u);
        ring.ops::<A>(s, vs, up[i], u);
        ring.times(ring.val(h[i]), vs * u, 1 + p);
        assert((vs * u) * (1 + p) == (vs * (1 + p)) * u) by (nonlinear_arith);
        ring.times(vs * (1 + p), g, u);
        ring.trans(ring.val(h[i]) * (1 + p), (vs * (1 + p)) * u, g * u);
    }
}

/// A rounded sum of exponentials is the sum, and counts as positive.
proof fn lemma_sum_upto<A: Arith>(ring: Ring, e: Seq<u32>, f: spec_fn(int) -> int, n: int)
    requires
        ring.of::<A>(),
        0 <= n <= e.len(),
        forall|i: int| 0 <= i < e.len() ==> positive(#[trigger] e[i]) && ring.eq(ring.val(e[i]), f(i)),
    ensures
        ring.eq(ring.val(tensor::sum_upto::<A>(e, n)), sum_of(f, n)),
        if n > 0 {
            positive(tensor::sum_upto::<A>(e, n))
        } else {
            tensor::sum_upto::<A>(e, n) == bits::ZERO
        },
    decreases n,
{
    if n > 0 {
        lemma_sum_upto::<A>(ring, e, f, n - 1);
        assert(positive(e[n - 1]));
        ring.ops::<A>(tensor::sum_upto::<A>(e, n - 1), sum_of(f, n - 1), e[n - 1], f(n - 1));
    }
}

/// Without rounding, an element of a softmax times the sum of all exponentials is the
/// exponential of its own element.
pub proof fn law_softmax<A: Arith>(ring: Ring, x: Seq<u32>)
    requires
        ring.of::<A>(),
        x.len() > 0,
    ensures
        ring.softens(x, tensor::softmax_of::<A>(x)),
{
    let n = x.len() as int;
    let max = bits::max_upto(bits::NEG_INFINITY, x, n);
    let e = tensor::shifted_exp::<A>(x);
    let y = tensor::softmax_of::<A>(x);
    let vm = ring.val(max);
    let p = ring.exp(vm);
    let f = |j: int| ring.val(e[j]);
    let g = |j: int| ring.exp(ring.val(x[j]));
    let fp = |j: int| f(j) * p;
    let total = tensor::sum_upto::<A>(e, n);
    let t = sum_of(f, n);
    let s = sum_of(g, n);
    assert forall|j: int| 0 <= j < n implies positive(#[trigger] e[j]) && ring.eq(
        ring.val(e[j]),
        f(j),
    ) by {
        ring.refl(f(j));
    }
    lemma_sum_upto::<A>(ring, e, f, n);
    assert forall|j: int| 0 <= j < n implies ring.eq(#[trigger] fp(j), g(j)) by {
        let vx = ring.val(x[j]);
        let d = arith::sub_of::<A>(x[j], max);
        ring.refl(vx);
        ring.refl(vm);
        ring.ops::<A>(x[j], vx, max, vm);
        let vd = ring.val(d);
        // exp(x - max) * exp(max) is exp(x).
        ring.same(vd, vx - vm, vm, vm);
        assert(vx - vm + vm == vx);
        let sum = vd + vm;
        assert(ring.multiplies(vd, vm));
        assert(ring.respects(sum, vx));
        ring.sym(ring.exp(sum), ring.exp(vd) * p);
        ring.trans(ring.exp(vd) * p, ring.exp(sum), ring.exp(vx));
        ring.times(ring.val(e[j]), ring.exp(vd), p);
        ring.trans(fp(j), ring.exp(vd) * p, g(j));
    }
    ring.sums(fp, g, n);
    lemma_sum_times(f, fp, p, n);
    assert(ring.eq(t * p, s));
    assert(sum_of(|j: int| ring.exp(ring.val(x[j])), n) == s) by {
        lemma_sum_equal(|j: int| ring.exp(ring.val(x[j])), g, n);
    }
    if ring.unit(s) {
        ring.factor(t, p, s);
        ring.unit_same(ring.val(total), t);
        assert forall|i: int| 0 <= i < n implies ring.eq(
            ring.val(#[trigger] y[i]) * s,
            ring.exp(ring.val(x[i])),
        ) by {
            let vy = ring.val(y[i]);
            ring.refl(f(i));
            ring.ops::<A>(e[i], f(i), total, t);
            assert(y[i] == arith::div_of::<A>(e[i], total));
            assert(ring.eq(vy * t, f(i)));
            ring.times(vy * t, f(i), p);
            assert((vy * t) * p == vy * (t * p)) by (nonlinear_arith);
            ring.times(t * p, s, vy);
            ring.sym(vy * (t * p), vy * s);
            ring.trans(vy * s, vy * (t * p), fp(i));
            assert(ring.eq(fp(i), g(i)));
            ring.trans(vy * s, fp(i), g(i));
        }
    }
}

/// Without rounding, the product of a matrix with a vector has, for each row, the sum
/// of the weights of that row times the elements of the vector.
pub proof fn law_projects<A: Arith>(ring: Ring, w: WeightView, x: Seq<u32>)
    requires
        ring.of::<A>(),
        w.takes(x.len() as int),
        w.fault(x.len() as int) is None,
    ensures
        ring.projects(w, x, w.times::<A>(x)),
{
    crate::model::law_matvec_rows::<A>(w, x);
    let y = w.times::<A>(x);
    let n = x.len() as int;
    assert forall|i: int| 0 <= i < y.len() implies ring.eq(
        ring.val(#[trigger] y[i]),
        sum_of(|j: int| ring.weight(w, i, j) * ring.val(x[j]), n),
    ) by {
        let f = |j: int| ring.weight(w, i, j) * ring.val(x[j]);
        match w {
            WeightView::F32(t) => {
                let row = t.data.subrange(i * n, i * n + n);
                tensor::lemma_numel_2(t.shape);
                attention::lemma_head_within(i, t.shape[0] as int, n);
                law_dot::<A>(ring, row, x);
                let g = |j: int| ring.val(row[0 + j]) * ring.val(x[0 + j]);
                lemma_sum_equal(g, f, n);
            },
            WeightView::Quant(q) => {
                let row = q.data.subrange(i * q.row_len(), i * q.row_len() + q.row_len());
                exact::lemma_dequantized_row::<A>(q, i);
                let blocks = q.row_len() / q.dtype.block_len();
                exact::lemma_row::<A>(ring.value, ring.m, q.dtype, row, x, blocks);
                lemma_weighted(ring, q.dtype, row, x, f, n);
            },
        }
    }
}

proof fn lemma_weighted(
    ring: Ring,
    dtype: quantize::QuantDtype,
    row: Seq<u8>,
    x: Seq<u32>,
    f: spec_fn(int) -> int,
    n: int,
)
    requires
        forall|j: int|
            0 <= j < n ==> #[trigger] f(j) == (exact::row_code(dtype, row, j) * ring.val(
                exact::row_scale(dtype, row, j),
            )) * ring.val(x[j]),
    ensures
        exact::weighted_sum(ring.value, dtype, row, x, n) == sum_of(f, n),
    decreases n,
{
    if n > 0 {
        lemma_weighted(ring, dtype, row, x, f, n - 1);
        assert(f(n - 1) == (exact::row_code(dtype, row, n - 1) * ring.val(
            exact::row_scale(dtype, row, n - 1),
        )) * ring.val(x[n - 1]));
    }
}

/// Without rounding, rotary embedding turns each pair of elements of each head.
pub proof fn law_turns<A: Arith>(ring: Ring, x: Seq<u32>, cos: Seq<u32>, sin: Seq<u32>)
    requires
        ring.of::<A>(),
        cos.len() == sin.len(),
        cos.len() > 0,
    ensures
        ring.turns(x, cos, sin, rope::rotated::<A>(x, cos, sin)),
{
    let half = cos.len() as int;
    let y = rope::rotated::<A>(x, cos, sin);
    assert forall|n: int, i: int|
        #![trigger y[n * (2 * half) + i]]
        0 <= n && 0 <= i < half && n * (2 * half) + i + half < x.len() implies {
        let a = n * (2 * half) + i;
        let b = a + half;
        &&& ring.eq(
            ring.val(y[a]),
            ring.val(x[a]) * ring.val(cos[i]) - ring.val(x[b]) * ring.val(sin[i]),
        )
        &&& ring.eq(
            ring.val(y[b]),
            ring.val(x[b]) * ring.val(cos[i]) + ring.val(x[a]) * ring.val(sin[i]),
        )
    } by {
        let a = n * (2 * half) + i;
        let b = a + half;
        attention::lemma_head_index(n, i, 2 * half);
        attention::lemma_head_index(n, i + half, 2 * half);
        assert(0 <= n * (2 * half)) by (nonlinear_arith)
            requires
                n >= 0,
                half > 0,
        ;
        let (p, q, c, s) = (ring.val(x[a]), ring.val(x[b]), ring.val(cos[i]), ring.val(sin[i]));
        ring.refl(p);
        ring.refl(q);
        ring.refl(c);
        ring.refl(s);
        ring.ops::<A>(x[a], p, cos[i], c);
        ring.ops::<A>(x[b], q, sin[i], s);
        ring.ops::<A>(x[b], q, cos[i], c);
        ring.ops::<A>(x[a], p, sin[i], s);
        ring.ops::<A>(arith::mul_of::<A>(x[a], cos[i]), p * c, arith::mul_of::<A>(x[b], sin[i]), q * s);
        ring.ops::<A>(arith::mul_of::<A>(x[b], cos[i]), q * c, arith::mul_of::<A>(x[a], sin[i]), p * s);
    }
}

/// Without rounding, the elementwise product multiplies the elements.
pub proof fn law_mul<A: Arith>(ring: Ring, a: Seq<u32>, b: Seq<u32>, i: int)
    requires
        ring.of::<A>(),
        0 <= i < a.len() == b.len(),
    ensures
        ring.eq(ring.val(tensor::mul_seq::<A>(a, b)[i]), ring.val(a[i]) * ring.val(b[i])),
{
    ring.refl(ring.val(a[i]));
    ring.refl(ring.val(b[i]));
    ring.ops::<A>(a[i], ring.val(a[i]), b[i], ring.val(b[i]));
}

/// Without rounding, SiLU is `x` over one plus the exponential of `-x`.
pub proof fn law_silu<A: Arith>(ring: Ring, x: Seq<u32>, i: int)
    requires
        ring.of::<A>(),
        0 <= i < x.len(),
        ring.unit(1 + ring.exp(-ring.val(x[i]))),
    ensures
        ring.eq(
            ring.val(tensor::silu_of::<A>(x)[i]) * (1 + ring.exp(-ring.val(x[i]))),
            ring.val(x[i]),
        ),
{
    let g = ring.val(x[i]);
    let negated = bits::neg_of(x[i]);
    let e = arith::exp_of::<A>(negated);
    let p = ring.exp(-g);
    assert(ring.eq(ring.val(negated), -g));
    assert(ring.respects(ring.val(negated), -g));
    ring.trans(ring.val(e), ring.exp(ring.val(negated)), p);
    ring.ops::<A>(bits::ONE, 1, e, p);
    ring.refl(g);
    ring.ops::<A>(x[i], g, arith::add_of::<A>(bits::ONE, e), 1 + p);
}

/// Without rounding, a cell of a matrix product is the sum, over the shared
/// dimension, of the products of the row's elements with the column's.
pub proof fn law_matmul<A: Arith>(
    ring: Ring,
    a: Seq<u32>,
    b: Seq<u32>,
    k: int,
    n: int,
    i: int,
    j: int,
    p: int,
)
    requires
        ring.of::<A>(),
        0 <= p <= k,
        0 <= j < n,
    ensures
        ring.eq(
            ring.val(tensor::cell_upto::<A>(a, b, k, n, i, j, p)),
            sum_of(|q: int| ring.val(a[i * k + q]) * ring.val(b[q * n + j]), p),
        ),
        p == k ==> tensor::product_row::<A>(a, b, k, n, i)[j] == tensor::cell_upto::<A>(
            a,
            b,
            k,
            n,
            i,
            j,
            p,
        ),
    decreases p,
{
    let f = |q: int| ring.val(a[i * k + q]) * ring.val(b[q * n + j]);
    if p > 0 {
        law_matmul::<A>(ring, a, b, k, n, i, j, p - 1);
        let x = a[i * k + (p - 1)];
        let y = b[(p - 1) * n + j];
        ring.refl(ring.val(x));
        ring.refl(ring.val(y));
        ring.ops::<A>(x, ring.val(x), y, ring.val(y));
        ring.ops::<A>(
            tensor::cell_upto::<A>(a, b, k, n, i, j, p - 1),
            sum_of(f, p - 1),
            arith::mul_of::<A>(x, y),
            f(p - 1),
        );
    }
}

impl Ring {
    /// Whether each head of `y` is that head of `x`, normalized on its own with the
    /// same gain.
    pub open spec fn normalizes_heads(
        self,
        x: Seq<u32>,
        gain: Seq<u32>,
        eps: u32,
        y: Seq<u32>,
    ) -> bool {
        let size = gain.len() as int;
        &&& y.len() == x.len()
        &&& forall|n: int|
            #![trigger y.subrange(n * size, n * size + size)]
            0 <= n && n * size + size <= x.len() ==> self.normalizes(
                x.subrange(n * size, n * size + size),
                gain,
                eps,
                y.subrange(n * size, n * size + size),
            )
    }

    /// Where the key or value head that query head `h` looks at begins in a row.
    pub open spec fn shared_head(self, heads: Heads, h: int) -> int {
        h / (heads.n_heads as int / heads.n_kv_heads as int) * heads.head_dim
    }

    /// The sum of the exponentials of the first `len` scores of query head `h`.
    pub open spec fn mass(self, s: spec_fn(int, int) -> int, h: int, len: int) -> int {
        sum_of(|t: int| self.exp(s(h, t)), len)
    }

    /// Whether `out` is what queries gather from the values of `len` positions, by
    /// scores `s` and a root `r` of the size of a head: a score times `r` is the inner
    /// product of query head and key, and an element of `out` times the sum of the
    /// exponentials of the scores is the sum of the values, each times the
    /// exponential of its score.
    pub open spec fn attends_by(
        self,
        q: Seq<u32>,
        k: Seq<u32>,
        v: Seq<u32>,
        len: int,
        heads: Heads,
        out: Seq<u32>,
        r: int,
        s: spec_fn(int, int) -> int,
    ) -> bool {
        let size = heads.head_dim as int;
        let width = heads.n_kv_heads * size;
        &&& self.root(r, size)
        &&& self.unit(r)
        &&& forall|h: int, t: int|
            0 <= h < heads.n_heads && 0 <= t < len ==> self.eq(
                #[trigger] s(h, t) * r,
                self.inner(q, h * size, k, t * width + self.shared_head(heads, h), size),
            )
        &&& forall|h: int, i: int|
            #![trigger out[h * size + i]]
            0 <= h < heads.n_heads && 0 <= i < size && self.unit(self.mass(s, h, len)) ==> self.eq(
                self.val(out[h * size + i]) * self.mass(s, h, len),
                sum_of(
                    |t: int|
                        self.exp(s(h, t)) * self.val(v[t * width + self.shared_head(heads, h) + i]),
                    len,
                ),
            )
    }

    /// Whether `out` is what queries gather, if there is a root of the size of a head
    /// that can be divided by.
    pub open spec fn attends(
        self,
        q: Seq<u32>,
        k: Seq<u32>,
        v: Seq<u32>,
        len: int,
        heads: Heads,
        out: Seq<u32>,
    ) -> bool {
        &&& out.len() == heads.n_heads * heads.head_dim
        &&& (exists|r: int| #[trigger] self.root(r, heads.head_dim as int) && self.unit(r))
            ==> exists|r: int, s: spec_fn(int, int) -> int| #[trigger]
            self.attends_by(q, k, v, len, heads, out, r, s)
    }
}

/// Without rounding, the heads are normalized each on its own.
pub proof fn law_normalizes_heads<A: Arith>(ring: Ring, x: Seq<u32>, gain: Seq<u32>, eps: u32)
    requires
        ring.of::<A>(),
        0 < gain.len() <= usize::MAX,
    ensures
        ring.normalizes_heads(
            x,
            gain,
            eps,
            attention::per_head_norm_of::<A>(x, gain, eps, gain.len() as int),
        ),
{
    let size = gain.len() as int;
    let y = attention::per_head_norm_of::<A>(x, gain, eps, size);
    assert forall|n: int|
        #![trigger y.subrange(n * size, n * size + size)]
        0 <= n && n * size + size <= x.len() implies ring.normalizes(
        x.subrange(n * size, n * size + size),
        gain,
        eps,
        y.subrange(n * size, n * size + size),
    ) by {
        let head = x.subrange(n * size, n * size + size);
        assert(0 <= n * size) by (nonlinear_arith)
            requires
                n >= 0,
                size > 0,
        ;
        law_rmsnorm::<A>(ring, head, gain, eps);
        let normed = tensor::rmsnorm_of::<A>(head, gain, eps);
        assert forall|i: int| 0 <= i < size implies y.subrange(n * size, n * size + size)[i]
            == normed[i] by {
            attention::lemma_head_index(n, i, size);
        }
        assert(y.subrange(n * size, n * size + size) =~= normed);
    }
}

/// The weighted sum of values without rounding.
proof fn lemma_mix<A: Arith>(
    ring: Ring,
    weights: Seq<u32>,
    v: Seq<u32>,
    width: int,
    at: int,
    f: spec_fn(int) -> int,
    t: int,
)
    requires
        ring.of::<A>(),
        forall|i: int| 0 <= i < t ==> #[trigger] f(i) == ring.val(weights[i]) * ring.val(v[i * width + at]),
    ensures
        ring.eq(ring.val(attention::mix_upto::<A>(weights, v, width, at, t)), sum_of(f, t)),
    decreases t,
{
    if t > 0 {
        lemma_mix::<A>(ring, weights, v, width, at, f, t - 1);
        let w = weights[t - 1];
        let x = v[(t - 1) * width + at];
        ring.refl(ring.val(w));
        ring.refl(ring.val(x));
        ring.ops::<A>(w, ring.val(w), x, ring.val(x));
        assert(f(t - 1) == ring.val(w) * ring.val(x));
        ring.ops::<A>(
            attention::mix_upto::<A>(weights, v, width, at, t - 1),
            sum_of(f, t - 1),
            arith::mul_of::<A>(w, x),
            f(t - 1),
        );
    }
}

/// The scores of query head `h`.
spec fn head_scores<A: Arith>(q: Seq<u32>, k: Seq<u32>, len: int, heads: Heads, h: int) -> Seq<u32> {
    let hd = heads.head_dim as int;
    attention::scores_of::<A>(
        q.subrange(h * hd, h * hd + hd),
        k,
        heads.kv_dim(),
        h / heads.group() * hd,
        len,
        attention::scale_of::<A>(heads.head_dim),
    )
}

/// A score times the root of the size of a head is the inner product.
proof fn lemma_score<A: Arith>(
    ring: Ring,
    q: Seq<u32>,
    k: Seq<u32>,
    len: int,
    heads: Heads,
    r: int,
    h: int,
    t: int,
)
    requires
        ring.of::<A>(),
        heads.fit(),
        q.len() == heads.q_dim(),
        len * heads.kv_dim() <= k.len(),
        0 <= h < heads.n_heads,
        0 <= t < len,
        ring.eq(ring.val(attention::scale_of::<A>(heads.head_dim)) * r, 1),
    ensures
        ring.eq(
            ring.val(head_scores::<A>(q, k, len, heads, h)[t]) * r,
            ring.inner(
                q,
                h * heads.head_dim,
                k,
                t * (heads.n_kv_heads * heads.head_dim) + ring.shared_head(heads, h),
                heads.head_dim as int,
            ),
        ),
{
    let hd = heads.head_dim as int;
    let width = heads.kv_dim();
    let off = h / heads.group() * hd;
    let query = q.subrange(h * hd, h * hd + hd);
    attention::lemma_kv_head(heads, h);
    attention::lemma_head_within(h, heads.n_heads as int, hd);
    attention::lemma_head_within(t, len, width);
    let at = t * width + off;
    let key = k.subrange(at, at + hd);
    let scale = attention::scale_of::<A>(heads.head_dim);
    let c = ring.val(scale);
    law_dot::<A>(ring, query, key);
    let d = ring.inner(query, 0, key, 0, hd);
    let f = |j: int| ring.val(query[0 + j]) * ring.val(key[0 + j]);
    let g = |j: int| ring.val(q[h * hd + j]) * ring.val(k[at + j]);
    lemma_sum_equal(f, g, hd);
    assert(d == ring.inner(q, h * hd, k, at, hd));
    let dot = tensor::dot_of::<A>(query, key);
    ring.refl(c);
    ring.ops::<A>(dot, d, scale, c);
    let s = ring.val(head_scores::<A>(q, k, len, heads, h)[t]);
    ring.times(s, d * c, r);
    assert((d * c) * r == d * (c * r)) by (nonlinear_arith);
    ring.times(c * r, 1, d);
    assert(d * 1 == d);
    ring.trans(s * r, d * (c * r), d);
}

/// Without rounding, attention weighs values by the exponentials of the scores, and a
/// score times the root of the size of a head is the inner product of query and key.
pub proof fn law_attends<A: Arith>(
    ring: Ring,
    q: Seq<u32>,
    k: Seq<u32>,
    v: Seq<u32>,
    len: int,
    heads: Heads,
)
    requires
        ring.of::<A>(),
        heads.fit(),
        q.len() == heads.q_dim(),
        0 < len,
        len * heads.kv_dim() <= k.len(),
        len * heads.kv_dim() <= v.len(),
    ensures
        ring.attends(q, k, v, len, heads, attention::attend_of::<A>(q, k, v, len, heads)),
{
    let hd = heads.head_dim as int;
    let width = heads.kv_dim();
    let out = attention::attend_of::<A>(q, k, v, len, heads);
    if exists|r: int| #[trigger] ring.root(r, hd) && ring.unit(r) {
        let r0 = choose|r: int| #[trigger] ring.root(r, hd) && ring.unit(r);
        let count = arith::count_of::<A>(heads.head_dim);
        let root = arith::sqrt_of::<A>(count);
        let r = ring.val(root);
        // The root that is computed.
        assert(ring.eq(ring.val(count), hd));
        ring.sym(ring.val(count), hd);
        ring.trans(r0 * r0, hd, ring.val(count));
        assert(ring.root(r0, ring.val(count)));
        ring.trans(r * r, ring.val(count), hd);
        let i0 = choose|b: int| #[trigger] ring.inverse(r0, b);
        ring.same(r0 * i0, 1, r0 * i0, 1);
        assert((r0 * i0) * (r0 * i0) == (r0 * r0) * (i0 * i0)) by (nonlinear_arith);
        assert(ring.inverse(r0 * r0, i0 * i0));
        ring.sym(r0 * r0, hd);
        ring.unit_same(hd, r0 * r0);
        ring.factor(r, r, hd);
        ring.refl(r);
        ring.ops::<A>(bits::ONE, 1, root, r);
        let s = |h: int, t: int| ring.val(head_scores::<A>(q, k, len, heads, h)[t]);
        assert forall|h: int, t: int| 0 <= h < heads.n_heads && 0 <= t < len implies ring.eq(
            #[trigger] s(h, t) * r,
            ring.inner(q, h * hd, k, t * width + ring.shared_head(heads, h), hd),
        ) by {
            lemma_score::<A>(ring, q, k, len, heads, r, h, t);
        }
        assert forall|h: int, i: int|
            #![trigger out[h * hd + i]]
            0 <= h < heads.n_heads && 0 <= i < hd && ring.unit(ring.mass(s, h, len)) implies ring.eq(
            ring.val(out[h * hd + i]) * ring.mass(s, h, len),
            sum_of(
                |t: int| ring.exp(s(h, t)) * ring.val(v[t * width + ring.shared_head(heads, h) + i]),
                len,
            ),
        ) by {
            lemma_attended::<A>(ring, q, k, v, len, heads, s, h, i);
            attention::lemma_head_within(h, heads.n_heads as int, hd);
            attention::lemma_head_index(h, i, hd);
        }
        assert(ring.attends_by(q, k, v, len, heads, out, r, s));
    }
}

proof fn lemma_attended<A: Arith>(
    ring: Ring,
    q: Seq<u32>,
    k: Seq<u32>,
    v: Seq<u32>,
    len: int,
    heads: Heads,
    s: spec_fn(int, int) -> int,
    h: int,
    i: int,
)
    requires
        ring.of::<A>(),
        0 < len,
        0 <= h,
        forall|t: int|
            0 <= t < len ==> #[trigger] s(h, t) == ring.val(head_scores::<A>(q, k, len, heads, h)[t]),
        ring.unit(ring.mass(s, h, len)),
    ensures
        ring.eq(
            ring.val(attention::attended::<A>(q, k, v, len, heads, h, i)) * ring.mass(s, h, len),
            sum_of(
                |t: int|
                    ring.exp(s(h, t)) * ring.val(
                        v[t * (heads.n_kv_heads * heads.head_dim) + ring.shared_head(heads, h) + i],
                    ),
                len,
            ),
        ),
{
    let width = heads.kv_dim();
    let at = ring.shared_head(heads, h) + i;
    let scores = head_scores::<A>(q, k, len, heads, h);
    let weights = attention::weights_of::<A>(q, k, len, heads, h);
    let mass = ring.mass(s, h, len);
    law_softmax::<A>(ring, scores);
    assert(weights == tensor::softmax_of::<A>(scores));
    let p = |j: int| ring.exp(ring.val(scores[j]));
    let e = |t: int| ring.exp(s(h, t));
    assert forall|t: int| 0 <= t < len implies #[trigger] p(t) == e(t) by {
        assert(s(h, t) == ring.val(scores[t]));
    }
    lemma_sum_equal(p, e, len);
    assert(sum_of(|j: int| ring.exp(ring.val(scores[j])), len) == mass);
    let f = |t: int| ring.val(weights[t]) * ring.val(v[t * width + at]);
    lemma_mix::<A>(ring, weights, v, width, at, f, len);
    let fm = |t: int| f(t) * mass;
    let g = |t: int| ring.exp(s(h, t)) * ring.val(v[t * width + ring.shared_head(heads, h) + i]);
    assert forall|t: int| 0 <= t < len implies ring.eq(#[trigger] fm(t), g(t)) by {
        let w = ring.val(weights[t]);
        let x = ring.val(v[t * width + at]);
        assert(ring.eq(w * mass, ring.exp(ring.val(scores[t]))));
        assert(s(h, t) == ring.val(scores[t]));
        ring.times(w * mass, ring.exp(s(h, t)), x);
        assert((w * x) * mass == (w * mass) * x) by (nonlinear_arith);
        assert(t * width + at == t * width + ring.shared_head(heads, h) + i);
    }
    ring.sums(fm, g, len);
    lemma_sum_times(f, fm, mass, len);
    let out = ring.val(attention::attended::<A>(q, k, v, len, heads, h, i));
    ring.times(out, sum_of(f, len), mass);
    ring.trans(out * mass, sum_of(fm, len), sum_of(g, len));
}

/// Without rounding, the angle of pair `i` at a position, times the base to the power
/// of `2 * i` over the size of a head, is the position.
pub proof fn law_angle<A: Arith>(ring: Ring, pos: usize, i: usize, head_dim: usize, theta: u32)
    requires
        ring.of::<A>(),
        ring.unit(head_dim as int),
        forall|e: u32| ring.unit(ring.val(#[trigger] arith::pow_of::<A>(theta, e))),
    ensures
        exists|e: u32|
            {
                &&& ring.eq(ring.val(e) * head_dim, 2 * i)
                &&& ring.eq(
                    ring.val(rope::angle_of::<A>(pos as int, i as int, head_dim, theta)) * ring.val(
                        #[trigger] arith::pow_of::<A>(theta, e),
                    ),
                    pos as int,
                )
            },
{
    let ci = arith::count_of::<A>(i);
    let cd = arith::count_of::<A>(head_dim);
    let cp = arith::count_of::<A>(pos);
    let twice = arith::mul_of::<A>(bits::TWO, ci);
    let e = arith::div_of::<A>(twice, cd);
    let power = arith::pow_of::<A>(theta, e);
    let freq = arith::div_of::<A>(bits::ONE, power);
    ring.ops::<A>(bits::TWO, 2, ci, i as int);
    ring.ops::<A>(twice, 2 * i, cd, head_dim as int);
    let p = ring.val(power);
    let f = ring.val(freq);
    ring.refl(p);
    ring.refl(f);
    ring.ops::<A>(bits::ONE, 1, power, p);
    ring.ops::<A>(cp, pos as int, freq, f);
    let angle = ring.val(rope::angle_of::<A>(pos as int, i as int, head_dim, theta));
    ring.times(angle, pos * f, p);
    assert((pos * f) * p == pos * (f * p)) by (nonlinear_arith);
    ring.times(f * p, 1, pos as int);
    assert(pos * 1 == pos);
    ring.trans(angle * p, pos * (f * p), pos as int);
}

/// Without rounding, rotary embedding turns pair `i` of each head, `head_dim / 2`
/// elements apart, by an angle that, times the base to the power of `2 * i` over the
/// size of a head, is the position.
pub proof fn law_rope<A: Arith>(
    ring: Ring,
    x: Seq<u32>,
    pos: usize,
    head_dim: usize,
    theta: u32,
    n: int,
    i: usize,
)
    requires
        ring.of::<A>(),
        ring.unit(head_dim as int),
        forall|e: u32| ring.unit(ring.val(#[trigger] arith::pow_of::<A>(theta, e))),
        head_dim > 0,
        head_dim % 2 == 0,
        0 <= n,
        i < head_dim / 2,
        n * head_dim + head_dim <= x.len(),
    ensures
        ({
            let y = rope::rope_of::<A>(x, pos as int, head_dim, theta);
            let a = n * head_dim + i;
            let b = a + head_dim / 2;
            exists|angle: u32, e: u32|
                {
                    &&& ring.eq(ring.val(e) * head_dim, 2 * i)
                    &&& ring.eq(
                        ring.val(angle) * ring.val(#[trigger] arith::pow_of::<A>(theta, e)),
                        pos as int,
                    )
                    &&& ring.eq(
                        ring.val(y[a]),
                        ring.val(x[a]) * ring.val(#[trigger] arith::cos_of::<A>(angle)) - ring.val(
                            x[b],
                        ) * ring.val(arith::sin_of::<A>(angle)),
                    )
                    &&& ring.eq(
                        ring.val(y[b]),
                        ring.val(x[b]) * ring.val(arith::cos_of::<A>(angle)) + ring.val(x[a])
                            * ring.val(arith::sin_of::<A>(angle)),
                    )
                }
        }),
{
    let cos = rope::cos_row::<A>(pos as int, head_dim, theta);
    let sin = rope::sin_row::<A>(pos as int, head_dim, theta);
    let y = rope::rope_of::<A>(x, pos as int, head_dim, theta);
    law_angle::<A>(ring, pos, i, head_dim, theta);
    law_turns::<A>(ring, x, cos, sin);
    let half = cos.len() as int;
    assert(2 * half == head_dim);
    let angle = rope::angle_of::<A>(pos as int, i as int, head_dim, theta);
    assert(cos[i as int] == arith::cos_of::<A>(angle));
    assert(sin[i as int] == arith::sin_of::<A>(angle));
    let e = choose|e: u32|
        {
            &&& ring.eq(ring.val(e) * head_dim, 2 * i)
            &&& ring.eq(
                ring.val(angle) * ring.val(#[trigger] arith::pow_of::<A>(theta, e)),
                pos as int,
            )
        };
    assert(n * (2 * half) + i == n * head_dim + i);
    assert(y[n * (2 * half) + i] == y[n * head_dim + i]);
    let power = arith::pow_of::<A>(theta, e);
}

} // verus!
