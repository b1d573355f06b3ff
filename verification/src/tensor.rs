//! Minimal dense tensor plus the kernels used by the forward pass.
//!
//! The tensor type is deliberately small: a contiguous row-major buffer of
//! binary32 bit patterns with shape and strides. The row-parallel matrix
//! kernels run on the `rayon` thread pool.

use vstd::prelude::*;

use crate::arith;
use crate::arith::Arith;
use crate::bits;
use crate::error::{MinqError, ShapeErrorOf};
use crate::parallel;

verus! {

/// Contiguous row-major dense tensor.
#[derive(Debug, PartialEq)]
pub struct Tensor {
    pub data: Vec<u32>,
    pub shape: Vec<usize>,
    pub strides: Vec<usize>,
}

/// The contents of a [`Tensor`].
pub struct TensorView {
    pub data: Seq<u32>,
    pub shape: Seq<usize>,
    pub strides: Seq<usize>,
}

impl View for Tensor {
    type V = TensorView;

    open spec fn view(&self) -> TensorView {
        TensorView { data: self.data@, shape: self.shape@, strides: self.strides@ }
    }
}

/// The product of the first `n` dimensions.
pub open spec fn product_upto(shape: Seq<usize>, n: int) -> int
    decreases n,
{
    if n <= 0 {
        1
    } else {
        product_upto(shape, n - 1) * shape[n - 1]
    }
}

/// The number of elements of a shape.
pub open spec fn numel_of(shape: Seq<usize>) -> int {
    product_upto(shape, shape.len() as int)
}

/// Whether the element count can be multiplied up, dimension by dimension,
/// without leaving the machine word.
pub open spec fn countable(shape: Seq<usize>) -> bool {
    forall|n: int| 0 <= n <= shape.len() ==> #[trigger] product_upto(shape, n) <= usize::MAX
}

/// The stride of dimension `i`: the product of the dimensions after it, in
/// machine arithmetic.
pub open spec fn stride_of(shape: Seq<usize>, i: int) -> usize
    decreases shape.len() - i,
{
    if i + 1 >= shape.len() {
        1
    } else {
        stride_of(shape, i + 1).wrapping_mul(shape[i + 1])
    }
}

/// Row-major strides for a shape.
pub open spec fn strides_of(shape: Seq<usize>) -> Seq<usize> {
    Seq::new(shape.len(), |i: int| stride_of(shape, i))
}

/// The tensor that holds `data` in the given shape.
pub open spec fn tensor_of(data: Seq<u32>, shape: Seq<usize>) -> TensorView {
    TensorView { data, shape, strides: strides_of(shape) }
}

impl TensorView {
    /// Whether the data and the strides are those of the shape.
    pub open spec fn wf(self) -> bool {
        &&& countable(self.shape)
        &&& self.data.len() == numel_of(self.shape)
        &&& self.strides == strides_of(self.shape)
    }
}

/// The product of the dimensions from `i` on.
pub open spec fn product_from(shape: Seq<usize>, i: int) -> int
    decreases shape.len() - i,
{
    if i >= shape.len() {
        1
    } else {
        shape[i] * product_from(shape, i + 1)
    }
}

/// A stride is the product of the dimensions after it, wherever these
/// products fit the machine word.
pub proof fn law_strides(shape: Seq<usize>, i: int)
    requires
        0 <= i < shape.len(),
        forall|j: int| i < j <= shape.len() ==> #[trigger] product_from(shape, j) <= usize::MAX,
    ensures
        strides_of(shape)[i] == product_from(shape, i + 1),
    decreases shape.len() - i,
{
    if i + 1 < shape.len() {
        law_strides(shape, i + 1);
        let s = stride_of(shape, i + 1);
        let d = shape[i + 1];
        assert(product_from(shape, i + 1) == d * product_from(shape, i + 2));
        assert(s * d == d * s) by (nonlinear_arith);
        assert(0 <= s * d) by (nonlinear_arith)
            requires
                s >= 0,
                d >= 0,
        ;
        vstd::arithmetic::div_mod::lemma_small_mod((s * d) as nat, (usize::MAX + 1) as nat);
    } else {
        assert(product_from(shape, i + 1) == 1);
    }
}

proof fn lemma_product_nonneg(shape: Seq<usize>, n: int)
    ensures
        product_upto(shape, n) >= 0,
    decreases n,
{
    if n > 0 {
        lemma_product_nonneg(shape, n - 1);
        let p = product_upto(shape, n - 1);
        let d = shape[n - 1];
        assert(p * d >= 0) by (nonlinear_arith)
            requires
                p >= 0,
                d >= 0,
        ;
    }
}

/// The element count of a matrix.
pub proof fn lemma_numel_2(shape: Seq<usize>)
    requires
        shape.len() == 2,
    ensures
        numel_of(shape) == shape[0] * shape[1],
        countable(shape) <==> shape[0] * shape[1] <= usize::MAX,
{
    reveal_with_fuel(product_upto, 3);
    assert(product_upto(shape, 0) == 1);
    assert(product_upto(shape, 1) == 1 * shape[0]);
    assert(product_upto(shape, 2) == product_upto(shape, 1) * shape[1]);
    assert forall|n: int|
        0 <= n <= 2 && shape[0] * shape[1] <= usize::MAX implies #[trigger] product_upto(shape, n)
        <= usize::MAX by {
        if n == 0 {
        } else if n == 1 {
        } else {
        }
    }
    if countable(shape) {
        assert(product_upto(shape, 2) <= usize::MAX);
    }
}

/// Row-major strides for a shape.
pub fn compute_strides(shape: &[usize]) -> (strides: Vec<usize>)
    ensures
        strides@ == strides_of(shape@),
{
    let mut strides: Vec<usize> = vec![1; shape.len()];
    let mut i: usize = shape.len();
    while i > 1
        invariant
            i <= shape@.len(),
            strides@.len() == shape@.len(),
            shape@.len() > 0 ==> i >= 1,
            forall|j: int| 0 <= j && i - 1 <= j < shape@.len() ==> strides@[j] == stride_of(shape@, j),
        decreases i,
    {
        i -= 1;
        let next: usize = strides[i].wrapping_mul(shape[i]);
        strides[i - 1] = next;
    }
    assert(strides@ =~= strides_of(shape@));
    strides
}

/// The number of elements of a shape.
pub fn numel_checked(shape: &[usize]) -> (r: Option<usize>)
    ensures
        match r {
            Some(n) => countable(shape@) && n == numel_of(shape@),
            None => !countable(shape@),
        },
{
    let mut n: usize = 1;
    let mut i: usize = 0;
    while i < shape.len()
        invariant
            i <= shape@.len(),
            n == product_upto(shape@, i as int),
            forall|k: int| 0 <= k <= i ==> #[trigger] product_upto(shape@, k) <= usize::MAX,
        decreases shape@.len() - i,
    {
        proof {
            assert(product_upto(shape@, i + 1) == n * shape@[i as int]);
        }
        match n.checked_mul(shape[i]) {
            Some(next) => {
                n = next;
            },
            None => {
                return None;
            },
        }
        i += 1;
    }
    Some(n)
}

impl Tensor {
    /// Builds a tensor, checking that the shape matches the data length.
    pub fn new(data: Vec<u32>, shape: Vec<usize>) -> (r: Result<Tensor, MinqError>)
        requires
            countable(shape@),
        ensures
            match r {
                Ok(t) => data@.len() == numel_of(shape@) && t@ == tensor_of(data@, shape@),
                Err(e) => data@.len() != numel_of(shape@) && e.is_shape(
                    ShapeErrorOf::Elements {
                        shape: shape@,
                        numel: numel_of(shape@) as usize,
                        len: data@.len() as usize,
                    },
                ),
            },
    {
        let mut numel: usize = 1;
        if let Some(n) = numel_checked(&shape) {
            numel = n;
        }
        if numel != data.len() {
            let len: usize = data.len();
            return Err(MinqError::Shape(ShapeErrorOf::Elements { shape, numel, len }));
        }
        let strides = compute_strides(&shape);
        Ok(Tensor { data, shape, strides })
    }

    /// Zero-filled tensor.
    pub fn zeros(shape: &[usize]) -> (t: Tensor)
        requires
            countable(shape@),
        ensures
            t@ == tensor_of(Seq::new(numel_of(shape@) as nat, |i: int| bits::ZERO), shape@),
            t@.wf(),
    {
        let mut numel: usize = 1;
        if let Some(n) = numel_checked(shape) {
            numel = n;
        }
        proof {
            lemma_product_nonneg(shape@, shape@.len() as int);
        }
        let data: Vec<u32> = vec![bits::ZERO; numel];
        let strides = compute_strides(shape);
        let t = Tensor { data, shape: vstd::slice::slice_to_vec(shape), strides };
        assert(t@.data =~= Seq::new(numel_of(shape@) as nat, |i: int| bits::ZERO));
        t
    }

    /// The number of dimensions.
    pub fn ndim(&self) -> (r: usize)
        ensures
            r == self.shape@.len(),
    {
        self.shape.len()
    }

    /// The number of elements.
    pub fn numel(&self) -> (r: usize)
        ensures
            r == self.data@.len(),
    {
        self.data.len()
    }

    /// Row `i` of a 2-D matrix as a slice.
    pub fn row(&self, i: usize) -> (r: Result<&[u32], MinqError>)
        requires
            self.shape@.len() == 2 && i < self.shape@[0] ==> (i + 1) * self.shape@[1]
                <= self.data@.len(),
        ensures
            match r {
                Ok(row) => self.shape@.len() == 2 && i < self.shape@[0] && row@
                    == self.data@.subrange(i * self.shape@[1], (i + 1) * self.shape@[1]),
                Err(e) => if self.shape@.len() != 2 {
                    e.is_shape(ShapeErrorOf::RowOfNonMatrix { shape: self.shape@ })
                } else {
                    i >= self.shape@[0] && e.is_shape(
                        ShapeErrorOf::RowOutOfBounds { row: i, rows: self.shape@[0] },
                    )
                },
            },
    {
        if self.shape.len() != 2 {
            return Err(MinqError::Shape(ShapeErrorOf::RowOfNonMatrix { shape: self.shape.clone() }));
        }
        let cols: usize = self.shape[1];
        let total: usize = self.data.len();
        if i >= self.shape[0] {
            return Err(
                MinqError::Shape(ShapeErrorOf::RowOutOfBounds { row: i, rows: self.shape[0] }),
            );
        }
        proof {
            assert((i + 1) * cols == i * cols + cols <= total) by (nonlinear_arith)
                requires
                    (i + 1) * cols <= total,
            ;
            assert(i * cols >= 0) by (nonlinear_arith)
                requires
                    i >= 0,
                    cols >= 0,
            ;
        }
        Ok(vstd::slice::slice_subrange(&self.data, i * cols, (i + 1) * cols))
    }
}

impl Clone for Tensor {
    fn clone(&self) -> (t: Tensor)
        ensures
            t@ == self@,
    {
        Tensor {
            data: self.data.clone(),
            shape: self.shape.clone(),
            strides: self.strides.clone(),
        }
    }
}

/// The sum of the products of the first `n` pairs, from left to right.
pub open spec fn dot_upto<A: Arith>(a: Seq<u32>, b: Seq<u32>, n: int) -> u32
    decreases n,
{
    if n <= 0 {
        bits::NEG_ZERO
    } else {
        arith::add_of::<A>(dot_upto::<A>(a, b, n - 1), arith::mul_of::<A>(a[n - 1], b[n - 1]))
    }
}

/// The dot product of two sequences, over the length of the shorter one.
pub open spec fn dot_of<A: Arith>(a: Seq<u32>, b: Seq<u32>) -> u32 {
    dot_upto::<A>(
        a,
        b,
        if a.len() <= b.len() {
            a.len() as int
        } else {
            b.len() as int
        },
    )
}

/// Dot product of two equal-length slices.
pub fn dot<A: Arith>(a: &[u32], b: &[u32]) -> (r: u32)
    requires
        a@.len() == b@.len(),
    ensures
        arith::deterministic::<A>() ==> r == dot_of::<A>(a@, b@),
{
    dot_scalar::<A>(a, b)
}

/// Dot product over the length of the shorter slice.
pub fn dot_scalar<A: Arith>(a: &[u32], b: &[u32]) -> (r: u32)
    ensures
        arith::deterministic::<A>() ==> r == dot_of::<A>(a@, b@),
{
    let n: usize = if a.len() <= b.len() {
        a.len()
    } else {
        b.len()
    };
    let mut sum: u32 = bits::NEG_ZERO;
    let mut i: usize = 0;
    while i < n
        invariant
            i <= n <= a@.len(),
            n <= b@.len(),
            arith::deterministic::<A>() ==> sum == dot_upto::<A>(a@, b@, i as int),
        decreases n - i,
    {
        sum = A::add32(sum, A::mul32(a[i], b[i]));
        i += 1;
    }
    sum
}

/// The first `p` terms of cell `j` of row `i` of a matrix product.
pub open spec fn cell_upto<A: Arith>(
    a: Seq<u32>,
    b: Seq<u32>,
    k: int,
    n: int,
    i: int,
    j: int,
    p: int,
) -> u32
    decreases p,
{
    if p <= 0 {
        bits::ZERO
    } else {
        arith::add_of::<A>(
            cell_upto::<A>(a, b, k, n, i, j, p - 1),
            arith::mul_of::<A>(a[i * k + (p - 1)], b[(p - 1) * n + j]),
        )
    }
}

/// Row `i` of the product of a `[m, k]` and a `[k, n]` matrix.
pub open spec fn product_row<A: Arith>(a: Seq<u32>, b: Seq<u32>, k: int, n: int, i: int) -> Seq<
    u32,
> {
    Seq::new(n as nat, |j: int| cell_upto::<A>(a, b, k, n, i, j, k))
}

/// Computes row `i` of a matrix product.
pub fn fill_row<A: Arith>(i: usize, row: &mut [u32], a: &[u32], b: &[u32], k: usize, n: usize)
    requires
        old(row)@.len() == n,
        (i + 1) * k <= a@.len(),
        k * n <= b@.len(),
    ensures
        final(row)@.len() == n,
        arith::deterministic::<A>() ==> final(row)@ == product_row::<A>(a@, b@, k as int, n as int, i as int),
{
    proof {
        assert((i + 1) * k == i * k + k) by (nonlinear_arith);
        assert(i * k >= 0) by (nonlinear_arith)
            requires
                i >= 0,
                k >= 0,
        ;
    }
    let total: usize = a.len();
    let cells: usize = b.len();
    let mut j: usize = 0;
    while j < n
        invariant
            j <= n,
            row@.len() == n,
            total == a@.len(),
            cells == b@.len(),
            (i + 1) * k <= a@.len(),
            (i + 1) * k == i * k + k,
            0 <= i * k,
            k * n <= b@.len(),
            arith::deterministic::<A>() ==> forall|c: int|
                0 <= c < j ==> row@[c] == cell_upto::<A>(
                    a@,
                    b@,
                    k as int,
                    n as int,
                    i as int,
                    c,
                    k as int,
                ),
        decreases n - j,
    {
        let mut sum: u32 = bits::ZERO;
        let mut p: usize = 0;
        while p < k
            invariant
                p <= k,
                j < n,
                total == a@.len(),
                cells == b@.len(),
                (i + 1) * k <= a@.len(),
                (i + 1) * k == i * k + k,
                0 <= i * k,
                k * n <= b@.len(),
                arith::deterministic::<A>() ==> sum == cell_upto::<A>(
                    a@,
                    b@,
                    k as int,
                    n as int,
                    i as int,
                    j as int,
                    p as int,
                ),
            decreases k - p,
        {
            proof {
                assert(p * n + n <= k * n) by (nonlinear_arith)
                    requires
                        p + 1 <= k,
                        n >= 0,
                ;
                assert(p * n >= 0) by (nonlinear_arith)
                    requires
                        p >= 0,
                        n >= 0,
                ;
            }
            sum = A::add32(sum, A::mul32(a[i * k + p], b[p * n + j]));
            p += 1;
        }
        row[j] = sum;
        j += 1;
    }
    proof {
        if arith::deterministic::<A>() {
            assert(row@ =~= product_row::<A>(a@, b@, k as int, n as int, i as int));
        }
    }
}

/// Whether two tensors can be multiplied as matrices.
pub open spec fn multipliable(a: TensorView, b: TensorView) -> bool {
    a.shape.len() == 2 && b.shape.len() == 2 && a.shape[1] == b.shape[0]
}

/// 2-D matrix multiplication: `[m, k] x [k, n] -> [m, n]`, parallel over rows.
pub fn matmul<A: Arith>(a: &Tensor, b: &Tensor) -> (r: Result<Tensor, MinqError>)
    requires
        multipliable(a@, b@) ==> {
            &&& b.shape@[1] > 0
            &&& a.shape@[0] * b.shape@[1] <= usize::MAX
            &&& a.shape@[0] * a.shape@[1] <= a.data@.len()
            &&& b.shape@[0] * b.shape@[1] <= b.data@.len()
        },
    ensures
        match r {
            Ok(c) => {
                &&& multipliable(a@, b@)
                &&& c@.wf()
                &&& c.shape@ == seq![a.shape@[0], b.shape@[1]]
                &&& arith::deterministic::<A>() ==> forall|i: int|
                    0 <= i < a.shape@[0] ==> #[trigger] c.data@.subrange(
                        i * b.shape@[1],
                        i * b.shape@[1] + b.shape@[1],
                    ) == product_row::<A>(
                        a.data@,
                        b.data@,
                        a.shape@[1] as int,
                        b.shape@[1] as int,
                        i,
                    )
            },
            Err(e) => !multipliable(a@, b@) && e.is_shape(
                ShapeErrorOf::Matmul { left: a.shape@, right: b.shape@ },
            ),
        },
{
    if a.ndim() != 2 || b.ndim() != 2 || a.shape[1] != b.shape[0] {
        return Err(
            MinqError::Shape(
                ShapeErrorOf::Matmul { left: a.shape.clone(), right: b.shape.clone() },
            ),
        );
    }
    let m: usize = a.shape[0];
    let k: usize = a.shape[1];
    let n: usize = b.shape[1];
    let mut out: Vec<u32> = vec![bits::ZERO; m * n];
    proof {
        vstd::arithmetic::div_mod::lemma_mod_multiples_basic(m as int, n as int);
        vstd::arithmetic::div_mod::lemma_div_multiples_vanish(m as int, n as int);
        vstd::arithmetic::mul::lemma_mul_is_commutative(m as int, n as int);
    }
    parallel::fill_rows::<A>(out.as_mut_slice(), &a.data, &b.data, k, n);
    let mut shape: Vec<usize> = Vec::new();
    shape.push(m);
    shape.push(n);
    proof {
        lemma_numel_2(shape@);
        assert(shape@ =~= seq![m, n]);
    }
    Tensor::new(out, shape)
}

/// The products of the whole rows of a matrix with a vector.
pub open spec fn matvec_of<A: Arith>(data: Seq<u32>, x: Seq<u32>) -> Seq<u32> {
    Seq::new(
        data.len() / x.len(),
        |i: int| dot_of::<A>(data.subrange(i * x.len(), i * x.len() + x.len()), x),
    )
}

/// Matrix-vector product: `w` is `[out_features, in_features]`, result is
/// `w @ x`. This is the decode-time hot path for dense weights.
pub fn matvec<A: Arith>(w: &Tensor, x: &[u32]) -> (r: Result<Vec<u32>, MinqError>)
    requires
        w.shape@.len() == 2 && w.shape@[1] == x@.len() ==> x@.len() > 0,
    ensures
        match r {
            Ok(y) => {
                &&& w.shape@.len() == 2 && w.shape@[1] == x@.len()
                &&& y@.len() == w.data@.len() / x@.len()
                &&& arith::deterministic::<A>() ==> y@ == matvec_of::<A>(w.data@, x@)
            },
            Err(e) => !(w.shape@.len() == 2 && w.shape@[1] == x@.len()) && e.is_shape(
                ShapeErrorOf::Matvec { shape: w.shape@, len: x@.len() as usize },
            ),
        },
{
    if w.ndim() != 2 || w.shape[1] != x.len() {
        return Err(
            MinqError::Shape(ShapeErrorOf::Matvec { shape: w.shape.clone(), len: x.len() }),
        );
    }
    let cols: usize = w.shape[1];
    let row_dot = |row: &[u32]| -> (y: u32)
        requires
            row@.len() == x@.len(),
        ensures
            arith::deterministic::<A>() ==> y == dot_of::<A>(row@, x@),
    {
        dot::<A>(row, x)
    };
    let out = parallel::map_chunks(w.data.as_slice(), cols, row_dot);
    proof {
        if arith::deterministic::<A>() {
            assert(out@ =~= matvec_of::<A>(w.data@, x@));
        }
    }
    Ok(out)
}

/// The elementwise sum.
pub open spec fn add_seq<A: Arith>(dst: Seq<u32>, src: Seq<u32>) -> Seq<u32> {
    Seq::new(dst.len(), |i: int| arith::add_of::<A>(dst[i], src[i]))
}

/// `dst += src` elementwise.
pub fn add_<A: Arith>(dst: &mut [u32], src: &[u32])
    requires
        old(dst)@.len() == src@.len(),
    ensures
        final(dst)@.len() == old(dst)@.len(),
        arith::deterministic::<A>() ==> final(dst)@ == add_seq::<A>(old(dst)@, src@),
{
    let ghost before = dst@;
    let mut i: usize = 0;
    while i < src.len()
        invariant
            i <= src@.len() == dst@.len() == before.len(),
            forall|j: int| i <= j < before.len() ==> dst@[j] == before[j],
            arith::deterministic::<A>() ==> forall|j: int|
                0 <= j < i ==> dst@[j] == arith::add_of::<A>(before[j], src@[j]),
        decreases src@.len() - i,
    {
        dst[i] = A::add32(dst[i], src[i]);
        i += 1;
    }
    proof {
        if arith::deterministic::<A>() {
            assert(dst@ =~= add_seq::<A>(before, src@));
        }
    }
}

/// The elementwise product.
pub open spec fn mul_seq<A: Arith>(dst: Seq<u32>, src: Seq<u32>) -> Seq<u32> {
    Seq::new(dst.len(), |i: int| arith::mul_of::<A>(dst[i], src[i]))
}

/// `dst *= src` elementwise.
pub fn mul_<A: Arith>(dst: &mut [u32], src: &[u32])
    requires
        old(dst)@.len() == src@.len(),
    ensures
        final(dst)@.len() == old(dst)@.len(),
        arith::deterministic::<A>() ==> final(dst)@ == mul_seq::<A>(old(dst)@, src@),
{
    let ghost before = dst@;
    let mut i: usize = 0;
    while i < src.len()
        invariant
            i <= src@.len() == dst@.len() == before.len(),
            forall|j: int| i <= j < before.len() ==> dst@[j] == before[j],
            arith::deterministic::<A>() ==> forall|j: int|
                0 <= j < i ==> dst@[j] == arith::mul_of::<A>(before[j], src@[j]),
        decreases src@.len() - i,
    {
        dst[i] = A::mul32(dst[i], src[i]);
        i += 1;
    }
    proof {
        if arith::deterministic::<A>() {
            assert(dst@ =~= mul_seq::<A>(before, src@));
        }
    }
}

/// `x * sigmoid(x)`, elementwise.
pub open spec fn silu_of<A: Arith>(x: Seq<u32>) -> Seq<u32> {
    Seq::new(
        x.len(),
        |i: int| arith::div_of::<A>(x[i], arith::add_of::<A>(bits::ONE, arith::exp_of::<A>(bits::neg_of(x[i])))),
    )
}

/// SiLU activation: `x * sigmoid(x)`.
pub fn silu<A: Arith>(x: &[u32]) -> (out: Vec<u32>)
    ensures
        out@.len() == x@.len(),
        arith::deterministic::<A>() ==> out@ == silu_of::<A>(x@),
{
    let mut out: Vec<u32> = Vec::with_capacity(x.len());
    let mut i: usize = 0;
    while i < x.len()
        invariant
            i == out@.len() <= x@.len(),
            arith::deterministic::<A>() ==> forall|j: int| 0 <= j < i ==> out@[j] == silu_of::<A>(x@)[j],
        decreases x@.len() - i,
    {
        let v: u32 = x[i];
        out.push(A::div32(v, A::add32(bits::ONE, A::exp32(bits::neg(v)))));
        i += 1;
    }
    proof {
        if arith::deterministic::<A>() {
            assert(out@ =~= silu_of::<A>(x@));
        }
    }
    out
}

/// The reciprocal of the root mean square of `x`, steadied by `eps`.
pub open spec fn inverse_rms<A: Arith>(x: Seq<u32>, eps: u32) -> u32 {
    arith::div_of::<A>(
        bits::ONE,
        arith::sqrt_of::<A>(
            arith::add_of::<A>(arith::div_of::<A>(dot_of::<A>(x, x), arith::count_of::<A>(x.len() as usize)), eps),
        ),
    )
}

/// `x[i] / sqrt(mean(x^2) + eps) * weight[i]`.
pub open spec fn rmsnorm_of<A: Arith>(x: Seq<u32>, weight: Seq<u32>, eps: u32) -> Seq<u32> {
    Seq::new(
        x.len(),
        |i: int| arith::mul_of::<A>(arith::mul_of::<A>(x[i], inverse_rms::<A>(x, eps)), weight[i]),
    )
}

/// Root-mean-square normalization with a per-channel gain:
/// `out[i] = x[i] / sqrt(mean(x^2) + eps) * weight[i]`.
pub fn rmsnorm<A: Arith>(x: &[u32], weight: &[u32], eps: u32) -> (out: Vec<u32>)
    requires
        x@.len() == weight@.len(),
    ensures
        out@.len() == x@.len(),
        arith::deterministic::<A>() ==> out@ == rmsnorm_of::<A>(x@, weight@, eps),
{
    let ss: u32 = A::div32(dot_scalar::<A>(x, x), A::count32(x.len()));
    let inv: u32 = A::div32(bits::ONE, A::sqrt32(A::add32(ss, eps)));
    let mut out: Vec<u32> = Vec::with_capacity(x.len());
    let mut i: usize = 0;
    while i < x.len()
        invariant
            i == out@.len() <= x@.len() == weight@.len(),
            arith::deterministic::<A>() ==> inv == inverse_rms::<A>(x@, eps),
            arith::deterministic::<A>() ==> forall|j: int|
                0 <= j < i ==> out@[j] == rmsnorm_of::<A>(x@, weight@, eps)[j],
        decreases x@.len() - i,
    {
        out.push(A::mul32(A::mul32(x[i], inv), weight[i]));
        i += 1;
    }
    proof {
        if arith::deterministic::<A>() {
            assert(out@ =~= rmsnorm_of::<A>(x@, weight@, eps));
        }
    }
    out
}

/// The sum of the first `n` elements, from left to right.
pub open spec fn sum_upto<A: Arith>(s: Seq<u32>, n: int) -> u32
    decreases n,
{
    if n <= 0 {
        bits::ZERO
    } else {
        arith::add_of::<A>(sum_upto::<A>(s, n - 1), s[n - 1])
    }
}

/// The exponentials of the distances to the largest element.
pub open spec fn shifted_exp<A: Arith>(x: Seq<u32>) -> Seq<u32> {
    Seq::new(
        x.len(),
        |i: int|
            arith::exp_of::<A>(
                arith::sub_of::<A>(x[i], bits::max_upto(bits::NEG_INFINITY, x, x.len() as int)),
            ),
    )
}

/// The softmax of a sequence; exponentials that sum to nothing positive stay
/// unscaled.
pub open spec fn softmax_of<A: Arith>(x: Seq<u32>) -> Seq<u32> {
    let e = shifted_exp::<A>(x);
    let total = sum_upto::<A>(e, e.len() as int);
    if bits::lt_of(bits::ZERO, total) {
        Seq::new(x.len(), |i: int| arith::div_of::<A>(e[i], total))
    } else {
        e
    }
}

/// Whether rounding keeps the order of differences of finite numbers, of
/// exponentials, and of quotients by a positive number, where these are numbers.
pub open spec fn keeps_order<A: Arith>() -> bool {
    &&& forall|a: u32, b: u32, m: u32|
        bits::magnitude(a) < bits::INFINITY && bits::magnitude(b) < bits::INFINITY
            && bits::magnitude(m) < bits::INFINITY && bits::le_of(a, b) ==> bits::le_of(
            #[trigger] arith::sub_of::<A>(a, m),
            #[trigger] arith::sub_of::<A>(b, m),
        )
    &&& forall|a: u32, b: u32|
        bits::le_of(a, b) ==> bits::le_of(
            #[trigger] arith::exp_of::<A>(a),
            #[trigger] arith::exp_of::<A>(b),
        )
    &&& forall|a: u32, b: u32, t: u32|
        bits::le_of(a, b) && bits::lt_of(bits::ZERO, t) && !bits::nan(arith::div_of::<A>(a, t))
            && !bits::nan(arith::div_of::<A>(b, t)) ==> bits::le_of(
            #[trigger] arith::div_of::<A>(a, t),
            #[trigger] arith::div_of::<A>(b, t),
        )
}

/// Softmax keeps the order of finite numbers, where rounding does and what comes
/// out are numbers.
pub proof fn law_softmax_keeps_order<A: Arith>(x: Seq<u32>, i: int, j: int)
    requires
        keeps_order::<A>(),
        0 <= i < x.len(),
        0 <= j < x.len(),
        forall|k: int| 0 <= k < x.len() ==> bits::magnitude(#[trigger] x[k]) < bits::INFINITY,
        bits::le_of(x[i], x[j]),
        !bits::nan(softmax_of::<A>(x)[i]),
        !bits::nan(softmax_of::<A>(x)[j]),
    ensures
        bits::le_of(softmax_of::<A>(x)[i], softmax_of::<A>(x)[j]),
{
    let max = bits::max_upto(bits::NEG_INFINITY, x, x.len() as int);
    bits::law_max_upto(bits::NEG_INFINITY, x, x.len() as int);
    assert(bits::le_of(x[i], max));
    if max != bits::NEG_INFINITY {
        let k = choose|k: int| 0 <= k < x.len() && #[trigger] x[k] == max;
        assert(bits::magnitude(x[k]) < bits::INFINITY);
    }
    let (a, b) = (arith::sub_of::<A>(x[i], max), arith::sub_of::<A>(x[j], max));
    assert(bits::le_of(a, b));
    let e = shifted_exp::<A>(x);
    assert(e[i] == arith::exp_of::<A>(a) && e[j] == arith::exp_of::<A>(b));
    assert(bits::le_of(e[i], e[j]));
}

/// Numerically stable in-place softmax over a slice.
pub fn softmax<A: Arith>(x: &mut [u32])
    ensures
        final(x)@.len() == old(x)@.len(),
        arith::deterministic::<A>() ==> final(x)@ == softmax_of::<A>(old(x)@),
{
    let ghost before = x@;
    let ghost e = shifted_exp::<A>(before);
    if x.len() == 0 {
        assert(x@ =~= softmax_of::<A>(before));
        return;
    }
    let max: u32 = bits::max_value(x);
    let mut sum: u32 = bits::ZERO;
    let mut i: usize = 0;
    while i < x.len()
        invariant
            i <= x@.len() == before.len(),
            e == shifted_exp::<A>(before),
            max == bits::max_upto(bits::NEG_INFINITY, before, before.len() as int),
            forall|j: int| i <= j < before.len() ==> x@[j] == before[j],
            arith::deterministic::<A>() ==> forall|j: int| 0 <= j < i ==> x@[j] == e[j],
            arith::deterministic::<A>() ==> sum == sum_upto::<A>(e, i as int),
        decreases x@.len() - i,
    {
        let v: u32 = A::exp32(A::sub32(x[i], max));
        x[i] = v;
        sum = A::add32(sum, v);
        i += 1;
    }
    if bits::less(bits::ZERO, sum) {
        let mut k: usize = 0;
        while k < x.len()
            invariant
                k <= x@.len() == before.len() == e.len(),
                arith::deterministic::<A>() ==> forall|j: int| k <= j < before.len() ==> x@[j] == e[j],
                arith::deterministic::<A>() ==> forall|j: int|
                    0 <= j < k ==> x@[j] == arith::div_of::<A>(e[j], sum),
            decreases x@.len() - k,
        {
            x[k] = A::div32(x[k], sum);
            k += 1;
        }
    }
    proof {
        if arith::deterministic::<A>() {
            assert(x@ =~= softmax_of::<A>(before));
        }
    }
}

} // verus!
