//! Rotary position embeddings (RoPE).
//!
//! GPT-NeoX style (as used by HF LLaMA/Qwen2): each head vector is split in two
//! halves, and element pairs `(i, i + half)` are rotated by
//! `pos * theta^(-2i/d)`.

use vstd::prelude::*;

use crate::arith;
use crate::arith::Arith;
use crate::bits;

verus! {

/// The angle by which pair `i` is rotated at position `pos`.
pub open spec fn angle_of<A: Arith>(pos: int, i: int, head_dim: usize, theta: u32) -> u32 {
    arith::mul_of::<A>(
        arith::count_of::<A>(pos as usize),
        arith::div_of::<A>(
            bits::ONE,
            arith::pow_of::<A>(
                theta,
                arith::div_of::<A>(
                    arith::mul_of::<A>(bits::TWO, arith::count_of::<A>(i as usize)),
                    arith::count_of::<A>(head_dim),
                ),
            ),
        ),
    )
}

/// The cosines of all pairs at position `pos`.
pub open spec fn cos_row<A: Arith>(pos: int, head_dim: usize, theta: u32) -> Seq<u32> {
    Seq::new(
        (head_dim / 2) as nat,
        |i: int| arith::cos_of::<A>(angle_of::<A>(pos, i, head_dim, theta)),
    )
}

/// The sines of all pairs at position `pos`.
pub open spec fn sin_row<A: Arith>(pos: int, head_dim: usize, theta: u32) -> Seq<u32> {
    Seq::new(
        (head_dim / 2) as nat,
        |i: int| arith::sin_of::<A>(angle_of::<A>(pos, i, head_dim, theta)),
    )
}

/// Element `j` of a sequence of heads after each pair of each head is rotated.
pub open spec fn rotated_at<A: Arith>(x: Seq<u32>, cos: Seq<u32>, sin: Seq<u32>, j: int) -> u32 {
    let half = cos.len() as int;
    let i = j % (2 * half);
    if i < half {
        arith::sub_of::<A>(
            arith::mul_of::<A>(x[j], cos[i]),
            arith::mul_of::<A>(x[j + half], sin[i]),
        )
    } else {
        arith::add_of::<A>(
            arith::mul_of::<A>(x[j], cos[i - half]),
            arith::mul_of::<A>(x[j - half], sin[i - half]),
        )
    }
}

/// A sequence of heads after each pair of each head is rotated.
pub open spec fn rotated<A: Arith>(x: Seq<u32>, cos: Seq<u32>, sin: Seq<u32>) -> Seq<u32> {
    Seq::new(x.len(), |j: int| rotated_at::<A>(x, cos, sin, j))
}

/// A sequence of heads with the embedding of position `pos` applied.
pub open spec fn rope_of<A: Arith>(x: Seq<u32>, pos: int, head_dim: usize, theta: u32) -> Seq<u32> {
    rotated::<A>(x, cos_row::<A>(pos, head_dim, theta), sin_row::<A>(pos, head_dim, theta))
}

fn angle<A: Arith>(pos: usize, i: usize, head_dim: usize, theta: u32) -> (r: u32)
    ensures
        arith::deterministic::<A>() ==> r == angle_of::<A>(pos as int, i as int, head_dim, theta),
{
    let exponent: u32 = A::div32(A::mul32(bits::TWO, A::count32(i)), A::count32(head_dim));
    let freq: u32 = A::div32(bits::ONE, A::pow32(theta, exponent));
    A::mul32(A::count32(pos), freq)
}

/// Rotates every pair of every head by the given cosines and sines.
fn rotate<A: Arith>(x: &mut [u32], cos: &[u32], sin: &[u32])
    requires
        cos@.len() == sin@.len(),
        0 < 2 * cos@.len() <= usize::MAX,
        old(x)@.len() % (2 * cos@.len()) == 0,
    ensures
        final(x)@.len() == old(x)@.len(),
        arith::deterministic::<A>() ==> final(x)@ == rotated::<A>(old(x)@, cos@, sin@),
{
    let half: usize = cos.len();
    let size: usize = 2 * half;
    let total: usize = x.len();
    let heads: usize = total / size;
    let ghost before = x@;
    let mut n: usize = 0;
    proof {
        vstd::arithmetic::div_mod::lemma_fundamental_div_mod(total as int, size as int);
        assert(heads * size == total) by (nonlinear_arith)
            requires
                total == size * heads,
        ;
    }
    while n < heads
        invariant
            n <= heads,
            heads * size == total == x@.len() == before.len(),
            half == cos@.len() == sin@.len(),
            size == 2 * half,
            half > 0,
            forall|j: int| n * size <= j < total ==> x@[j] == before[j],
            arith::deterministic::<A>() ==> forall|j: int|
                0 <= j < n * size ==> x@[j] == #[trigger] rotated_at::<A>(before, cos@, sin@, j),
        decreases heads - n,
    {
        proof {
            assert(n * size + size <= heads * size) by (nonlinear_arith)
                requires
                    n + 1 <= heads,
            ;
            assert((n + 1) * size == n * size + size) by (nonlinear_arith);
            assert(0 <= n * size) by (nonlinear_arith);
        }
        let base: usize = n * size;
        let mut i: usize = 0;
        while i < half
            invariant
                i <= half,
                n < heads,
                base == n * size,
                base + size <= total == x@.len() == before.len(),
                half == cos@.len() == sin@.len(),
                size == 2 * half,
                forall|j: int| base + i <= j < base + half ==> x@[j] == before[j],
                forall|j: int| base + half + i <= j < total ==> x@[j] == before[j],
                arith::deterministic::<A>() ==> forall|j: int|
                    0 <= j < base + i ==> x@[j] == #[trigger] rotated_at::<A>(
                        before,
                        cos@,
                        sin@,
                        j,
                    ),
                arith::deterministic::<A>() ==> forall|j: int|
                    base + half <= j < base + half + i ==> x@[j] == #[trigger] rotated_at::<A>(
                        before,
                        cos@,
                        sin@,
                        j,
                    ),
            decreases half - i,
        {
            let at: usize = base + i;
            let ghost prev = x@;
            let x1: u32 = x[at];
            let x2: u32 = x[at + half];
            x[at] = A::sub32(A::mul32(x1, cos[i]), A::mul32(x2, sin[i]));
            x[at + half] = A::add32(A::mul32(x2, cos[i]), A::mul32(x1, sin[i]));
            proof {
                vstd::arithmetic::div_mod::lemma_fundamental_div_mod_converse(
                    at as int,
                    size as int,
                    n as int,
                    i as int,
                );
                vstd::arithmetic::div_mod::lemma_fundamental_div_mod_converse(
                    at + half,
                    size as int,
                    n as int,
                    i + half,
                );
                if arith::deterministic::<A>() {
                    assert(x@[at as int] == rotated_at::<A>(before, cos@, sin@, at as int));
                    assert(x@[at + half] == rotated_at::<A>(before, cos@, sin@, at + half));
                    assert forall|j: int| 0 <= j < base + i + 1 implies x@[j]
                        == #[trigger] rotated_at::<A>(before, cos@, sin@, j) by {
                        if j < base + i {
                            assert(prev[j] == rotated_at::<A>(before, cos@, sin@, j));
                        }
                    }
                    assert forall|j: int| base + half <= j < base + half + i + 1 implies x@[j]
                        == #[trigger] rotated_at::<A>(before, cos@, sin@, j) by {
                        if j < base + half + i {
                            assert(prev[j] == rotated_at::<A>(before, cos@, sin@, j));
                        }
                    }
                }
            }
            i += 1;
        }
        proof {
            if arith::deterministic::<A>() {
                assert forall|j: int| 0 <= j < (n + 1) * size implies x@[j]
                    == #[trigger] rotated_at::<A>(before, cos@, sin@, j) by {
                    if j >= base + half {
                        assert(j < base + half + half);
                    }
                }
            }
        }
        n += 1;
    }
    proof {
        if arith::deterministic::<A>() {
            assert forall|j: int| 0 <= j < total implies x@[j] == rotated::<A>(
                before,
                cos@,
                sin@,
            )[j] by {
                assert(x@[j] == rotated_at::<A>(before, cos@, sin@, j));
            }
            assert(x@ =~= rotated::<A>(before, cos@, sin@));
        }
    }
}

/// Applies rotary position embeddings in place.
///
/// The forward pass uses [`RopeTables`], which computes exactly these cosines
/// and sines once, at load time.
pub fn apply_rope<A: Arith>(x: &mut [u32], pos: usize, n_heads: usize, head_dim: usize, theta: u32)
    requires
        head_dim > 0,
        head_dim % 2 == 0,
        old(x)@.len() == n_heads * head_dim,
    ensures
        final(x)@.len() == old(x)@.len(),
        arith::deterministic::<A>() ==> final(x)@ == rope_of::<A>(
            old(x)@,
            pos as int,
            head_dim,
            theta,
        ),
{
    let half: usize = head_dim / 2;
    let mut cos: Vec<u32> = Vec::with_capacity(half);
    let mut sin: Vec<u32> = Vec::with_capacity(half);
    let mut i: usize = 0;
    while i < half
        invariant
            i <= half == head_dim / 2,
            cos@.len() == i,
            sin@.len() == i,
            arith::deterministic::<A>() ==> forall|j: int|
                0 <= j < i ==> cos@[j] == cos_row::<A>(pos as int, head_dim, theta)[j],
            arith::deterministic::<A>() ==> forall|j: int|
                0 <= j < i ==> sin@[j] == sin_row::<A>(pos as int, head_dim, theta)[j],
        decreases half - i,
    {
        let a: u32 = angle::<A>(pos, i, head_dim, theta);
        sin.push(A::sin32(a));
        cos.push(A::cos32(a));
        i += 1;
    }
    proof {
        vstd::arithmetic::div_mod::lemma_mod_multiples_basic(n_heads as int, head_dim as int);
        if arith::deterministic::<A>() {
            assert(cos@ =~= cos_row::<A>(pos as int, head_dim, theta));
            assert(sin@ =~= sin_row::<A>(pos as int, head_dim, theta));
        }
    }
    rotate::<A>(x, &cos, &sin);
}

/// Precomputed tables: `cos`/`sin` of `pos * theta^(-2i/head_dim)` for every
/// position and frequency index, built once at load time. The values come from
/// the same expression as in [`apply_rope`], so that results are identical to
/// computing them on the fly.
#[derive(Debug, PartialEq)]
pub struct RopeTables {
    /// Row-major `[max_seq_len, head_dim/2]`.
    pub cos: Vec<u32>,
    /// Row-major `[max_seq_len, head_dim/2]`.
    pub sin: Vec<u32>,
    pub half: usize,
}

/// The contents of [`RopeTables`].
pub struct RopeView {
    pub cos: Seq<u32>,
    pub sin: Seq<u32>,
    pub half: usize,
}

impl View for RopeTables {
    type V = RopeView;

    open spec fn view(&self) -> RopeView {
        RopeView { cos: self.cos@, sin: self.sin@, half: self.half }
    }
}

impl RopeView {
    /// Whether the tables have a row for each of `rows` positions.
    pub open spec fn covers(self, rows: int) -> bool {
        &&& 0 < 2 * self.half <= usize::MAX
        &&& self.cos.len() == self.sin.len()
        &&& rows * self.half <= self.cos.len()
    }

    /// The cosines for position `pos`.
    pub open spec fn cos_at(self, pos: int) -> Seq<u32> {
        self.cos.subrange(pos * self.half, pos * self.half + self.half)
    }

    /// The sines for position `pos`.
    pub open spec fn sin_at(self, pos: int) -> Seq<u32> {
        self.sin.subrange(pos * self.half, pos * self.half + self.half)
    }

    /// A sequence of heads rotated for position `pos`.
    pub open spec fn applied<A: Arith>(self, x: Seq<u32>, pos: int) -> Seq<u32> {
        rotated::<A>(x, self.cos_at(pos), self.sin_at(pos))
    }

    /// Whether the tables hold what is computed on the fly, for each of `rows`
    /// positions.
    pub open spec fn tabulates<A: Arith>(self, rows: int, head_dim: usize, theta: u32) -> bool {
        forall|pos: int|
            0 <= pos < rows ==> (#[trigger] self.cos_at(pos)) == cos_row::<A>(pos, head_dim, theta)
                && self.sin_at(pos) == sin_row::<A>(pos, head_dim, theta)
    }
}

impl RopeTables {
    /// Computes the tables.
    pub fn new<A: Arith>(head_dim: usize, max_seq_len: usize, theta: u32) -> (t: RopeTables)
        requires
            head_dim % 2 == 0,
            max_seq_len * (head_dim / 2) <= usize::MAX,
        ensures
            t.half == head_dim / 2,
            t.cos@.len() == max_seq_len * (head_dim / 2),
            t.sin@.len() == max_seq_len * (head_dim / 2),
            head_dim > 0 ==> t@.covers(max_seq_len as int),
            arith::deterministic::<A>() ==> t@.tabulates::<A>(max_seq_len as int, head_dim, theta),
    {
        let half: usize = head_dim / 2;
        let mut cos: Vec<u32> = Vec::with_capacity(max_seq_len * half);
        let mut sin: Vec<u32> = Vec::with_capacity(max_seq_len * half);
        let mut pos: usize = 0;
        while pos < max_seq_len
            invariant
                pos <= max_seq_len,
                half == head_dim / 2,
                max_seq_len * half <= usize::MAX,
                cos@.len() == pos * half,
                sin@.len() == pos * half,
                arith::deterministic::<A>() ==> forall|p: int|
                    0 <= p < pos ==> #[trigger] cos@.subrange(p * half, p * half + half)
                        == cos_row::<A>(p, head_dim, theta),
                arith::deterministic::<A>() ==> forall|p: int|
                    0 <= p < pos ==> #[trigger] sin@.subrange(p * half, p * half + half)
                        == sin_row::<A>(p, head_dim, theta),
            decreases max_seq_len - pos,
        {
            let ghost cos_before = cos@;
            let ghost sin_before = sin@;
            let mut i: usize = 0;
            while i < half
                invariant
                    i <= half == head_dim / 2,
                    cos@.len() == cos_before.len() + i,
                    sin@.len() == sin_before.len() + i,
                    cos_before =~= cos@.subrange(0, cos_before.len() as int),
                    sin_before =~= sin@.subrange(0, sin_before.len() as int),
                    arith::deterministic::<A>() ==> forall|j: int|
                        0 <= j < i ==> #[trigger] cos@[cos_before.len() + j] == cos_row::<A>(
                            pos as int,
                            head_dim,
                            theta,
                        )[j],
                    arith::deterministic::<A>() ==> forall|j: int|
                        0 <= j < i ==> #[trigger] sin@[sin_before.len() + j] == sin_row::<A>(
                            pos as int,
                            head_dim,
                            theta,
                        )[j],
                decreases half - i,
            {
                let a: u32 = angle::<A>(pos, i, head_dim, theta);
                let ghost c0 = cos@;
                let ghost s0 = sin@;
                sin.push(A::sin32(a));
                cos.push(A::cos32(a));
                proof {
                    assert forall|j: int| 0 <= j < cos_before.len() implies cos@[j]
                        == cos_before[j] by {
                        assert(c0.subrange(0, cos_before.len() as int)[j] == cos_before[j]);
                    }
                    assert forall|j: int| 0 <= j < sin_before.len() implies sin@[j]
                        == sin_before[j] by {
                        assert(s0.subrange(0, sin_before.len() as int)[j] == sin_before[j]);
                    }
                }
                i += 1;
            }
            proof {
                assert((pos + 1) * half == pos * half + half) by (nonlinear_arith);
                if arith::deterministic::<A>() {
                    assert forall|p: int| 0 <= p < pos + 1 implies #[trigger] cos@.subrange(
                        p * half,
                        p * half + half,
                    ) == cos_row::<A>(p, head_dim, theta) by {
                        lemma_row_within(p, pos as int, half as int);
                        if p < pos {
                            assert(cos_before.subrange(p * half, p * half + half) == cos_row::<A>(
                                p,
                                head_dim,
                                theta,
                            ));
                            assert(cos@.subrange(p * half, p * half + half)
                                =~= cos_before.subrange(p * half, p * half + half));
                        } else {
                            assert forall|j: int| 0 <= j < half implies cos@.subrange(
                                p * half,
                                p * half + half,
                            )[j] == cos_row::<A>(p, head_dim, theta)[j] by {
                                assert(cos@[cos_before.len() + j] == cos_row::<A>(
                                    pos as int,
                                    head_dim,
                                    theta,
                                )[j]);
                            }
                            assert(cos@.subrange(p * half, p * half + half) =~= cos_row::<A>(
                                p,
                                head_dim,
                                theta,
                            ));
                        }
                    }
                    assert forall|p: int| 0 <= p < pos + 1 implies #[trigger] sin@.subrange(
                        p * half,
                        p * half + half,
                    ) == sin_row::<A>(p, head_dim, theta) by {
                        lemma_row_within(p, pos as int, half as int);
                        if p < pos {
                            assert(sin_before.subrange(p * half, p * half + half) == sin_row::<A>(
                                p,
                                head_dim,
                                theta,
                            ));
                            assert(sin@.subrange(p * half, p * half + half)
                                =~= sin_before.subrange(p * half, p * half + half));
                        } else {
                            assert forall|j: int| 0 <= j < half implies sin@.subrange(
                                p * half,
                                p * half + half,
                            )[j] == sin_row::<A>(p, head_dim, theta)[j] by {
                                assert(sin@[sin_before.len() + j] == sin_row::<A>(
                                    pos as int,
                                    head_dim,
                                    theta,
                                )[j]);
                            }
                            assert(sin@.subrange(p * half, p * half + half) =~= sin_row::<A>(
                                p,
                                head_dim,
                                theta,
                            ));
                        }
                    }
                }
            }
            pos += 1;
        }
        RopeTables { cos, sin, half }
    }

    /// Rotates every `2 * half`-sized head in `x` for position `pos`.
    pub fn apply<A: Arith>(&self, x: &mut [u32], pos: usize)
        requires
            self@.covers(pos + 1),
            old(x)@.len() % (2 * self.half as nat) == 0,
        ensures
            final(x)@.len() == old(x)@.len(),
            arith::deterministic::<A>() ==> final(x)@ == self@.applied::<A>(old(x)@, pos as int),
    {
        let total: usize = self.cos.len();
        proof {
            assert((pos + 1) * self.half == pos * self.half + self.half) by (nonlinear_arith);
            assert(0 <= pos * self.half) by (nonlinear_arith);
        }
        let start: usize = pos * self.half;
        let cos = vstd::slice::slice_subrange(self.cos.as_slice(), start, start + self.half);
        let sin = vstd::slice::slice_subrange(self.sin.as_slice(), start, start + self.half);
        rotate::<A>(x, cos, sin);
    }
}

impl Clone for RopeTables {
    fn clone(&self) -> (t: RopeTables)
        ensures
            t@ == self@,
    {
        RopeTables { cos: self.cos.clone(), sin: self.sin.clone(), half: self.half }
    }
}

proof fn lemma_row_within(p: int, pos: int, half: int)
    requires
        0 <= p <= pos,
        0 <= half,
    ensures
        0 <= p * half,
        p < pos ==> p * half + half <= pos * half,
{
    assert(0 <= p * half) by (nonlinear_arith)
        requires
            0 <= p,
            0 <= half,
    ;
    if p < pos {
        assert(p * half + half <= pos * half) by (nonlinear_arith)
            requires
                p + 1 <= pos,
                0 <= half,
        ;
    }
}

/// The tables give exactly what is computed on the fly, at every position that
/// they cover.
pub proof fn law_tables_match<A: Arith>(
    t: RopeView,
    rows: int,
    head_dim: usize,
    theta: u32,
    x: Seq<u32>,
    pos: int,
)
    requires
        t.tabulates::<A>(rows, head_dim, theta),
        0 <= pos < rows,
    ensures
        t.applied::<A>(x, pos) == rope_of::<A>(x, pos, head_dim, theta),
{
    assert(t.cos_at(pos) == cos_row::<A>(pos, head_dim, theta));
}

} // verus!
