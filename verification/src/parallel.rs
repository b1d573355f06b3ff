//! Row-parallel loops on the `rayon` thread pool.

use rayon::iter::{IndexedParallelIterator, ParallelIterator};
use rayon::slice::{ParallelSlice, ParallelSliceMut};
use vstd::prelude::*;

use crate::arith;
use crate::arith::Arith;
use crate::tensor;

verus! {

/// Applies `f` to every whole chunk of `size` elements and collects the
/// results in the order of the chunks.
///
/// Calls `ParallelSlice::par_chunks_exact`, `ParallelIterator::map` and
/// `ParallelIterator::collect` of `rayon`. `par_chunks_exact` panics on a chunk
/// size of 0 and leaves a shorter tail out; `map` calls `f` once per chunk; and
/// `collect` keeps the order of an indexed iterator. So there are as many
/// results as whole chunks, and each is one that `f` returned for its chunk.
#[verifier::external_body]
pub(crate) fn map_chunks<T: Sync, R: Send, G: Fn(&[T]) -> R + Sync + Send>(
    data: &[T],
    size: usize,
    f: G,
) -> (out: Vec<R>)
    requires
        size > 0,
        forall|c: &[T]| c@.len() == size ==> #[trigger] call_requires(f, (c,)),
    ensures
        out@.len() == data@.len() / (size as nat),
        forall|i: int|
            0 <= i < out@.len() ==> exists|c: &[T]|
                c@ == data@.subrange(i * size, i * size + size) && call_ensures(
                    f,
                    (c,),
                    #[trigger] out@[i],
                ),
{
    data.par_chunks_exact(size).map(f).collect()
}

/// Fills every row of the product of two matrices by `tensor::fill_row`.
///
/// Calls `ParallelSliceMut::par_chunks_mut`, `IndexedParallelIterator::enumerate`
/// and `ParallelIterator::for_each` of `rayon`. `par_chunks_mut` panics on a chunk
/// size of 0; the chunks are disjoint and cover the slice; each is handed to
/// the function once, with its index. So every row ends as `fill_row` leaves it.
#[verifier::external_body]
pub(crate) fn fill_rows<A: Arith>(out: &mut [u32], a: &[u32], b: &[u32], k: usize, n: usize)
    requires
        n > 0,
        old(out)@.len() % (n as nat) == 0,
        (old(out)@.len() / (n as nat)) * k <= a@.len(),
        k * n <= b@.len(),
    ensures
        final(out)@.len() == old(out)@.len(),
        arith::deterministic::<A>() ==> forall|i: int|
            0 <= i < final(out)@.len() / (n as nat) ==> #[trigger] final(out)@.subrange(
                i * n,
                i * n + n,
            ) == tensor::product_row::<A>(a@, b@, k as int, n as int, i),
{
    out.par_chunks_mut(n).enumerate().for_each(|(i, row)| tensor::fill_row::<A>(i, row, a, b, k, n))
}

} // verus!
