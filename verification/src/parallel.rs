//! Work shared out among the threads of a rayon pool.

use crate::error::LemurError;
use rayon::iter::{IntoParallelIterator, ParallelIterator};
use vstd::prelude::*;

verus! {

/// How many chunks of work there are for each thread, as long as the chunks stay small.
pub const NTT_AGG_CHUNKS_PER_THREAD: usize = 4;

/// The largest chunk of work.
pub const NTT_AGG_MAX_CHUNK: usize = 64;

/// `rayon::current_num_threads`: the number of threads of the pool.  It depends on the machine
/// and on the pool, so nothing is claimed of it.
pub assume_specification[ rayon::current_num_threads ]() -> usize
;

/// `into_par_iter` on a range of indices, then `map` and `collect` into a vector, of rayon's
/// parallel iterators.  Claimed: `f` is called on every index below `n`, and what it returns for
/// index `i` is the `i`-th entry of the vector, whatever the order of the calls.
#[verifier::external_body]
pub(crate) fn map_indices<T: Send, F: Fn(usize) -> T + Sync + Send>(n: usize, f: F) -> (r: Vec<T>)
    requires
        forall|i: usize| i < n ==> #[trigger] call_requires(f, (i,)),
    ensures
        r@.len() == n,
        forall|i: usize| i < n ==> call_ensures(f, (i,), #[trigger] r@[i as int]),
{
    (0..n).into_par_iter().map(f).collect()
}

/// `into_par_iter` on a range of indices, then `try_for_each`, of rayon's parallel iterators.
/// Claimed: it succeeds only if `f` succeeded on every index below `n`; otherwise it returns what
/// `f` returned on one of the indices on which it failed, and nothing says on which.
#[verifier::external_body]
pub(crate) fn try_indices<F: Fn(usize) -> Result<(), LemurError> + Sync + Send>(
    n: usize,
    f: F,
) -> (r: Result<(), LemurError>)
    requires
        forall|i: usize| i < n ==> #[trigger] call_requires(f, (i,)),
    ensures
        r is Ok ==> forall|i: usize| i < n ==> #[trigger] call_ensures(f, (i,), Ok(())),
        r is Err ==> exists|i: usize| i < n && #[trigger] call_ensures(f, (i,), r),
{
    (0..n).into_par_iter().try_for_each(f)
}

/// `ceil(n / d)`.
pub open spec fn ceil_div(n: int, d: int) -> int {
    (n + d - 1) / d
}

/// The size of the chunks in which `n` items are shared out among `threads` threads: so many
/// that every thread gets `NTT_AGG_CHUNKS_PER_THREAD` chunks, but at least 1 and at most `NTT_AGG_MAX_CHUNK`.
pub open spec fn chunk_size_spec(n: int, threads: int) -> int {
    let chunks = if threads < 1 {
        1
    } else if threads * NTT_AGG_CHUNKS_PER_THREAD > usize::MAX {
        usize::MAX as int
    } else {
        threads * NTT_AGG_CHUNKS_PER_THREAD
    };
    let c = ceil_div(n, chunks);
    if c < 1 {
        1
    } else if c > NTT_AGG_MAX_CHUNK {
        NTT_AGG_MAX_CHUNK as int
    } else {
        c
    }
}

/// The size of the chunks in which `n` items are shared out among `threads` threads.
pub fn chunk_size(n: usize, threads: usize) -> (r: usize)
    ensures
        r == chunk_size_spec(n as int, threads as int),
        1 <= r <= NTT_AGG_MAX_CHUNK,
{
    let chunks: usize = if threads < 1 {
        1
    } else if threads > usize::MAX / NTT_AGG_CHUNKS_PER_THREAD {
        usize::MAX
    } else {
        threads * NTT_AGG_CHUNKS_PER_THREAD
    };
    assert(ceil_div(n as int, chunks as int) == n / chunks + if n % chunks == 0 {
        0int
    } else {
        1int
    }) by (nonlinear_arith)
        requires
            chunks > 0,
            n >= 0,
    ;
    assert(n / chunks <= n) by (nonlinear_arith)
        requires
            chunks > 0,
            n >= 0,
    ;
    let q: usize = n / chunks;
    if q >= NTT_AGG_MAX_CHUNK {
        NTT_AGG_MAX_CHUNK
    } else {
        let c: usize = if n % chunks == 0 {
            q
        } else {
            q + 1
        };
        if c < 1 {
            1
        } else {
            c
        }
    }
}

/// The `c`-th of `count` chunks of `size` items starts before the end of `n` items.
pub proof fn lemma_chunk(c: int, count: int, size: int, n: int)
    requires
        0 <= c < count,
        (count - 1) * size < n,
        1 <= size,
    ensures
        0 <= c * size < n,
        (c + 1) * size == c * size + size,
{
    assert(0 <= c * size < n && (c + 1) * size == c * size + size) by (nonlinear_arith)
        requires
            0 <= c < count,
            (count - 1) * size < n,
            1 <= size,
    ;
}

/// The number of chunks of `size` items that hold `n` items.
pub(crate) fn chunk_count(n: usize, size: usize) -> (r: usize)
    requires
        1 <= size,
    ensures
        r * size >= n,
        r > 0 ==> (r - 1) * size < n,
{
    let q: usize = n / size;
    assert(n == size * q + n % size) by (nonlinear_arith)
        requires
            size > 0,
            q == n / size,
    ;
    assert(q * size == size * q) by (nonlinear_arith);
    if n % size == 0 {
        assert((q - 1) * size == q * size - size) by (nonlinear_arith);
        q
    } else {
        assert((q + 1) * size == q * size + size) by (nonlinear_arith);
        assert(q < n) by (nonlinear_arith)
            requires
                n == size * q + n % size,
                n % size > 0,
                size >= 1,
        ;
        q + 1
    }
}

} // verus!
