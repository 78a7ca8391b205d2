//! The chunk-parallel strategy: scan each chunk on its own, then add the partial counts.
//!
//! Workers share nothing but the read-only view, so the only questions are how the view is
//! split and how the partial counts are put together. Both are answered here; starting and
//! joining the workers is left to the caller.

use vstd::prelude::*;
use vstd::slice::slice_subrange;
use crate::chunk::Chunk;
use crate::chunk::chunked_occurrences;
use crate::chunk::is_partition;
use crate::chunk::lemma_partition_invariance;
use crate::chunk::lemma_partition_ordered;
use crate::chunk::lemma_plan_is_partition;
use crate::chunk::plan_chunks;
use crate::chunk::planned_chunks;
use crate::error::CountError;
use crate::scan::lemma_occurrences_bounded;
use crate::scan::line_count;
use crate::scan::Scanner;
use crate::scan::NEWLINE;

verus! {

/// The number of workers used where the caller names none.
pub const DEFAULT_WORKERS: usize = 4;

/// What one worker does: counts the line terminators in the bytes of `view` that `chunk`
/// covers. A chunk that reaches beyond the view is refused.
pub fn count_chunk(view: &[u8], chunk: Chunk, scanner: Scanner) -> (partial: Result<
    u64,
    CountError,
>)
    ensures
        match partial {
            Ok(lines) => chunk.end() <= view@.len() && lines == line_count(chunk.bytes_of(view@)),
            Err(e) => chunk.end() > view@.len() && e == CountError::Worker,
        },
{
    if chunk.offset > view.len() || chunk.length > view.len() - chunk.offset {
        return Err(CountError::Worker);
    }
    Ok(scanner.count_lines(slice_subrange(view, chunk.offset, chunk.offset + chunk.length)))
}

/// The sum of the partial counts that are there, a failed worker counting for nothing.
pub open spec fn partial_sum(partials: Seq<Result<u64, CountError>>) -> nat
    decreases partials.len(),
{
    if partials.len() == 0 {
        0
    } else {
        partial_sum(partials.drop_last()) + match partials.last() {
            Ok(lines) => lines as nat,
            Err(_) => 0,
        }
    }
}

/// `k` is the first worker that failed.
pub open spec fn is_first_failure(partials: Seq<Result<u64, CountError>>, k: int) -> bool {
    &&& 0 <= k < partials.len()
    &&& partials[k] is Err
    &&& forall|j: int| 0 <= j < k ==> partials[j] is Ok
}

/// No worker failed.
pub open spec fn all_succeeded(partials: Seq<Result<u64, CountError>>) -> bool {
    forall|j: int| 0 <= j < partials.len() ==> partials[j] is Ok
}

/// Puts the workers' results together: the first failure, in the order of the chunks,
/// fails the whole count with that worker's error; with no failure the total is the sum
/// of the partial counts, as long as it fits in 64 bits.
pub fn combine_partials(partials: &[Result<u64, CountError>]) -> (total: Result<u64, CountError>)
    ensures
        match total {
            Ok(lines) => all_succeeded(partials@) && lines == partial_sum(partials@),
            Err(e) => {
                ||| exists|k: int| is_first_failure(partials@, k) && partials@[k] == Err::<u64, _>(e)
                ||| all_succeeded(partials@) && partial_sum(partials@) > u64::MAX && e
                    == CountError::Overflow
            },
        },
{
    let mut sum: u64 = 0;
    let mut overflowed = false;
    let mut i: usize = 0;
    while i < partials.len()
        invariant
            i <= partials.len(),
            all_succeeded(partials@.take(i as int)),
            !overflowed ==> sum == partial_sum(partials@.take(i as int)),
            overflowed ==> partial_sum(partials@.take(i as int)) > u64::MAX,
        decreases partials.len() - i,
    {
        proof {
            assert(partials@.take(i + 1).drop_last() =~= partials@.take(i as int));
        }
        match partials[i] {
            Ok(lines) => {
                if overflowed || lines > u64::MAX - sum {
                    overflowed = true;
                } else {
                    sum = sum + lines;
                }
            },
            Err(e) => {
                proof {
                    assert(is_first_failure(partials@, i as int)) by {
                        assert forall|j: int| 0 <= j < i implies partials@[j] is Ok by {
                            assert(partials@.take(i as int)[j] == partials@[j]);
                        }
                    }
                }
                return Err(e);
            },
        }
        i = i + 1;
        proof {
            assert forall|j: int| 0 <= j < i implies partials@.take(i as int)[j] is Ok by {
                if j < i - 1 {
                    assert(partials@.take(i - 1)[j] == partials@[j]);
                }
            }
        }
    }
    proof {
        assert(partials@.take(partials.len() as int) =~= partials@);
    }
    if overflowed {
        Err(CountError::Overflow)
    } else {
        Ok(sum)
    }
}

/// The chunk-parallel count of `view` with `workers` workers: the view is split by
/// `plan_chunks`, every chunk is scanned on its own, and the partial counts are added.
/// Here the chunks are scanned one after the other on the calling thread; the total is the
/// one that concurrent workers arrive at, since it does not depend on the order.
pub fn count_chunked(view: &[u8], workers: usize, scanner: Scanner) -> (lines: u64)
    requires
        workers >= 1,
    ensures
        lines == chunked_occurrences(view@, planned_chunks(view.len(), workers), NEWLINE),
        lines == line_count(view@),
{
    let chunks = plan_chunks(view.len(), workers);
    let mut lines: u64 = 0;
    let mut i: usize = 0;
    proof {
        lemma_partition_invariance(view@, chunks@, NEWLINE);
        lemma_occurrences_bounded(view@, NEWLINE);
    }
    while i < chunks.len()
        invariant
            i <= chunks.len(),
            view@.len() <= usize::MAX,
            is_partition(chunks@, view@.len() as int),
            lines == chunked_occurrences(view@, chunks@.take(i as int), NEWLINE),
            chunked_occurrences(view@, chunks@, NEWLINE) <= u64::MAX,
        decreases chunks.len() - i,
    {
        let chunk = chunks[i];
        proof {
            lemma_partition_ordered(chunks@, view@.len() as int, i as int);
            assert(chunks@.take(i + 1).drop_last() =~= chunks@.take(i as int));
            lemma_chunked_occurrences_monotone(view@, chunks@, i + 1, NEWLINE);
        }
        let partial = scanner.count_lines(
            slice_subrange(view, chunk.offset, chunk.offset + chunk.length),
        );
        lines = lines + partial;
        i = i + 1;
    }
    proof {
        assert(chunks@.take(chunks.len() as int) =~= chunks@);
    }
    lines
}

/// The partial counts of the first `n` chunks add up to no more than those of all chunks.
proof fn lemma_chunked_occurrences_monotone(view: Seq<u8>, chunks: Seq<Chunk>, n: int, byte: u8)
    requires
        0 <= n <= chunks.len(),
    ensures
        chunked_occurrences(view, chunks.take(n), byte) <= chunked_occurrences(view, chunks, byte),
    decreases chunks.len() - n,
{
    if n == chunks.len() {
        assert(chunks.take(n) =~= chunks);
    } else {
        lemma_chunked_occurrences_monotone(view, chunks, n + 1, byte);
        assert(chunks.take(n + 1).drop_last() =~= chunks.take(n));
    }
}

/// The chunk-parallel count equals the sequential count, for every view and every number
/// of workers from one up.
pub proof fn lemma_parallel_equals_sequential(view: Seq<u8>, workers: usize)
    requires
        workers >= 1,
        view.len() <= usize::MAX,
    ensures
        chunked_occurrences(view, planned_chunks(view.len() as usize, workers), NEWLINE)
            == line_count(view),
{
    lemma_plan_is_partition(view.len() as usize, workers);
    lemma_partition_invariance(view, planned_chunks(view.len() as usize, workers), NEWLINE);
}

/// The number of workers does not change the count.
pub proof fn lemma_worker_count_irrelevant(view: Seq<u8>, workers: usize, other_workers: usize)
    requires
        workers >= 1,
        other_workers >= 1,
        view.len() <= usize::MAX,
    ensures
        chunked_occurrences(view, planned_chunks(view.len() as usize, workers), NEWLINE)
            == chunked_occurrences(
            view,
            planned_chunks(view.len() as usize, other_workers),
            NEWLINE,
        ),
{
    lemma_parallel_equals_sequential(view, workers);
    lemma_parallel_equals_sequential(view, other_workers);
}

/// Where every worker returns the count of its own chunk, and the chunks split the view,
/// the partial counts add up to the count of the whole view, which fits in 64 bits: then
/// `combine_partials` returns it.
pub proof fn lemma_partials_of_partition(
    view: Seq<u8>,
    chunks: Seq<Chunk>,
    partials: Seq<Result<u64, CountError>>,
)
    requires
        view.len() <= usize::MAX,
        is_partition(chunks, view.len() as int),
        partials.len() == chunks.len(),
        forall|i: int|
            0 <= i < chunks.len() ==> #[trigger] partials[i] == Ok::<u64, CountError>(
                line_count(chunks[i].bytes_of(view)) as u64,
            ),
    ensures
        all_succeeded(partials),
        partial_sum(partials) == line_count(view),
        partial_sum(partials) <= u64::MAX,
{
    lemma_partition_invariance(view, chunks, NEWLINE);
    lemma_occurrences_bounded(view, NEWLINE);
    lemma_partial_sum_is_chunked(view, chunks, partials, chunks.len() as int);
    assert(chunks.take(chunks.len() as int) =~= chunks);
    assert(partials.take(chunks.len() as int) =~= partials);
}

/// The first `n` partial counts add up to the chunked count of the first `n` chunks.
proof fn lemma_partial_sum_is_chunked(
    view: Seq<u8>,
    chunks: Seq<Chunk>,
    partials: Seq<Result<u64, CountError>>,
    n: int,
)
    requires
        view.len() <= usize::MAX,
        is_partition(chunks, view.len() as int),
        partials.len() == chunks.len(),
        0 <= n <= chunks.len(),
        forall|i: int|
            0 <= i < chunks.len() ==> #[trigger] partials[i] == Ok::<u64, CountError>(
                line_count(chunks[i].bytes_of(view)) as u64,
            ),
    ensures
        partial_sum(partials.take(n)) == chunked_occurrences(view, chunks.take(n), NEWLINE),
    decreases n,
{
    if n > 0 {
        lemma_partial_sum_is_chunked(view, chunks, partials, n - 1);
        assert(partials.take(n).drop_last() =~= partials.take(n - 1));
        assert(chunks.take(n).drop_last() =~= chunks.take(n - 1));
        let chunk = chunks[n - 1];
        assert(partials.take(n).last() == partials[n - 1]);
        lemma_partition_ordered(chunks, view.len() as int, n - 1);
        lemma_occurrences_bounded(chunk.bytes_of(view), NEWLINE);
    }
}

} // verus!
