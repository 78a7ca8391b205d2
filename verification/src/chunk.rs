//! Chunks: how a byte view is split among workers, and why the split does not change the count.

use vstd::prelude::*;
use crate::scan::occurrences;
use crate::scan::lemma_occurrences_concat;
use crate::scan::lemma_occurrences_empty;

verus! {

/// The range `[offset, offset + length)` of a byte view, handed to one worker.
#[derive(Clone, Copy, Debug, PartialEq, Eq, Structural)]
pub struct Chunk {
    pub offset: usize,
    pub length: usize,
}

impl Chunk {
    /// The position just behind the chunk's last byte.
    pub open spec fn end(self) -> int {
        self.offset + self.length
    }

    /// The bytes of `view` that the chunk covers.
    pub open spec fn bytes_of(self, view: Seq<u8>) -> Seq<u8>
        recommends
            self.end() <= view.len(),
    {
        view.subrange(self.offset as int, self.end())
    }
}

/// `chunks` split `[0, len)` into contiguous ranges with no gap and no overlap: the first
/// starts at 0, every other one starts where the one before it ends, and the last ends at
/// `len`. A chunk may be empty; no chunks at all split only the empty range.
pub open spec fn is_partition(chunks: Seq<Chunk>, len: int) -> bool {
    &&& chunks.len() == 0 ==> len == 0
    &&& chunks.len() > 0 ==> chunks.first().offset == 0 && chunks.last().end() == len
    &&& forall|i: int, j: int|
        #![trigger chunks[i], chunks[j]]
        0 <= i && j == i + 1 && j < chunks.len() ==> chunks[j].offset == chunks[i].end()
}

/// The sum, over `chunks`, of the occurrences of `byte` in the bytes that each one covers.
pub open spec fn chunked_occurrences(view: Seq<u8>, chunks: Seq<Chunk>, byte: u8) -> nat
    decreases chunks.len(),
{
    if chunks.len() == 0 {
        0
    } else {
        chunked_occurrences(view, chunks.drop_last(), byte) + occurrences(
            chunks.last().bytes_of(view),
            byte,
        )
    }
}

/// The chunk of worker `i` when a view of `len` bytes is split among `workers` workers: with
/// `c = len / workers`, every worker but the last gets `[i * c, (i + 1) * c)`, and the last
/// gets `[(workers - 1) * c, len)`, so it takes the remainder of the division as well. A view
/// shorter than the number of workers leaves all but the last chunk empty.
pub open spec fn planned_chunk(len: usize, workers: usize, i: int) -> Chunk
    recommends
        0 <= i < workers,
{
    let c = len as int / workers as int;
    if i + 1 < workers {
        Chunk { offset: (i * c) as usize, length: c as usize }
    } else {
        Chunk { offset: ((workers - 1) * c) as usize, length: (len - (workers - 1) * c) as usize }
    }
}

/// The chunks of all `workers` workers, in order.
pub open spec fn planned_chunks(len: usize, workers: usize) -> Seq<Chunk> {
    Seq::new(workers as nat, |i: int| planned_chunk(len, workers, i))
}

/// `i` chunks of length `len / workers` fit into `len` as long as `i` is at most `workers`.
proof fn lemma_chunk_offsets_fit(len: int, workers: int, i: int)
    requires
        0 <= len,
        0 <= i <= workers,
        0 < workers,
    ensures
        0 <= i * (len / workers) <= len,
        (i + 1) * (len / workers) == i * (len / workers) + len / workers,
{
    let c = len / workers;
    assert(0 <= c && workers * c <= len) by (nonlinear_arith)
        requires
            0 <= len,
            0 < workers,
            c == len / workers,
    ;
    assert(0 <= i * c <= workers * c) by (nonlinear_arith)
        requires
            0 <= i <= workers,
            0 <= c,
    ;
    assert((i + 1) * c == i * c + c) by (nonlinear_arith);
}

/// The planned chunks cover the view exactly once, whatever the number of workers.
pub proof fn lemma_plan_is_partition(len: usize, workers: usize)
    requires
        workers >= 1,
    ensures
        is_partition(planned_chunks(len, workers), len as int),
{
    let chunks = planned_chunks(len, workers);
    lemma_chunk_offsets_fit(len as int, workers as int, workers - 1);
    lemma_chunk_offsets_fit(len as int, workers as int, 0);
    assert(chunks.first() == planned_chunk(len, workers, 0));
    assert(chunks.last() == planned_chunk(len, workers, workers - 1));
    assert forall|i: int, j: int|
        #![trigger chunks[i], chunks[j]]
        0 <= i && j == i + 1 && j < chunks.len() implies chunks[j].offset == chunks[i].end() by {
        lemma_chunk_offsets_fit(len as int, workers as int, i);
        lemma_chunk_offsets_fit(len as int, workers as int, j);
    }
}

/// Splits a view of `len` bytes among `workers` workers.
pub fn plan_chunks(len: usize, workers: usize) -> (chunks: Vec<Chunk>)
    requires
        workers >= 1,
    ensures
        chunks@ == planned_chunks(len, workers),
        is_partition(chunks@, len as int),
{
    let c = len / workers;
    let mut chunks: Vec<Chunk> = Vec::new();
    let mut offset: usize = 0;
    let mut i: usize = 0;
    while i + 1 < workers
        invariant
            workers >= 1,
            c == len as int / workers as int,
            i + 1 <= workers,
            offset == i * c,
            chunks@.len() == i,
            forall|k: int| 0 <= k < i ==> chunks@[k] == planned_chunk(len, workers, k),
        decreases workers - i,
    {
        proof {
            lemma_chunk_offsets_fit(len as int, workers as int, i as int);
            lemma_chunk_offsets_fit(len as int, workers as int, i + 1);
        }
        chunks.push(Chunk { offset, length: c });
        offset = offset + c;
        i = i + 1;
    }
    proof {
        lemma_chunk_offsets_fit(len as int, workers as int, i as int);
    }
    chunks.push(Chunk { offset, length: len - offset });
    proof {
        assert(chunks@ =~= planned_chunks(len, workers));
        lemma_plan_is_partition(len, workers);
    }
    chunks
}

/// Partition invariance: however a view is split into contiguous chunks that cover it
/// exactly once, the per-chunk counts of a byte add up to its count in the whole view.
pub proof fn lemma_partition_invariance(view: Seq<u8>, chunks: Seq<Chunk>, byte: u8)
    requires
        is_partition(chunks, view.len() as int),
    ensures
        chunked_occurrences(view, chunks, byte) == occurrences(view, byte),
    decreases chunks.len(),
{
    if chunks.len() == 0 {
        assert(view =~= Seq::<u8>::empty());
        lemma_occurrences_empty(byte);
    } else {
        let last = chunks.last();
        let before = chunks.drop_last();
        let head = view.take(last.offset as int);
        lemma_partition_drop_last(chunks, view.len() as int);
        lemma_partition_invariance(head, before, byte);
        assert forall|i: int| 0 <= i < before.len() implies (#[trigger] before[i]).end()
            <= last.offset by {
            lemma_partition_ordered(before, last.offset as int, i);
        }
        lemma_chunked_occurrences_prefix(view, before, last.offset as int, byte);
        lemma_occurrences_concat(head, last.bytes_of(view), byte);
        assert(view =~= head + last.bytes_of(view));
    }
}

/// Without its last chunk, a partition of `[0, len)` is a partition of what lies before
/// that chunk.
pub proof fn lemma_partition_drop_last(chunks: Seq<Chunk>, len: int)
    requires
        is_partition(chunks, len),
        chunks.len() > 0,
    ensures
        is_partition(chunks.drop_last(), chunks.last().offset as int),
        chunks.last().end() == len,
{
    let before = chunks.drop_last();
    assert forall|i: int, j: int|
        #![trigger before[i], before[j]]
        0 <= i && j == i + 1 && j < before.len() implies before[j].offset == before[i].end() by {
        assert(before[i] == chunks[i]);
        assert(before[j] == chunks[j]);
    }
    if before.len() > 0 {
        let i = chunks.len() - 2;
        let j = chunks.len() - 1;
        assert(before.last() == chunks[i]);
        assert(before.first() == chunks[0]);
        assert(chunks[j].offset == chunks[i].end());
    }
}

/// Every chunk of a partition of `[0, len)` lies inside `[0, len)`.
pub proof fn lemma_partition_ordered(chunks: Seq<Chunk>, len: int, i: int)
    requires
        is_partition(chunks, len),
        0 <= i < chunks.len(),
    ensures
        0 <= chunks[i].offset <= chunks[i].end() <= len,
    decreases chunks.len(),
{
    if i < chunks.len() - 1 {
        lemma_partition_drop_last(chunks, len);
        lemma_partition_ordered(chunks.drop_last(), chunks.last().offset as int, i);
        assert(chunks.drop_last()[i] == chunks[i]);
    }
}

/// Chunks that end at or before `cut` see the same bytes in `view` as in its first `cut` bytes.
proof fn lemma_chunked_occurrences_prefix(view: Seq<u8>, chunks: Seq<Chunk>, cut: int, byte: u8)
    requires
        0 <= cut <= view.len(),
        forall|i: int| 0 <= i < chunks.len() ==> (#[trigger] chunks[i]).end() <= cut,
    ensures
        chunked_occurrences(view.take(cut), chunks, byte) == chunked_occurrences(
            view,
            chunks,
            byte,
        ),
    decreases chunks.len(),
{
    if chunks.len() > 0 {
        let last = chunks.last();
        assert(last == chunks[chunks.len() - 1]);
        assert forall|i: int| 0 <= i < chunks.drop_last().len() implies (
        #[trigger] chunks.drop_last()[i]).end() <= cut by {
            assert(chunks.drop_last()[i] == chunks[i]);
        }
        lemma_chunked_occurrences_prefix(view, chunks.drop_last(), cut, byte);
        assert(last.bytes_of(view.take(cut)) =~= last.bytes_of(view));
    }
}

} // verus!
