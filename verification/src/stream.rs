//! The streamed strategy: a file read block by block, each block scanned as it arrives.
//!
//! Reading is the caller's business. What is decided here is what each read means for the
//! running count: whether to go on, to stop with the total, or to fail.

use vstd::prelude::*;
use crate::error::CountError;
use crate::scan::lemma_occurrences_concat;
use crate::scan::lemma_occurrences_empty;
use crate::scan::line_count;
use crate::scan::Scanner;
use crate::scan::NEWLINE;

verus! {

/// The size of the blocks in which a file is read: 16 KiB.
pub const BLOCK_SIZE: usize = 16384;

/// What one attempt to read the next block gave.
#[derive(Clone, Copy, Debug)]
pub enum BlockRead<'a> {
    /// The bytes that were read; none at all at the end of the file.
    Data(&'a [u8]),
    /// The read failed.
    Failed,
}

impl<'a> BlockRead<'a> {
    /// The read ends the stream: it failed, or it found the end of the file.
    pub open spec fn is_stop(self) -> bool {
        match self {
            BlockRead::Data(bytes) => bytes@.len() == 0,
            BlockRead::Failed => true,
        }
    }

    /// The bytes that the read delivered, none where it failed.
    pub open spec fn bytes(self) -> Seq<u8> {
        match self {
            BlockRead::Data(bytes) => bytes@,
            BlockRead::Failed => Seq::empty(),
        }
    }
}

/// What to do after a read.
#[derive(Clone, Copy, Debug, PartialEq, Eq, Structural)]
pub enum Step {
    /// Read the next block; the count so far is given.
    More(u64),
    /// The stream has ended with this total.
    Done(u64),
}

/// What a read means for a running count of `lines`.
pub open spec fn next_step(lines: u64, read: BlockRead) -> Result<Step, CountError> {
    match read {
        BlockRead::Failed => Err(CountError::Read),
        BlockRead::Data(bytes) => if bytes@.len() == 0 {
            Ok(Step::Done(lines))
        } else if lines + line_count(bytes@) > u64::MAX {
            Err(CountError::Overflow)
        } else {
            Ok(Step::More((lines + line_count(bytes@)) as u64))
        },
    }
}

/// Takes one read into a running count of `lines`: a failed read fails the count, an empty
/// one ends it, and any other adds the line terminators of its block.
pub fn step(lines: u64, read: BlockRead, scanner: Scanner) -> (next: Result<Step, CountError>)
    ensures
        next == next_step(lines, read),
{
    match read {
        BlockRead::Failed => Err(CountError::Read),
        BlockRead::Data(bytes) => {
            if bytes.len() == 0 {
                Ok(Step::Done(lines))
            } else {
                let found = scanner.count_lines(bytes);
                if found > u64::MAX - lines {
                    Err(CountError::Overflow)
                } else {
                    Ok(Step::More(lines + found))
                }
            }
        },
    }
}

/// The bytes of the first `n` reads, one block after the other.
pub open spec fn blocks_bytes(reads: Seq<BlockRead>, n: int) -> Seq<u8>
    decreases n,
{
    if n <= 0 {
        Seq::empty()
    } else {
        blocks_bytes(reads, n - 1) + reads[n - 1].bytes()
    }
}

/// `k` is where the stream ends: no read before `k` is a stop, and `k` is the first stop
/// or, where there is none, the number of reads.
pub open spec fn ends_at(reads: Seq<BlockRead>, k: int) -> bool {
    &&& 0 <= k <= reads.len()
    &&& forall|j: int| 0 <= j < k ==> !(#[trigger] reads[j]).is_stop()
    &&& k < reads.len() ==> reads[k].is_stop()
}

/// Where the stream ends: the index of the first read that is a stop, or the number of
/// reads where there is none.
pub open spec fn stop_index(reads: Seq<BlockRead>) -> int
    decreases reads.len(),
{
    if reads.len() == 0 || reads.first().is_stop() {
        0
    } else {
        1 + stop_index(reads.drop_first())
    }
}

/// The file's bytes as the reads delivered them: the blocks up to where the stream ends.
pub open spec fn stream_bytes(reads: Seq<BlockRead>) -> Seq<u8> {
    blocks_bytes(reads, stop_index(reads))
}

/// The stream ends in a failed read.
pub open spec fn stream_failed(reads: Seq<BlockRead>) -> bool {
    stop_index(reads) < reads.len() && reads[stop_index(reads)] is Failed
}

/// The streamed count of a sequence of reads: the line terminators among the bytes that
/// were delivered before the stream ended, however they were cut into blocks. A count
/// beyond 64 bits is an error, and so is a stream that ends in a failed read.
pub open spec fn stream_outcome(reads: Seq<BlockRead>) -> Result<u64, CountError> {
    let lines = line_count(stream_bytes(reads));
    if lines > u64::MAX {
        Err(CountError::Overflow)
    } else if stream_failed(reads) {
        Err(CountError::Read)
    } else {
        Ok(lines as u64)
    }
}

/// `stop_index` is the one index at which the stream ends.
pub proof fn lemma_stop_index(reads: Seq<BlockRead>, k: int)
    requires
        ends_at(reads, k),
    ensures
        stop_index(reads) == k,
    decreases reads.len(),
{
    if k > 0 {
        let rest = reads.drop_first();
        assert(!reads[0].is_stop());
        assert forall|j: int| 0 <= j < k - 1 implies !(#[trigger] rest[j]).is_stop() by {
            assert(rest[j] == reads[j + 1]);
        }
        lemma_stop_index(rest, k - 1);
    }
}

/// Counts the line terminators of a file from the reads that delivered it, in order.
/// Reads behind the one that ends the stream are not looked at.
pub fn count_stream(reads: &[BlockRead], scanner: Scanner) -> (total: Result<u64, CountError>)
    ensures
        total == stream_outcome(reads@),
{
    let mut lines: u64 = 0;
    let mut i: usize = 0;
    proof {
        lemma_occurrences_empty(NEWLINE);
    }
    while i < reads.len()
        invariant
            i <= reads.len(),
            forall|j: int| 0 <= j < i ==> !(#[trigger] reads@[j]).is_stop(),
            lines == line_count(blocks_bytes(reads@, i as int)),
        decreases reads.len() - i,
    {
        proof {
            lemma_occurrences_concat(blocks_bytes(reads@, i as int), reads@[i as int].bytes(), NEWLINE);
        }
        match step(lines, reads[i], scanner) {
            Ok(Step::More(more)) => {
                lines = more;
            },
            Ok(Step::Done(total)) => {
                proof {
                    lemma_stop_index(reads@, i as int);
                }
                return Ok(total);
            },
            Err(e) => {
                proof {
                    if reads@[i as int].is_stop() {
                        lemma_stop_index(reads@, i as int);
                    } else {
                        lemma_blocks_bytes_grow(reads@, i + 1);
                    }
                }
                return Err(e);
            },
        }
        i = i + 1;
    }
    proof {
        lemma_stop_index(reads@, i as int);
    }
    Ok(lines)
}

/// Once the first `n` reads, none of them a stop, hold more line terminators than fit in
/// 64 bits, so does the whole stream.
proof fn lemma_blocks_bytes_grow(reads: Seq<BlockRead>, n: int)
    requires
        0 <= n <= reads.len(),
        forall|j: int| 0 <= j < n ==> !(#[trigger] reads[j]).is_stop(),
    ensures
        n <= stop_index(reads),
        line_count(blocks_bytes(reads, n)) <= line_count(stream_bytes(reads)),
{
    let k = choose_end(reads, n);
    lemma_stop_index(reads, k);
    lemma_blocks_bytes_monotone(reads, n, k);
}

/// An index at or behind `n` at which the stream ends, given that it does not end before `n`.
proof fn choose_end(reads: Seq<BlockRead>, n: int) -> (k: int)
    requires
        0 <= n <= reads.len(),
        forall|j: int| 0 <= j < n ==> !(#[trigger] reads[j]).is_stop(),
    ensures
        n <= k,
        ends_at(reads, k),
    decreases reads.len() - n,
{
    if n == reads.len() || reads[n].is_stop() {
        n
    } else {
        choose_end(reads, n + 1)
    }
}

/// More blocks hold at least as many line terminators.
proof fn lemma_blocks_bytes_monotone(reads: Seq<BlockRead>, n: int, k: int)
    requires
        0 <= n <= k,
    ensures
        line_count(blocks_bytes(reads, n)) <= line_count(blocks_bytes(reads, k)),
    decreases k - n,
{
    if n < k {
        lemma_blocks_bytes_monotone(reads, n, k - 1);
        lemma_occurrences_concat(blocks_bytes(reads, k - 1), reads[k - 1].bytes(), NEWLINE);
    }
}

/// Whether the kernel took an access-pattern hint: a status other than zero is an error
/// that carries the status.
pub fn check_advice(status: i32) -> (taken: Result<(), CountError>)
    ensures
        match taken {
            Ok(_) => status == 0,
            Err(e) => status != 0 && e == CountError::Advise(status),
        },
{
    if status == 0 {
        Ok(())
    } else {
        Err(CountError::Advise(status))
    }
}

} // verus!
