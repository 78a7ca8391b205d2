//! The counting strategies, each under its own name.
//!
//! A streamed strategy takes the reads that deliver the file, in order; a mapped one takes
//! the file as one byte view. Where a strategy asks the kernel for sequential read-ahead
//! first, it also takes the status that the kernel answered with, and a status other than
//! zero fails the count before a byte is looked at.

use vstd::prelude::*;
use crate::error::CountError;
use crate::parallel::count_chunked;
use crate::parallel::DEFAULT_WORKERS;
use crate::scan::count_buf_lines;
use crate::scan::count_byte_naive;
use crate::scan::line_count;
use crate::scan::Scanner;
use crate::scan::NEWLINE;
use crate::stream::check_advice;
use crate::stream::count_stream;
use crate::stream::stream_outcome;
use crate::stream::BlockRead;

verus! {

/// Streamed, byte by byte, without a hint.
pub fn count_bufread_serial(reads: &[BlockRead]) -> (total: Result<u64, CountError>)
    ensures
        total == stream_outcome(reads@),
{
    count_stream(reads, Scanner::Naive)
}

/// Streamed, byte by byte, after a hint on the file that gave `status`.
pub fn count_bufread_serial_fadvise(status: i32, reads: &[BlockRead]) -> (total: Result<
    u64,
    CountError,
>)
    ensures
        status == 0 ==> total == stream_outcome(reads@),
        status != 0 ==> total == Err::<u64, _>(CountError::Advise(status)),
{
    match check_advice(status) {
        Ok(_) => count_stream(reads, Scanner::Naive),
        Err(e) => Err(e),
    }
}

/// Streamed in blocks that the caller reads by hand, byte by byte, after a hint on the
/// file that gave `status`.
pub fn count_manual_read_fadvise(status: i32, reads: &[BlockRead]) -> (total: Result<
    u64,
    CountError,
>)
    ensures
        status == 0 ==> total == stream_outcome(reads@),
        status != 0 ==> total == Err::<u64, _>(CountError::Advise(status)),
{
    match check_advice(status) {
        Ok(_) => count_stream(reads, Scanner::Naive),
        Err(e) => Err(e),
    }
}

/// Streamed in blocks that the caller reads by hand, with the searching scanner, after a
/// hint on the file that gave `status`.
pub fn count_manual_read_memchr_fadvise(status: i32, reads: &[BlockRead]) -> (total: Result<
    u64,
    CountError,
>)
    ensures
        status == 0 ==> total == stream_outcome(reads@),
        status != 0 ==> total == Err::<u64, _>(CountError::Advise(status)),
{
    match check_advice(status) {
        Ok(_) => count_stream(reads, Scanner::Search),
        Err(e) => Err(e),
    }
}

/// The whole mapped view in one pass, byte by byte.
pub fn count_mmap_serial(view: &[u8]) -> (lines: u64)
    ensures
        lines == line_count(view@),
{
    count_byte_naive(view, NEWLINE)
}

/// The whole mapped view in one pass, with the searching scanner.
pub fn count_mmap_serial_memchr(view: &[u8]) -> (lines: u64)
    ensures
        lines == line_count(view@),
{
    count_buf_lines(view)
}

/// The whole mapped view in one pass, byte by byte, after a hint on the mapping that gave
/// `status`.
pub fn count_mmap_serial_madvise(status: i32, view: &[u8]) -> (total: Result<u64, CountError>)
    ensures
        match total {
            Ok(lines) => status == 0 && lines == line_count(view@),
            Err(e) => status != 0 && e == CountError::Advise(status),
        },
{
    match check_advice(status) {
        Ok(_) => Ok(count_byte_naive(view, NEWLINE)),
        Err(e) => Err(e),
    }
}

/// The whole mapped view in one pass, with the searching scanner, after a hint on the
/// mapping that gave `status`.
pub fn count_mmap_serial_madvise_memchr(status: i32, view: &[u8]) -> (total: Result<
    u64,
    CountError,
>)
    ensures
        match total {
            Ok(lines) => status == 0 && lines == line_count(view@),
            Err(e) => status != 0 && e == CountError::Advise(status),
        },
{
    match check_advice(status) {
        Ok(_) => Ok(count_buf_lines(view)),
        Err(e) => Err(e),
    }
}

/// The mapped view in the chunks of four workers, each chunk scanned byte by byte.
pub fn count_mmap_parallel(view: &[u8]) -> (lines: u64)
    ensures
        lines == line_count(view@),
{
    count_chunked(view, DEFAULT_WORKERS, Scanner::Naive)
}

/// The mapped view in the chunks of four workers, each chunk scanned with the searching
/// scanner.
pub fn count_mmap_parallel_memchr(view: &[u8]) -> (lines: u64)
    ensures
        lines == line_count(view@),
{
    count_chunked(view, DEFAULT_WORKERS, Scanner::Search)
}

} // verus!
