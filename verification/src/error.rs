//! The ways a count can fail.

use vstd::prelude::*;

verus! {

/// Why a counting call gave no count.
#[derive(Clone, Copy, Debug, PartialEq, Eq, Structural)]
pub enum CountError {
    /// The file could not be opened.
    FileOpen,
    /// The file could not be mapped into memory.
    Mapping,
    /// The kernel refused the access-pattern hint with this status.
    Advise(i32),
    /// Reading a block from the file failed.
    Read,
    /// A worker could not scan the chunk it was given.
    Worker,
    /// The count does not fit in 64 bits.
    Overflow,
}

} // verus!
