//! Errors that the engine reports.
use vstd::prelude::*;

verus! {

/// Why an operation of the engine failed.
#[derive(Clone, Copy, Debug, PartialEq, Eq, Structural)]
pub enum FsError {
    /// No free block was left when one was needed.
    AllocationExhausted,
    /// Walking a chain broke down at the given block: it was free, past the
    /// end of the table, or the walk went round a cycle.
    CorruptChain(usize),
    /// No entry of the current directory has the name.
    NotFound,
    /// An entry of the current directory already has the name.
    AlreadyExists,
    /// The directory holds entries besides `..` and `.`.
    NotEmpty,
    /// The entry is a file where a directory was needed, or the other way round.
    WrongKind,
    /// The name is empty, or is one of the structural names `..` and `.`.
    InvalidName,
    /// The bytes of a directory's chain do not hold a well-formed directory.
    CorruptDirectory,
}

} // verus!
