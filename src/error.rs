//! The errors that the library reports.
use vstd::prelude::*;

verus! {

/// What went wrong.
#[derive(Debug, Clone, Copy, PartialEq, Eq, Structural)]
pub enum SyncError {
    /// A block size of zero was given.
    InvalidChunkSize,
    /// The block size asked for differs from the signature's own.
    ChunkSizeMismatch { expected: usize, found: usize },
    /// A copy reads past the end of the base.
    CopyOutOfRange { offset: usize, length: usize, base_len: usize },
}

} // verus!
