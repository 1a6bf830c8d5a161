//! The ways in which writing an index can fail.

use vstd::prelude::*;

verus! {

/// Why an index could not be written.
#[derive(Clone, Copy, Debug, PartialEq, Eq, Structural)]
pub enum IndexError {
    /// The target file is already there; nothing was written.
    AlreadyExists,
    /// Another process holds the lock on the target file.
    Lock,
    /// A content hash is not valid hexadecimal text.
    Encode,
    /// Reading or writing the file failed.
    Io,
    /// The index was already written; it is written once.
    Finalized,
    /// A step was reported that does not follow the one before.
    OutOfOrder,
}

} // verus!
