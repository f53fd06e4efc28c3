//! The failure taxonomy shared by every fallible operation.

use vstd::prelude::*;

verus! {

/// The reason a file name was rejected.
#[derive(Debug, Clone, Copy, PartialEq, Eq, Structural)]
pub enum NameFault {
    /// The name has no bytes.
    Empty,
    /// The name is longer than `MAX_FILE_NAME_LENGTH` bytes.
    TooLong,
    /// The name contains an ASCII whitespace byte.
    HasWhitespace,
}

/// The error of every fallible file-system operation.
#[derive(Debug, Clone, Copy, PartialEq, Eq, Structural)]
pub enum FsError {
    /// The target file is immutable.
    ReadOnly,
    /// Growth could not keep the file's bytes in one contiguous run.
    WouldFragment,
    /// No contiguous free run was found for a first allocation on `create`.
    TooManyExtents,
    /// No contiguous free run was found for a first allocation in a
    /// growth path, or for a full-write relocation.
    NoSpace,
    /// No live entry has the given name.
    NotFound,
    /// A live entry already has the given name.
    Duplicate,
    /// The given name is not a valid file name.
    FileNameInvalid(NameFault),
    /// The target file's name is sealed against renaming.
    FileNameSealed,
    /// The file table is full.
    TooManyFiles,
    /// The operation is not valid in the current state.
    InvalidOp,
    /// A dumped byte stream failed validation.
    Corrupt,
}

} // verus!
