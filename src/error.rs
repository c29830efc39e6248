//! The errors of the object store's operations.
use vstd::prelude::*;

verus! {

#[derive(Clone, Copy, Debug, PartialEq, Eq, Structural)]
pub enum ObjError {
    /// A file system access failed.
    Io,
    /// No object is stored under the requested fingerprint.
    NotFound,
    /// The framing breaks the header, NUL or length rules.
    Malformed,
    /// The object is a blob where a tree was asked for, or the other way round.
    WrongKind,
    /// The stored bytes do not decompress, or declare another length than
    /// their payload has.
    Corrupt,
    /// An entry name is empty or holds a `/` or a NUL byte.
    InvalidName,
    /// A tree already has an entry of that name.
    DuplicateName,
}

} // verus!
