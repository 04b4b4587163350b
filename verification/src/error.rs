use vstd::prelude::*;

verus! {

/// Faults reported by a key-value backend.
#[derive(Debug, Clone, PartialEq, Eq)]
pub enum KvError {
    /// An I/O fault inside the backend, with a description.
    IOError(String),
    /// A fault specific to the backend implementation, with a description.
    ImplError(String),
    /// Any other backend fault.
    Unknown,
}

/// Faults reported by the versioned store.
#[derive(Debug, Clone, PartialEq, Eq)]
pub enum Error {
    /// The init marker or its payload is malformed, with a description.
    InitError(String),
    /// No persisted Index exists for a version that requires one.
    IndexNotFound,
    /// A diff selected a partition for which neither side has a Pack.
    InvalidDiffState,
    /// The Index names a version for a partition but no Pack is stored
    /// there: `(version, partition)`.
    PackNotFound(u16, u32),
    /// No Commit is recorded for the requested version.
    CommitNotFound(u16),
    /// The head version is missing from the commit map.
    HeadVersionNotFound(u16),
    /// The open version is missing from the commit map.
    VersionNotFound(u16),
    /// Opening a new version would exceed the version number range.
    VersionOverflow,
    /// A persisted record does not decode under the binary layout.
    DecodeError,
    /// A fault propagated from the key-value backend.
    KVError(KvError),
    /// Any other fault.
    Unknown,
}

} // verus!
