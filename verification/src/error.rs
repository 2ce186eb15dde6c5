//! The ways an operation on the cache can fail.

use vstd::prelude::*;

verus! {

/// Why an operation failed.
#[derive(Debug, Clone, Copy, PartialEq, Eq, Structural)]
pub enum CacheError {
    /// An unknown handle, or a directory-only or leaf-only operation applied
    /// to the wrong kind of node.
    ProgrammingError,
    /// The remote service could not list or deliver a node.
    RemoteFailure,
    /// The cache file could not be named, created, written or renamed.
    LocalIoFailure,
    /// The preview extractor failed or left no output.
    ConversionFailure,
    /// The durable store refused a read or a write, or disagrees with the
    /// tree held in memory.
    PersistenceFailure,
}

} // verus!
