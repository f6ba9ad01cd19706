use vstd::prelude::*;

verus! {

/// Error taxonomy of the store and of the indexing orchestrator.
///
/// `StorageUnavailable` and `StorageReadError` are produced by the I/O layer
/// that persists a store; callers treat both as "index absent" and degrade to
/// an empty result rather than failing hard.
#[derive(Clone, Copy, Debug, PartialEq, Eq, Structural)]
pub enum Error {
    /// The per-project store cannot be opened or created.
    StorageUnavailable,
    /// A write or transaction failed, or a batch violated a key constraint;
    /// partial writes are rolled back before this surfaces.
    StorageWriteError,
    /// A read or query failed; callers treat this as an empty result set.
    StorageReadError,
    /// The external embedding call failed, or returned a number of vectors
    /// different from the number of texts submitted.
    EmbeddingProviderError,
}

impl Error {
    /// A short human-readable description of the error.
    pub open spec fn message_spec(self) -> Seq<char> {
        match self {
            Error::StorageUnavailable => "storage unavailable"@,
            Error::StorageWriteError => "storage write error"@,
            Error::StorageReadError => "storage read error"@,
            Error::EmbeddingProviderError => "embedding provider error"@,
        }
    }

    pub fn message(&self) -> (r: &'static str)
        ensures
            r@ == self.message_spec(),
    {
        match self {
            Error::StorageUnavailable => "storage unavailable",
            Error::StorageWriteError => "storage write error",
            Error::StorageReadError => "storage read error",
            Error::EmbeddingProviderError => "embedding provider error",
        }
    }
}

} // verus!
