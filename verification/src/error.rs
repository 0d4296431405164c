//! The shared failure vocabulary of the record store.

use vstd::prelude::*;

verus! {

/// An error raised while building a protocol record from parts: a required
/// field was never supplied.
#[derive(Debug, Clone)]
pub enum BuildError {
    MissingField(String),
}

/// Every failure the record store can surface to a caller.
#[derive(Debug, Clone)]
pub enum SimpleStateError {
    /// The configured prefix and segment lengths of an addresser do not sum
    /// to exactly [`crate::ADDRESS_LENGTH`].
    AddresserError(String),
    /// Bytes fetched from the raw store do not parse as a record bucket.
    SerializationError(String),
    /// A record could not be built from its parts.
    ProtocolBuildError(BuildError),
    /// A failure propagated verbatim from the raw store.
    SdkError(String),
}

impl BuildError {
    /// A human-readable description of the error.
    pub fn message(&self) -> (r: String)
        ensures
            r@ == (match self {
                BuildError::MissingField(s) => s@,
            }),
    {
        match self {
            BuildError::MissingField(s) => s.clone(),
        }
    }
}

} // verus!
