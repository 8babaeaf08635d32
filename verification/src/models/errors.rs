use vstd::prelude::*;

verus! {

/// Every way an engine operation can fail. The payload is a message for
/// people and carries no meaning of its own.
#[derive(Debug, PartialEq)]
pub enum VectorEngineError {
    /// A supplied vector's length differs from the engine's dimension.
    DimensionMismatch(String),
    /// The engine's state could not be encoded.
    SerializationError(String),
    /// A checkpoint could not be decoded, or does not fit the engine it is
    /// loaded into.
    DeserializationError(String),
    /// No document has the given identifier.
    ItemNotFound(String),
}

/// The four kinds of failure, without their messages.
#[derive(Clone, Copy, Debug, PartialEq, Eq, Structural)]
pub enum ErrorKind {
    DimensionMismatch,
    SerializationError,
    DeserializationError,
    ItemNotFound,
}

impl VectorEngineError {
    /// The kind of this failure.
    pub open spec fn spec_kind(&self) -> ErrorKind {
        match self {
            VectorEngineError::DimensionMismatch(_) => ErrorKind::DimensionMismatch,
            VectorEngineError::SerializationError(_) => ErrorKind::SerializationError,
            VectorEngineError::DeserializationError(_) => ErrorKind::DeserializationError,
            VectorEngineError::ItemNotFound(_) => ErrorKind::ItemNotFound,
        }
    }

    /// The kind of this failure.
    #[verifier::when_used_as_spec(spec_kind)]
    pub fn kind(&self) -> (r: ErrorKind)
        ensures
            r == self.spec_kind(),
    {
        match self {
            VectorEngineError::DimensionMismatch(_) => ErrorKind::DimensionMismatch,
            VectorEngineError::SerializationError(_) => ErrorKind::SerializationError,
            VectorEngineError::DeserializationError(_) => ErrorKind::DeserializationError,
            VectorEngineError::ItemNotFound(_) => ErrorKind::ItemNotFound,
        }
    }

    /// The human-readable message carried by this failure.
    pub fn message(&self) -> (r: &String)
        ensures
            r == match self {
                VectorEngineError::DimensionMismatch(m) => m,
                VectorEngineError::SerializationError(m) => m,
                VectorEngineError::DeserializationError(m) => m,
                VectorEngineError::ItemNotFound(m) => m,
            },
    {
        match self {
            VectorEngineError::DimensionMismatch(m) => m,
            VectorEngineError::SerializationError(m) => m,
            VectorEngineError::DeserializationError(m) => m,
            VectorEngineError::ItemNotFound(m) => m,
        }
    }
}

/// Calls `format!` to render the message of a dimension mismatch.
#[verifier::external_body]
pub(crate) fn dimension_message(got: usize, expected: usize) -> (r: String) {
    format!("vector dimension ({}) does not match the engine's dimension ({})", got, expected)
}

/// Calls `format!` to render the message for an unknown identifier.
#[verifier::external_body]
pub(crate) fn not_found_message(id: u64) -> (r: String) {
    format!("ID {} not found", id)
}

} // verus!
