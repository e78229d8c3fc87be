//! The failures that the store reports to its callers.

use vstd::prelude::*;

verus! {

/// Why an operation on the store did not succeed.
#[derive(Debug, Clone, Copy, PartialEq, Eq, Structural)]
pub enum Error {
    /// A looked-up key, or the record a link points to, is not in the store.
    KeyNotFound,
    /// Two entries of one batch carry the same key.
    DuplicateKeyInBatch,
    /// A key is longer than 255 bytes.
    KeyTooLong,
    /// A value is longer than 65 535 bytes.
    ValueTooLong,
    /// The bytes stored for a node are not a node record.
    DecodeError,
    /// The underlying store refused a write.
    StoreError,
    /// A range proof does not replay to the trusted root digest.
    ProofInvalid,
}

impl Error {
    /// A short description of the failure.
    pub fn message(&self) -> (text: &'static str)
        ensures
            text@ == match *self {
                Error::KeyNotFound => "key not found"@,
                Error::DuplicateKeyInBatch => "batch must not have duplicate keys"@,
                Error::KeyTooLong => "key must be less than 256 bytes"@,
                Error::ValueTooLong => "value must be less than 65,536 bytes"@,
                Error::DecodeError => "stored node does not decode"@,
                Error::StoreError => "store error"@,
                Error::ProofInvalid => "proof is invalid"@,
            },
    {
        match self {
            Error::KeyNotFound => "key not found",
            Error::DuplicateKeyInBatch => "batch must not have duplicate keys",
            Error::KeyTooLong => "key must be less than 256 bytes",
            Error::ValueTooLong => "value must be less than 65,536 bytes",
            Error::DecodeError => "stored node does not decode",
            Error::StoreError => "store error",
            Error::ProofInvalid => "proof is invalid",
        }
    }
}

} // verus!
