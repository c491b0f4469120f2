//! The errors of the log store.
use vstd::prelude::*;

verus! {

/// serde_json's error, carried by `WalError::Serialization`; opaque here.
#[verifier::external_type_specification]
#[verifier::external_body]
pub struct ExJsonError(serde_json::Error);

/// std's I/O error, carried by `WalError::Io`; opaque here.
#[verifier::external_type_specification]
#[verifier::external_body]
pub struct ExIoError(std::io::Error);

/// What can go wrong in the log store.
#[derive(Debug)]
pub enum WalError {
    /// Opening, reading, writing, seeking or flushing the storage failed.
    Io(std::io::Error),
    /// A record could not be encoded.
    Serialization(serde_json::Error),
    /// A stored line is not a record (strict reads), or no id is left to assign.
    InvalidEntry,
}

impl WalError {
    /// A short description of the error.
    pub fn describe(&self) -> (r: String)
        ensures
            r@ == match self {
                WalError::Io(_) => "io error"@,
                WalError::Serialization(_) => "serialization error"@,
                WalError::InvalidEntry => "invalid log entry"@,
            },
    {
        match self {
            WalError::Io(_) => "io error".to_string(),
            WalError::Serialization(_) => "serialization error".to_string(),
            WalError::InvalidEntry => "invalid log entry".to_string(),
        }
    }
}

} // verus!
