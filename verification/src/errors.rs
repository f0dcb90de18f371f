//! The error taxonomy of the storage engine and the import pipeline.

use vstd::prelude::*;

verus! {

/// Why a storage or pipeline operation failed.
///
/// `NotFound` is returned whenever a referenced id does not exist;
/// `InvalidInput` when an uploaded file is not decodable as an image or
/// archive entry, or when an operation would corrupt the container tree;
/// `ExternalServiceFailure` when an outside service gave no usable answer;
/// `Integrity` when the store itself is corrupted (no root container);
/// `Storage` for any other internal failure of the persistence layer.
#[derive(Clone, Copy, Debug, PartialEq, Eq, Structural)]
pub enum StoreError {
    NotFound,
    InvalidInput,
    ExternalServiceFailure,
    Integrity,
    Storage,
}

impl StoreError {
    /// A short human-readable tag for the error, usable as a job status text.
    pub fn message(&self) -> (r: &'static str)
        ensures
            *self is NotFound ==> r@ == "not found"@,
            *self is InvalidInput ==> r@ == "invalid input"@,
            *self is ExternalServiceFailure ==> r@ == "external service failure"@,
            *self is Integrity ==> r@ == "integrity error"@,
            *self is Storage ==> r@ == "storage error"@,
    {
        match self {
            StoreError::NotFound => "not found",
            StoreError::InvalidInput => "invalid input",
            StoreError::ExternalServiceFailure => "external service failure",
            StoreError::Integrity => "integrity error",
            StoreError::Storage => "storage error",
        }
    }
}

} // verus!
