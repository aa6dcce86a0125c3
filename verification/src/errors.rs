//! The error taxonomy of the pipeline: wrapped I/O failures and rejected
//! input, both returned to the caller rather than aborting the process.

use vstd::prelude::*;

verus! {

/// Declares `std::io::Error` so that a value of it can be carried inside
/// `MergeTranscriptError`; nothing is assumed about its contents.
#[verifier::external_type_specification]
#[verifier::external_body]
pub struct ExIoError(std::io::Error);

/// An error of the transcript pipeline.
///
/// `IoError` wraps an underlying read, write or create failure unchanged;
/// `InvalidInput` carries a human-readable message for input the pipeline
/// rejects (an empty file, an empty token sequence).
#[derive(Debug)]
pub enum MergeTranscriptError {
    IoError(std::io::Error),
    InvalidInput(String),
}

impl From<std::io::Error> for MergeTranscriptError {
    fn from(error: std::io::Error) -> (r: Self) {
        MergeTranscriptError::IoError(error)
    }
}

impl vstd::std_specs::convert::FromSpecImpl<std::io::Error> for MergeTranscriptError {
    open spec fn obeys_from_spec() -> bool {
        true
    }

    open spec fn from_spec(error: std::io::Error) -> Self {
        MergeTranscriptError::IoError(error)
    }
}

} // verus!
