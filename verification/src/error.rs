//! The one failure type of the loader: reading failed, or decoding did.

use vstd::prelude::*;
use vstd::std_specs::convert::FromSpecImpl;

verus! {

/// The error type of `std::io`.
#[verifier::external_type_specification]
#[verifier::external_body]
pub struct ExIoError(std::io::Error);

/// Why a model could not be loaded.
#[derive(Debug)]
pub enum SemantixError {
    /// The text could not be read.
    IO(std::io::Error),
    /// The text was read and is no model.
    Parse(serde_json::Error),
}

impl From<std::io::Error> for SemantixError {
    fn from(err: std::io::Error) -> (e: Self) {
        SemantixError::IO(err)
    }
}

impl FromSpecImpl<std::io::Error> for SemantixError {
    open spec fn obeys_from_spec() -> bool {
        true
    }

    open spec fn from_spec(err: std::io::Error) -> Self {
        SemantixError::IO(err)
    }
}

impl From<serde_json::Error> for SemantixError {
    fn from(err: serde_json::Error) -> (e: Self) {
        SemantixError::Parse(err)
    }
}

impl FromSpecImpl<serde_json::Error> for SemantixError {
    open spec fn obeys_from_spec() -> bool {
        true
    }

    open spec fn from_spec(err: serde_json::Error) -> Self {
        SemantixError::Parse(err)
    }
}

} // verus!
