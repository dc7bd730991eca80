//! The errors that the request layer reports in its response envelope.

use vstd::prelude::*;

verus! {

/// What kind of failure a response reports.
#[derive(Clone, Copy, Debug, PartialEq, Eq, Structural)]
pub enum PartsErrorCode {
    LockError,
    MissingPartError,
    CreatePartError,
    RequestError,
}

impl PartsErrorCode {
    /// The number that stands for the code in a response.
    pub open spec fn spec_number(self) -> u32 {
        match self {
            PartsErrorCode::LockError => 1,
            PartsErrorCode::MissingPartError => 2,
            PartsErrorCode::CreatePartError => 3,
            PartsErrorCode::RequestError => 4,
        }
    }

    /// The number that stands for the code in a response.
    pub fn number(&self) -> (r: u32)
        ensures
            r == self.spec_number(),
    {
        match self {
            PartsErrorCode::LockError => 1,
            PartsErrorCode::MissingPartError => 2,
            PartsErrorCode::CreatePartError => 3,
            PartsErrorCode::RequestError => 4,
        }
    }
}

/// A failure as a response reports it: its kind and a description.
#[derive(Debug)]
pub struct PartsError {
    pub code: PartsErrorCode,
    pub description: String,
}

impl PartsError {
    pub fn new(code: PartsErrorCode, description: String) -> (r: PartsError)
        ensures
            r.code == code,
            r.description == description,
    {
        PartsError { code, description }
    }
}

} // verus!
