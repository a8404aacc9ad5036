//! The errors of the command line tool.
use vstd::prelude::*;

verus! {

/// Why a pattern could not be matched against the input.
#[derive(Debug, PartialEq, Eq, Structural)]
pub enum GrepError {
    /// The pattern given with `-E` cannot be parsed.
    InvalidOptionProvided,
    /// The pattern cannot be matched against the input.
    FailedToMatch,
    /// The input could not be read.
    IOError,
}

impl GrepError {
    /// The message that describes this error.
    pub fn message(&self) -> (r: String)
        ensures
            r@ == match self {
                GrepError::InvalidOptionProvided => "Invalid option provided"@,
                GrepError::FailedToMatch => "Failted to match"@,
                GrepError::IOError => "IO error"@,
            },
    {
        match self {
            GrepError::InvalidOptionProvided => String::from_str("Invalid option provided"),
            GrepError::FailedToMatch => String::from_str("Failted to match"),
            GrepError::IOError => String::from_str("IO error"),
        }
    }
}

} // verus!
