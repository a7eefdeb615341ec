//! The errors of the library.
use vstd::prelude::*;

verus! {

/// What can go wrong with a geohash request.
#[derive(Debug, Clone, Copy, PartialEq, Eq, Structural)]
pub enum GeohashError {
    /// The code holds a character outside the geohash alphabet.
    InvalidCode,
    /// A coordinate or an argument is out of range.
    InvalidArgument,
}

impl GeohashError {
    /// The message that describes the error.
    pub fn message(&self) -> (s: &'static str)
        ensures
            *self == GeohashError::InvalidCode ==> s@
                == "geohash code is [0123456789bcdefghjkmnpqrstuvwxyz]+"@,
            *self == GeohashError::InvalidArgument ==> s@ == "Invalid argument"@,
    {
        match self {
            GeohashError::InvalidCode => "geohash code is [0123456789bcdefghjkmnpqrstuvwxyz]+",
            GeohashError::InvalidArgument => "Invalid argument",
        }
    }
}

} // verus!
