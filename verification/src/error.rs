//! The library's errors.
use vstd::prelude::*;

verus! {

/// What can go wrong when reading an index or parsing a search's options.
#[derive(Debug)]
pub enum MlocateError {
    IndexNotFound { path: String },
    IndexVersionMismatch { found: u32, expected: u32 },
    IndexFormatError { details: String },
    InvalidSizeFilter { input: String },
    InvalidTimeFilter { input: String },
    InvalidMimeType { input: String },
    IndexLocked { path: String },
    Other(String),
}

} // verus!
