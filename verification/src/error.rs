use vstd::prelude::*;

verus! {

/// The error kinds that the pipeline stages surface. Every stage reports its
/// first failure to the caller; there is no local recovery.
#[derive(Debug, Clone, Copy, PartialEq, Eq)]
pub enum DataError {
    /// The raw bytes could not be fetched.
    NetworkError,
    /// The raw bytes are not a well-formed table.
    ParseError,
    /// A named column is missing, or is an invalid filter / group / axis target.
    SchemaError,
    /// A value is outside the numeric domain (a sum does not fit in `i64`).
    ValueError,
    /// The rendered output could not be written.
    IoError,
}

impl DataError {
    /// A short human-readable name for the error kind.
    pub fn describe(&self) -> &'static str {
        match self {
            DataError::NetworkError => "network error",
            DataError::ParseError => "parse error",
            DataError::SchemaError => "schema error",
            DataError::ValueError => "value error",
            DataError::IoError => "i/o error",
        }
    }
}

} // verus!
