//! The error kinds that the store's fallible operations report.

use vstd::prelude::*;

verus! {

/// Everything that can go wrong inside the store.
///
/// Absence of a key on a lookup is success (`None`), never an error; only
/// `remove` of an absent key reports `KeyNotFound`.  Filesystem failures are
/// the caller's to report: the store itself performs no I/O.
#[derive(Clone, Copy, Debug, PartialEq, Eq, Structural)]
pub enum KvsError {
    /// `remove` was asked for a key that is not in the store.
    KeyNotFound,
    /// A single line failed to decode as a record.
    CorruptRecord,
    /// Recovery met a line that failed to decode; the whole log is suspect.
    CorruptLog,
    /// No record starts at the requested log offset.
    TruncatedOrMissingRecord,
}

impl KvsError {
    /// A short human-readable description of the error.
    pub fn message(&self) -> (r: &'static str)
        ensures
            self is KeyNotFound ==> r@ == "Key not found"@,
    {
        match self {
            KvsError::KeyNotFound => "Key not found",
            KvsError::CorruptRecord => "Corrupt record",
            KvsError::CorruptLog => "Corrupt log",
            KvsError::TruncatedOrMissingRecord => "Truncated or missing record",
        }
    }
}

} // verus!
