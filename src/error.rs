//! The ways a ledger operation can fail.

use vstd::prelude::*;

verus! {

/// Why a ledger operation failed.
#[derive(Debug, Clone, Copy, PartialEq, Eq, Structural)]
pub enum LedgerError {
    /// The storage root is not configured or cannot be read.
    StorageUnavailable,
    /// A date, an amount or a record row is malformed.
    ParseFailure,
    /// A position beyond the end of the month's list was addressed.
    IndexOutOfRange,
    /// Writing or creating a file failed.
    IoFailure,
}

impl LedgerError {
    /// A short human-readable description.
    pub fn message(&self) -> (r: &'static str) {
        match self {
            LedgerError::StorageUnavailable => "storage root is not available",
            LedgerError::ParseFailure => "malformed date, amount or record",
            LedgerError::IndexOutOfRange => "no entry at that position",
            LedgerError::IoFailure => "cannot write the month file",
        }
    }
}

} // verus!
