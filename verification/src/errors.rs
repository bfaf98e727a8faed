use vstd::prelude::*;

verus! {

/// The error surface of the ledger.
///
/// Every failure is reported to the caller; nothing is retried or swallowed.
#[derive(Debug, Clone, Copy, PartialEq, Eq, Structural)]
pub enum LedgerError {
    /// The system clock could not be read while stamping a new block.
    ClockError,
    /// In-memory state could not be serialized; indicates a programming defect.
    SerializationError,
    /// The underlying key-value store reported an I/O failure.
    StorageError,
    /// A chain was opened where none exists, or created where one already exists.
    ChainStateError,
    /// Stored bytes failed to decode as a block during traversal.
    EncodingError,
}

} // verus!
