//! Errors returned when bytes are turned back into records.

use vstd::prelude::*;

verus! {

/// Why a byte string was not accepted as a record.
#[derive(Clone, Copy, Debug, PartialEq, Eq, Structural)]
pub enum LedgerError {
    /// The bytes are truncated, carry an invalid option tag, or are followed
    /// by trailing input.
    DecodeError,
    /// The bytes are well formed, but a transaction in them does not carry
    /// the identifier derived from its sender and nonce.
    CorruptedTransaction,
    /// The bytes are well formed and every transaction is intact, but the
    /// block does not carry the identifier derived from its contents.
    CorruptedBlock,
}

} // verus!
