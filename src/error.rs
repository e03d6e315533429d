//! The errors of the store.
use vstd::prelude::*;

verus! {

/// Why an operation of the store failed.
#[derive(Debug, Clone, Copy, PartialEq, Eq, Structural)]
pub enum StoreError {
    /// Stored bytes do not decode: a torn record, a reference out of range, invalid UTF-8.
    Corrupt,
    /// The log would outgrow what a reference field can address.
    Full,
    /// A key needs the discriminator bit and cannot be stored as a literal.
    KeyOutOfRange,
    /// A variable-length key is longer than its two-byte length prefix can state.
    KeyTooLong,
}

} // verus!
