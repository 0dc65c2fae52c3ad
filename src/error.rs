//! What can go wrong with a batch.
use vstd::prelude::*;

verus! {

/// Every failure aborts the whole batch.
#[derive(Debug, Clone, Copy, PartialEq, Eq, Structural)]
pub enum ProverError {
    /// A transcript's symbol counts differ from the fixed ones, or the
    /// transcript and public-input batches differ in length.
    Shape,
    /// A symbol does not fit its radix.
    SymbolRange,
    /// A nonce is not a decimal number below 2^256.
    Nonce,
    /// Wire bytes do not follow the expected layout.
    Decode,
    /// The proving engine failed on a round.
    Proving,
    /// A fresh proof did not verify against its round's public inputs.
    VerificationMismatch,
}

} // verus!
