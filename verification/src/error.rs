//! The ways in which an operation of the engine fails.

use vstd::prelude::*;

verus! {

/// Why an operation was refused or a proof rejected.
#[derive(Clone, Copy, Debug, PartialEq, Eq, Structural)]
pub enum Error {
    /// A row, a message or a part of a proof does not have the length that
    /// the parameters fix.
    InvalidInputLength,
    /// The parameters cannot reach the security that was asked for.
    InvalidParameters,
    /// A membership path does not lead to the committed root.
    MerkleMismatch,
    /// The encoding of the combined row disagrees with an opened column.
    CodewordInconsistency,
    /// The sampled columns show that the committed rows are not close to
    /// codewords.
    ProximityFailure,
    /// The challenges do not belong to this commitment.
    TranscriptDesync,
}

} // verus!
