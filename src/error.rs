//! The failures of the world program.

use vstd::prelude::*;

verus! {

/// Failures of the world program. Every failure aborts the whole invocation.
#[derive(Debug, Clone, Copy, PartialEq, Eq, Structural)]
pub enum WorldError {
    /// Fewer accounts were supplied than the operation needs.
    AccountShortage,
    /// The caller is not a recognised authority or signer.
    AuthorizationFailure,
    /// The system is not in the world's approved set.
    SystemNotApproved,
    /// The system's output declares a segment count other than the number of component pairs.
    InvalidOutputCount,
    /// Declared lengths disagree with the buffer size, or point out of bounds.
    LayoutCorruption,
    /// Unknown opcode or malformed instruction payload.
    InstructionDecodeFailure,
    /// An outbound call (transfer, relay or update) failed.
    ExternalCallFailure,
}

} // verus!
