//! The error taxonomy of proof construction.

use vstd::prelude::*;

verus! {

/// The ways range resolution and proof construction can fail. Every
/// failure aborts the whole proof-construction operation; there is no
/// partial-proof recovery.
#[derive(Clone, Copy, Debug, PartialEq, Eq, Structural)]
pub enum ProofError {
    /// A range violates `start < end <= transcript length`.
    InvalidRange,
    /// A redaction pattern of zero length was supplied; a zero-length
    /// window would match everywhere, so it is rejected before
    /// scanning begins.
    EmptyPattern,
    /// A reveal call used a commitment id that the session being
    /// revealed against did not issue.
    SessionProtocolViolation,
}

} // verus!
