//! The error taxonomy of the filesystem core.

use vstd::prelude::*;

verus! {

/// `NotFound`: an absent block identifier, or a missing path segment during a
/// non-creating traversal; recoverable, callers use it to decide create-vs-fail.
/// `DecryptionFailure`: key material does not match ciphertext; fatal where it
/// occurs. `Conflict`: an irreconcilable structural state, such as a path step
/// that runs through a file, or a node too large to seal.
#[derive(Clone, Copy, Debug, PartialEq, Eq, Structural)]
pub enum FsError {
    NotFound,
    DecryptionFailure,
    Conflict,
}

} // verus!
