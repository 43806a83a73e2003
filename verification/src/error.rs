//! Errors surfaced by the reliability layer.

use vstd::prelude::*;

verus! {

/// Why a call failed. `IoError` stands for a failure of the underlying
/// socket, reported by the unverified edge that owns it; the two terminal
/// conditions come from the liveness monitor: `ConnectionLost` when a peer
/// that once responded went silent, `NoResponseFromServer` when no response
/// was ever observed.
#[derive(Debug, PartialEq, Eq, Structural, Clone, Copy)]
pub enum ReUDPError {
    IoError,
    ConnectionLost,
    NoResponseFromServer,
}

} // verus!
