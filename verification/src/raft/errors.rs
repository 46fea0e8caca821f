//! Errors of the consensus module.

use vstd::prelude::*;

verus! {

/// Why a call on a peer did not do what was asked.
#[derive(PartialEq, Eq, Clone, Copy, Debug, Structural)]
pub enum Error {
    /// The peer is not the leader; the caller should try another peer.
    NotLeader,
}

} // verus!
