//! The part that a node plays.
use vstd::prelude::*;

verus! {

/// The role of a node.
#[derive(Clone, Copy, PartialEq, Eq, Debug, Structural)]
pub enum Role {
    /// Handles client writes and replicates the log.
    Leader,
    /// Passively responds to leaders and candidates.
    Follower,
    /// Starts elections and waits for a majority.
    Candidate,
}

} // verus!
