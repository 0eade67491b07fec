//! RequestVote: the call of a candidate for votes.
use vstd::prelude::*;

verus! {

/// RequestVote arguments: a candidate's term and log progress.
#[derive(Clone, Copy, Debug, PartialEq, Eq, Structural)]
pub struct RequestVoteArgs {
    /// Candidate's term.
    pub term: u64,
    /// Candidate id.
    pub candidate_id: u64,
    /// Index of the candidate's last log entry.
    pub last_log_index: u64,
    /// Term of the candidate's last log entry.
    pub last_log_term: u64,
}

/// RequestVote reply: the receiver's term and its decision.
#[derive(Clone, Copy, Debug, PartialEq, Eq, Structural)]
pub struct RequestVoteReply {
    /// Receiver's current term.
    pub term: u64,
    /// Whether the vote is granted.
    pub vote_granted: bool,
}

} // verus!
