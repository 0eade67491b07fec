//! The events of a node: RPCs, timers and local commands, handled one after the other.
use crate::rpc::append_entries::{AppendEntriesArgs, AppendEntriesReply};
use crate::rpc::install_snapshot::{InstallSnapshotArgs, InstallSnapshotReply};
use crate::rpc::request_vote::RequestVoteArgs;
use vstd::prelude::*;

verus! {

/// One event. Whoever waits for an answer is answered with what the node returns.
pub enum Event {
    /// Replication or heartbeat from a leader; answered.
    AppendEntries(AppendEntriesArgs),
    /// Vote request from a candidate; answered.
    RequestVote(RequestVoteArgs),
    /// Snapshot from a leader; its term is answered.
    InstallSnapshot(InstallSnapshotArgs),
    /// Hand committed entries to the state machine.
    Apply,
    /// No leader was heard of for too long.
    ElectionTimeout,
    /// What a round of votes came to, and the term that it brought to light.
    VoteResult(bool, u64),
    /// The candidate has a majority in its present term.
    ReceiveEnoughVotes,
    /// A higher term or a valid leader turned up.
    ShouldBeFollower(u64),
    /// Heartbeat tick; only a leader reacts.
    Heartbeat,
    /// A follower's answer to replication.
    AppendEntriesReply(AppendEntriesReply),
    /// A follower's answer to a snapshot.
    InstallSnapshotReply(InstallSnapshotReply),
    /// A client's command; answered.
    NewLogEntries(Vec<u8>),
    /// The state machine offers a snapshot up to an index; answered.
    CreateSnapshot(u64, Vec<u8>),
    /// Read the node's state; answered.
    GetInfo,
}

} // verus!
