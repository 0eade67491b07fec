//! What a node answers over the network: its own reply, or an error where it gave none.
use crate::rpc::append_entries::AppendEntriesReply;
use crate::rpc::install_snapshot::InstallSnapshotReply;
use crate::rpc::request_vote::RequestVoteReply;
use crate::utilis::types::NodeId;
use vstd::prelude::*;

verus! {

/// The network service of a node. It forwards calls to the node and holds none of its state.
#[derive(Clone, Copy, Debug)]
pub struct RuftServer {
    /// The node that is served.
    pub node_id: NodeId,
}

impl RuftServer {
    /// The service of a node.
    pub fn new(node_id: NodeId) -> (server: Self)
        ensures
            server.node_id == node_id,
    {
        RuftServer { node_id }
    }

    /// The answer to an AppendEntries that did not get through to the node. Its state is not known,
    /// so the term is zero.
    pub fn append_entries_error(&self) -> (reply: AppendEntriesReply)
        ensures
            reply == (AppendEntriesReply {
                node_id: self.node_id,
                term: 0,
                success: false,
                match_index: 0,
            }),
    {
        AppendEntriesReply { node_id: self.node_id, term: 0, success: false, match_index: 0 }
    }

    /// The answer to a RequestVote that did not get through to the node.
    pub fn request_vote_error(&self) -> (reply: RequestVoteReply)
        ensures
            reply == (RequestVoteReply { term: 0, vote_granted: false }),
    {
        RequestVoteReply { term: 0, vote_granted: false }
    }

    /// The answer to an InstallSnapshot that did not get through to the node.
    pub fn install_snapshot_error(&self) -> (reply: InstallSnapshotReply)
        ensures
            reply == (InstallSnapshotReply { node_id: self.node_id, term: 0 }),
    {
        InstallSnapshotReply { node_id: self.node_id, term: 0 }
    }

    /// Answers an AppendEntries with what the node said, if it said anything.
    pub fn append_entries(&self, answer: Option<AppendEntriesReply>) -> (reply: AppendEntriesReply)
        ensures
            reply == (match answer {
                Some(given) => given,
                None => AppendEntriesReply {
                    node_id: self.node_id,
                    term: 0,
                    success: false,
                    match_index: 0,
                },
            }),
    {
        match answer {
            Some(given) => given,
            None => self.append_entries_error(),
        }
    }

    /// Answers a RequestVote with what the node said, if it said anything.
    pub fn request_vote(&self, answer: Option<RequestVoteReply>) -> (reply: RequestVoteReply)
        ensures
            reply == (match answer {
                Some(given) => given,
                None => RequestVoteReply { term: 0, vote_granted: false },
            }),
    {
        match answer {
            Some(given) => given,
            None => self.request_vote_error(),
        }
    }

    /// Answers an InstallSnapshot with what the node said, if it said anything.
    pub fn install_snapshot(&self, answer: Option<InstallSnapshotReply>) -> (reply:
        InstallSnapshotReply)
        ensures
            reply == (match answer {
                Some(given) => given,
                None => InstallSnapshotReply { node_id: self.node_id, term: 0 },
            }),
    {
        match answer {
            Some(given) => given,
            None => self.install_snapshot_error(),
        }
    }
}

} // verus!
