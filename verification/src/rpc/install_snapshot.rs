//! InstallSnapshot: repair of a replica that lags behind the compacted log.
use crate::utilis::types::clone_bytes;
use vstd::prelude::*;

verus! {

/// InstallSnapshot arguments: a leader sends a whole snapshot with them.
#[derive(Debug)]
pub struct InstallSnapshotArgs {
    /// Leader's term.
    pub term: u64,
    /// Leader id.
    pub leader_id: u64,
    /// Index of the last entry that the snapshot covers.
    pub last_included_index: u64,
    /// Term of that entry.
    pub last_included_term: u64,
    /// Snapshot data.
    pub data: Vec<u8>,
}

impl Clone for InstallSnapshotArgs {
    fn clone(&self) -> (copy: Self)
        ensures
            copy.term == self.term,
            copy.leader_id == self.leader_id,
            copy.last_included_index == self.last_included_index,
            copy.last_included_term == self.last_included_term,
            copy.data@ == self.data@,
    {
        InstallSnapshotArgs {
            term: self.term,
            leader_id: self.leader_id,
            last_included_index: self.last_included_index,
            last_included_term: self.last_included_term,
            data: clone_bytes(&self.data),
        }
    }
}

/// InstallSnapshot reply: the follower's term, by which a leader may step down.
#[derive(Clone, Copy, Debug, PartialEq, Eq, Structural)]
pub struct InstallSnapshotReply {
    /// Id of the replying node.
    pub node_id: u64,
    /// Current term of the replying node.
    pub term: u64,
}

} // verus!
