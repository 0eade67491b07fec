//! AppendEntries: log replication, and with no entries the heartbeat.
use crate::utilis::types::{clone_suffix, entries_of, Entry, LogEntry};
use vstd::prelude::*;

verus! {

/// AppendEntries arguments as a mathematical value.
#[verifier::ext_equal]
pub struct AppendEntriesView {
    pub term: u64,
    pub leader_id: u64,
    pub prev_log_index: u64,
    pub prev_log_term: u64,
    pub entries: Seq<Entry>,
    pub leader_commit: u64,
}

/// AppendEntries arguments: a leader replicates its log with them.
#[derive(Debug)]
pub struct AppendEntriesArgs {
    /// Leader's term.
    pub term: u64,
    /// Leader id.
    pub leader_id: u64,
    /// Index of the entry before the new ones.
    pub prev_log_index: u64,
    /// Term of the entry before the new ones.
    pub prev_log_term: u64,
    /// Entries to replicate.
    pub entries: Vec<LogEntry>,
    /// Leader's commit index.
    pub leader_commit: u64,
}

impl View for AppendEntriesArgs {
    type V = AppendEntriesView;

    open spec fn view(&self) -> AppendEntriesView {
        AppendEntriesView {
            term: self.term,
            leader_id: self.leader_id,
            prev_log_index: self.prev_log_index,
            prev_log_term: self.prev_log_term,
            entries: entries_of(self.entries@),
            leader_commit: self.leader_commit,
        }
    }
}

impl Clone for AppendEntriesArgs {
    fn clone(&self) -> (copy: Self)
        ensures
            copy@ == self@,
    {
        let entries = clone_suffix(self.entries.as_slice(), 0);
        assert(entries_of(self.entries@).skip(0) =~= entries_of(self.entries@));
        AppendEntriesArgs {
            term: self.term,
            leader_id: self.leader_id,
            prev_log_index: self.prev_log_index,
            prev_log_term: self.prev_log_term,
            entries,
            leader_commit: self.leader_commit,
        }
    }
}

/// AppendEntries reply: the follower's term and whether the entries matched.
#[derive(Clone, Copy, Debug, PartialEq, Eq, Structural)]
pub struct AppendEntriesReply {
    /// Id of the replying node.
    pub node_id: u64,
    /// Current term of the replying node.
    pub term: u64,
    /// The log matched and holds the entries.
    pub success: bool,
    /// Index up to which the log is replicated; 0 on failure.
    pub match_index: u64,
}

} // verus!
