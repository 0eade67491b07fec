//! The answer to a client that submits a command.
use vstd::prelude::*;

verus! {

/// What became of a submitted command.
#[derive(Clone, Copy, Debug, PartialEq, Eq, Structural)]
pub enum AppendResult {
    /// Only the leader takes commands.
    NotLeader,
    /// The leader could not persist the command, and did not append it.
    PersistentError,
    /// The command is in the leader's log at this index and term.
    Accepted { index: u64, term: u64 },
}

} // verus!
