//! The Raft RPCs: their arguments and replies, and which links they go out on.
pub mod append_entries;
pub mod client;
pub mod install_snapshot;
pub mod request_vote;
