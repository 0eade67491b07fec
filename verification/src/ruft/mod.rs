//! A Raft node.
pub mod behaviour;
pub mod election;
pub mod laws;
pub mod model;
pub mod node;
pub mod role;
pub mod server;

pub use crate::ruft::node::{ApplyMsg, Ruft, RuftSnapshot};
pub use crate::ruft::role::Role;
pub use crate::ruft::server::RuftServer;
