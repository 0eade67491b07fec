//! A Raft node whose rules are proved: the state machine of a single node, the storage that has to
//! survive a restart, the write-ahead log that holds it on disk, and the bookkeeping around RPCs.
//!
//! Nothing in this crate reads a clock, a socket or a file. What a node wants done is left in its
//! outbox, what a log wants written is handed out as bytes, and the program around the crate does it.
pub mod events;
pub mod result;
pub mod rpc;
pub mod ruft;
pub mod storage;
pub mod text;
pub mod utilis;
