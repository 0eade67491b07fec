//! Small types and helpers that the rest of the crate shares.
pub mod collections;
pub mod timer;
pub mod types;
