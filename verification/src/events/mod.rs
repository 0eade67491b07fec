//! What a node reacts to.
pub mod event;

pub use crate::events::event::Event;
