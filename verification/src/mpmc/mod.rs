//! Multi-producer, multi-consumer channels.

pub mod bounded;
pub mod interleaving;
pub mod laws;
pub mod layout;
pub mod queue;
pub mod ring;
