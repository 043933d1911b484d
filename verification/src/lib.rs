//! Channels for concurrent tasks.

pub mod linked_list;
pub mod mpmc;
pub mod mpsc;
pub mod oneshot;
mod shared;
pub mod sync;
