//! A durable, single-writer, multi-reader work queue: an append-only log of
//! opaque byte payloads stored in an embedded transactional key-value engine,
//! with independent named consumer cursors and trimming of consumed entries.

use vstd::prelude::*;

pub mod codec;
pub mod laws;
pub mod model;
pub mod order;
pub mod queue;
pub mod store;
pub mod trim;

pub use queue::Config;
pub use queue::Consumer;
pub use queue::Entry;
pub use queue::Producer;
pub use store::QueueError;
pub use trim::process_trim;
