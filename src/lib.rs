//! A build queue fed by a package registry's change feed and drained by a
//! build step with bounded per-entry retry.

pub mod change;
pub mod queue;
pub mod docbuilder;
pub mod laws;

pub use change::{ChangeEvent, ChangeKind};
pub use docbuilder::DocBuilder;
pub use queue::{BuildQueue, QueueEntry, MAX_ATTEMPTS};
