//! An in-memory key-value store with versioning: the state of a store can be
//! saved under a version identifier, restored from an earlier snapshot, and
//! the history can be cut down to its newest snapshot.
pub mod decimal;
pub mod pairs;
pub mod snapshot;
pub mod store;
pub mod text;
pub mod version;

pub use snapshot::ParseError;
pub use store::KeyValueStore;
pub use text::{Key, Text};
pub use version::{RollbackError, Storage, Version};
