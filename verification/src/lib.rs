//! A build cache: content keys for build inputs, a metadata index of cached
//! build outputs with size- and count-bounded eviction, and the decisions of
//! the command-line tool and the watcher daemon around it.

pub mod key;
pub mod error;
pub mod text;
pub mod entry;
pub mod store;
pub mod compress;
pub mod hasher;
pub mod engine;
pub mod names;
pub mod heart;
pub mod watch;
pub mod cli;
pub mod stale;

pub use engine::{CacheEngine, EvictionReport};
pub use entry::{CacheEntry, Timestamp};
pub use error::Error;
pub use hasher::Hasher;
pub use compress::Compressor;
pub use key::CacheKey;
pub use store::MetaStore;
