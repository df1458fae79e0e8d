//! The storage engine.
//!
//! [`lsm`] is the tree. Below it are the memtable, the log, tables in runs, and the
//! manifest; beside it growth schemes, which say when to compact, and merge
//! policies, which say how. [`tree`], [`steps`] and [`disk`] say what each operation
//! means; [`soundness`] and [`durability`] say what holds of a tree through all of
//! them.

pub mod block;
pub mod bloom;
pub mod coalesce;
pub mod codec;
pub mod compaction;
pub mod config;
pub mod crc32;
pub mod disk;
pub mod durability;
pub mod entries;
pub mod error;
pub mod execute;
pub mod growth;
pub mod history;
pub mod leveled;
pub mod levels;
pub mod limits;
pub mod lsm;
pub mod manifest;
pub mod memtable;
pub mod merge;
pub mod names;
pub mod naming;
pub mod order;
pub mod ordering;
pub mod reader;
pub mod reclaim;
pub mod recovery;
pub mod run;
pub mod shape;
pub mod soundness;
pub mod sstable;
pub mod steps;
pub mod text;
pub mod tree;
pub mod upkeep;
pub mod vlog;
pub mod wal;
pub mod weight;

use vstd::prelude::*;

pub use bloom::BloomFilter;
pub use config::{GrowthKind, LsmConfig, MergeKind};
pub use disk::DiskAction;
pub use error::{ErrorKind, ManifestField, StorageError};
pub use lsm::{LsmStats, LsmTree};
pub use manifest::{Manifest, RunEntry};
pub use memtable::{KeyBound, MemTable, Value};
pub use merge::MergeIterator;
pub use reader::{SSTable, SSTableIter};
pub use run::Run;
pub use sstable::{SSTableMeta, SSTableWriter};
pub use vlog::{ValueLog, ValuePointer};
pub use wal::{Replay, SyncPolicy, Wal};

verus! {

/// A key: an arbitrary byte string, compared lexicographically.
pub type Key = Vec<u8>;

/// A user's value: an arbitrary byte string.
pub type UserValue = Vec<u8>;

} // verus!
