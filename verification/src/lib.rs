//! An LSM-tree storage engine: the write path, the on-disk formats, the merge
//! and compaction logic, and a workload generator to drive them.

pub mod storage;
pub mod workload;
