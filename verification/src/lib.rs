//! The core of an LSM-tree storage engine: the block format that
//! sorted-string tables are built from, with its builder and iterator, and
//! the leveled compaction controller. What each function does is stated in
//! its contract and proved by Verus.

pub mod block;
pub mod compact;
pub mod key;
pub mod lsm_storage;
pub mod table;
pub mod wire;
