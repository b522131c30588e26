//! Compaction: deciding which tables to merge.

pub mod leveled;
pub mod table_list;
