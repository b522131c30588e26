//! What a compaction needs to know of a sorted-string table.

use vstd::prelude::*;
use crate::key::{KeyModel, KeySlice, KeyVec};

verus! {

/// What a compaction needs to know of a table, as a mathematical value.
pub struct SsTableModel {
    pub first_key: KeyModel,
    pub last_key: KeyModel,
    pub table_size: u64,
}

/// What a compaction needs to know of a sorted-string table: the keys of its
/// first and last pair, and its size in bytes.
#[derive(Debug)]
pub struct SsTableMeta {
    first_key: KeyVec,
    last_key: KeyVec,
    table_size: u64,
}

impl View for SsTableMeta {
    type V = SsTableModel;

    closed spec fn view(&self) -> SsTableModel {
        SsTableModel {
            first_key: self.first_key@,
            last_key: self.last_key@,
            table_size: self.table_size,
        }
    }
}

impl SsTableMeta {
    /// What is known of a table with these first and last keys and this size.
    pub fn new(first_key: KeyVec, last_key: KeyVec, table_size: u64) -> (t: Self)
        ensures
            t@ == (SsTableModel { first_key: first_key@, last_key: last_key@, table_size }),
    {
        SsTableMeta { first_key, last_key, table_size }
    }

    /// The key of the table's first pair.
    pub fn first_key(&self) -> (k: KeySlice<'_>)
        ensures
            k@ == self@.first_key,
    {
        self.first_key.as_key_slice()
    }

    /// The key of the table's last pair.
    pub fn last_key(&self) -> (k: KeySlice<'_>)
        ensures
            k@ == self@.last_key,
    {
        self.last_key.as_key_slice()
    }

    /// The size of the table in bytes.
    pub fn table_size(&self) -> (size: u64)
        ensures
            size == self@.table_size,
    {
        self.table_size
    }
}

} // verus!
