//! The table layout of a storage engine, as a compaction controller sees it.

use vstd::prelude::*;
use std::collections::HashMap;
use std::sync::Arc;
use crate::table::{SsTableMeta, SsTableModel};

verus! {

/// The table layout of a storage engine at one moment, as a mathematical
/// value.
pub struct StateModel {
    /// The ids of the level-0 tables.
    pub l0: Seq<usize>,
    /// For each level from 1 on, its number and the ids of its tables.
    pub levels: Seq<(usize, Seq<usize>)>,
    /// What is known of each table, by its id.
    pub tables: Map<usize, SsTableModel>,
}

/// The table layout of a storage engine at one moment. A compaction
/// controller reads it and answers with a layout of its own making.
#[derive(Debug)]
pub struct LsmStorageState {
    /// L0 SSTs, from latest to earliest.
    pub l0_sstables: Vec<usize>,
    /// SsTables sorted by key range; L1 - L_max for leveled compaction.
    pub levels: Vec<(usize, Vec<usize>)>,
    /// SST objects.
    pub sstables: HashMap<usize, Arc<SsTableMeta>>,
}

impl View for LsmStorageState {
    type V = StateModel;

    open spec fn view(&self) -> StateModel {
        StateModel {
            l0: self.l0_sstables@,
            levels: Seq::new(
                self.levels@.len(),
                |i: int| (self.levels@[i].0, self.levels@[i].1@),
            ),
            tables: self.sstables@.map_values(|t: Arc<SsTableMeta>| t@),
        }
    }
}

impl LsmStorageState {
    /// Whether the layout knows the table with the id `id`.
    pub fn knows(&self, id: usize) -> (r: bool)
        ensures
            r == self@.tables.contains_key(id),
    {
        broadcast use vstd::std_specs::hash::group_hash_axioms;

        self.sstables.contains_key(&id)
    }

    /// The table with the id `id`, which the layout knows.
    pub fn table(&self, id: usize) -> (t: &SsTableMeta)
        requires
            self@.tables.contains_key(id),
        ensures
            t@ == self@.tables[id],
    {
        broadcast use vstd::std_specs::hash::group_hash_axioms;

        self.sstables.get(&id).unwrap()
    }
}

impl Clone for LsmStorageState {
    fn clone(&self) -> (copy: Self)
        ensures
            copy@ == self@,
            copy.sstables@ == self.sstables@,
    {
        let mut levels: Vec<(usize, Vec<usize>)> = Vec::new();
        let mut i: usize = 0;
        while i < self.levels.len()
            invariant
                i <= self.levels@.len(),
                levels@.len() == i,
                forall|j: int|
                    0 <= j < i ==> levels@[j].0 == self.levels@[j].0 && levels@[j].1@
                        == self.levels@[j].1@,
            decreases self.levels@.len() - i,
        {
            let ids = self.levels[i].1.clone();
            levels.push((self.levels[i].0, ids));
            i += 1;
        }
        let copy = LsmStorageState {
            l0_sstables: self.l0_sstables.clone(),
            levels,
            sstables: self.sstables.clone(),
        };
        assert(copy@.levels =~= self@.levels);
        copy
    }
}

} // verus!
