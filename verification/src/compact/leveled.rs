//! The leveled compaction controller: decides which tables to merge next,
//! and works out the layout after a merge.

use vstd::prelude::*;
use crate::compact::leveled::lemmas::{
    lemma_base_level, lemma_ids_size_prefix, lemma_outranks_transitive, lemma_product_fits,
};
use crate::compact::leveled::model::{
    after_upper_removal, applicable, base_level, base_level_from, bottom_size, compactable,
    ids_size, in_range, is_applied, is_generated_task, is_min_id, level_ids, max_last_key,
    merged_lower_level, min_first_key, outranks, over_target, overlapping, real_level_size,
    target_level_size, TaskModel,
};
use crate::compact::table_list::{all_among, all_known, remove_ids, sort_by_first_key};
use crate::key::KeyOrder;
use crate::lsm_storage::LsmStorageState;

pub mod lemmas;
pub mod model;

verus! {

/// What a leveled compaction is to merge: tables of an upper level, or of
/// level 0, with the tables of the level below that they overlap.
#[derive(Debug)]
pub struct LeveledCompactionTask {
    // if upper_level is `None`, then it is L0 compaction
    pub upper_level: Option<usize>,
    pub upper_level_sst_ids: Vec<usize>,
    pub lower_level: usize,
    pub lower_level_sst_ids: Vec<usize>,
    pub is_lower_level_bottom_level: bool,
}

impl View for LeveledCompactionTask {
    type V = TaskModel;

    open spec fn view(&self) -> TaskModel {
        TaskModel {
            upper_level: self.upper_level,
            upper_level_sst_ids: self.upper_level_sst_ids@,
            lower_level: self.lower_level,
            lower_level_sst_ids: self.lower_level_sst_ids@,
            is_lower_level_bottom_level: self.is_lower_level_bottom_level,
        }
    }
}

/// How a leveled compaction is configured.
#[derive(Debug, Clone, Copy)]
pub struct LeveledCompactionOptions {
    /// How many times larger a level's target size is than that of the level above.
    pub level_size_multiplier: usize,
    /// The number of level-0 tables at which they are compacted.
    pub level0_file_num_compaction_trigger: usize,
    /// The number of levels below level 0.
    pub max_levels: usize,
    /// The least target size of the last level, in MiB.
    pub base_level_size_mb: usize,
}

/// Decides, for a layout of tables, what to compact next, and works out the
/// layout after a compaction. It holds nothing but its options.
pub struct LeveledCompactionController {
    options: LeveledCompactionOptions,
}

/// The sizes of the tables `ids`, added up.
fn total_size(snapshot: &LsmStorageState, ids: &Vec<usize>) -> (total: u64)
    requires
        forall|i: int| 0 <= i < ids@.len() ==> snapshot@.tables.contains_key(#[trigger] ids@[i]),
        ids_size(snapshot@.tables, ids@) <= u64::MAX,
    ensures
        total == ids_size(snapshot@.tables, ids@),
{
    let mut total: u64 = 0;
    let mut i: usize = 0;
    while i < ids.len()
        invariant
            i <= ids@.len(),
            total == ids_size(snapshot@.tables, ids@.take(i as int)),
            forall|i: int|
                0 <= i < ids@.len() ==> snapshot@.tables.contains_key(#[trigger] ids@[i]),
            ids_size(snapshot@.tables, ids@) <= u64::MAX,
        decreases ids@.len() - i,
    {
        proof {
            lemma_ids_size_prefix(snapshot@.tables, ids@, i + 1);
            assert(ids@.take(i + 1).drop_last() =~= ids@.take(i as int));
        }
        total = total + snapshot.table(ids[i]).table_size();
        i += 1;
    }
    assert(ids@.take(i as int) =~= ids@);
    total
}

/// The sizes of the tables `ids`, added up, if the sum fits 64 bits.
fn checked_total_size(snapshot: &LsmStorageState, ids: &Vec<usize>) -> (total: Option<u64>)
    requires
        forall|i: int| 0 <= i < ids@.len() ==> snapshot@.tables.contains_key(#[trigger] ids@[i]),
    ensures
        match total {
            Some(size) => size == ids_size(snapshot@.tables, ids@),
            None => ids_size(snapshot@.tables, ids@) > u64::MAX,
        },
{
    let mut total: u64 = 0;
    let mut i: usize = 0;
    while i < ids.len()
        invariant
            i <= ids@.len(),
            total == ids_size(snapshot@.tables, ids@.take(i as int)),
            forall|i: int|
                0 <= i < ids@.len() ==> snapshot@.tables.contains_key(#[trigger] ids@[i]),
        decreases ids@.len() - i,
    {
        proof {
            lemma_ids_size_prefix(snapshot@.tables, ids@, i + 1);
            assert(ids@.take(i + 1).drop_last() =~= ids@.take(i as int));
        }
        match total.checked_add(snapshot.table(ids[i]).table_size()) {
            Some(sum) => {
                total = sum;
            },
            None => {
                return None;
            },
        }
        i += 1;
    }
    assert(ids@.take(i as int) =~= ids@);
    Some(total)
}

impl LeveledCompactionOptions {
    /// Whether the options can be worked with.
    pub fn is_valid(&self) -> (r: bool)
        ensures
            r == self.valid(),
    {
        self.max_levels >= 1 && self.level_size_multiplier >= 1 && self.base_level_size_mb as u128
            * 1024 * 1024 <= u64::MAX as u128
    }
}

impl LeveledCompactionController {
    /// The options that the controller works with.
    pub closed spec fn options(&self) -> LeveledCompactionOptions {
        self.options
    }

    /// A controller that works with `options`.
    pub fn new(options: LeveledCompactionOptions) -> (c: Self)
        ensures
            c.options() == options,
    {
        Self { options }
    }

    /// The tables of the level `in_level` whose keys have something in common
    /// with the keys from the least first key to the greatest last key of
    /// the tables `sst_ids`, in the order of the level.
    pub fn find_overlapping_ssts(
        &self,
        snapshot: &LsmStorageState,
        sst_ids: &[usize],
        in_level: usize,
    ) -> (overlap_ssts: Vec<usize>)
        requires
            1 <= in_level <= snapshot@.levels.len(),
            forall|i: int|
                0 <= i < sst_ids@.len() ==> snapshot@.tables.contains_key(#[trigger] sst_ids@[i]),
            forall|i: int|
                0 <= i < level_ids(snapshot@, in_level as int).len()
                    ==> snapshot@.tables.contains_key(
                    #[trigger] level_ids(snapshot@, in_level as int)[i],
                ),
        ensures
            overlap_ssts@ == overlapping(snapshot@, sst_ids@, in_level as int),
    {
        if sst_ids.len() == 0 {
            return Vec::new();
        }
        let ghost tables = snapshot@.tables;
        let mut begin_key = snapshot.table(sst_ids[0]).first_key();
        let mut end_key = snapshot.table(sst_ids[0]).last_key();
        let mut k: usize = 1;
        while k < sst_ids.len()
            invariant
                tables == snapshot@.tables,
                1 <= k <= sst_ids@.len(),
                forall|i: int|
                    0 <= i < sst_ids@.len() ==> tables.contains_key(#[trigger] sst_ids@[i]),
                begin_key@ == min_first_key(tables, sst_ids@.take(k as int)),
                end_key@ == max_last_key(tables, sst_ids@.take(k as int)),
            decreases sst_ids@.len() - k,
        {
            proof {
                assert(sst_ids@.take(k + 1).drop_last() =~= sst_ids@.take(k as int));
            }
            let sst = snapshot.table(sst_ids[k]);
            if sst.first_key().compare(&begin_key) == KeyOrder::Less {
                begin_key = sst.first_key();
            }
            if end_key.compare(&sst.last_key()) == KeyOrder::Less {
                end_key = sst.last_key();
            }
            k += 1;
        }
        proof {
            assert(sst_ids@.take(k as int) =~= sst_ids@);
        }
        let ghost in_key_range = |id: usize| in_range(tables[id], begin_key@, end_key@);
        let level = &snapshot.levels[in_level - 1].1;
        proof {
            assert(level@ == level_ids(snapshot@, in_level as int));
            assert forall|i: int| 0 <= i < level@.len() implies tables.contains_key(
                #[trigger] level@[i],
            ) by {
                assert(tables.contains_key(level_ids(snapshot@, in_level as int)[i]));
            }
        }
        let mut overlap_ssts: Vec<usize> = Vec::new();
        let mut j: usize = 0;
        while j < level.len()
            invariant
                tables == snapshot@.tables,
                j <= level@.len(),
                level@ == level_ids(snapshot@, in_level as int),
                forall|i: int|
                    0 <= i < level@.len() ==> tables.contains_key(#[trigger] level@[i]),
                in_key_range == |id: usize| in_range(tables[id], begin_key@, end_key@),
                overlap_ssts@ == level@.take(j as int).filter(in_key_range),
            decreases level@.len() - j,
        {
            let sst_id = level[j];
            let sst = snapshot.table(sst_id);
            let first_key = sst.first_key();
            let last_key = sst.last_key();
            proof {
                level@.lemma_take_succ_push(j as int);
                level@.take(j as int).lemma_filter_push(sst_id, in_key_range);
            }
            if !(last_key.compare(&begin_key) == KeyOrder::Less || end_key.compare(&first_key)
                == KeyOrder::Less) {
                overlap_ssts.push(sst_id);
            }
            j += 1;
        }
        proof {
            assert(level@.take(j as int) =~= level@);
        }
        overlap_ssts
    }

    /// The size of each level, from level 1 on.
    pub fn real_level_sizes(&self, snapshot: &LsmStorageState) -> (sizes: Vec<u64>)
        requires
            compactable(self.options(), snapshot@),
        ensures
            sizes@.len() == self.options().max_levels,
            forall|i: int|
                0 <= i < sizes@.len() ==> sizes@[i] == real_level_size(snapshot@, i + 1),
    {
        let mut sizes: Vec<u64> = Vec::new();
        let mut i: usize = 0;
        while i < self.options.max_levels
            invariant
                compactable(self.options(), snapshot@),
                i <= self.options.max_levels,
                sizes@.len() == i,
                forall|j: int|
                    0 <= j < i ==> sizes@[j] == real_level_size(snapshot@, j + 1),
            decreases self.options.max_levels - i,
        {
            proof {
                assert(real_level_size(snapshot@, i + 1) <= u64::MAX);
                assert(level_ids(snapshot@, i + 1) == snapshot.levels@[i as int].1@);
            }
            sizes.push(total_size(snapshot, &snapshot.levels[i].1));
            i += 1;
        }
        sizes
    }

    /// The target size of each level, from level 1 on, and the base level,
    /// where the last level holds `bottom` bytes.
    pub fn target_level_sizes(&self, bottom: u64) -> (r: (Vec<u64>, usize))
        requires
            self.options().valid(),
        ensures
            r.0@.len() == self.options().max_levels,
            forall|i: int|
                0 <= i < r.0@.len() ==> r.0@[i] == target_level_size(
                    self.options(),
                    bottom as nat,
                    i + 1,
                ),
            r.1 == base_level(self.options(), bottom as nat),
    {
        let max_levels = self.options.max_levels;
        let ghost o = self.options;
        let mut targets: Vec<u64> = Vec::new();
        let mut k: usize = 0;
        while k < max_levels
            invariant
                k <= max_levels,
                targets@.len() == k,
                forall|j: int| 0 <= j < k ==> targets@[j] == 0,
            decreases max_levels - k,
        {
            targets.push(0);
            k += 1;
        }
        let base_level_size_bytes: u64 = self.options.base_level_size_mb as u64 * 1024 * 1024;
        let mut base_level = max_levels;
        // select base level and compute target level size
        targets.set(
            max_levels - 1,
            if bottom > base_level_size_bytes {
                bottom
            } else {
                base_level_size_bytes
            },
        );
        let mut i: usize = max_levels - 1;
        while i > 0
            invariant
                o == self.options(),
                o.valid(),
                max_levels == o.max_levels,
                base_level_size_bytes == o.base_level_size_bytes(),
                i < max_levels,
                targets@.len() == max_levels,
                forall|j: int|
                    i <= j < max_levels ==> targets@[j] == target_level_size(
                        o,
                        bottom as nat,
                        j + 1,
                    ),
                forall|j: int| 0 <= j < i ==> targets@[j] == 0,
                base_level == base_level_from(o, bottom as nat, i + 1),
            decreases i,
        {
            i -= 1;
            let next_level_size = targets[i + 1];
            let this_level_size = next_level_size / self.options.level_size_multiplier as u64;
            if next_level_size > base_level_size_bytes {
                targets.set(i, this_level_size);
            }
            if targets[i] > 0 {
                base_level = i + 1;
            }
        }
        (targets, base_level)
    }

    /// Decides what to compact next, if anything. Level 0 comes first: where
    /// it holds as many tables as the trigger, all of them are merged into
    /// the base level. Otherwise the level that is over its target size by
    /// the largest ratio gives the table with the least id to the level below.
    pub fn generate_compaction_task(&self, snapshot: &LsmStorageState) -> (task: Option<
        LeveledCompactionTask,
    >)
        requires
            self.options().valid(),
            compactable(self.options(), snapshot@),
        ensures
            is_generated_task(
                self.options(),
                snapshot@,
                match task {
                    Some(t) => Some(t@),
                    None => None,
                },
            ),
    {
        let max_levels = self.options.max_levels;
        let ghost o = self.options;
        let ghost s = snapshot@;
        let ghost bottom = bottom_size(o, s);
        // step 1: compute target level size
        let real_sizes = self.real_level_sizes(snapshot);
        let (target_sizes, base_level) = self.target_level_sizes(
            real_sizes[max_levels - 1],
        );
        proof {
            lemma_base_level(o, bottom, 1);
        }

        // Flush L0 SST is the top priority
        if snapshot.l0_sstables.len() >= self.options.level0_file_num_compaction_trigger {
            proof {
                assert(real_level_size(s, base_level as int) <= u64::MAX);
                assert forall|i: int|
                    0 <= i < snapshot.l0_sstables@.len() implies s.tables.contains_key(
                    #[trigger] snapshot.l0_sstables@[i],
                ) by {
                    assert(s.tables.contains_key(s.l0[i]));
                }
            }
            let lower_level_sst_ids = self.find_overlapping_ssts(
                snapshot,
                snapshot.l0_sstables.as_slice(),
                base_level,
            );
            return Some(
                LeveledCompactionTask {
                    upper_level: None,
                    upper_level_sst_ids: snapshot.l0_sstables.clone(),
                    lower_level: base_level,
                    lower_level_sst_ids,
                    is_lower_level_bottom_level: base_level == max_levels,
                },
            );
        }

        // The level that is over its target by the largest ratio; of two
        // levels in the same ratio, the deeper one.
        let mut priority: Option<usize> = None;
        let mut i: usize = 0;
        while i < max_levels
            invariant
                o == self.options(),
                s == snapshot@,
                bottom == bottom_size(o, s),
                max_levels == o.max_levels,
                i <= max_levels,
                real_sizes@.len() == max_levels,
                target_sizes@.len() == max_levels,
                forall|j: int|
                    0 <= j < max_levels ==> real_sizes@[j] == real_level_size(s, j + 1),
                forall|j: int|
                    0 <= j < max_levels ==> target_sizes@[j] == target_level_size(
                        o,
                        bottom,
                        j + 1,
                    ),
                match priority {
                    Some(best) => {
                        &&& 1 <= best <= i
                        &&& over_target(o, s, best as int)
                        &&& forall|l: int|
                            1 <= l <= i && l != best && #[trigger] over_target(o, s, l)
                                ==> outranks(o, s, best as int, l)
                    },
                    None => forall|l: int| 1 <= l <= i ==> !#[trigger] over_target(o, s, l),
                },
            decreases max_levels - i,
        {
            if real_sizes[i] > target_sizes[i] {
                let take = match priority {
                    Some(best) => {
                        proof {
                            lemma_product_fits(real_sizes[i as int], target_sizes[best - 1]);
                            lemma_product_fits(real_sizes[best - 1], target_sizes[i as int]);
                        }
                        let left: u128 = real_sizes[i] as u128 * target_sizes[best - 1] as u128;
                        let right: u128 = real_sizes[best - 1] as u128 * target_sizes[i] as u128;
                        proof {
                            if left >= right {
                                assert forall|l: int|
                                    1 <= l <= i && l != best && #[trigger] over_target(
                                        o,
                                        s,
                                        l,
                                    ) implies outranks(o, s, i + 1, l) by {
                                    lemma_outranks_transitive(o, s, i + 1, best as int, l);
                                }
                            }
                        }
                        left >= right
                    },
                    None => true,
                };
                if take {
                    priority = Some(i + 1);
                }
            }
            i += 1;
        }
        if let Some(level) = priority {
            let level_ssts = &snapshot.levels[level - 1].1;
            proof {
                assert(level_ssts@ == level_ids(s, level as int));
                assert(!over_target(o, s, max_levels as int));
                assert(real_level_size(s, level + 1) <= u64::MAX);
            }
            let mut selected_sst = level_ssts[0];
            proof {
                assert(level_ssts@.take(1)[0] == selected_sst);
            }
            let mut k: usize = 1;
            while k < level_ssts.len()
                invariant
                    1 <= k <= level_ssts@.len(),
                    is_min_id(level_ssts@.take(k as int), selected_sst),
                decreases level_ssts@.len() - k,
            {
                proof {
                    level_ssts@.lemma_take_succ_push(k as int);
                    let w = choose|w: int|
                        0 <= w < k && level_ssts@.take(k as int)[w] == selected_sst;
                    assert(level_ssts@.take(k + 1)[w] == selected_sst);
                    assert(level_ssts@.take(k + 1)[k as int] == level_ssts@[k as int]);
                }
                if level_ssts[k] < selected_sst {
                    selected_sst = level_ssts[k];
                }
                k += 1;
            }
            proof {
                assert(level_ssts@.take(k as int) =~= level_ssts@);
            }
            let mut upper_level_sst_ids: Vec<usize> = Vec::new();
            upper_level_sst_ids.push(selected_sst);
            let lower_level_sst_ids = self.find_overlapping_ssts(
                snapshot,
                upper_level_sst_ids.as_slice(),
                level + 1,
            );
            return Some(
                LeveledCompactionTask {
                    upper_level: Some(level),
                    upper_level_sst_ids,
                    lower_level: level + 1,
                    lower_level_sst_ids,
                    is_lower_level_bottom_level: level + 1 == max_levels,
                },
            );
        }
        None
    }

    /// The layout after a compaction: `snapshot` without the tables that
    /// `task` took, and with the new tables `output` in the lower level.
    /// Answers with the new layout and with the ids of the tables that are
    /// no longer in it: those that the task took from the upper level, then
    /// those that it took from the lower level. `snapshot` itself stays as
    /// it is. The lower level is sorted by first key unless `in_recovery`
    /// is set.
    pub fn apply_compaction_result(
        &self,
        snapshot: &LsmStorageState,
        task: &LeveledCompactionTask,
        output: &[usize],
        in_recovery: bool,
    ) -> (r: (LsmStorageState, Vec<usize>))
        requires
            applicable(snapshot@, task@, output@, in_recovery),
        ensures
            is_applied(snapshot@, task@, output@, in_recovery, r.0@),
            r.1@ == task@.upper_level_sst_ids + task@.lower_level_sst_ids,
    {
        let ghost s = snapshot@;
        let ghost mid = after_upper_removal(s, task@);
        let mut snapshot = snapshot.clone();
        let mut files_to_remove: Vec<usize> = Vec::new();
        if let Some(upper_level) = task.upper_level {
            let new_upper_level_ssts = remove_ids(
                &snapshot.levels[upper_level - 1].1,
                &task.upper_level_sst_ids,
            );
            let number = snapshot.levels[upper_level - 1].0;
            snapshot.levels.set(upper_level - 1, (number, new_upper_level_ssts));
        } else {
            let new_l0_ssts = remove_ids(&snapshot.l0_sstables, &task.upper_level_sst_ids);
            snapshot.l0_sstables = new_l0_ssts;
        }
        proof {
            assert(snapshot@.levels =~= mid.levels);
            assert(snapshot@.l0 == mid.l0);
            assert(snapshot@.tables == s.tables);
        }
        files_to_remove.extend_from_slice(task.upper_level_sst_ids.as_slice());
        files_to_remove.extend_from_slice(task.lower_level_sst_ids.as_slice());

        let mut new_lower_level_ssts = remove_ids(
            &snapshot.levels[task.lower_level - 1].1,
            &task.lower_level_sst_ids,
        );
        new_lower_level_ssts.extend_from_slice(output);
        proof {
            assert(new_lower_level_ssts@ =~= merged_lower_level(s, task@, output@));
        }
        if !in_recovery {
            new_lower_level_ssts = sort_by_first_key(&snapshot, &new_lower_level_ssts);
        }
        let number = snapshot.levels[task.lower_level - 1].0;
        snapshot.levels.set(task.lower_level - 1, (number, new_lower_level_ssts));
        proof {
            assert(files_to_remove@ =~= task@.upper_level_sst_ids + task@.lower_level_sst_ids);
            assert forall|i: int|
                0 <= i < s.levels.len() && i != task.lower_level - 1 implies #[trigger]
                snapshot@.levels[i] == mid.levels[i] by {}
        }
        (snapshot, files_to_remove)
    }

    /// Whether `generate_compaction_task` can be asked about `snapshot`:
    /// whether the options can be worked with and the layout can be
    /// compacted under them.
    pub fn is_compactable(&self, snapshot: &LsmStorageState) -> (r: bool)
        ensures
            r == (self.options().valid() && compactable(self.options(), snapshot@)),
    {
        if !self.options.is_valid() {
            return false;
        }
        let max_levels = self.options.max_levels;
        if snapshot.levels.len() < max_levels {
            return false;
        }
        let ghost o = self.options;
        let ghost s = snapshot@;
        let mut i: usize = 0;
        while i < max_levels
            invariant
                o == self.options(),
                s == snapshot@,
                max_levels == o.max_levels,
                i <= max_levels <= s.levels.len(),
                forall|level: int|
                    1 <= level <= i ==> {
                        &&& #[trigger] real_level_size(s, level) <= u64::MAX
                        &&& forall|k: int|
                            0 <= k < level_ids(s, level).len() ==> s.tables.contains_key(
                                #[trigger] level_ids(s, level)[k],
                            )
                    },
            decreases max_levels - i,
        {
            let ids = &snapshot.levels[i].1;
            proof {
                assert(ids@ == level_ids(s, i + 1));
            }
            if !all_known(snapshot, ids.as_slice()) {
                proof {
                    assert(real_level_size(s, i + 1) >= 0);
                }
                return false;
            }
            if checked_total_size(snapshot, ids).is_none() {
                proof {
                    assert(real_level_size(s, i + 1) > u64::MAX);
                }
                return false;
            }
            i += 1;
        }
        if snapshot.l0_sstables.len() >= self.options.level0_file_num_compaction_trigger
            && !all_known(snapshot, snapshot.l0_sstables.as_slice()) {
            return false;
        }
        true
    }

    /// Whether `apply_compaction_result` can be asked to apply the result
    /// `output` of `task` to `snapshot`.
    pub fn is_applicable(
        &self,
        snapshot: &LsmStorageState,
        task: &LeveledCompactionTask,
        output: &[usize],
        in_recovery: bool,
    ) -> (r: bool)
        ensures
            r == applicable(snapshot@, task@, output@, in_recovery),
    {
        let ghost s = snapshot@;
        let ghost mid = after_upper_removal(s, task@);
        let levels = snapshot.levels.len();
        if task.lower_level < 1 || task.lower_level > levels {
            return false;
        }
        let lower = &snapshot.levels[task.lower_level - 1].1;
        let lower_after_upper = match task.upper_level {
            Some(upper_level) => {
                if upper_level < 1 || upper_level > levels {
                    return false;
                }
                let upper = &snapshot.levels[upper_level - 1].1;
                if !all_among(task.upper_level_sst_ids.as_slice(), upper.as_slice()) {
                    return false;
                }
                if upper_level == task.lower_level {
                    remove_ids(upper, &task.upper_level_sst_ids)
                } else {
                    lower.clone()
                }
            },
            None => {
                if !all_among(
                    task.upper_level_sst_ids.as_slice(),
                    snapshot.l0_sstables.as_slice(),
                ) {
                    return false;
                }
                lower.clone()
            },
        };
        proof {
            assert(lower_after_upper@ =~= level_ids(mid, task.lower_level as int));
        }
        if !all_among(task.lower_level_sst_ids.as_slice(), lower_after_upper.as_slice()) {
            proof {
                let i = choose|i: int|
                    0 <= i < task@.lower_level_sst_ids.len() && !lower_after_upper@.contains(
                        #[trigger] task@.lower_level_sst_ids[i],
                    );
                assert(!level_ids(mid, task.lower_level as int).contains(
                    task@.lower_level_sst_ids[i],
                ));
            }
            return false;
        }
        if !in_recovery {
            let mut merged = remove_ids(&lower_after_upper, &task.lower_level_sst_ids);
            merged.extend_from_slice(output);
            proof {
                assert(merged@ =~= merged_lower_level(s, task@, output@));
            }
            if !all_known(snapshot, merged.as_slice()) {
                return false;
            }
        }
        true
    }
}

} // verus!
