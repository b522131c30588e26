//! What the leveled compaction controller computes, as mathematics: the
//! sizes and target sizes of levels, the order of priority among levels, the
//! overlap of key ranges, and what a task does to a layout.

use vstd::prelude::*;
use crate::compact::leveled::LeveledCompactionOptions;
use crate::compact::table_list::{is_stable_sort, without_first};
use crate::key::{key_lt, KeyModel};
use crate::lsm_storage::StateModel;
use crate::table::SsTableModel;

verus! {

/// A compaction task as a mathematical value.
pub struct TaskModel {
    pub upper_level: Option<usize>,
    pub upper_level_sst_ids: Seq<usize>,
    pub lower_level: usize,
    pub lower_level_sst_ids: Seq<usize>,
    pub is_lower_level_bottom_level: bool,
}

impl LeveledCompactionOptions {
    /// The configured least size of the last level, in bytes.
    pub open spec fn base_level_size_bytes(self) -> nat {
        self.base_level_size_mb as nat * 1024 * 1024
    }

    /// The options can be worked with: there is a level, the multiplier is
    /// not 0, and the least size of the last level in bytes fits 64 bits.
    pub open spec fn valid(self) -> bool {
        &&& self.max_levels >= 1
        &&& self.level_size_multiplier >= 1
        &&& self.base_level_size_bytes() <= u64::MAX
    }
}

/// The ids of the tables of a level; levels count from 1.
pub open spec fn level_ids(s: StateModel, level: int) -> Seq<usize> {
    s.levels[level - 1].1
}

/// The sizes of the tables `ids`, added up.
pub open spec fn ids_size(tables: Map<usize, SsTableModel>, ids: Seq<usize>) -> nat
    decreases ids.len(),
{
    if ids.len() == 0 {
        0
    } else {
        ids_size(tables, ids.drop_last()) + tables[ids.last()].table_size as nat
    }
}

/// The size of a level: the sizes of its tables, added up.
pub open spec fn real_level_size(s: StateModel, level: int) -> nat {
    ids_size(s.tables, level_ids(s, level))
}

/// The target size of a level where the last level holds `bottom` bytes.
/// That of the last level is `bottom`, or the configured least size where
/// that is more. A level above gets the target of the level below it, divided
/// by the multiplier, where that target is above the configured least size,
/// and 0 otherwise.
pub open spec fn target_level_size(o: LeveledCompactionOptions, bottom: nat, level: int) -> nat
    decreases o.max_levels - level,
{
    if level >= o.max_levels {
        if bottom > o.base_level_size_bytes() {
            bottom
        } else {
            o.base_level_size_bytes()
        }
    } else {
        let next = target_level_size(o, bottom, level + 1);
        if next > o.base_level_size_bytes() {
            next / (o.level_size_multiplier as nat)
        } else {
            0
        }
    }
}

/// The first level from `level` on with a target size above 0, and the last
/// level if there is none before it.
pub open spec fn base_level_from(o: LeveledCompactionOptions, bottom: nat, level: int) -> int
    decreases o.max_levels - level,
{
    if level >= o.max_levels {
        o.max_levels as int
    } else if target_level_size(o, bottom, level) > 0 {
        level
    } else {
        base_level_from(o, bottom, level + 1)
    }
}

/// The base level where the last level holds `bottom` bytes: the first level
/// with a target size above 0, into which the tables of level 0 are merged.
pub open spec fn base_level(o: LeveledCompactionOptions, bottom: nat) -> int {
    base_level_from(o, bottom, 1)
}

/// The size of the last level.
pub open spec fn bottom_size(o: LeveledCompactionOptions, s: StateModel) -> nat {
    real_level_size(s, o.max_levels as int)
}

/// A level holds more than its target size.
pub open spec fn over_target(o: LeveledCompactionOptions, s: StateModel, level: int) -> bool {
    real_level_size(s, level) > target_level_size(o, bottom_size(o, s), level)
}

/// Level `a` comes before level `b` in priority: its real size stands in a
/// larger ratio to its target size, or in the same ratio while `a` is the
/// deeper level. The ratios are compared exactly, by cross-multiplying, which
/// also puts a level over a target of 0 before any level with a target above 0.
pub open spec fn outranks(o: LeveledCompactionOptions, s: StateModel, a: int, b: int) -> bool {
    let left = real_level_size(s, a) * target_level_size(o, bottom_size(o, s), b);
    let right = real_level_size(s, b) * target_level_size(o, bottom_size(o, s), a);
    left > right || (left == right && a > b)
}

/// `level` is over its target and comes before every other level that is.
pub open spec fn is_top_priority(o: LeveledCompactionOptions, s: StateModel, level: int) -> bool {
    &&& 1 <= level <= o.max_levels
    &&& over_target(o, s, level)
    &&& forall|l: int|
        1 <= l <= o.max_levels && l != level && #[trigger] over_target(o, s, l) ==> outranks(
            o,
            s,
            level,
            l,
        )
}

/// `id` is the least of `ids`.
pub open spec fn is_min_id(ids: Seq<usize>, id: usize) -> bool {
    &&& ids.contains(id)
    &&& forall|i: int| 0 <= i < ids.len() ==> id <= ids[i]
}

/// The least of the first keys of the tables `ids`, of which there is at
/// least one.
pub open spec fn min_first_key(tables: Map<usize, SsTableModel>, ids: Seq<usize>) -> KeyModel
    recommends
        ids.len() > 0,
    decreases ids.len(),
{
    if ids.len() <= 1 {
        tables[ids[0]].first_key
    } else {
        let least = min_first_key(tables, ids.drop_last());
        let key = tables[ids.last()].first_key;
        if key_lt(key, least) {
            key
        } else {
            least
        }
    }
}

/// The greatest of the last keys of the tables `ids`, of which there is at
/// least one.
pub open spec fn max_last_key(tables: Map<usize, SsTableModel>, ids: Seq<usize>) -> KeyModel
    recommends
        ids.len() > 0,
    decreases ids.len(),
{
    if ids.len() <= 1 {
        tables[ids[0]].last_key
    } else {
        let greatest = max_last_key(tables, ids.drop_last());
        let key = tables[ids.last()].last_key;
        if key_lt(greatest, key) {
            key
        } else {
            greatest
        }
    }
}

/// The table's keys and the keys from `begin` to `end` have something in
/// common: the table lies neither wholly below `begin` nor wholly above `end`.
pub open spec fn in_range(table: SsTableModel, begin: KeyModel, end: KeyModel) -> bool {
    !(key_lt(table.last_key, begin) || key_lt(end, table.first_key))
}

/// The tables of `level` that overlap the key range of the tables `sources`,
/// in the order of the level. No sources, no overlap.
pub open spec fn overlapping(s: StateModel, sources: Seq<usize>, level: int) -> Seq<usize> {
    if sources.len() == 0 {
        Seq::empty()
    } else {
        level_ids(s, level).filter(
            |id: usize|
                in_range(
                    s.tables[id],
                    min_first_key(s.tables, sources),
                    max_last_key(s.tables, sources),
                ),
        )
    }
}

/// The task that merges all of level 0 into the base level.
pub open spec fn l0_task(o: LeveledCompactionOptions, s: StateModel) -> TaskModel {
    TaskModel {
        upper_level: None,
        upper_level_sst_ids: s.l0,
        lower_level: base_level(o, bottom_size(o, s)) as usize,
        lower_level_sst_ids: overlapping(s, s.l0, base_level(o, bottom_size(o, s))),
        is_lower_level_bottom_level: base_level(o, bottom_size(o, s)) == o.max_levels,
    }
}

/// `t` merges the table with the least id of the level first in priority
/// into the level below it.
pub open spec fn is_priority_task(
    o: LeveledCompactionOptions,
    s: StateModel,
    t: TaskModel,
) -> bool {
    match t.upper_level {
        Some(level) => {
            &&& is_top_priority(o, s, level as int)
            &&& t.upper_level_sst_ids.len() == 1
            &&& is_min_id(level_ids(s, level as int), t.upper_level_sst_ids[0])
            &&& t.lower_level == level + 1
            &&& t.lower_level_sst_ids == overlapping(s, t.upper_level_sst_ids, level + 1)
            &&& t.is_lower_level_bottom_level == (level + 1 == o.max_levels)
        },
        None => false,
    }
}

/// The layout after the tables that a task takes from its upper level, or
/// from level 0, have left it.
pub open spec fn after_upper_removal(s: StateModel, t: TaskModel) -> StateModel {
    match t.upper_level {
        Some(upper) => StateModel {
            levels: s.levels.update(
                upper - 1,
                (
                    s.levels[upper - 1].0,
                    without_first(s.levels[upper - 1].1, t.upper_level_sst_ids.to_set()),
                ),
            ),
            ..s
        },
        None => StateModel { l0: without_first(s.l0, t.upper_level_sst_ids.to_set()), ..s },
    }
}

/// The tables of the lower level of a task after the compaction, before they
/// are sorted: those that the task left there, then the new tables.
pub open spec fn merged_lower_level(
    s: StateModel,
    t: TaskModel,
    output: Seq<usize>,
) -> Seq<usize> {
    without_first(
        level_ids(after_upper_removal(s, t), t.lower_level as int),
        t.lower_level_sst_ids.to_set(),
    ) + output
}

/// The result of a task can be applied to a layout: the layout has the
/// levels that the task names, each table that the task takes is where the
/// task says, and, unless the layout is being recovered, each table of the
/// lower level after the compaction is known.
pub open spec fn applicable(
    s: StateModel,
    t: TaskModel,
    output: Seq<usize>,
    in_recovery: bool,
) -> bool {
    &&& 1 <= t.lower_level <= s.levels.len()
    &&& match t.upper_level {
        Some(upper) => {
            &&& 1 <= upper <= s.levels.len()
            &&& forall|i: int|
                0 <= i < t.upper_level_sst_ids.len() ==> level_ids(s, upper as int).contains(
                    #[trigger] t.upper_level_sst_ids[i],
                )
        },
        None => forall|i: int|
            0 <= i < t.upper_level_sst_ids.len() ==> s.l0.contains(
                #[trigger] t.upper_level_sst_ids[i],
            ),
    }
    &&& forall|i: int|
        0 <= i < t.lower_level_sst_ids.len() ==> level_ids(
            after_upper_removal(s, t),
            t.lower_level as int,
        ).contains(#[trigger] t.lower_level_sst_ids[i])
    &&& !in_recovery ==> forall|i: int|
        0 <= i < merged_lower_level(s, t, output).len() ==> s.tables.contains_key(
            #[trigger] merged_lower_level(s, t, output)[i],
        )
}

/// `after` is the layout `s` with the result of the task `t` applied: the
/// tables that the task took are gone from their levels, and the new tables
/// `output` stand in the lower level, after those that stayed there; unless
/// the layout is being recovered, the lower level is then sorted by first key.
/// Nothing else differs.
pub open spec fn is_applied(
    s: StateModel,
    t: TaskModel,
    output: Seq<usize>,
    in_recovery: bool,
    after: StateModel,
) -> bool {
    let mid = after_upper_removal(s, t);
    let lower = t.lower_level - 1;
    &&& after.l0 == mid.l0
    &&& after.tables == s.tables
    &&& after.levels.len() == s.levels.len()
    &&& forall|i: int|
        0 <= i < s.levels.len() && i != lower ==> #[trigger] after.levels[i] == mid.levels[i]
    &&& after.levels[lower].0 == s.levels[lower].0
    &&& if in_recovery {
        after.levels[lower].1 == merged_lower_level(s, t, output)
    } else {
        is_stable_sort(s.tables, merged_lower_level(s, t, output), after.levels[lower].1)
    }
}

/// The layout `s` can be compacted under the options `o`: it has the levels,
/// the tables of each level are known and their sizes add up within 64 bits,
/// and the tables of level 0 are known where they are due for compaction.
pub open spec fn compactable(o: LeveledCompactionOptions, s: StateModel) -> bool {
    &&& s.levels.len() >= o.max_levels
    &&& forall|level: int|
        1 <= level <= o.max_levels ==> {
            &&& #[trigger] real_level_size(s, level) <= u64::MAX
            &&& forall|i: int|
                0 <= i < level_ids(s, level).len() ==> s.tables.contains_key(
                    #[trigger] level_ids(s, level)[i],
                )
        }
    &&& s.l0.len() >= o.level0_file_num_compaction_trigger ==> forall|i: int|
        0 <= i < s.l0.len() ==> s.tables.contains_key(#[trigger] s.l0[i])
}

/// What `generate_compaction_task` answers. Level 0 comes first: where it
/// holds as many tables as the trigger, all of them go to the base level.
/// Otherwise the level first in priority gives its table with the least id
/// to the level below, and there is no task where no level is over its target.
pub open spec fn is_generated_task(
    o: LeveledCompactionOptions,
    s: StateModel,
    task: Option<TaskModel>,
) -> bool {
    if s.l0.len() >= o.level0_file_num_compaction_trigger {
        task == Some(l0_task(o, s))
    } else {
        match task {
            Some(t) => is_priority_task(o, s, t),
            None => forall|l: int| 1 <= l <= o.max_levels ==> !#[trigger] over_target(o, s, l),
        }
    }
}

} // verus!
