//! What holds of leveled compaction: of target sizes, of the order of
//! priority, of overlap selection, and of the layout after a compaction.

use vstd::prelude::*;
use crate::compact::leveled::model::{
    after_upper_removal, base_level_from, bottom_size, ids_size, in_range, is_applied,
    is_generated_task, is_top_priority, level_ids, max_last_key, merged_lower_level,
    min_first_key, outranks, over_target, overlapping, real_level_size, target_level_size,
    TaskModel,
};
use crate::compact::leveled::LeveledCompactionOptions;
use crate::compact::table_list::{
    lemma_same_members, lemma_stable_sort_unique, lemma_without_first, sorted_by_first_key,
    without_first,
};
use crate::key::{key_le, key_lt, lemma_key_le_transitive, lemma_key_trichotomy};
use crate::lsm_storage::StateModel;
use crate::table::SsTableModel;

verus! {

/// The target sizes never go down from a level to the level below it, and
/// that of the last level is its real size or the configured least size,
/// whichever is more.
pub proof fn lemma_target_sizes_monotone(o: LeveledCompactionOptions, bottom: nat, level: int)
    requires
        o.valid(),
        1 <= level < o.max_levels,
    ensures
        target_level_size(o, bottom, level) <= target_level_size(o, bottom, level + 1),
        target_level_size(o, bottom, o.max_levels as int) == if bottom
            > o.base_level_size_bytes() {
            bottom
        } else {
            o.base_level_size_bytes()
        },
{
    let next = target_level_size(o, bottom, level + 1);
    let m = o.level_size_multiplier as nat;
    assert(next / m <= next) by (nonlinear_arith)
        requires
            m >= 1,
    ;
}

/// The base level is a level, every level above it has the target size 0,
/// and it has a target size above 0.
pub proof fn lemma_base_level(o: LeveledCompactionOptions, bottom: nat, from: int)
    requires
        o.valid(),
        1 <= from <= o.max_levels,
    ensures
        from <= base_level_from(o, bottom, from) <= o.max_levels,
        forall|l: int|
            from <= l < base_level_from(o, bottom, from) ==> target_level_size(o, bottom, l) == 0,
        base_level_from(o, bottom, from) < o.max_levels ==> target_level_size(
            o,
            bottom,
            base_level_from(o, bottom, from),
        ) > 0,
    decreases o.max_levels - from,
{
    if from < o.max_levels && target_level_size(o, bottom, from) == 0 {
        lemma_base_level(o, bottom, from + 1);
    }
}

/// The sizes of the first tables of a list add up to no more than those of
/// the whole list.
pub proof fn lemma_ids_size_prefix(tables: Map<usize, SsTableModel>, ids: Seq<usize>, i: int)
    requires
        0 <= i <= ids.len(),
    ensures
        ids_size(tables, ids.take(i)) <= ids_size(tables, ids),
    decreases ids.len(),
{
    if i < ids.len() {
        assert(ids.drop_last().take(i) =~= ids.take(i));
        lemma_ids_size_prefix(tables, ids.drop_last(), i);
    } else {
        assert(ids.take(i) =~= ids);
    }
}

/// The product of two 64-bit numbers fits 128 bits.
pub proof fn lemma_product_fits(a: u64, b: u64)
    ensures
        a * b <= u128::MAX,
{
    assert(a * b <= 0xFFFF_FFFF_FFFF_FFFF * 0xFFFF_FFFF_FFFF_FFFF) by (nonlinear_arith)
        requires
            0 <= a <= 0xFFFF_FFFF_FFFF_FFFF,
            0 <= b <= 0xFFFF_FFFF_FFFF_FFFF,
    ;
}

/// Ratios of sizes to targets compare as they should when the comparison is
/// made by cross-multiplying: "no smaller" carries over from two steps to
/// one, and so does "larger" if either step has it.
pub proof fn lemma_ratio_transitive(ra: nat, ta: nat, rb: nat, tb: nat, rc: nat, tc: nat)
    requires
        ra >= 1,
        rb >= 1,
        rc >= 1,
        ra * tb >= rb * ta,
        rb * tc >= rc * tb,
    ensures
        ra * tc >= rc * ta,
        ra * tb > rb * ta || rb * tc > rc * tb ==> ra * tc > rc * ta,
{
    if tb == 0 {
        assert(ta == 0) by (nonlinear_arith)
            requires
                ra * tb >= rb * ta,
                tb == 0,
                rb >= 1,
        ;
        assert(ra * tc >= rc * ta) by (nonlinear_arith)
            requires
                ta == 0,
        ;
        assert(rb * tc > rc * tb ==> ra * tc > rc * ta) by (nonlinear_arith)
            requires
                ta == 0,
                tb == 0,
                ra >= 1,
        ;
    } else {
        assert((ra * tc) * tb >= (rc * ta) * tb && (ra * tb > rb * ta || rb * tc > rc * tb ==> (ra
            * tc) * tb > (rc * ta) * tb)) by (nonlinear_arith)
            requires
                ra * tb >= rb * ta,
                rb * tc >= rc * tb,
                tb > 0,
                ra >= 1,
                rb >= 1,
                rc >= 1,
        {
            assert((ra * tb) * tc >= (rb * ta) * tc);
            assert((rb * tc) * ta >= (rc * tb) * ta);
            assert((ra * tb) * tc == (ra * tc) * tb);
            assert((rb * ta) * tc == (rb * tc) * ta);
            assert((rc * tb) * ta == (rc * ta) * tb);
            if ra * tb > rb * ta {
                assert(tc > 0);
                assert((ra * tb) * tc > (rb * ta) * tc);
            }
            if rb * tc > rc * tb {
                assert(tc > 0);
                if ta > 0 {
                    assert((rb * tc) * ta > (rc * tb) * ta);
                } else {
                    assert((rc * ta) * tb == 0);
                    assert((ra * tc) * tb > 0);
                }
            }
        }
        assert(ra * tc >= rc * ta) by (nonlinear_arith)
            requires
                (ra * tc) * tb >= (rc * ta) * tb,
                tb > 0,
        ;
        if ra * tb > rb * ta || rb * tc > rc * tb {
            assert(ra * tc > rc * ta) by (nonlinear_arith)
                requires
                    (ra * tc) * tb > (rc * ta) * tb,
                    tb > 0,
            ;
        }
    }
}

/// Of three levels over their targets, the first comes before the third if
/// it comes before the second and the second before the third.
pub proof fn lemma_outranks_transitive(
    o: LeveledCompactionOptions,
    s: StateModel,
    a: int,
    b: int,
    c: int,
)
    requires
        over_target(o, s, a),
        over_target(o, s, b),
        over_target(o, s, c),
        outranks(o, s, a, b),
        outranks(o, s, b, c),
    ensures
        outranks(o, s, a, c),
{
    let bottom = bottom_size(o, s);
    lemma_ratio_transitive(
        real_level_size(s, a),
        target_level_size(o, bottom, a),
        real_level_size(s, b),
        target_level_size(o, bottom, b),
        real_level_size(s, c),
        target_level_size(o, bottom, c),
    );
}

/// Only one level is first in priority.
pub proof fn lemma_top_priority_unique(o: LeveledCompactionOptions, s: StateModel, a: int, b: int)
    requires
        is_top_priority(o, s, a),
        is_top_priority(o, s, b),
    ensures
        a == b,
{
}

/// The least of the first keys is the first key of one of the tables, and
/// none of them has a first key below it.
pub proof fn lemma_min_first_key(tables: Map<usize, SsTableModel>, ids: Seq<usize>)
    requires
        ids.len() > 0,
    ensures
        exists|i: int| 0 <= i < ids.len() && min_first_key(tables, ids) == tables[ids[i]].first_key,
        forall|i: int|
            0 <= i < ids.len() ==> key_le(
                min_first_key(tables, ids),
                #[trigger] tables[ids[i]].first_key,
            ),
    decreases ids.len(),
{
    let least = min_first_key(tables, ids);
    if ids.len() <= 1 {
        lemma_key_trichotomy(least, least);
        assert(least == tables[ids[0]].first_key);
    } else {
        let init = ids.drop_last();
        let key = tables[ids.last()].first_key;
        lemma_min_first_key(tables, init);
        let prev = min_first_key(tables, init);
        let w = choose|i: int| 0 <= i < init.len() && prev == tables[init[i]].first_key;
        lemma_key_trichotomy(key, prev);
        lemma_key_trichotomy(key, key);
        if key_lt(key, prev) {
            assert(least == tables[ids[ids.len() - 1]].first_key);
        } else {
            assert(least == tables[ids[w]].first_key);
        }
        assert forall|i: int| 0 <= i < ids.len() implies key_le(
            least,
            #[trigger] tables[ids[i]].first_key,
        ) by {
            if i < init.len() {
                assert(key_le(prev, tables[init[i]].first_key));
                lemma_key_le_transitive(least, prev, tables[ids[i]].first_key);
            }
        }
    }
}

/// The greatest of the last keys is the last key of one of the tables, and
/// none of them has a last key above it.
pub proof fn lemma_max_last_key(tables: Map<usize, SsTableModel>, ids: Seq<usize>)
    requires
        ids.len() > 0,
    ensures
        exists|i: int| 0 <= i < ids.len() && max_last_key(tables, ids) == tables[ids[i]].last_key,
        forall|i: int|
            0 <= i < ids.len() ==> key_le(
                #[trigger] tables[ids[i]].last_key,
                max_last_key(tables, ids),
            ),
    decreases ids.len(),
{
    let greatest = max_last_key(tables, ids);
    if ids.len() <= 1 {
        lemma_key_trichotomy(greatest, greatest);
        assert(greatest == tables[ids[0]].last_key);
    } else {
        let init = ids.drop_last();
        let key = tables[ids.last()].last_key;
        lemma_max_last_key(tables, init);
        let prev = max_last_key(tables, init);
        let w = choose|i: int| 0 <= i < init.len() && prev == tables[init[i]].last_key;
        lemma_key_trichotomy(key, prev);
        lemma_key_trichotomy(key, key);
        if key_lt(prev, key) {
            assert(greatest == tables[ids[ids.len() - 1]].last_key);
        } else {
            assert(greatest == tables[ids[w]].last_key);
        }
        assert forall|i: int| 0 <= i < ids.len() implies key_le(
            #[trigger] tables[ids[i]].last_key,
            greatest,
        ) by {
            if i < init.len() {
                assert(key_le(tables[init[i]].last_key, prev));
                lemma_key_le_transitive(tables[ids[i]].last_key, prev, greatest);
            }
        }
    }
}

/// Overlap selection is complete and exact: a table is selected if and only
/// if it is in the level and its keys have something in common with the keys
/// from the least first key to the greatest last key of the sources.
pub proof fn lemma_overlap_selection(s: StateModel, sources: Seq<usize>, level: int, id: usize)
    requires
        sources.len() > 0,
    ensures
        overlapping(s, sources, level).contains(id) <==> level_ids(s, level).contains(id)
            && in_range(
            s.tables[id],
            min_first_key(s.tables, sources),
            max_last_key(s.tables, sources),
        ),
{
    let pred = |id: usize|
        in_range(
            s.tables[id],
            min_first_key(s.tables, sources),
            max_last_key(s.tables, sources),
        );
    let ids = level_ids(s, level);
    let selected = ids.filter(pred);
    if selected.contains(id) {
        let i = choose|i: int| 0 <= i < selected.len() && selected[i] == id;
        ids.lemma_filter_pred(pred, i);
        ids.lemma_filter_contains_rev(pred, id);
    }
    if ids.contains(id) && pred(id) {
        let i = choose|i: int| 0 <= i < ids.len() && ids[i] == id;
        ids.lemma_filter_contains(pred, i);
    }
}

/// Level 0 comes first: where it holds as many tables as the trigger, the
/// task that is generated takes its tables, whatever the sizes of the levels.
pub proof fn lemma_l0_precedence(
    o: LeveledCompactionOptions,
    s: StateModel,
    task: Option<TaskModel>,
)
    requires
        is_generated_task(o, s, task),
        s.l0.len() >= o.level0_file_num_compaction_trigger,
    ensures
        task is Some,
        task->0.upper_level is None,
        task->0.upper_level_sst_ids == s.l0,
{
}

/// Only one answer is what `generate_compaction_task` may give.
pub proof fn lemma_generated_task_unique(
    o: LeveledCompactionOptions,
    s: StateModel,
    a: Option<TaskModel>,
    b: Option<TaskModel>,
)
    requires
        is_generated_task(o, s, a),
        is_generated_task(o, s, b),
    ensures
        a == b,
{
    if s.l0.len() < o.level0_file_num_compaction_trigger {
        if a is Some && b is Some {
            let ta = a->0;
            let tb = b->0;
            lemma_top_priority_unique(o, s, ta.upper_level->0 as int, tb.upper_level->0 as int);
            let ids = level_ids(s, ta.upper_level->0 as int);
            let x = ta.upper_level_sst_ids[0];
            let y = tb.upper_level_sst_ids[0];
            let i = choose|i: int| 0 <= i < ids.len() && ids[i] == x;
            let j = choose|j: int| 0 <= j < ids.len() && ids[j] == y;
            assert(x <= ids[j] && y <= ids[i]);
            assert(ta.upper_level_sst_ids =~= tb.upper_level_sst_ids);
        } else if a is Some {
            assert(over_target(o, s, a->0.upper_level->0 as int));
        } else if b is Some {
            assert(over_target(o, s, b->0.upper_level->0 as int));
        }
    }
}

/// What a compaction leaves in the lower level. Where no table stood twice
/// in the lower level, none of the new tables stood in it, and no new table
/// is named twice, the lower level afterwards holds exactly the tables that
/// it held and the task did not take, and the new tables; none of them
/// stands in it twice; and unless the layout is being recovered they are
/// sorted by first key. Where the task takes its upper tables from the lower
/// level itself, "held" is after they have left.
pub proof fn lemma_applied_lower_level(
    s: StateModel,
    t: TaskModel,
    output: Seq<usize>,
    in_recovery: bool,
    after: StateModel,
)
    requires
        1 <= t.lower_level <= s.levels.len(),
        is_applied(s, t, output, in_recovery, after),
        level_ids(after_upper_removal(s, t), t.lower_level as int).no_duplicates(),
        output.no_duplicates(),
        forall|x: usize|
            !(level_ids(after_upper_removal(s, t), t.lower_level as int).contains(x)
                && output.contains(x)),
    ensures
        level_ids(after, t.lower_level as int).no_duplicates(),
        forall|x: usize|
            level_ids(after, t.lower_level as int).contains(x) <==> (level_ids(
                after_upper_removal(s, t),
                t.lower_level as int,
            ).contains(x) && !t.lower_level_sst_ids.contains(x)) || output.contains(x),
        !in_recovery ==> sorted_by_first_key(s.tables, level_ids(after, t.lower_level as int)),
{
    let before = level_ids(after_upper_removal(s, t), t.lower_level as int);
    let gone = t.lower_level_sst_ids.to_set();
    let stayed = without_first(before, gone);
    let merged = merged_lower_level(s, t, output);
    let now = level_ids(after, t.lower_level as int);
    lemma_without_first(before, gone);
    assert(merged.no_duplicates()) by {
        assert forall|i: int, j: int| 0 <= i < j < merged.len() implies merged[i] != merged[j] by {
            if i < stayed.len() && j >= stayed.len() {
                assert(stayed.contains(merged[i]));
                assert(output.contains(output[j - stayed.len()]));
            }
        }
    }
    assert forall|x: usize|
        merged.contains(x) <==> (before.contains(x) && !t.lower_level_sst_ids.contains(x))
            || output.contains(x) by {
        if merged.contains(x) {
            let i = choose|i: int| 0 <= i < merged.len() && merged[i] == x;
            if i < stayed.len() {
                assert(stayed.contains(stayed[i]));
            } else {
                assert(output.contains(output[i - stayed.len()]));
            }
        }
        if stayed.contains(x) {
            let i = choose|i: int| 0 <= i < stayed.len() && stayed[i] == x;
            assert(merged[i] == x);
        }
        if output.contains(x) {
            let i = choose|i: int| 0 <= i < output.len() && output[i] == x;
            assert(merged[stayed.len() + i] == x);
        }
    }
    if !in_recovery {
        lemma_same_members(merged, now);
    }
}

/// Only one layout is a layout with the result of a task applied.
pub proof fn lemma_applied_unique(
    s: StateModel,
    t: TaskModel,
    output: Seq<usize>,
    in_recovery: bool,
    a: StateModel,
    b: StateModel,
)
    requires
        1 <= t.lower_level <= s.levels.len(),
        is_applied(s, t, output, in_recovery, a),
        is_applied(s, t, output, in_recovery, b),
    ensures
        a == b,
{
    let lower = t.lower_level - 1;
    if !in_recovery {
        lemma_stable_sort_unique(
            s.tables,
            merged_lower_level(s, t, output),
            a.levels[lower].1,
            b.levels[lower].1,
        );
    }
    assert forall|i: int| 0 <= i < a.levels.len() implies a.levels[i] == b.levels[i] by {
        if i != lower {
            assert(a.levels[i] == after_upper_removal(s, t).levels[i]);
            assert(b.levels[i] == after_upper_removal(s, t).levels[i]);
        }
    }
    assert(a.levels =~= b.levels);
}

} // verus!
