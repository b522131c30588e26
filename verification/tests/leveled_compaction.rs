use mini_lsm::compact::leveled::{
    LeveledCompactionController, LeveledCompactionOptions, LeveledCompactionTask,
};
use mini_lsm::key::KeyVec;
use mini_lsm::lsm_storage::LsmStorageState;
use mini_lsm::table::SsTableMeta;
use std::collections::HashMap;
use std::sync::Arc;

const MB: u64 = 1024 * 1024;

fn table(first: &[u8], last: &[u8], size: u64) -> Arc<SsTableMeta> {
    Arc::new(SsTableMeta::new(
        KeyVec::from_vec_with_ts(first.to_vec(), 0),
        KeyVec::from_vec_with_ts(last.to_vec(), 0),
        size,
    ))
}

fn state(
    l0: &[usize],
    levels: &[&[usize]],
    tables: &[(usize, &[u8], &[u8], u64)],
) -> LsmStorageState {
    let mut sstables = HashMap::new();
    for (id, first, last, size) in tables {
        sstables.insert(*id, table(first, last, *size));
    }
    LsmStorageState {
        l0_sstables: l0.to_vec(),
        levels: levels
            .iter()
            .enumerate()
            .map(|(i, ids)| (i + 1, ids.to_vec()))
            .collect(),
        sstables,
    }
}

fn controller(
    level_size_multiplier: usize,
    level0_file_num_compaction_trigger: usize,
    max_levels: usize,
    base_level_size_mb: usize,
) -> LeveledCompactionController {
    LeveledCompactionController::new(LeveledCompactionOptions {
        level_size_multiplier,
        level0_file_num_compaction_trigger,
        max_levels,
        base_level_size_mb,
    })
}

fn generate(
    controller: &LeveledCompactionController,
    snapshot: &LsmStorageState,
) -> Option<LeveledCompactionTask> {
    assert!(controller.is_compactable(snapshot));
    controller.generate_compaction_task(snapshot)
}

fn apply(
    controller: &LeveledCompactionController,
    snapshot: &LsmStorageState,
    task: &LeveledCompactionTask,
    output: &[usize],
    in_recovery: bool,
) -> (LsmStorageState, Vec<usize>) {
    assert!(controller.is_applicable(snapshot, task, output, in_recovery));
    controller.apply_compaction_result(snapshot, task, output, in_recovery)
}

#[test]
fn test_options_validity() {
    let good = LeveledCompactionOptions {
        level_size_multiplier: 10,
        level0_file_num_compaction_trigger: 4,
        max_levels: 3,
        base_level_size_mb: 128,
    };
    assert!(good.is_valid());
    assert!(!LeveledCompactionOptions { max_levels: 0, ..good }.is_valid());
    assert!(!LeveledCompactionOptions { level_size_multiplier: 0, ..good }.is_valid());
    assert!(!LeveledCompactionOptions { base_level_size_mb: usize::MAX, ..good }.is_valid());
    assert!(LeveledCompactionOptions { base_level_size_mb: 0, ..good }.is_valid());
    assert!(LeveledCompactionOptions { level0_file_num_compaction_trigger: 0, ..good }.is_valid());
}

#[test]
fn test_target_sizes_cascade_from_the_last_level() {
    let c = controller(10, 2, 6, 200);
    let (targets, base_level) = c.target_level_sizes(300_000 * MB);
    assert_eq!(
        targets,
        vec![0, 30 * MB, 300 * MB, 3_000 * MB, 30_000 * MB, 300_000 * MB]
    );
    assert_eq!(base_level, 2);
}

#[test]
fn test_target_sizes_with_a_small_last_level() {
    let c = controller(10, 2, 6, 200);
    let (targets, base_level) = c.target_level_sizes(0);
    assert_eq!(targets, vec![0, 0, 0, 0, 0, 200 * MB]);
    assert_eq!(base_level, 6);
    let (targets, base_level) = c.target_level_sizes(200 * MB);
    assert_eq!(targets, vec![0, 0, 0, 0, 0, 200 * MB]);
    assert_eq!(base_level, 6);
    let (targets, base_level) = c.target_level_sizes(200 * MB + 1);
    assert_eq!(targets, vec![0, 0, 0, 0, (200 * MB + 1) / 10, 200 * MB + 1]);
    assert_eq!(base_level, 5);
}

#[test]
fn test_target_sizes_never_go_down_towards_the_last_level() {
    for bottom in [0, 1, 7 * MB, 200 * MB, 1_000 * MB, 123_456_789_012, u64::MAX] {
        for multiplier in [1, 2, 3, 10, 1000] {
            let c = controller(multiplier, 2, 7, 64);
            let (targets, base_level) = c.target_level_sizes(bottom);
            assert_eq!(targets.len(), 7);
            for i in 0..6 {
                assert!(targets[i] <= targets[i + 1]);
            }
            assert_eq!(targets[6], bottom.max(64 * MB));
            assert!(1 <= base_level && base_level <= 7);
            for i in 0..base_level - 1 {
                assert_eq!(targets[i], 0);
            }
        }
    }
}

#[test]
fn test_target_size_that_divides_to_nothing_is_no_base_level() {
    // the last level's target is 5 bytes; a tenth of it is nothing
    let c = controller(10, 2, 3, 0);
    let (targets, base_level) = c.target_level_sizes(5);
    assert_eq!(targets, vec![0, 0, 5]);
    assert_eq!(base_level, 3);
}

#[test]
fn test_real_level_sizes_add_up_the_tables() {
    let c = controller(2, 4, 3, 1);
    let snapshot = state(
        &[],
        &[&[1, 2], &[], &[3, 4, 5]],
        &[
            (1, b"a", b"b", 10),
            (2, b"c", b"d", 20),
            (3, b"a", b"b", 1),
            (4, b"c", b"d", 2),
            (5, b"e", b"f", u64::MAX - 3),
        ],
    );
    assert!(c.is_compactable(&snapshot));
    assert_eq!(c.real_level_sizes(&snapshot), vec![30, 0, u64::MAX]);
}

#[test]
fn test_l0_compaction_into_an_empty_last_level() {
    let c = controller(10, 4, 3, 128);
    let snapshot = state(
        &[14, 13, 12, 11, 10],
        &[&[], &[], &[]],
        &[
            (10, b"a", b"f", MB),
            (11, b"c", b"k", MB),
            (12, b"b", b"d", MB),
            (13, b"x", b"z", MB),
            (14, b"e", b"g", MB),
        ],
    );
    let task = generate(&c, &snapshot).unwrap();
    assert_eq!(task.upper_level, None);
    assert_eq!(task.upper_level_sst_ids, vec![14, 13, 12, 11, 10]);
    assert_eq!(task.lower_level, 3);
    assert_eq!(task.lower_level_sst_ids, Vec::<usize>::new());
    assert!(task.is_lower_level_bottom_level);
}

#[test]
fn test_l0_compaction_takes_the_overlapping_tables_of_the_base_level() {
    // targets are 0, 1 MiB and 8 MiB: level 2 is the base level
    let c = controller(8, 2, 3, 1);
    let snapshot = state(
        &[11, 10],
        &[&[], &[1, 2, 3, 4], &[5]],
        &[
            (10, b"d", b"e", MB),
            (11, b"h", b"k", MB),
            (1, b"a", b"c", MB),
            (2, b"c5", b"d", MB),
            (3, b"f", b"g", MB),
            (4, b"l", b"z", MB),
            (5, b"a", b"z", 8 * MB),
        ],
    );
    let task = generate(&c, &snapshot).unwrap();
    assert_eq!(task.upper_level, None);
    assert_eq!(task.upper_level_sst_ids, vec![11, 10]);
    assert_eq!(task.lower_level, 2);
    // the tables of level 0 span "d" to "k"
    assert_eq!(task.lower_level_sst_ids, vec![2, 3]);
    assert!(!task.is_lower_level_bottom_level);
}

#[test]
fn test_l0_comes_before_a_level_far_over_its_target() {
    let c = controller(2, 1, 3, 1);
    let snapshot = state(
        &[10],
        &[&[1], &[2], &[3]],
        &[
            (10, b"a", b"b", 1),
            (1, b"a", b"b", 1_000 * MB),
            (2, b"a", b"b", 1_000 * MB),
            (3, b"a", b"b", MB),
        ],
    );
    let task = generate(&c, &snapshot).unwrap();
    assert_eq!(task.upper_level, None);
    assert_eq!(task.upper_level_sst_ids, vec![10]);
}

#[test]
fn test_l0_below_the_trigger_is_left_alone() {
    let c = controller(10, 4, 3, 128);
    let snapshot = state(
        &[12, 11, 10],
        &[&[], &[], &[]],
        &[(10, b"a", b"f", MB), (11, b"c", b"k", MB), (12, b"b", b"d", MB)],
    );
    assert!(generate(&c, &snapshot).is_none());
}

#[test]
fn test_trigger_of_zero_with_no_tables_gives_an_empty_task() {
    let c = controller(10, 0, 2, 128);
    let snapshot = state(&[], &[&[], &[1]], &[(1, b"a", b"b", MB)]);
    let task = generate(&c, &snapshot).unwrap();
    assert_eq!(task.upper_level, None);
    assert_eq!(task.upper_level_sst_ids, Vec::<usize>::new());
    assert_eq!(task.lower_level, 2);
    assert_eq!(task.lower_level_sst_ids, Vec::<usize>::new());
    assert!(task.is_lower_level_bottom_level);
}

fn three_levels(l1: u64, l2: u64) -> LsmStorageState {
    // with the last level at 8 MiB the targets are 2, 4 and 8 MiB
    state(
        &[],
        &[&[12, 11], &[22, 21, 23], &[31, 32, 33]],
        &[
            (11, b"a", b"c", l1 / 2),
            (12, b"d", b"f", l1 - l1 / 2),
            (21, b"g", b"i", l2 / 2),
            (22, b"a", b"c", l2 / 4),
            (23, b"m", b"o", l2 - l2 / 2 - l2 / 4),
            (31, b"a", b"b", 2 * MB),
            (32, b"c", b"h", 3 * MB),
            (33, b"i", b"z", 3 * MB),
        ],
    )
}

#[test]
fn test_no_task_where_no_level_is_over_its_target() {
    let c = controller(2, 4, 3, 1);
    assert!(generate(&c, &three_levels(2 * MB, 4 * MB)).is_none());
    assert!(generate(&c, &three_levels(0, 0)).is_none());
}

#[test]
fn test_the_level_over_its_target_by_the_largest_ratio_is_compacted() {
    let c = controller(2, 4, 3, 1);
    // level 1 at 3/2 of its target, level 2 at 5/2
    let task = generate(&c, &three_levels(3 * MB, 10 * MB)).unwrap();
    assert_eq!(task.upper_level, Some(2));
    // the table with the least id, not the first or the largest
    assert_eq!(task.upper_level_sst_ids, vec![21]);
    assert_eq!(task.lower_level, 3);
    // "g" to "i" meets the tables "c".."h" and "i".."z"
    assert_eq!(task.lower_level_sst_ids, vec![32, 33]);
    assert!(task.is_lower_level_bottom_level);
    // level 1 at 5/2 of its target, level 2 at 3/2
    let task = generate(&c, &three_levels(5 * MB, 6 * MB)).unwrap();
    assert_eq!(task.upper_level, Some(1));
    assert_eq!(task.upper_level_sst_ids, vec![11]);
    assert_eq!(task.lower_level, 2);
    assert_eq!(task.lower_level_sst_ids, vec![22]);
    assert!(!task.is_lower_level_bottom_level);
}

#[test]
fn test_ratios_are_compared_exactly() {
    let c = controller(2, 4, 3, 1);
    // 2 MiB + 1 over 2 MiB is a little more than 4 MiB + 1 over 4 MiB
    let task = generate(&c, &three_levels(2 * MB + 1, 4 * MB + 1)).unwrap();
    assert_eq!(task.upper_level, Some(1));
    // 2 MiB + 1 over 2 MiB is a little less than 4 MiB + 3 over 4 MiB
    let task = generate(&c, &three_levels(2 * MB + 1, 4 * MB + 3)).unwrap();
    assert_eq!(task.upper_level, Some(2));
}

#[test]
fn test_of_two_levels_in_the_same_ratio_the_deeper_is_compacted() {
    let c = controller(2, 4, 3, 1);
    let task = generate(&c, &three_levels(4 * MB, 8 * MB)).unwrap();
    assert_eq!(task.upper_level, Some(2));
    assert_eq!(task.lower_level, 3);
}

#[test]
fn test_a_level_just_over_its_target_is_compacted() {
    let c = controller(2, 4, 3, 1);
    let task = generate(&c, &three_levels(2 * MB + 1, 4 * MB)).unwrap();
    assert_eq!(task.upper_level, Some(1));
}

#[test]
fn test_a_level_with_tables_and_no_target_comes_before_all_others() {
    // targets are 0, 1, 2 and 4 MiB
    let c = controller(2, 4, 4, 1);
    let snapshot = state(
        &[],
        &[&[1], &[], &[3], &[4]],
        &[
            (1, b"a", b"b", 1),
            (3, b"a", b"b", 100 * MB),
            (4, b"a", b"b", 4 * MB),
        ],
    );
    assert_eq!(c.target_level_sizes(4 * MB).0, vec![0, MB, 2 * MB, 4 * MB]);
    let task = generate(&c, &snapshot).unwrap();
    assert_eq!(task.upper_level, Some(1));
    assert_eq!(task.upper_level_sst_ids, vec![1]);
    assert_eq!(task.lower_level, 2);
    assert_eq!(task.lower_level_sst_ids, Vec::<usize>::new());
    assert!(!task.is_lower_level_bottom_level);
}

#[test]
fn test_of_two_levels_without_target_the_deeper_is_compacted() {
    // the last level is empty: the targets are 0, 0 and 10 MiB
    let c = controller(2, 4, 3, 10);
    let snapshot = state(
        &[],
        &[&[1], &[2], &[]],
        &[(1, b"a", b"b", 1_000), (2, b"a", b"b", 1)],
    );
    let task = generate(&c, &snapshot).unwrap();
    assert_eq!(task.upper_level, Some(2));
    assert_eq!(task.upper_level_sst_ids, vec![2]);
    assert_eq!(task.lower_level, 3);
    assert!(task.is_lower_level_bottom_level);
}

#[test]
fn test_the_last_level_is_never_compacted_further() {
    let c = controller(10, 4, 1, 1);
    let snapshot = state(&[], &[&[1]], &[(1, b"a", b"b", u64::MAX)]);
    assert!(generate(&c, &snapshot).is_none());
}

fn one_level() -> LsmStorageState {
    state(
        &[],
        &[&[1, 2, 3, 4], &[50, 51, 52, 53]],
        &[
            (1, b"a", b"c", 1),
            (2, b"d", b"f", 1),
            (3, b"g", b"i", 1),
            (4, b"j", b"l", 1),
            (50, b"e", b"e", 1),
            (51, b"h", b"h", 1),
            (52, b"c", b"d", 1),
            (53, b"m", b"z", 1),
        ],
    )
}

#[test]
fn test_overlap_takes_partial_overlaps_and_leaves_the_rest() {
    let c = controller(2, 4, 2, 1);
    let snapshot = one_level();
    // "e" to "h": the tables "d".."f" and "g".."i"
    assert_eq!(c.find_overlapping_ssts(&snapshot, &[50, 51], 1), vec![2, 3]);
    assert_eq!(c.find_overlapping_ssts(&snapshot, &[51, 50], 1), vec![2, 3]);
    assert_eq!(c.find_overlapping_ssts(&snapshot, &[50], 1), vec![2]);
}

#[test]
fn test_overlap_counts_a_shared_end() {
    let c = controller(2, 4, 2, 1);
    // "c" to "d" touches the last key of one table and the first key of the next
    assert_eq!(c.find_overlapping_ssts(&one_level(), &[52], 1), vec![1, 2]);
}

#[test]
fn test_overlap_with_nothing() {
    let c = controller(2, 4, 2, 1);
    let snapshot = one_level();
    assert_eq!(c.find_overlapping_ssts(&snapshot, &[53], 1), Vec::<usize>::new());
    assert_eq!(c.find_overlapping_ssts(&snapshot, &[], 1), Vec::<usize>::new());
    assert_eq!(c.find_overlapping_ssts(&snapshot, &[], 2), Vec::<usize>::new());
}

#[test]
fn test_overlap_keeps_the_order_of_the_level() {
    let c = controller(2, 4, 2, 1);
    let snapshot = state(
        &[],
        &[&[3, 1, 2], &[9]],
        &[
            (1, b"a", b"c", 1),
            (2, b"d", b"f", 1),
            (3, b"g", b"i", 1),
            (9, b"a", b"z", 1),
        ],
    );
    assert_eq!(c.find_overlapping_ssts(&snapshot, &[9], 1), vec![3, 1, 2]);
}

#[test]
fn test_overlap_goes_by_the_version_stamp_on_equal_raw_keys() {
    let c = controller(2, 4, 2, 1);
    let mut sstables = HashMap::new();
    let with_ts = |first: &[u8], first_ts: u64, last: &[u8], last_ts: u64| {
        Arc::new(SsTableMeta::new(
            KeyVec::from_vec_with_ts(first.to_vec(), first_ts),
            KeyVec::from_vec_with_ts(last.to_vec(), last_ts),
            1,
        ))
    };
    // newer versions sort first: ("c", 9) is below ("c", 5), ("c", 1) above it
    sstables.insert(1, with_ts(b"a", 0, b"c", 9));
    sstables.insert(2, with_ts(b"a", 0, b"c", 1));
    sstables.insert(9, with_ts(b"c", 5, b"d", 0));
    let snapshot = LsmStorageState {
        l0_sstables: vec![],
        levels: vec![(1, vec![1, 2]), (2, vec![9])],
        sstables,
    };
    assert_eq!(c.find_overlapping_ssts(&snapshot, &[9], 1), vec![2]);
}

#[test]
fn test_apply_l0_compaction() {
    let c = controller(10, 4, 3, 128);
    let snapshot = state(
        &[14, 13, 12, 11, 10],
        &[&[], &[], &[]],
        &[
            (10, b"a", b"f", MB),
            (11, b"c", b"k", MB),
            (12, b"b", b"d", MB),
            (13, b"x", b"z", MB),
            (14, b"e", b"g", MB),
            (20, b"m", b"z", 2 * MB),
            (21, b"a", b"l", 3 * MB),
        ],
    );
    let task = generate(&c, &snapshot).unwrap();
    let (after, removed) = apply(&c, &snapshot, &task, &[20, 21], false);
    assert_eq!(after.l0_sstables, Vec::<usize>::new());
    assert_eq!(
        after.levels,
        vec![(1, vec![]), (2, vec![]), (3, vec![21, 20])]
    );
    assert_eq!(removed, vec![14, 13, 12, 11, 10]);
    assert_eq!(after.sstables.len(), 7);
    // the layout that was handed in stays as it was
    assert_eq!(snapshot.l0_sstables, vec![14, 13, 12, 11, 10]);
    assert_eq!(snapshot.levels[2].1, Vec::<usize>::new());
}

#[test]
fn test_apply_keeps_l0_tables_that_came_after_the_task() {
    let c = controller(10, 2, 2, 128);
    let before = state(
        &[11, 10],
        &[&[], &[]],
        &[(10, b"a", b"f", MB), (11, b"c", b"k", MB)],
    );
    let task = generate(&c, &before).unwrap();
    let now = state(
        &[12, 11, 10],
        &[&[], &[]],
        &[
            (10, b"a", b"f", MB),
            (11, b"c", b"k", MB),
            (12, b"b", b"d", MB),
            (20, b"a", b"k", MB),
        ],
    );
    let (after, removed) = apply(&c, &now, &task, &[20], false);
    assert_eq!(after.l0_sstables, vec![12]);
    assert_eq!(after.levels, vec![(1, vec![]), (2, vec![20])]);
    assert_eq!(removed, vec![11, 10]);
}

#[test]
fn test_apply_level_compaction_sorts_the_lower_level_by_first_key() {
    let c = controller(2, 4, 3, 1);
    let snapshot = state(
        &[9],
        &[&[3, 4], &[5, 6, 7], &[8]],
        &[
            (3, b"c", b"e", 1),
            (4, b"p", b"q", 1),
            (5, b"a", b"b", 1),
            (6, b"c", b"f", 1),
            (7, b"k", b"m", 1),
            (8, b"a", b"z", 1),
            (9, b"a", b"z", 1),
            (30, b"n", b"o", 1),
            (31, b"c", b"j", 1),
        ],
    );
    let task = LeveledCompactionTask {
        upper_level: Some(1),
        upper_level_sst_ids: vec![3],
        lower_level: 2,
        lower_level_sst_ids: vec![6],
        is_lower_level_bottom_level: false,
    };
    let (after, removed) = apply(&c, &snapshot, &task, &[30, 31], false);
    assert_eq!(after.l0_sstables, vec![9]);
    assert_eq!(
        after.levels,
        vec![(1, vec![4]), (2, vec![5, 31, 7, 30]), (3, vec![8])]
    );
    assert_eq!(removed, vec![3, 6]);
    assert_eq!(snapshot.levels[0].1, vec![3, 4]);
    assert_eq!(snapshot.levels[1].1, vec![5, 6, 7]);
}

#[test]
fn test_apply_in_recovery_appends_and_looks_up_no_table() {
    let c = controller(2, 4, 2, 1);
    let snapshot = state(&[], &[&[3, 4], &[5, 6, 7]], &[]);
    let task = LeveledCompactionTask {
        upper_level: Some(1),
        upper_level_sst_ids: vec![4, 3],
        lower_level: 2,
        lower_level_sst_ids: vec![7, 5],
        is_lower_level_bottom_level: true,
    };
    assert!(!c.is_applicable(&snapshot, &task, &[31, 30], false));
    let (after, removed) = apply(&c, &snapshot, &task, &[31, 30], true);
    assert_eq!(after.levels, vec![(1, vec![]), (2, vec![6, 31, 30])]);
    assert_eq!(removed, vec![4, 3, 7, 5]);
}

#[test]
fn test_apply_keeps_the_order_of_tables_with_the_same_first_key() {
    let c = controller(2, 4, 2, 1);
    let snapshot = state(
        &[],
        &[&[1], &[9, 8]],
        &[
            (1, b"a", b"b", 1),
            (8, b"k", b"l", 1),
            (9, b"k", b"m", 1),
            (7, b"k", b"k", 1),
            (6, b"a", b"a", 1),
        ],
    );
    let task = LeveledCompactionTask {
        upper_level: Some(1),
        upper_level_sst_ids: vec![1],
        lower_level: 2,
        lower_level_sst_ids: vec![],
        is_lower_level_bottom_level: true,
    };
    let (after, _) = apply(&c, &snapshot, &task, &[7, 6], false);
    assert_eq!(after.levels[1].1, vec![6, 9, 8, 7]);
}

#[test]
fn test_apply_takes_one_occurrence_of_an_id() {
    let c = controller(2, 4, 2, 1);
    let snapshot = state(&[], &[&[1], &[5, 5, 6]], &[]);
    let task = LeveledCompactionTask {
        upper_level: Some(1),
        upper_level_sst_ids: vec![1],
        lower_level: 2,
        lower_level_sst_ids: vec![5, 5],
        is_lower_level_bottom_level: true,
    };
    let (after, removed) = apply(&c, &snapshot, &task, &[], true);
    assert_eq!(after.levels[1].1, vec![5, 6]);
    assert_eq!(removed, vec![1, 5, 5]);
}

#[test]
fn test_apply_within_one_level() {
    let c = controller(2, 4, 2, 1);
    let snapshot = state(&[], &[&[1, 2, 3], &[]], &[]);
    let task = LeveledCompactionTask {
        upper_level: Some(1),
        upper_level_sst_ids: vec![1],
        lower_level: 1,
        lower_level_sst_ids: vec![3],
        is_lower_level_bottom_level: false,
    };
    let (after, removed) = apply(&c, &snapshot, &task, &[4], true);
    assert_eq!(after.levels[0].1, vec![2, 4]);
    assert_eq!(removed, vec![1, 3]);
    // a table cannot be taken twice
    let twice = LeveledCompactionTask {
        upper_level: Some(1),
        upper_level_sst_ids: vec![1],
        lower_level: 1,
        lower_level_sst_ids: vec![1],
        is_lower_level_bottom_level: false,
    };
    assert!(!c.is_applicable(&snapshot, &twice, &[], true));
}

#[test]
fn test_a_task_that_names_a_missing_table_cannot_be_applied() {
    let c = controller(2, 4, 2, 1);
    let snapshot = state(&[10], &[&[1, 2], &[5]], &[]);
    let task = |upper_level, upper: &[usize], lower_level, lower: &[usize]| LeveledCompactionTask {
        upper_level,
        upper_level_sst_ids: upper.to_vec(),
        lower_level,
        lower_level_sst_ids: lower.to_vec(),
        is_lower_level_bottom_level: false,
    };
    assert!(c.is_applicable(&snapshot, &task(Some(1), &[1], 2, &[5]), &[], true));
    assert!(c.is_applicable(&snapshot, &task(None, &[10], 2, &[5]), &[], true));
    assert!(c.is_applicable(&snapshot, &task(None, &[], 1, &[]), &[], true));
    // a table that is not in the level that the task names
    assert!(!c.is_applicable(&snapshot, &task(Some(1), &[5], 2, &[]), &[], true));
    assert!(!c.is_applicable(&snapshot, &task(Some(1), &[1], 2, &[2]), &[], true));
    assert!(!c.is_applicable(&snapshot, &task(None, &[1], 2, &[5]), &[], true));
    // a level that the layout does not have
    assert!(!c.is_applicable(&snapshot, &task(Some(0), &[], 2, &[]), &[], true));
    assert!(!c.is_applicable(&snapshot, &task(Some(3), &[], 2, &[]), &[], true));
    assert!(!c.is_applicable(&snapshot, &task(Some(1), &[], 0, &[]), &[], true));
    assert!(!c.is_applicable(&snapshot, &task(Some(1), &[], 3, &[]), &[], true));
}

#[test]
fn test_sorting_needs_each_table_of_the_lower_level() {
    let c = controller(2, 4, 2, 1);
    let known = state(
        &[],
        &[&[1], &[5]],
        &[(1, b"a", b"b", 1), (5, b"c", b"d", 1), (20, b"a", b"d", 1)],
    );
    let task = LeveledCompactionTask {
        upper_level: Some(1),
        upper_level_sst_ids: vec![1],
        lower_level: 2,
        lower_level_sst_ids: vec![],
        is_lower_level_bottom_level: true,
    };
    assert!(c.is_applicable(&known, &task, &[20], false));
    // the new table has not been registered
    assert!(!c.is_applicable(&known, &task, &[21], false));
    assert!(c.is_applicable(&known, &task, &[21], true));
}

#[test]
fn test_what_cannot_be_compacted() {
    let tables: &[(usize, &[u8], &[u8], u64)] = &[
        (1, b"a", b"b", u64::MAX),
        (2, b"c", b"d", 1),
        (3, b"e", b"f", 1),
    ];
    let good = state(&[], &[&[1], &[2, 3]], tables);
    assert!(controller(2, 1, 2, 1).is_compactable(&good));
    // options that cannot be worked with
    assert!(!controller(0, 1, 2, 1).is_compactable(&good));
    assert!(!controller(2, 1, 0, 1).is_compactable(&good));
    assert!(!controller(2, 1, 2, usize::MAX).is_compactable(&good));
    // fewer levels than the options name; more do no harm
    assert!(!controller(2, 1, 3, 1).is_compactable(&good));
    assert!(controller(2, 1, 1, 1).is_compactable(&good));
    // a table that the layout does not know
    assert!(!controller(2, 1, 2, 1).is_compactable(&state(&[], &[&[1], &[2, 4]], tables)));
    // a level whose size does not fit 64 bits
    assert!(!controller(2, 1, 2, 1).is_compactable(&state(&[], &[&[1, 2], &[3]], tables)));
    // a table of level 0 matters once level 0 is due
    assert!(!controller(2, 1, 2, 1).is_compactable(&state(&[4], &[&[1], &[2, 3]], tables)));
    assert!(controller(2, 2, 2, 1).is_compactable(&state(&[4], &[&[1], &[2, 3]], tables)));
}

#[test]
fn test_generate_then_apply_until_nothing_is_left_to_do() {
    let c = controller(2, 2, 3, 1);
    let mut snapshot = state(
        &[2, 1],
        &[&[], &[], &[]],
        &[(1, b"a", b"m", 3 * MB), (2, b"h", b"z", 3 * MB)],
    );
    let mut next_id = 100;
    let mut rounds = 0;
    while let Some(task) = generate(&c, &snapshot) {
        let size: u64 = task
            .upper_level_sst_ids
            .iter()
            .chain(task.lower_level_sst_ids.iter())
            .map(|id| snapshot.sstables[id].table_size())
            .sum();
        snapshot
            .sstables
            .insert(next_id, table(b"a", b"z", size));
        let (after, removed) = apply(&c, &snapshot, &task, &[next_id], false);
        for id in &removed {
            assert!(!after.l0_sstables.contains(id));
            assert!(after.levels.iter().all(|(_, ids)| !ids.contains(id)));
        }
        assert!(after.levels[task.lower_level - 1].1.contains(&next_id));
        snapshot = after;
        next_id += 1;
        rounds += 1;
        assert!(rounds < 10);
    }
    assert_eq!(snapshot.l0_sstables, Vec::<usize>::new());
    assert_eq!(
        snapshot.levels,
        vec![(1, vec![]), (2, vec![]), (3, vec![100])]
    );
}

#[test]
fn test_apply_loses_no_table_and_names_none_twice() {
    let c = controller(2, 4, 2, 1);
    let first: [&[u8]; 10] = [b"q", b"c", b"x", b"a", b"m", b"e", b"z", b"k", b"g", b"s"];
    let tables: Vec<(usize, &[u8], &[u8], u64)> =
        (0..10).map(|i| (i + 1, first[i], first[i], 1u64)).collect();
    let snapshot = state(&[], &[&[1, 2], &[4, 8, 5, 3, 7]], &tables);
    let task = LeveledCompactionTask {
        upper_level: Some(1),
        upper_level_sst_ids: vec![2],
        lower_level: 2,
        lower_level_sst_ids: vec![8, 3],
        is_lower_level_bottom_level: true,
    };
    let output = [9, 6, 10];
    let (after, removed) = apply(&c, &snapshot, &task, &output, false);
    assert_eq!(removed, vec![2, 8, 3]);
    let lower = &after.levels[1].1;
    // what stayed, and what is new: "a", "e", "g", "m", "s", "z"
    assert_eq!(lower, &vec![4, 6, 9, 5, 10, 7]);
    let mut expected: Vec<usize> = vec![4, 5, 7, 9, 6, 10];
    let mut got = lower.clone();
    expected.sort();
    got.sort();
    assert_eq!(got, expected);
    for id in &removed {
        assert!(!lower.contains(id));
    }
    for pair in lower.windows(2) {
        let a = after.sstables[&pair[0]].first_key();
        let b = after.sstables[&pair[1]].first_key();
        assert!(a.key_ref() <= b.key_ref());
    }
}
