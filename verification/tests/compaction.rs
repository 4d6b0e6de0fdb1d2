use std::collections::HashMap;

use mini_lsm_starter::compact::{
    CompactionController, CompactionTask, LeveledCompactionController, LeveledCompactionOptions,
    LeveledCompactionTask, SimpleLeveledCompactionController, SimpleLeveledCompactionOptions,
    SimpleLeveledCompactionTask, TieredCompactionController, TieredCompactionOptions,
    TieredCompactionTask, compaction_output_step, split_off_ids,
};
use mini_lsm_starter::lsm_storage::{LsmStorageState, SstInfo};
use mini_lsm_starter::table::SsTableBuilder;

fn state(l0: Vec<usize>, levels: Vec<(usize, Vec<usize>)>) -> LsmStorageState {
    LsmStorageState {
        memtable_id: 9,
        imm_memtable_ids: vec![8],
        l0_sstables: l0,
        levels,
        sstables: HashMap::new(),
    }
}

fn info(first: &str, last: &str, size: u64) -> SstInfo {
    SstInfo { first_key: first.as_bytes().to_vec(), last_key: last.as_bytes().to_vec(), table_size: size }
}

fn simple_options() -> SimpleLeveledCompactionOptions {
    SimpleLeveledCompactionOptions { size_ratio_percent: 200, level0_file_num_compaction_trigger: 2, max_levels: 3 }
}

#[test]
fn simple_generate_flushes_l0_first() {
    let ctrl = SimpleLeveledCompactionController::new(simple_options());
    let snapshot = state(vec![3, 2], vec![(1, vec![1]), (2, vec![]), (3, vec![])]);
    let task = ctrl.generate_compaction_task(&snapshot).unwrap();
    assert_eq!(task.upper_level, None);
    assert_eq!(task.upper_level_sst_ids, vec![3, 2]);
    assert_eq!(task.lower_level, 1);
    assert_eq!(task.lower_level_sst_ids, vec![1]);
    assert!(!task.is_lower_level_bottom_level);
}

#[test]
fn simple_generate_by_size_ratio() {
    let ctrl = SimpleLeveledCompactionController::new(simple_options());
    let snapshot = state(vec![3], vec![(1, vec![]), (2, vec![4, 5]), (3, vec![6])]);
    // L1 is empty; L2 holds 2 and L3 holds 1: 1 / 2 = 0, and 0 * 100 < 200.
    let task = ctrl.generate_compaction_task(&snapshot).unwrap();
    assert_eq!(task.upper_level, Some(2));
    assert_eq!(task.upper_level_sst_ids, vec![4, 5]);
    assert_eq!(task.lower_level, 3);
    assert_eq!(task.lower_level_sst_ids, vec![6]);
    assert!(!task.is_lower_level_bottom_level);
}

#[test]
fn simple_generate_none_when_balanced() {
    let ctrl = SimpleLeveledCompactionController::new(simple_options());
    let snapshot = state(vec![], vec![(1, vec![1]), (2, vec![2, 3]), (3, vec![4, 5, 6, 7])]);
    assert!(ctrl.generate_compaction_task(&snapshot).is_none());
}

#[test]
fn simple_apply_l0_compaction() {
    let ctrl = SimpleLeveledCompactionController::new(simple_options());
    let snapshot = state(vec![5, 4, 3], vec![(1, vec![1, 2]), (2, vec![]), (3, vec![])]);
    let task = SimpleLeveledCompactionTask {
        upper_level: None,
        upper_level_sst_ids: vec![4, 3],
        lower_level: 1,
        lower_level_sst_ids: vec![1, 2],
        is_lower_level_bottom_level: false,
    };
    let (new_state, del) = ctrl.apply_compaction_result(&snapshot, &task, &[7, 8]);
    assert_eq!(new_state.l0_sstables, vec![5]);
    assert_eq!(new_state.levels, vec![(1, vec![7, 8]), (2, vec![]), (3, vec![])]);
    assert_eq!(del, vec![4, 3, 1, 2]);
    assert_eq!(new_state.memtable_id, 9);
    assert_eq!(new_state.imm_memtable_ids, vec![8]);
}

#[test]
fn simple_apply_level_compaction() {
    let ctrl = SimpleLeveledCompactionController::new(simple_options());
    let snapshot = state(vec![], vec![(1, vec![1, 2]), (2, vec![3]), (3, vec![])]);
    let task = SimpleLeveledCompactionTask {
        upper_level: Some(1),
        upper_level_sst_ids: vec![1, 2],
        lower_level: 2,
        lower_level_sst_ids: vec![3],
        is_lower_level_bottom_level: false,
    };
    let (new_state, del) = ctrl.apply_compaction_result(&snapshot, &task, &[10]);
    assert_eq!(new_state.levels, vec![(1, vec![]), (2, vec![10]), (3, vec![])]);
    assert_eq!(del, vec![1, 2, 3]);
}

fn leveled_options() -> LeveledCompactionOptions {
    LeveledCompactionOptions {
        level_size_multiplier: 2,
        level0_file_num_compaction_trigger: 2,
        max_levels: 3,
        base_level_size_mb: 1,
    }
}

fn leveled_state() -> LsmStorageState {
    let mut s = state(vec![11, 10], vec![(1, vec![]), (2, vec![]), (3, vec![1, 2, 3])]);
    s.sstables.insert(10, info("c", "e", 100));
    s.sstables.insert(11, info("d", "f", 100));
    s.sstables.insert(1, info("a", "b", 4 << 20));
    s.sstables.insert(2, info("c", "d", 4 << 20));
    s.sstables.insert(3, info("g", "h", 4 << 20));
    s
}

#[test]
fn leveled_level_sizes() {
    let ctrl = LeveledCompactionController::new(leveled_options());
    let (real, target, base) = ctrl.compute_level_sizes(&leveled_state());
    assert_eq!(real, vec![0, 0, 12 << 20]);
    // 12MB at the bottom, 6MB above it, 3MB above that.
    assert_eq!(target, vec![3 << 20, 6 << 20, 12 << 20]);
    assert_eq!(base, 1);
}

#[test]
fn leveled_level_sizes_small_tree() {
    let ctrl = LeveledCompactionController::new(leveled_options());
    let mut s = leveled_state();
    s.levels[2].1 = vec![1];
    s.sstables.insert(1, info("a", "b", 2 << 20));
    let (real, target, base) = ctrl.compute_level_sizes(&s);
    assert_eq!(real, vec![0, 0, 2 << 20]);
    // 2MB at the bottom, 1MB above it, and nothing above a level at the base size.
    assert_eq!(target, vec![0, 1 << 20, 2 << 20]);
    assert_eq!(base, 2);
}

#[test]
fn leveled_find_overlapping() {
    let ctrl = LeveledCompactionController::new(leveled_options());
    let s = leveled_state();
    assert_eq!(ctrl.find_overlapping_ssts(&s, &[10, 11], 3), vec![2]);
    assert_eq!(ctrl.find_overlapping_ssts(&s, &[1], 3), vec![1]);
}

#[test]
fn leveled_generate_l0_task() {
    let ctrl = LeveledCompactionController::new(leveled_options());
    let task = ctrl.generate_compaction_task(&leveled_state(), None).unwrap();
    assert_eq!(task.upper_level, None);
    assert_eq!(task.upper_level_sst_ids, vec![11, 10]);
    assert_eq!(task.lower_level, 1);
    assert_eq!(task.lower_level_sst_ids, Vec::<usize>::new());
    assert!(!task.is_lower_level_bottom_level);
}

#[test]
fn leveled_generate_priority_task() {
    let ctrl = LeveledCompactionController::new(leveled_options());
    let mut s = leveled_state();
    s.l0_sstables = vec![];
    s.levels[1].1 = vec![11, 10];
    let task = ctrl.generate_compaction_task(&s, Some(2)).unwrap();
    assert_eq!(task.upper_level, Some(2));
    assert_eq!(task.upper_level_sst_ids, vec![10]);
    assert_eq!(task.lower_level, 3);
    assert_eq!(task.lower_level_sst_ids, vec![2]);
    assert!(task.is_lower_level_bottom_level);
    assert!(ctrl.generate_compaction_task(&s, None).is_none());
}

#[test]
fn leveled_apply_sorts_lower_level() {
    let ctrl = LeveledCompactionController::new(leveled_options());
    let mut s = leveled_state();
    s.sstables.insert(20, info("c", "c", 1));
    s.sstables.insert(21, info("a0", "a1", 1));
    let task = LeveledCompactionTask {
        upper_level: None,
        upper_level_sst_ids: vec![11, 10],
        lower_level: 3,
        lower_level_sst_ids: vec![2],
        is_lower_level_bottom_level: true,
    };
    let (new_state, del) = ctrl.apply_compaction_result(&s, &task, &[20, 21], false);
    assert_eq!(new_state.l0_sstables, Vec::<usize>::new());
    // [1 (a), 3 (g)] + [20 (c), 21 (a0)] sorted by first key: a, a0, c, g.
    assert_eq!(new_state.levels[2], (3, vec![1, 21, 20, 3]));
    assert_eq!(del, vec![11, 10, 2]);
    let (recovered, _) = ctrl.apply_compaction_result(&s, &task, &[20, 21], true);
    assert_eq!(recovered.levels[2], (3, vec![1, 3, 20, 21]));
}

fn tiered_options(max_merge_width: Option<usize>) -> TieredCompactionOptions {
    TieredCompactionOptions {
        num_tiers: 3,
        max_size_amplification_percent: 200,
        size_ratio: 1,
        min_merge_width: 2,
        max_merge_width,
    }
}

#[test]
fn tiered_generate() {
    let ctrl = TieredCompactionController::new(tiered_options(None));
    let few = state(vec![], vec![(3, vec![3]), (2, vec![2])]);
    assert!(ctrl.generate_compaction_task(&few, None).is_none());
    // Space amplification: 2 SSTs above, 1 at the bottom, 2 >= 200 / 100.
    let amplified = state(vec![], vec![(3, vec![3]), (2, vec![2]), (1, vec![1])]);
    let task = ctrl.generate_compaction_task(&amplified, None).unwrap();
    assert_eq!(task.tiers, vec![(3, vec![3]), (2, vec![2]), (1, vec![1])]);
    assert!(task.bottom_tier_included);
    let bottom_heavy = state(vec![], vec![(5, vec![5]), (4, vec![4]), (3, vec![1, 2, 3])]);
    let task = ctrl.generate_compaction_task(&bottom_heavy, Some(2)).unwrap();
    assert_eq!(task.tiers, vec![(5, vec![5]), (4, vec![4])]);
    assert!(!task.bottom_tier_included);
    let task = ctrl.generate_compaction_task(&bottom_heavy, None).unwrap();
    assert_eq!(task.tiers.len(), 3);
    assert!(task.bottom_tier_included);
    let narrow = TieredCompactionController::new(tiered_options(Some(2)));
    let task = narrow.generate_compaction_task(&bottom_heavy, None).unwrap();
    assert_eq!(task.tiers, vec![(5, vec![5]), (4, vec![4])]);
    assert!(!task.bottom_tier_included);
}

#[test]
fn tiered_apply_puts_output_where_last_tier_was() {
    let ctrl = TieredCompactionController::new(tiered_options(None));
    let snapshot = state(vec![], vec![(5, vec![5]), (4, vec![4]), (3, vec![1, 2, 3])]);
    let task = TieredCompactionTask { tiers: vec![(5, vec![5]), (4, vec![4])], bottom_tier_included: false };
    let (new_state, del) = ctrl.apply_compaction_result(&snapshot, &task, &[6, 7]);
    assert_eq!(new_state.levels, vec![(6, vec![6, 7]), (3, vec![1, 2, 3])]);
    assert_eq!(del, vec![5, 4]);
    let (no_output, _) = ctrl.apply_compaction_result(&snapshot, &task, &[]);
    assert_eq!(no_output.levels, vec![(3, vec![1, 2, 3])]);
}

#[test]
fn compaction_task_bottom_level() {
    let full = CompactionTask::ForceFullCompaction { l0_sstables: vec![1], l1_sstables: vec![] };
    assert!(full.compact_to_bottom_level());
    let tiered = CompactionTask::Tiered(TieredCompactionTask { tiers: vec![], bottom_tier_included: false });
    assert!(!tiered.compact_to_bottom_level());
    let simple = CompactionTask::Simple(SimpleLeveledCompactionTask {
        upper_level: None,
        upper_level_sst_ids: vec![],
        lower_level: 1,
        lower_level_sst_ids: vec![],
        is_lower_level_bottom_level: true,
    });
    assert!(simple.compact_to_bottom_level());
}

#[test]
fn controller_dispatch() {
    let simple = CompactionController::Simple(SimpleLeveledCompactionController::new(simple_options()));
    assert!(simple.flush_to_l0());
    assert!(CompactionController::NoCompaction.flush_to_l0());
    let tiered = CompactionController::Tiered(TieredCompactionController::new(tiered_options(None)));
    assert!(!tiered.flush_to_l0());
    let snapshot = state(vec![3, 2], vec![(1, vec![1]), (2, vec![]), (3, vec![])]);
    let task = simple.generate_compaction_task(&snapshot, None).unwrap();
    let (new_state, del) = simple.apply_compaction_result(&snapshot, &task, &[12], false);
    assert_eq!(new_state.l0_sstables, Vec::<usize>::new());
    assert_eq!(new_state.levels[0], (1, vec![12]));
    assert_eq!(del, vec![3, 2, 1]);
}

#[test]
fn leveled_readiness_checks() {
    let ctrl = LeveledCompactionController::new(leveled_options());
    let s = leveled_state();
    assert!(ctrl.sizes_ready(&s));
    assert!(ctrl.generate_ready_check(&s, None));
    let mut missing = leveled_state();
    missing.sstables.remove(&2);
    assert!(!ctrl.sizes_ready(&missing));
    let mut missing_l0 = leveled_state();
    missing_l0.sstables.remove(&10);
    assert!(ctrl.sizes_ready(&missing_l0));
    assert!(!ctrl.generate_ready_check(&missing_l0, None));
    let mut huge = leveled_state();
    huge.sstables.insert(1, info("a", "b", u64::MAX));
    assert!(!ctrl.sizes_ready(&huge));
    let mut few_levels = leveled_state();
    few_levels.levels.pop();
    assert!(!ctrl.sizes_ready(&few_levels));
    // With L0 not due, the level picked must have SSTs and a level below it.
    let mut quiet = leveled_state();
    quiet.l0_sstables.clear();
    assert!(ctrl.generate_ready_check(&quiet, Some(2)) == false);
    assert!(!ctrl.generate_ready_check(&quiet, Some(3)));
    quiet.levels[1].1 = vec![10];
    assert!(ctrl.generate_ready_check(&quiet, Some(2)));
}

#[test]
fn tiered_readiness_checks() {
    let ctrl = TieredCompactionController::new(tiered_options(None));
    let s = state(vec![], vec![(4, vec![4]), (3, vec![3]), (2, vec![1, 2])]);
    assert!(ctrl.generate_ready_check(&s, None));
    assert!(ctrl.generate_ready_check(&s, Some(2)));
    assert!(!ctrl.generate_ready_check(&s, Some(1)));
    assert!(!ctrl.generate_ready_check(&s, Some(3)));
    let empty_top = state(vec![], vec![(4, vec![]), (3, vec![]), (2, vec![1, 2])]);
    assert!(!ctrl.generate_ready_check(&empty_top, Some(2)));
    let empty_bottom = state(vec![], vec![(4, vec![4]), (3, vec![3]), (2, vec![])]);
    assert!(!ctrl.generate_ready_check(&empty_bottom, None));
    let with_l0 = state(vec![7], vec![(4, vec![4]), (3, vec![3]), (2, vec![1, 2])]);
    assert!(!ctrl.generate_ready_check(&with_l0, None));
    let few = state(vec![], vec![(4, vec![4])]);
    assert!(ctrl.generate_ready_check(&few, None));
    let narrow = TieredCompactionController::new(tiered_options(Some(4)));
    assert!(!narrow.generate_ready_check(&s, None));
}

#[test]
fn compaction_output_splits_tables() {
    let mut builder = SsTableBuilder::new(16);
    assert!(compaction_output_step(&mut builder, b"a", b"1", 10).is_none());
    assert!(compaction_output_step(&mut builder, b"b", b"2", 10).is_none());
    // The second entry sealed the first block: 12 bytes of data, past the target.
    assert_eq!(builder.estimated_size(), 12);
    let full = compaction_output_step(&mut builder, b"c", b"3", 10).unwrap();
    assert_eq!(full.estimated_size(), 12);
    assert_eq!(full.key_hashes().len(), 2);
    assert_eq!(builder.estimated_size(), 0);
    assert_eq!(builder.key_hashes().len(), 1);
    // A deletion is dropped.
    assert!(compaction_output_step(&mut builder, b"d", b"", 10).is_none());
    assert_eq!(builder.key_hashes().len(), 1);
}

#[test]
fn split_off_ids_claims_first_occurrences() {
    let (kept, removed, all_found) = split_off_ids(&vec![1, 2, 3, 2], &vec![2, 5]);
    assert_eq!(kept, vec![1, 3, 2]);
    assert_eq!(removed, vec![2]);
    assert!(!all_found);
    let (kept, removed, all_found) = split_off_ids(&vec![4, 1, 3], &vec![3, 4]);
    assert_eq!(kept, vec![1]);
    assert_eq!(removed, vec![4, 3]);
    assert!(all_found);
}

#[test]
fn leveled_generated_task_applies() {
    let ctrl = LeveledCompactionController::new(leveled_options());
    let mut s = leveled_state();
    s.l0_sstables = vec![];
    s.levels[1].1 = vec![11, 10];
    let task = ctrl.generate_compaction_task(&s, Some(2)).unwrap();
    s.sstables.insert(30, info("c", "e", 10));
    let (new_state, del) = ctrl.apply_compaction_result(&s, &task, &[30], false);
    assert_eq!(new_state.levels[1], (2, vec![11]));
    // [1 (a), 3 (g)] + [30 (c)] sorted by first key.
    assert_eq!(new_state.levels[2], (3, vec![1, 30, 3]));
    assert_eq!(del, vec![10, 2]);
}

#[test]
fn tiered_generated_task_applies() {
    let ctrl = TieredCompactionController::new(tiered_options(None));
    let s = state(vec![], vec![(5, vec![5]), (4, vec![4]), (3, vec![1, 2, 3])]);
    let task = ctrl.generate_compaction_task(&s, Some(2)).unwrap();
    let (new_state, del) = ctrl.apply_compaction_result(&s, &task, &[8]);
    assert_eq!(new_state.levels, vec![(8, vec![8]), (3, vec![1, 2, 3])]);
    assert_eq!(del, vec![5, 4]);
}

#[test]
fn applicability_checks() {
    let s = state(vec![3, 2], vec![(1, vec![1]), (2, vec![4, 5]), (3, vec![])]);
    let simple = |upper: Option<usize>, ids: Vec<usize>, lower: usize| SimpleLeveledCompactionTask {
        upper_level: upper,
        upper_level_sst_ids: ids,
        lower_level: lower,
        lower_level_sst_ids: vec![],
        is_lower_level_bottom_level: false,
    };
    assert!(SimpleLeveledCompactionController::applicable_check(&s, &simple(None, vec![2], 1)));
    assert!(!SimpleLeveledCompactionController::applicable_check(&s, &simple(None, vec![4], 1)));
    assert!(SimpleLeveledCompactionController::applicable_check(&s, &simple(Some(2), vec![5, 4], 3)));
    assert!(!SimpleLeveledCompactionController::applicable_check(&s, &simple(Some(2), vec![4], 4)));
    let leveled = LeveledCompactionTask {
        upper_level: Some(1),
        upper_level_sst_ids: vec![1],
        lower_level: 2,
        lower_level_sst_ids: vec![5],
        is_lower_level_bottom_level: false,
    };
    assert!(LeveledCompactionController::replay_applicable_check(&s, &leveled, &[9]));
    let wrong_lower = LeveledCompactionTask { lower_level_sst_ids: vec![1], ..leveled };
    assert!(!LeveledCompactionController::replay_applicable_check(&s, &wrong_lower, &[9]));
    let tiers = state(vec![], vec![(5, vec![5]), (4, vec![4]), (3, vec![1, 2, 3])]);
    let ok = TieredCompactionTask { tiers: vec![(5, vec![5]), (4, vec![4])], bottom_tier_included: false };
    assert!(TieredCompactionController::applicable_check(&tiers, &ok));
    let changed = TieredCompactionTask { tiers: vec![(5, vec![5, 6])], bottom_tier_included: false };
    assert!(!TieredCompactionController::applicable_check(&tiers, &changed));
    let missing = TieredCompactionTask { tiers: vec![(9, vec![9])], bottom_tier_included: false };
    assert!(!TieredCompactionController::applicable_check(&tiers, &missing));
}
