use std::collections::HashMap;

use mini_lsm_starter::compact::{
    CompactionController, CompactionOptions, CompactionTask, LeveledCompactionOptions,
    SimpleLeveledCompactionController, SimpleLeveledCompactionOptions, SimpleLeveledCompactionTask,
    TieredCompactionController, TieredCompactionOptions,
};
use mini_lsm_starter::iterators::concat_iterator::{ConcatStep, SstConcatIterator, SstPosition};
use mini_lsm_starter::lsm_storage::{
    FlushError, KeyBound, LsmStorageOptions, LsmStorageState, SstInfo, WriteBatchRecord, key_within,
    RecoveryError, range_overlap, recover_state, recover_state_checked, resolve_lookup,
};
use mini_lsm_starter::manifest::ManifestRecord;

fn info(first: &str, last: &str, size: u64) -> SstInfo {
    SstInfo { first_key: first.as_bytes().to_vec(), last_key: last.as_bytes().to_vec(), table_size: size }
}

fn empty_state() -> LsmStorageState {
    LsmStorageState::create(&LsmStorageOptions::default_for_week1_test())
}

fn inc(k: &str) -> KeyBound {
    KeyBound::Included(k.as_bytes().to_vec())
}

fn exc(k: &str) -> KeyBound {
    KeyBound::Excluded(k.as_bytes().to_vec())
}

#[test]
fn options_defaults() {
    let w1 = LsmStorageOptions::default_for_week1_test();
    assert_eq!(w1.block_size, 4096);
    assert_eq!(w1.target_sst_size, 2 << 20);
    assert_eq!(w1.num_memtable_limit, 50);
    assert!(matches!(w1.compaction_options, CompactionOptions::NoCompaction));
    assert!(!w1.enable_wal);
    assert!(!w1.serializable);
    let d6 = LsmStorageOptions::default_for_week1_day6_test();
    assert_eq!(d6.target_sst_size, 2 << 20);
    assert_eq!(d6.num_memtable_limit, 2);
    let w2 = LsmStorageOptions::default_for_week2_test(CompactionOptions::Tiered(
        TieredCompactionOptions {
            num_tiers: 3,
            max_size_amplification_percent: 200,
            size_ratio: 1,
            min_merge_width: 2,
            max_merge_width: None,
        },
    ));
    assert_eq!(w2.target_sst_size, 1 << 20);
    assert_eq!(w2.num_memtable_limit, 2);
    assert!(matches!(w2.compaction_options, CompactionOptions::Tiered(_)));
}

#[test]
fn state_create_per_strategy() {
    let s = empty_state();
    assert_eq!(s.memtable_id, 0);
    assert!(s.imm_memtable_ids.is_empty());
    assert!(s.l0_sstables.is_empty());
    assert!(s.sstables.is_empty());
    assert_eq!(s.levels, vec![(1, vec![])]);

    let leveled = LsmStorageState::create(&LsmStorageOptions::default_for_week2_test(
        CompactionOptions::Leveled(LeveledCompactionOptions {
            level_size_multiplier: 2,
            level0_file_num_compaction_trigger: 2,
            max_levels: 4,
            base_level_size_mb: 1,
        }),
    ));
    assert_eq!(leveled.levels, vec![(1, vec![]), (2, vec![]), (3, vec![]), (4, vec![])]);

    let simple = LsmStorageState::create(&LsmStorageOptions::default_for_week2_test(
        CompactionOptions::Simple(SimpleLeveledCompactionOptions {
            size_ratio_percent: 200,
            level0_file_num_compaction_trigger: 2,
            max_levels: 2,
        }),
    ));
    assert_eq!(simple.levels, vec![(1, vec![]), (2, vec![])]);

    let tiered = LsmStorageState::create(&LsmStorageOptions::default_for_week2_test(
        CompactionOptions::Tiered(TieredCompactionOptions {
            num_tiers: 3,
            max_size_amplification_percent: 200,
            size_ratio: 1,
            min_merge_width: 2,
            max_merge_width: None,
        }),
    ));
    assert!(tiered.levels.is_empty());
}

#[test]
fn state_copy_is_equal() {
    let mut s = empty_state();
    s.freeze_memtable(1);
    s.sstables.insert(4, info("a", "b", 10));
    s.l0_sstables.push(4);
    let c = s.copy_state();
    assert_eq!(c.memtable_id, s.memtable_id);
    assert_eq!(c.imm_memtable_ids, s.imm_memtable_ids);
    assert_eq!(c.l0_sstables, s.l0_sstables);
    assert_eq!(c.levels, s.levels);
    assert_eq!(c.sstables[&4].first_key, b"a".to_vec());
}

#[test]
fn freeze_then_flush_earliest() {
    let mut s = empty_state();
    assert_eq!(s.next_memtable_to_flush(), None);
    s.freeze_memtable(1);
    s.freeze_memtable(2);
    assert_eq!(s.memtable_id, 2);
    assert_eq!(s.imm_memtable_ids, vec![1, 0]);
    assert_eq!(s.next_memtable_to_flush(), Some(0));

    assert_eq!(s.apply_flush(0, info("a", "c", 100), true), Ok(()));
    assert_eq!(s.imm_memtable_ids, vec![1]);
    assert_eq!(s.l0_sstables, vec![0]);
    assert_eq!(s.sstables[&0].last_key, b"c".to_vec());

    assert_eq!(s.apply_flush(1, info("d", "f", 100), true), Ok(()));
    assert_eq!(s.l0_sstables, vec![1, 0]);
    assert!(s.imm_memtable_ids.is_empty());
}

#[test]
fn flush_errors_leave_state() {
    let mut s = empty_state();
    assert_eq!(s.apply_flush(0, info("a", "b", 1), true), Err(FlushError::NoImmutableMemtable));
    s.freeze_memtable(1);
    assert_eq!(s.apply_flush(7, info("a", "b", 1), true), Err(FlushError::MemtableMismatch));
    assert_eq!(s.imm_memtable_ids, vec![0]);
    assert!(s.l0_sstables.is_empty());
    assert!(s.sstables.is_empty());
}

#[test]
fn flush_to_a_new_tier() {
    let mut s = empty_state();
    s.levels.clear();
    s.freeze_memtable(1);
    assert_eq!(s.apply_flush(0, info("a", "b", 1), false), Ok(()));
    assert!(s.l0_sstables.is_empty());
    assert_eq!(s.levels, vec![(0, vec![0])]);
}

#[test]
fn full_compaction_replaces_l0_and_l1() {
    let mut s = empty_state();
    s.l0_sstables = vec![5, 3, 2];
    s.levels = vec![(1, vec![1])];
    for id in [1, 2, 3, 5] {
        s.sstables.insert(id, info("a", "z", 10));
    }
    let removed = s.apply_full_compaction(&vec![3, 2], &vec![1], vec![(6, info("a", "z", 30))]);
    assert_eq!(removed, vec![3, 2, 1]);
    assert_eq!(s.l0_sstables, vec![5]);
    assert_eq!(s.levels, vec![(1, vec![6])]);
    let mut ids: Vec<usize> = s.sstables.keys().copied().collect();
    ids.sort();
    assert_eq!(ids, vec![5, 6]);
}

#[test]
fn range_overlap_bounds() {
    assert!(range_overlap(&inc("b"), &exc("d"), b"a", b"c"));
    assert!(range_overlap(&KeyBound::Unbounded, &KeyBound::Unbounded, b"a", b"c"));
    assert!(!range_overlap(&inc("d"), &KeyBound::Unbounded, b"a", b"c"));
    assert!(!range_overlap(&exc("c"), &KeyBound::Unbounded, b"a", b"c"));
    assert!(range_overlap(&inc("c"), &KeyBound::Unbounded, b"a", b"c"));
    assert!(!range_overlap(&KeyBound::Unbounded, &exc("a"), b"a", b"c"));
    assert!(range_overlap(&KeyBound::Unbounded, &inc("a"), b"a", b"c"));
    assert!(!range_overlap(&KeyBound::Unbounded, &inc("0"), b"a", b"c"));
}

#[test]
fn key_within_table() {
    assert!(key_within(b"b", b"a", b"c"));
    assert!(key_within(b"a", b"a", b"c"));
    assert!(key_within(b"c", b"a", b"c"));
    assert!(!key_within(b"d", b"a", b"c"));
    assert!(!key_within(b"", b"a", b"c"));
    assert!(key_within(b"ab", b"a", b"c"));
}

#[test]
fn replay_memtables_and_flushes() {
    let ctrl = CompactionController::NoCompaction;
    let mut s = empty_state();
    assert_eq!(s.replay_manifest_record(&ctrl, &ManifestRecord::NewMemtable(1), true, 0), 1);
    assert_eq!(s.memtable_id, 1);
    assert_eq!(s.imm_memtable_ids, vec![0]);
    assert_eq!(s.replay_manifest_record(&ctrl, &ManifestRecord::Flush(0), true, 1), 1);
    assert!(s.imm_memtable_ids.is_empty());
    assert_eq!(s.l0_sstables, vec![0]);
    // Without a WAL, a new memtable record changes nothing.
    assert_eq!(s.replay_manifest_record(&ctrl, &ManifestRecord::NewMemtable(9), false, 4), 4);
    assert_eq!(s.memtable_id, 1);
    // A flush of a memtable not among the immutable ones still adds the SST.
    assert_eq!(s.replay_manifest_record(&ctrl, &ManifestRecord::Flush(7), false, 4), 7);
    assert_eq!(s.l0_sstables, vec![7, 0]);
}

#[test]
fn replay_flush_into_tier() {
    let ctrl = CompactionController::Tiered(TieredCompactionController::new(TieredCompactionOptions {
        num_tiers: 3,
        max_size_amplification_percent: 200,
        size_ratio: 1,
        min_merge_width: 2,
        max_merge_width: None,
    }));
    let mut s = empty_state();
    s.levels.clear();
    assert_eq!(s.replay_manifest_record(&ctrl, &ManifestRecord::Flush(3), false, 5), 5);
    assert_eq!(s.levels, vec![(3, vec![3])]);
    assert!(s.l0_sstables.is_empty());
}

#[test]
fn replay_compaction() {
    let ctrl = CompactionController::Simple(SimpleLeveledCompactionController::new(
        SimpleLeveledCompactionOptions { size_ratio_percent: 200, level0_file_num_compaction_trigger: 2, max_levels: 2 },
    ));
    let mut s = empty_state();
    s.l0_sstables = vec![4, 3];
    s.levels = vec![(1, vec![1]), (2, vec![])];
    let task = CompactionTask::Simple(SimpleLeveledCompactionTask {
        upper_level: None,
        upper_level_sst_ids: vec![4, 3],
        lower_level: 1,
        lower_level_sst_ids: vec![1],
        is_lower_level_bottom_level: false,
    });
    let next = s.replay_manifest_record(&ctrl, &ManifestRecord::Compaction(task, vec![8, 6]), false, 5);
    assert_eq!(next, 8);
    assert!(s.l0_sstables.is_empty());
    assert_eq!(s.levels, vec![(1, vec![8, 6]), (2, vec![])]);
}

#[test]
fn sort_levels_by_first_key_is_stable() {
    let mut s = empty_state();
    s.levels = vec![(1, vec![3, 1, 2, 4]), (2, vec![])];
    s.sstables.insert(1, info("m", "n", 1));
    s.sstables.insert(2, info("a", "b", 1));
    s.sstables.insert(3, info("m", "p", 1));
    s.sstables.insert(4, info("c", "d", 1));
    s.sort_levels_by_first_key();
    assert_eq!(s.levels, vec![(1, vec![2, 4, 3, 1]), (2, vec![])]);
}

fn run() -> Vec<SstInfo> {
    vec![info("a", "c", 1), info("e", "g", 1)]
}

#[test]
fn concat_seek_to_first() {
    let it = SstConcatIterator::create_and_seek_to_first(run());
    assert_eq!(it.current_position(), Some(&SstPosition::First(0)));
    assert_eq!(it.next_sst_index(), 1);
    let empty = SstConcatIterator::create_and_seek_to_first(vec![]);
    assert_eq!(empty.current_position(), None);
    assert_eq!(empty.next_sst_index(), 1);
}

#[test]
fn concat_seek_to_key() {
    let it = SstConcatIterator::create_and_seek_to_key(run(), b"b");
    assert_eq!(it.current_position(), Some(&SstPosition::AtKey(0, b"b".to_vec())));
    assert_eq!(it.next_sst_index(), 1);
    let it = SstConcatIterator::create_and_seek_to_key(run(), b"g");
    assert_eq!(it.current_position(), Some(&SstPosition::AtKey(1, b"g".to_vec())));
    assert_eq!(it.next_sst_index(), 2);
    let it = SstConcatIterator::create_and_seek_to_key(run(), b"d");
    assert_eq!(it.current_position(), Some(&SstPosition::First(1)));
    assert_eq!(it.next_sst_index(), 2);
    let it = SstConcatIterator::create_and_seek_to_key(run(), b"0");
    assert_eq!(it.current_position(), Some(&SstPosition::First(0)));
    assert_eq!(it.next_sst_index(), 1);
    let it = SstConcatIterator::create_and_seek_to_key(run(), b"z");
    assert_eq!(it.current_position(), None);
    assert_eq!(it.next_sst_index(), 3);
}

fn planned_state() -> LsmStorageState {
    let mut s = empty_state();
    s.l0_sstables = vec![5, 4];
    s.levels = vec![(1, vec![1, 2]), (2, vec![3])];
    s.sstables.insert(5, info("a", "c", 1));
    s.sstables.insert(4, info("b", "z", 1));
    s.sstables.insert(1, info("a", "d", 1));
    s.sstables.insert(2, info("e", "h", 1));
    s.sstables.insert(3, info("a", "z", 1));
    s
}

#[test]
fn get_reads_tables_holding_key() {
    let s = planned_state();
    let (l0, levels) = s.sst_ids_for_get(b"c");
    assert_eq!(l0, vec![5, 4]);
    assert_eq!(levels, vec![vec![1], vec![3]]);
    let (l0, levels) = s.sst_ids_for_get(b"f");
    assert_eq!(l0, vec![4]);
    assert_eq!(levels, vec![vec![2], vec![3]]);
    let (l0, levels) = s.sst_ids_for_get(b"0");
    assert!(l0.is_empty());
    assert_eq!(levels, vec![Vec::<usize>::new(), vec![]]);
}

#[test]
fn scan_reads_tables_meeting_range() {
    let s = planned_state();
    let (l0, levels) = s.sst_ids_for_scan(&exc("d"), &KeyBound::Unbounded);
    assert_eq!(l0, vec![4]);
    assert_eq!(levels, vec![vec![2], vec![3]]);
    let (l0, levels) = s.sst_ids_for_scan(&KeyBound::Unbounded, &KeyBound::Unbounded);
    assert_eq!(l0, vec![5, 4]);
    assert_eq!(levels, vec![vec![1, 2], vec![3]]);
    let (l0, levels) = s.sst_ids_for_scan(&inc("b"), &exc("b"));
    assert_eq!(l0, vec![5]);
    assert_eq!(levels, vec![vec![1], vec![3]]);
}

#[test]
fn write_batch_records() {
    let batch = vec![WriteBatchRecord::Put(b"k".to_vec(), b"v".to_vec()), WriteBatchRecord::Del(b"k".to_vec())];
    assert!(matches!(batch[0], WriteBatchRecord::Put(_, _)));
    assert!(matches!(batch[1], WriteBatchRecord::Del(_)));
}

#[test]
fn concat_moves_through_the_run() {
    let mut it = SstConcatIterator::create_and_seek_to_first(vec![info("a", "c", 1), info("e", "g", 1), info("h", "i", 1)]);
    assert!(it.is_valid(true));
    assert!(!it.is_valid(false));
    // The first SST still has entries.
    assert_eq!(it.next(true), ConcatStep::Stay);
    assert_eq!(it.current_position(), Some(&SstPosition::First(0)));
    // Each SST that runs out is followed by the next one, in order.
    assert_eq!(it.next(false), ConcatStep::OpenFirst(1));
    assert_eq!(it.current_position(), Some(&SstPosition::First(1)));
    assert_eq!(it.next_sst_index(), 2);
    assert_eq!(it.next(false), ConcatStep::OpenFirst(2));
    assert_eq!(it.next_sst_index(), 3);
    // After the last SST the iterator ends, without reading past the run.
    assert_eq!(it.next(false), ConcatStep::Exhausted);
    assert_eq!(it.current_position(), None);
    assert!(!it.is_valid(true));
    assert_eq!(it.next(false), ConcatStep::Exhausted);
    let mut past = SstConcatIterator::create_and_seek_to_key(run(), b"z");
    assert!(!past.is_valid(true));
    assert_eq!(past.next(false), ConcatStep::Exhausted);
    assert_eq!(past.current_position(), None);
    let mut middle = SstConcatIterator::create_and_seek_to_key(run(), b"b");
    assert_eq!(middle.next(false), ConcatStep::OpenFirst(1));
}

#[test]
fn flush_due_at_limit() {
    let mut s = empty_state();
    assert!(!s.flush_due(1));
    assert!(s.flush_due(0));
    s.freeze_memtable(1);
    assert!(s.flush_due(1));
    assert!(!s.flush_due(2));
}

#[test]
fn lookup_resolution_order() {
    // The current memtable holds nothing, the latest immutable one holds "v2".
    assert_eq!(resolve_lookup(&vec![None, Some(b"v2".to_vec()), Some(b"v1".to_vec())], Some(b"v0".to_vec())), Some(b"v2".to_vec()));
    // A deletion in a newer memtable hides older values.
    assert_eq!(resolve_lookup(&vec![Some(vec![]), Some(b"v1".to_vec())], Some(b"v0".to_vec())), None);
    // No memtable holds the key: the SSTs decide.
    assert_eq!(resolve_lookup(&vec![None, None], Some(b"v0".to_vec())), Some(b"v0".to_vec()));
    assert_eq!(resolve_lookup(&vec![], Some(vec![])), None);
    assert_eq!(resolve_lookup(&vec![None], None), None);
}

#[test]
fn recovery_replays_the_manifest() {
    let options = LsmStorageOptions::default_for_week1_test();
    let records = vec![ManifestRecord::Flush(3), ManifestRecord::NewMemtable(9), ManifestRecord::Flush(5)];
    let (state, next) = recover_state(&options, &records);
    assert_eq!(state.l0_sstables, vec![5, 3]);
    // Without a WAL the memtable takes the id after the largest one used.
    assert_eq!(state.memtable_id, 6);
    assert_eq!(next, 7);
    let (fresh, next) = recover_state(&options, &vec![]);
    assert_eq!(fresh.memtable_id, 1);
    assert_eq!(next, 2);
}

#[test]
fn recovery_with_wal_and_compaction() {
    let mut options = LsmStorageOptions::default_for_week2_test(CompactionOptions::Simple(
        SimpleLeveledCompactionOptions { size_ratio_percent: 200, level0_file_num_compaction_trigger: 2, max_levels: 2 },
    ));
    options.enable_wal = true;
    let task = CompactionTask::Simple(SimpleLeveledCompactionTask {
        upper_level: None,
        upper_level_sst_ids: vec![2, 1],
        lower_level: 1,
        lower_level_sst_ids: vec![],
        is_lower_level_bottom_level: false,
    });
    let records = vec![
        ManifestRecord::NewMemtable(1),
        ManifestRecord::Flush(0),
        ManifestRecord::NewMemtable(2),
        ManifestRecord::Flush(1),
        ManifestRecord::NewMemtable(3),
        ManifestRecord::Flush(2),
        ManifestRecord::Compaction(task, vec![4]),
    ];
    let (state, next) = recover_state(&options, &records);
    assert_eq!(state.memtable_id, 3);
    assert!(state.imm_memtable_ids.is_empty());
    assert_eq!(state.l0_sstables, vec![0]);
    assert_eq!(state.levels, vec![(1, vec![4]), (2, vec![])]);
    assert_eq!(next, 6);
}

#[test]
fn controller_for_options() {
    assert!(CompactionController::for_options(&CompactionOptions::NoCompaction).flush_to_l0());
    let tiered = CompactionController::for_options(&CompactionOptions::Tiered(TieredCompactionOptions {
        num_tiers: 3,
        max_size_amplification_percent: 200,
        size_ratio: 1,
        min_merge_width: 2,
        max_merge_width: None,
    }));
    assert!(!tiered.flush_to_l0());
}

#[test]
fn recovery_refuses_records_that_do_not_apply() {
    let options = LsmStorageOptions::default_for_week2_test(CompactionOptions::Simple(
        SimpleLeveledCompactionOptions { size_ratio_percent: 200, level0_file_num_compaction_trigger: 2, max_levels: 2 },
    ));
    // The compaction names L0 SSTs that were never flushed.
    let task = CompactionTask::Simple(SimpleLeveledCompactionTask {
        upper_level: None,
        upper_level_sst_ids: vec![7],
        lower_level: 1,
        lower_level_sst_ids: vec![],
        is_lower_level_bottom_level: false,
    });
    let records = vec![ManifestRecord::Flush(1), ManifestRecord::Compaction(task, vec![8])];
    assert_eq!(recover_state_checked(&options, &records).unwrap_err(), RecoveryError::RecordNotReplayable);
    let records = vec![ManifestRecord::Flush(usize::MAX - 1)];
    assert_eq!(recover_state_checked(&options, &records).unwrap_err(), RecoveryError::IdsExhausted);
    let records = vec![ManifestRecord::Flush(usize::MAX - 2)];
    let (state, next) = recover_state_checked(&options, &records).unwrap();
    assert_eq!(next, usize::MAX);
    assert_eq!(state.memtable_id, usize::MAX - 1);
}

#[test]
fn recovered_ids_are_below_the_next_id() {
    let options = LsmStorageOptions::default_for_week1_test();
    let records = vec![ManifestRecord::Flush(3), ManifestRecord::Flush(10), ManifestRecord::Flush(4)];
    let (state, next) = recover_state_checked(&options, &records).unwrap();
    assert_eq!(state.l0_sstables, vec![4, 10, 3]);
    assert!(state.l0_sstables.iter().all(|&id| id < next));
    assert!(state.memtable_id < next);
    assert_eq!(next, 12);
}

#[test]
fn replay_readiness() {
    let ctrl = CompactionController::Simple(SimpleLeveledCompactionController::new(
        SimpleLeveledCompactionOptions { size_ratio_percent: 200, level0_file_num_compaction_trigger: 2, max_levels: 2 },
    ));
    let mut s = empty_state();
    s.l0_sstables = vec![2, 1];
    s.levels = vec![(1, vec![]), (2, vec![])];
    let task = |ids: Vec<usize>| {
        CompactionTask::Simple(SimpleLeveledCompactionTask {
            upper_level: None,
            upper_level_sst_ids: ids,
            lower_level: 1,
            lower_level_sst_ids: vec![],
            is_lower_level_bottom_level: false,
        })
    };
    assert!(s.replay_ready_check(&ctrl, &ManifestRecord::Flush(9)));
    assert!(s.replay_ready_check(&ctrl, &ManifestRecord::Compaction(task(vec![2, 1]), vec![3])));
    assert!(!s.replay_ready_check(&ctrl, &ManifestRecord::Compaction(task(vec![2, 5]), vec![3])));
    let tiered = CompactionController::Tiered(TieredCompactionController::new(TieredCompactionOptions {
        num_tiers: 3,
        max_size_amplification_percent: 200,
        size_ratio: 1,
        min_merge_width: 2,
        max_merge_width: None,
    }));
    assert!(!s.replay_ready_check(&tiered, &ManifestRecord::Compaction(task(vec![2, 1]), vec![3])));
}
