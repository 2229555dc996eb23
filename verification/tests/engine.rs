use std::ops::Bound;

use mini_lsm::compact::{
    CompactionOptions, CompactionTask, LeveledCompactionController, LeveledCompactionOptions,
    LeveledCompactionTask,
    SimpleLeveledCompactionController, SimpleLeveledCompactionOptions, SizeHint,
    TieredCompactionController, TieredCompactionOptions,
};
use mini_lsm::error::Error;
use mini_lsm::iterators::concat_iterator::SstConcatIterator;
use mini_lsm::iterators::merge_iterator::MergeIterator;
use mini_lsm::iterators::two_merge_iterator::TwoMergeIterator;
use mini_lsm::iterators::StorageIterator;
use mini_lsm::key::KeySlice;
use mini_lsm::lsm_iterator::LsmIterator;
use mini_lsm::lsm_storage::{
    CompactionFilter, LsmStorageInner, LsmStorageOptions, LsmStorageState, WriteBatchRecord,
};
use mini_lsm::mem_table::MemTable;
use mini_lsm::table::iterator::SsTableIterator;

const NO_HINT: SizeHint = SizeHint { space_amplified: false, pick: None };

fn engine(compaction_options: CompactionOptions) -> LsmStorageInner {
    LsmStorageInner::open(LsmStorageOptions::default_for_week2_test(compaction_options))
}

fn small_engine(compaction_options: CompactionOptions, target_sst_size: usize) -> LsmStorageInner {
    LsmStorageInner::open(LsmStorageOptions {
        block_size: 64,
        target_sst_size,
        num_memtable_limit: 2,
        compaction_options,
        enable_wal: false,
        serializable: false,
    })
}

fn drain<I: StorageIterator>(iter: &mut I) -> Vec<(String, String)> {
    let mut out = Vec::new();
    while iter.is_valid() {
        out.push((
            String::from_utf8(iter.key().key_ref().to_vec()).unwrap(),
            String::from_utf8(iter.value().to_vec()).unwrap(),
        ));
        iter.next().unwrap();
    }
    out
}

fn owned(items: &[(&str, &str)]) -> Vec<(String, String)> {
    items.iter().map(|(k, v)| (k.to_string(), v.to_string())).collect()
}

fn all(storage: &LsmStorageInner) -> Vec<(String, String)> {
    drain(&mut storage.scan(Bound::Unbounded, Bound::Unbounded).unwrap())
}

fn value(storage: &LsmStorageInner, key: &str) -> Option<String> {
    storage.get(key.as_bytes()).unwrap().map(|v| String::from_utf8(v).unwrap())
}

#[test]
fn the_default_options() {
    let o = LsmStorageOptions::default_for_week1_test();
    assert_eq!((o.block_size, o.target_sst_size, o.num_memtable_limit), (4096, 2097152, 50));
    let o = LsmStorageOptions::default_for_week1_day6_test();
    assert_eq!((o.block_size, o.target_sst_size, o.num_memtable_limit), (4096, 2097152, 2));
    let o = LsmStorageOptions::default_for_week2_test(CompactionOptions::NoCompaction);
    assert_eq!((o.block_size, o.target_sst_size, o.num_memtable_limit), (4096, 1048576, 2));
    assert!(!o.enable_wal && !o.serializable);
}

#[test]
fn an_engine_starts_with_the_levels_of_its_strategy() {
    let simple = engine(CompactionOptions::Simple(SimpleLeveledCompactionOptions {
        size_ratio_percent: 200,
        level0_file_num_compaction_trigger: 2,
        max_levels: 3,
    }));
    assert_eq!(simple.state.levels, vec![(1, vec![]), (2, vec![]), (3, vec![])]);
    let none = engine(CompactionOptions::NoCompaction);
    assert_eq!(none.state.levels, vec![(1, vec![])]);
    let tiered = engine(CompactionOptions::Tiered(TieredCompactionOptions {
        num_tiers: 3,
        max_size_amplification_percent: 200,
        size_ratio: 1,
        min_merge_width: 2,
        max_merge_width: None,
    }));
    assert!(tiered.state.levels.is_empty());
}

#[test]
fn a_put_is_read_back() {
    let mut storage = engine(CompactionOptions::NoCompaction);
    assert_eq!(value(&storage, "k"), None);
    storage.put(b"k", b"v").unwrap();
    assert_eq!(value(&storage, "k"), Some("v".to_string()));
    storage.put(b"k", b"w").unwrap();
    assert_eq!(value(&storage, "k"), Some("w".to_string()));
    storage.delete(b"k").unwrap();
    assert_eq!(value(&storage, "k"), None);
    assert_eq!(storage.mvcc().latest_commit_ts(), 3);
}

#[test]
fn a_batch_has_one_timestamp_and_its_last_change_counts() {
    let mut storage = engine(CompactionOptions::NoCompaction);
    let ts = storage
        .write_batch_inner(&[
            WriteBatchRecord::Put(b"a".as_slice(), b"1".as_slice()),
            WriteBatchRecord::Put(b"b".as_slice(), b"2".as_slice()),
            WriteBatchRecord::Del(b"b".as_slice()),
            WriteBatchRecord::Put(b"a".as_slice(), b"3".as_slice()),
        ])
        .unwrap();
    assert_eq!(ts, 1);
    assert_eq!(all(&storage), owned(&[("a", "3")]));
}

#[test]
fn readers_at_earlier_timestamps_see_the_past() {
    let mut storage = engine(CompactionOptions::NoCompaction);
    storage.put(b"k", b"1").unwrap();
    storage.put(b"k", b"2").unwrap();
    storage.delete(b"k").unwrap();
    assert_eq!(storage.get_with_ts(b"k", 0).unwrap(), None);
    assert_eq!(storage.get_with_ts(b"k", 1).unwrap(), Some(b"1".to_vec()));
    assert_eq!(storage.get_with_ts(b"k", 2).unwrap(), Some(b"2".to_vec()));
    assert_eq!(storage.get_with_ts(b"k", 3).unwrap(), None);
    let mut iter = storage.scan_with_ts(Bound::Unbounded, Bound::Unbounded, 2).unwrap();
    assert_eq!(drain(&mut iter), owned(&[("k", "2")]));
}

#[test]
fn freezing_and_flushing_change_no_read() {
    let mut storage = engine(CompactionOptions::NoCompaction);
    storage.put(b"a", b"1").unwrap();
    storage.put(b"b", b"2").unwrap();
    storage.force_freeze_memtable();
    storage.put(b"a", b"3").unwrap();
    assert!(!storage.needs_flush());
    assert_eq!(storage.trigger_flush().unwrap(), None);
    storage.force_freeze_memtable();
    storage.put(b"c", b"4").unwrap();
    let before = all(&storage);
    assert_eq!(before, owned(&[("a", "3"), ("b", "2"), ("c", "4")]));
    assert!(storage.needs_flush());
    assert_eq!(storage.trigger_flush().unwrap(), Some(0));
    assert!(!storage.needs_flush());
    assert_eq!(storage.state.l0_sstables, vec![0]);
    assert_eq!(all(&storage), before);
    assert_eq!(storage.force_flush().unwrap(), Some(1));
    assert_eq!(storage.force_flush_next_imm_memtable().unwrap(), Some(2));
    assert_eq!(storage.state.l0_sstables, vec![2, 1, 0]);
    assert_eq!(all(&storage), before);
    assert_eq!(value(&storage, "a"), Some("3".to_string()));
    assert_eq!(storage.force_flush().unwrap(), None);
}

#[test]
fn a_memtable_that_is_too_large_is_frozen() {
    let mut storage = small_engine(CompactionOptions::NoCompaction, 10);
    storage.put(b"key", b"1234567").unwrap();
    assert!(storage.state.imm_memtables.is_empty());
    storage.put(b"k", b"").unwrap();
    assert_eq!(storage.state.imm_memtables.len(), 1);
    assert!(storage.state.memtable.is_empty());
    assert_eq!(storage.state.memtable.id(), 1);
}

#[test]
fn an_empty_memtable_becomes_a_table_without_entries() {
    let mut storage = engine(CompactionOptions::NoCompaction);
    storage.force_freeze_memtable();
    assert_eq!(storage.force_flush_next_imm_memtable().unwrap(), Some(0));
    assert!(storage.state.imm_memtables.is_empty());
    assert_eq!(storage.state.l0_sstables, vec![0]);
    assert_eq!(storage.state.sstables.get(&0).unwrap().num_of_blocks(), 0);
    assert_eq!(all(&storage), owned(&[]));
    storage.put(b"k", b"v").unwrap();
    storage.force_freeze_memtable();
    assert_eq!(storage.force_flush_next_imm_memtable().unwrap(), Some(1));
    assert_eq!(storage.state.l0_sstables, vec![1, 0]);
    storage.force_freeze_memtable();
    assert_eq!(storage.force_flush_next_imm_memtable().unwrap(), Some(2));
    assert_eq!(value(&storage, "k"), Some("v".to_string()));
    assert_eq!(value(&storage, "j"), None);
    assert_eq!(all(&storage), owned(&[("k", "v")]));
    let mut iter = storage
        .scan(Bound::Included(b"k".as_slice()), Bound::Excluded(b"l".as_slice()))
        .unwrap();
    assert_eq!(drain(&mut iter), owned(&[("k", "v")]));
    assert_eq!(storage.force_full_compaction().unwrap(), vec![2, 1, 0]);
    assert_eq!(storage.state.levels[0].1.len(), 1);
    assert_eq!(storage.state.sstables.len(), 1);
    assert_eq!(all(&storage), owned(&[("k", "v")]));
}

#[test]
fn simple_leveled_compaction_passes_over_tables_without_entries() {
    let mut storage = engine(CompactionOptions::Simple(SimpleLeveledCompactionOptions {
        size_ratio_percent: 200,
        level0_file_num_compaction_trigger: 2,
        max_levels: 2,
    }));
    storage.force_freeze_memtable();
    storage.force_flush_next_imm_memtable().unwrap();
    storage.put(b"a", b"1").unwrap();
    storage.force_flush().unwrap();
    assert_eq!(storage.state.l0_sstables, vec![1, 0]);
    let removed = storage.trigger_compaction(NO_HINT).unwrap().unwrap();
    assert_eq!(removed.len(), 2);
    assert!(storage.state.l0_sstables.is_empty());
    assert_eq!(storage.state.levels[0].1.len(), 1);
    assert_eq!(all(&storage), owned(&[("a", "1")]));
}

#[test]
fn tiers_without_entries_are_passed_over() {
    let mut storage = engine(CompactionOptions::Tiered(TieredCompactionOptions {
        num_tiers: 2,
        max_size_amplification_percent: 200,
        size_ratio: 1,
        min_merge_width: 2,
        max_merge_width: None,
    }));
    storage.put(b"a", b"1").unwrap();
    storage.force_flush().unwrap();
    storage.force_freeze_memtable();
    let id = storage.force_flush_next_imm_memtable().unwrap().unwrap();
    assert_eq!(storage.state.levels, vec![(id, vec![id]), (0, vec![0])]);
    assert_eq!(value(&storage, "a"), Some("1".to_string()));
    assert_eq!(value(&storage, ""), None);
    assert_eq!(all(&storage), owned(&[("a", "1")]));
    let mut iter = storage
        .scan(Bound::Unbounded, Bound::Included(b"a".as_slice()))
        .unwrap();
    assert_eq!(drain(&mut iter), owned(&[("a", "1")]));
    let hint = SizeHint { space_amplified: true, pick: None };
    assert_eq!(storage.trigger_compaction(hint).unwrap(), Some(vec![id, 0]));
    assert_eq!(storage.state.levels.len(), 1);
    assert_eq!(all(&storage), owned(&[("a", "1")]));
}

#[test]
fn a_full_compaction_above_other_levels_keeps_what_is_not_deleted() {
    let mut storage = engine(CompactionOptions::Tiered(TieredCompactionOptions {
        num_tiers: 9,
        max_size_amplification_percent: 200,
        size_ratio: 1,
        min_merge_width: 2,
        max_merge_width: None,
    }));
    storage.put(b"a", b"1").unwrap();
    storage.put(b"b", b"2").unwrap();
    storage.force_flush().unwrap();
    storage.put(b"a", b"3").unwrap();
    storage.put(b"c", b"4").unwrap();
    storage.force_flush().unwrap();
    let before = all(&storage);
    assert_eq!(before, owned(&[("a", "3"), ("b", "2"), ("c", "4")]));
    let upper = storage.state.levels[0].1.clone();
    assert_eq!(storage.force_full_compaction().unwrap(), upper);
    assert_eq!(storage.state.levels.len(), 2);
    assert_ne!(storage.state.levels[0].1, upper);
    assert_eq!(storage.state.levels[1].1, vec![0]);
    assert_eq!(all(&storage), before);
    assert_eq!(value(&storage, "a"), Some("3".to_string()));
}

fn tiered(num_tiers: usize) -> CompactionOptions {
    CompactionOptions::Tiered(TieredCompactionOptions {
        num_tiers,
        max_size_amplification_percent: 200,
        size_ratio: 1,
        min_merge_width: 2,
        max_merge_width: None,
    })
}

#[test]
fn a_full_compaction_brings_no_deleted_key_back() {
    let mut storage = engine(tiered(9));
    storage.put(b"a", b"1").unwrap();
    storage.put(b"b", b"2").unwrap();
    storage.force_flush().unwrap();
    storage.delete(b"a").unwrap();
    storage.force_flush().unwrap();
    assert_eq!(value(&storage, "a"), None);
    storage.force_full_compaction().unwrap();
    assert_eq!(value(&storage, "a"), None);
    assert_eq!(all(&storage), owned(&[("b", "2")]));
    // the deletion is kept as long as there is a tier below
    assert_eq!(storage.state.levels.len(), 2);
    assert_eq!(storage.state.levels[0].1.len(), 1);
    let hint = SizeHint { space_amplified: true, pick: None };
    storage.trigger_compaction(hint).unwrap();
    assert_eq!(storage.state.levels.len(), 1);
    assert_eq!(all(&storage), owned(&[("b", "2")]));
    storage.delete(b"b").unwrap();
    storage.force_flush().unwrap();
    storage.trigger_compaction(hint).unwrap_err();
    assert_eq!(all(&storage), owned(&[]));
}

#[test]
fn tables_that_are_flushed_during_a_compaction_stay_in_front() {
    let mut storage = engine(CompactionOptions::Simple(SimpleLeveledCompactionOptions {
        size_ratio_percent: 200,
        level0_file_num_compaction_trigger: 2,
        max_levels: 2,
    }));
    for v in [b"1", b"2"] {
        storage.put(b"a", v).unwrap();
        storage.force_flush().unwrap();
    }
    let task = storage.plan_compaction(NO_HINT).unwrap();
    let new_ssts = storage.compact(&task).unwrap();
    let output: Vec<usize> = new_ssts.iter().map(|t| t.sst_id()).collect();
    storage.put(b"a", b"3").unwrap();
    storage.put(b"b", b"4").unwrap();
    let flushed = storage.force_flush().unwrap().unwrap();
    let removed = storage.apply_compaction(&task, new_ssts);
    assert_eq!(removed, vec![1, 0]);
    assert_eq!(storage.state.l0_sstables, vec![flushed]);
    assert_eq!(storage.state.levels[0].1, output);
    assert_eq!(all(&storage), owned(&[("a", "3"), ("b", "4")]));

    let mut storage = engine(tiered(9));
    for (k, v) in [("a", "1"), ("b", "2")] {
        storage.put(k.as_bytes(), v.as_bytes()).unwrap();
        storage.force_flush().unwrap();
    }
    let task = storage.plan_full_compaction();
    let new_ssts = storage.compact(&task).unwrap();
    let output: Vec<usize> = new_ssts.iter().map(|t| t.sst_id()).collect();
    storage.put(b"a", b"3").unwrap();
    let flushed = storage.force_flush().unwrap().unwrap();
    assert_eq!(storage.apply_full_compaction(&task, new_ssts), vec![1]);
    assert_eq!(
        storage.state.levels,
        vec![(flushed, vec![flushed]), (1, output), (0, vec![0])]
    );
    let hint = SizeHint { space_amplified: true, pick: None };
    let task = storage.plan_compaction(hint).unwrap();
    let new_ssts = storage.compact(&task).unwrap();
    storage.put(b"c", b"5").unwrap();
    let flushed = storage.force_flush().unwrap().unwrap();
    storage.apply_compaction(&task, new_ssts);
    assert_eq!(storage.state.levels.len(), 2);
    assert_eq!(storage.state.levels[0], (flushed, vec![flushed]));
    assert_eq!(all(&storage), owned(&[("a", "3"), ("b", "2"), ("c", "5")]));
}

#[test]
fn the_versions_of_a_key_may_stand_in_several_tables() {
    let mut storage = small_engine(CompactionOptions::NoCompaction, 1 << 20);
    let mut readers = Vec::new();
    for i in 0..40 {
        storage.put(b"key", format!("value {:02}", i).as_bytes()).unwrap();
        readers.push(storage.new_txn().unwrap());
    }
    storage.put(b"kez", b"z").unwrap();
    storage.force_flush().unwrap();
    storage.options.target_sst_size = 100;
    storage.force_full_compaction().unwrap();
    assert!(storage.state.levels[0].1.len() > 5);
    for i in 0..40u64 {
        let expected = format!("value {:02}", i).into_bytes();
        assert_eq!(storage.get_with_ts(b"key", i + 1).unwrap(), Some(expected.clone()));
        let mut iter = storage
            .scan_with_ts(Bound::Included(b"key".as_slice()), Bound::Unbounded, i + 1)
            .unwrap();
        assert_eq!(iter.value(), expected.as_slice());
        iter.next().unwrap();
        assert!(!iter.is_valid());
    }
    assert_eq!(storage.get_with_ts(b"key", 0).unwrap(), None);
    assert_eq!(value(&storage, "kez"), Some("z".to_string()));
    assert_eq!(all(&storage), owned(&[("key", "value 39"), ("kez", "z")]));
}

#[test]
fn the_empty_key_is_a_key_like_any_other() {
    let mut storage = engine(CompactionOptions::NoCompaction);
    storage.put(b"", b"nothing").unwrap();
    storage.put(b"a", b"1").unwrap();
    storage.force_flush().unwrap();
    assert_eq!(value(&storage, ""), Some("nothing".to_string()));
    assert_eq!(all(&storage), owned(&[("", "nothing"), ("a", "1")]));
    storage.force_full_compaction().unwrap();
    assert_eq!(value(&storage, ""), Some("nothing".to_string()));
    let mut iter = storage.scan(Bound::Excluded(b"".as_slice()), Bound::Unbounded).unwrap();
    assert_eq!(drain(&mut iter), owned(&[("a", "1")]));
}

#[test]
fn writes_go_to_the_log_of_the_memtable_until_they_are_synced() {
    let mut storage = small_engine(CompactionOptions::NoCompaction, 20);
    assert!(storage.sync().is_none());
    storage.state.memtable = MemTable::create_with_wal(0);
    storage.put(b"k", b"v").unwrap();
    storage.delete(b"j").unwrap();
    let log = storage.sync().unwrap();
    assert!(storage.sync().unwrap().is_empty());
    let table = MemTable::recover_from_wal(0, &log).unwrap();
    assert_eq!(table.get_version(b"k", 1), Some(b"v".to_vec()));
    assert_eq!(table.get_version(b"j", 2), Some(Vec::new()));
    assert_eq!(value(&storage, "k"), Some("v".to_string()));
    assert_eq!(value(&storage, "j"), None);
    storage.put(b"large", b"a value that fills the memtable").unwrap();
    assert_eq!(storage.state.imm_memtables.len(), 1);
    assert!(storage.sync().is_none());
}

#[test]
fn an_iterator_that_has_passed_its_bound_can_be_moved_on() {
    let mut table = MemTable::create(0);
    for user in ["a", "b", "c"] {
        table.put(KeySlice::from_slice(user.as_bytes(), 1), b"v").unwrap();
    }
    let memtables = MergeIterator::create(vec![table.scan(Bound::Unbounded, Bound::Unbounded)]);
    let tables: MergeIterator<SsTableIterator> = MergeIterator::create(Vec::new());
    let levels: MergeIterator<SstConcatIterator> = MergeIterator::create(Vec::new());
    let inner =
        TwoMergeIterator::create(TwoMergeIterator::create(memtables, tables).unwrap(), levels)
            .unwrap();
    let mut iter = LsmIterator::new(inner, Bound::Included(b"b".to_vec()), 1).unwrap();
    assert_eq!(iter.key().key_ref(), b"a");
    iter.next().unwrap();
    assert_eq!(iter.key().key_ref(), b"b");
    iter.next().unwrap();
    for _ in 0..3 {
        assert!(!iter.is_valid());
        iter.next().unwrap();
    }
    assert!(!iter.is_valid());
}

#[test]
fn scans_respect_both_bounds() {
    let mut storage = engine(CompactionOptions::NoCompaction);
    for (k, v) in [("a", "1"), ("b", "2"), ("c", "3")] {
        storage.put(k.as_bytes(), v.as_bytes()).unwrap();
    }
    storage.force_flush().unwrap();
    storage.force_full_compaction().unwrap();
    for (k, v) in [("d", "4"), ("e", "5")] {
        storage.put(k.as_bytes(), v.as_bytes()).unwrap();
    }
    storage.force_flush().unwrap();
    storage.put(b"bb", b"6").unwrap();
    let mut iter = storage
        .scan(Bound::Excluded(b"a".as_slice()), Bound::Excluded(b"d".as_slice()))
        .unwrap();
    assert_eq!(drain(&mut iter), owned(&[("b", "2"), ("bb", "6"), ("c", "3")]));
    let mut iter = storage
        .scan(Bound::Included(b"c".as_slice()), Bound::Included(b"d".as_slice()))
        .unwrap();
    assert_eq!(drain(&mut iter), owned(&[("c", "3"), ("d", "4")]));
    let mut iter = storage
        .scan(Bound::Included(b"x".as_slice()), Bound::Unbounded)
        .unwrap();
    assert_eq!(drain(&mut iter), owned(&[]));
    iter.next().unwrap();
}

#[test]
fn a_full_compaction_keeps_what_readers_see() {
    let mut storage = small_engine(CompactionOptions::NoCompaction, 1 << 20);
    for round in 0..3 {
        for i in 0..20 {
            let key = format!("key{:02}", i);
            let val = format!("{}-{}", round, i);
            storage.put(key.as_bytes(), val.as_bytes()).unwrap();
        }
        storage.delete(format!("key{:02}", round).as_bytes()).unwrap();
        storage.force_flush().unwrap();
    }
    let before = all(&storage);
    assert_eq!(before.len(), 19);
    let removed = storage.force_full_compaction().unwrap();
    assert_eq!(removed.len(), 3);
    assert!(storage.state.l0_sstables.is_empty());
    assert_eq!(storage.state.levels[0].1.len(), 1);
    assert_eq!(storage.state.sstables.len(), 1);
    assert_eq!(all(&storage), before);
}

#[test]
fn a_compaction_splits_tables_at_the_target_size() {
    let mut storage = small_engine(CompactionOptions::NoCompaction, 1 << 20);
    for i in 0..100 {
        storage.put(format!("key{:03}", i).as_bytes(), b"some value").unwrap();
    }
    storage.force_flush().unwrap();
    let before = all(&storage);
    storage.options.target_sst_size = 300;
    storage.force_full_compaction().unwrap();
    let ids = storage.state.levels[0].1.clone();
    assert!(ids.len() > 5);
    assert_eq!(ids, (2..2 + ids.len()).collect::<Vec<usize>>());
    let sizes: Vec<u64> =
        ids.iter().map(|id| storage.state.sstables.get(id).unwrap().table_size()).collect();
    for size in &sizes[..sizes.len() - 1] {
        assert!(*size >= 300);
    }
    assert_eq!(all(&storage), before);
    assert_eq!(value(&storage, "key042"), Some("some value".to_string()));
    assert_eq!(value(&storage, "key0420"), None);
}

#[test]
fn simple_leveled_compaction_moves_tables_down() {
    let mut storage = engine(CompactionOptions::Simple(SimpleLeveledCompactionOptions {
        size_ratio_percent: 200,
        level0_file_num_compaction_trigger: 2,
        max_levels: 2,
    }));
    assert_eq!(storage.trigger_compaction(NO_HINT).unwrap(), None);
    storage.put(b"a", b"1").unwrap();
    storage.force_flush().unwrap();
    storage.put(b"a", b"2").unwrap();
    storage.put(b"b", b"1").unwrap();
    storage.force_flush().unwrap();
    let before = all(&storage);
    let removed = storage.trigger_compaction(NO_HINT).unwrap();
    assert_eq!(removed, Some(vec![1, 0]));
    assert!(storage.state.l0_sstables.is_empty());
    assert_eq!(storage.state.levels, vec![(1, vec![3]), (2, vec![])]);
    assert_eq!(all(&storage), before);
    // one table above none is too many
    let removed = storage.trigger_compaction(NO_HINT).unwrap();
    assert_eq!(removed, Some(vec![3]));
    assert_eq!(storage.state.levels, vec![(1, vec![]), (2, vec![4])]);
    assert_eq!(all(&storage), before);
    assert_eq!(storage.trigger_compaction(NO_HINT).unwrap(), None);
}

#[test]
fn tiered_compaction_merges_the_first_tiers() {
    let mut storage = engine(CompactionOptions::Tiered(TieredCompactionOptions {
        num_tiers: 2,
        max_size_amplification_percent: 200,
        size_ratio: 1,
        min_merge_width: 2,
        max_merge_width: None,
    }));
    storage.put(b"a", b"1").unwrap();
    storage.force_flush().unwrap();
    assert_eq!(storage.state.levels, vec![(0, vec![0])]);
    assert_eq!(storage.trigger_compaction(NO_HINT).unwrap(), None);
    storage.put(b"b", b"2").unwrap();
    storage.force_flush().unwrap();
    assert_eq!(storage.state.levels, vec![(1, vec![1]), (0, vec![0])]);
    assert_eq!(TieredCompactionController::tier_sizes(&storage.state), Some((1, 1)));
    let before = all(&storage);
    let hint = SizeHint { space_amplified: true, pick: None };
    assert_eq!(storage.trigger_compaction(hint).unwrap(), Some(vec![1, 0]));
    assert_eq!(storage.state.levels, vec![(3, vec![3])]);
    assert_eq!(all(&storage), before);
}

#[test]
fn a_compaction_of_tiers_that_leaves_nothing_is_refused() {
    let mut storage = engine(CompactionOptions::Tiered(TieredCompactionOptions {
        num_tiers: 2,
        max_size_amplification_percent: 200,
        size_ratio: 1,
        min_merge_width: 2,
        max_merge_width: None,
    }));
    storage.delete(b"a").unwrap();
    storage.force_flush().unwrap();
    storage.delete(b"b").unwrap();
    storage.force_flush().unwrap();
    let hint = SizeHint { space_amplified: true, pick: None };
    assert_eq!(storage.trigger_compaction(hint).unwrap_err(), Error::NothingLeft);
    assert_eq!(storage.state.levels, vec![(1, vec![1]), (0, vec![0])]);
}

fn state_with_tables(options: CompactionOptions, count: usize) -> LsmStorageInner {
    let mut storage = small_engine(options, 1 << 20);
    for i in 0..count {
        storage.put(format!("key{:02}", i).as_bytes(), b"v").unwrap();
        storage.force_flush().unwrap();
    }
    storage
}

#[test]
fn the_simple_controller_applies_a_task_to_the_state() {
    let options = SimpleLeveledCompactionOptions {
        size_ratio_percent: 200,
        level0_file_num_compaction_trigger: 2,
        max_levels: 2,
    };
    let mut storage = state_with_tables(CompactionOptions::Simple(options), 3);
    let controller = SimpleLeveledCompactionController::new(options);
    let task = controller.generate_compaction_task(&storage.state).unwrap();
    assert_eq!(task.upper_level, None);
    assert_eq!(task.upper_level_sst_ids, vec![2, 1, 0]);
    assert_eq!(task.lower_level, 1);
    assert!(task.lower_level_sst_ids.is_empty());
    assert!(!task.is_lower_level_bottom_level);
    let removed = controller.apply_compaction_result(&mut storage.state, &task, &vec![7, 8]);
    assert_eq!(removed, vec![2, 1, 0]);
    assert!(storage.state.l0_sstables.is_empty());
    assert_eq!(storage.state.levels, vec![(1, vec![7, 8]), (2, vec![])]);
}

#[test]
fn the_ratio_of_simple_leveled_compaction_counts_whole_files() {
    let options = SimpleLeveledCompactionOptions {
        size_ratio_percent: 200,
        level0_file_num_compaction_trigger: 10,
        max_levels: 2,
    };
    let mut storage = engine(CompactionOptions::Simple(options));
    let controller = SimpleLeveledCompactionController::new(options);
    // three files below two are one and a half: counted as one
    storage.state.levels = vec![(1, vec![1, 2]), (2, vec![3, 4, 5])];
    let task = controller.generate_compaction_task(&storage.state).unwrap();
    assert_eq!(task.upper_level, Some(1));
    assert_eq!(task.lower_level, 2);
    assert!(task.is_lower_level_bottom_level);
    storage.state.levels = vec![(1, vec![1, 2]), (2, vec![3, 4, 5, 6])];
    assert!(controller.generate_compaction_task(&storage.state).is_none());
    storage.state.levels = vec![(1, vec![]), (2, vec![3])];
    assert!(controller.generate_compaction_task(&storage.state).is_none());
}

#[test]
fn the_leveled_controller_computes_sizes_and_targets() {
    let options = LeveledCompactionOptions {
        level_size_multiplier: 10,
        level0_file_num_compaction_trigger: 2,
        max_levels: 3,
        base_level_size_mb: 1,
    };
    let controller = LeveledCompactionController::new(options);
    assert_eq!(controller.target_sizes(&vec![0, 0, 0]), vec![0, 0, 1048576]);
    let big: u64 = 30 * 1048576;
    assert_eq!(
        controller.target_sizes(&vec![0, 0, big]),
        vec![314572, 3 * 1048576, 30 * 1048576]
    );
    let less: u64 = 5 * 1048576;
    assert_eq!(controller.target_sizes(&vec![0, 0, less]), vec![0, 524288, 5 * 1048576]);
    let storage = state_with_tables(CompactionOptions::Leveled(options), 2);
    assert_eq!(controller.level_sizes(&storage.state), vec![0, 0, 0]);
}

#[test]
fn the_leveled_controller_compacts_l0_into_the_base_level() {
    let options = LeveledCompactionOptions {
        level_size_multiplier: 10,
        level0_file_num_compaction_trigger: 2,
        max_levels: 3,
        base_level_size_mb: 1,
    };
    let mut storage = state_with_tables(CompactionOptions::Leveled(options), 2);
    let controller = LeveledCompactionController::new(options);
    let task = controller.generate_compaction_task(&storage.state, None).unwrap();
    assert_eq!(task.upper_level, None);
    assert_eq!(task.upper_level_sst_ids, vec![1, 0]);
    assert_eq!(task.lower_level, 3);
    assert!(task.lower_level_sst_ids.is_empty());
    assert!(task.is_lower_level_bottom_level);
    let new_ssts = storage.compact(&CompactionTask::Leveled(task)).unwrap();
    assert_eq!(new_ssts.len(), 1);
    assert_eq!(new_ssts[0].sst_id(), 3);
}

#[test]
fn where_flushed_tables_go_depends_on_the_strategy() {
    let none = engine(CompactionOptions::NoCompaction);
    assert!(none.compaction_controller.flush_to_l0());
    let tiered = engine(CompactionOptions::Tiered(TieredCompactionOptions {
        num_tiers: 2,
        max_size_amplification_percent: 200,
        size_ratio: 1,
        min_merge_width: 2,
        max_merge_width: None,
    }));
    assert!(!tiered.compaction_controller.flush_to_l0());
}

#[test]
fn exhausted_counters_are_refused() {
    let mut storage = engine(CompactionOptions::NoCompaction);
    storage.next_sst_id = usize::MAX;
    assert_eq!(storage.put(b"a", b"1").unwrap_err(), Error::IdsExhausted);
    let mut storage = engine(CompactionOptions::NoCompaction);
    storage.mvcc.update_commit_ts(u64::MAX);
    assert_eq!(storage.put(b"a", b"1").unwrap_err(), Error::TimestampsExhausted);
    let mut storage = engine(CompactionOptions::NoCompaction);
    storage.put(b"a", b"1").unwrap();
    storage.next_sst_id = usize::MAX;
    assert_eq!(storage.force_flush().unwrap_err(), Error::IdsExhausted);
}

#[test]
fn filters_are_collected_in_order() {
    let mut storage = engine(CompactionOptions::NoCompaction);
    storage.add_compaction_filter(CompactionFilter::Prefix(b"tmp/".to_vec()));
    storage.add_compaction_filter(CompactionFilter::Prefix(b"old/".to_vec()));
    assert_eq!(storage.compaction_filters.len(), 2);
    match &storage.compaction_filters[1] {
        CompactionFilter::Prefix(p) => assert_eq!(p, b"old/"),
    }
}

#[test]
fn a_state_finds_its_tables_by_identifier() {
    let storage = state_with_tables(CompactionOptions::NoCompaction, 2);
    let tables = storage.state.get_sstables(&vec![0, 1]);
    assert_eq!(tables[0].sst_id(), 0);
    assert_eq!(tables[1].sst_id(), 1);
    let fresh = LsmStorageState::create(&storage.options);
    assert!(fresh.memtable.is_empty());
}

#[test]
fn the_leveled_controller_sorts_the_lower_level_unless_it_recovers() {
    let options = LeveledCompactionOptions {
        level_size_multiplier: 10,
        level0_file_num_compaction_trigger: 2,
        max_levels: 2,
        base_level_size_mb: 1,
    };
    let controller = LeveledCompactionController::new(options);
    for in_recovery in [false, true] {
        let mut storage = state_with_tables(CompactionOptions::Leveled(options), 4);
        storage.state.l0_sstables = vec![3];
        storage.state.levels = vec![(1, vec![0]), (2, vec![1])];
        let task = LeveledCompactionTask {
            upper_level: None,
            upper_level_sst_ids: vec![3],
            lower_level: 2,
            lower_level_sst_ids: vec![],
            is_lower_level_bottom_level: true,
        };
        // the first keys of the tables ascend with their identifiers
        let removed =
            controller.apply_compaction_result(&mut storage.state, &task, &vec![2, 0], in_recovery);
        assert_eq!(removed, vec![3]);
        assert!(storage.state.l0_sstables.is_empty());
        let expected = if in_recovery { vec![1, 2, 0] } else { vec![0, 1, 2] };
        assert_eq!(storage.state.levels, vec![(1, vec![0]), (2, expected)]);
    }
}

#[test]
fn the_leveled_controller_moves_the_oldest_table_of_the_picked_level() {
    let options = LeveledCompactionOptions {
        level_size_multiplier: 10,
        level0_file_num_compaction_trigger: 2,
        max_levels: 2,
        base_level_size_mb: 1,
    };
    let controller = LeveledCompactionController::new(options);
    let mut storage = state_with_tables(CompactionOptions::Leveled(options), 4);
    storage.state.l0_sstables = vec![];
    storage.state.levels = vec![(1, vec![1, 2]), (2, vec![0, 3])];
    assert!(controller.generate_compaction_task(&storage.state, None).is_none());
    let task = controller.generate_compaction_task(&storage.state, Some(0)).unwrap();
    assert_eq!(task.upper_level, Some(1));
    assert_eq!(task.upper_level_sst_ids, vec![1]);
    assert_eq!(task.lower_level, 2);
    assert!(task.lower_level_sst_ids.is_empty());
    assert!(task.is_lower_level_bottom_level);
}

#[test]
fn the_tiered_controller_puts_the_output_in_the_place_of_the_tiers() {
    let options = TieredCompactionOptions {
        num_tiers: 3,
        max_size_amplification_percent: 200,
        size_ratio: 1,
        min_merge_width: 2,
        max_merge_width: None,
    };
    let controller = TieredCompactionController::new(options);
    let mut storage = engine(CompactionOptions::Tiered(options));
    storage.state.levels = vec![(5, vec![5]), (4, vec![4]), (2, vec![2, 3])];
    let task = controller.generate_compaction_task(&storage.state, false).unwrap();
    assert_eq!(task.tiers, vec![(5, vec![5]), (4, vec![4])]);
    assert!(!task.bottom_tier_included);
    let removed = controller.apply_compaction_result(&mut storage.state, &task, &vec![7, 8]);
    assert_eq!(removed, vec![5, 4]);
    assert_eq!(storage.state.levels, vec![(7, vec![7, 8]), (2, vec![2, 3])]);
    let task = controller.generate_compaction_task(&storage.state, true).unwrap();
    assert!(task.bottom_tier_included);
    assert_eq!(task.tiers.len(), 2);
    assert!(controller.generate_compaction_task(&storage.state, false).is_none());
}
