use std::ops::Bound;

use mini_lsm::compact::CompactionOptions;
use mini_lsm::iterators::merge_iterator::MergeIterator;
use mini_lsm::iterators::StorageIterator;
use mini_lsm::lsm_storage::{LsmStorageInner, LsmStorageOptions, LsmStorageState, WriteBatchRecord};
use mini_lsm::table::iterator::SsTableIterator;

fn put<'a>(key: &'a str, value: &'a str) -> WriteBatchRecord<&'a [u8]> {
    WriteBatchRecord::Put(key.as_bytes(), value.as_bytes())
}

fn del(key: &str) -> WriteBatchRecord<&[u8]> {
    WriteBatchRecord::Del(key.as_bytes())
}

fn construct_merge_iterator_over_storage(state: &LsmStorageState) -> MergeIterator<SsTableIterator> {
    let mut iters = Vec::new();
    for id in &state.l0_sstables {
        let table = state.sstables.get(id).unwrap().clone();
        iters.push(SsTableIterator::create_and_seek_to_first(table).unwrap());
    }
    for (_, ids) in &state.levels {
        for id in ids {
            let table = state.sstables.get(id).unwrap().clone();
            iters.push(SsTableIterator::create_and_seek_to_first(table).unwrap());
        }
    }
    MergeIterator::create(iters)
}

fn check_iter_result_by_key_and_ts<I: StorageIterator>(iter: &mut I, expected: Vec<((&str, u64), &str)>) {
    for ((key, ts), value) in expected {
        assert!(iter.is_valid());
        assert_eq!(iter.key().key_ref(), key.as_bytes());
        assert_eq!(iter.key().ts(), ts);
        assert_eq!(iter.value(), value.as_bytes());
        iter.next().unwrap();
    }
    assert!(!iter.is_valid());
}

fn check_lsm_iter_result_by_key<I: StorageIterator>(iter: &mut I, expected: Vec<(&str, &str)>) {
    for (key, value) in expected {
        assert!(iter.is_valid());
        assert_eq!(iter.key().key_ref(), key.as_bytes());
        assert_eq!(iter.value(), value.as_bytes());
        iter.next().unwrap();
    }
    assert!(!iter.is_valid());
}

#[test]
fn test_same_read_ts_pins_watermark_until_last_transaction_drops() {
    let options = LsmStorageOptions::default_for_week2_test(CompactionOptions::NoCompaction);
    let mut storage = LsmStorageInner::open(options);

    storage.put(b"before", b"1").unwrap();
    let txn1 = storage.new_txn().unwrap();
    let txn2 = storage.new_txn().unwrap();
    assert_eq!(txn1.read_ts(), txn2.read_ts());

    let pinned_ts = txn1.read_ts();
    storage.put(b"after", b"2").unwrap();
    let latest_ts = storage.mvcc().latest_commit_ts();
    assert!(latest_ts > pinned_ts);
    assert_eq!(storage.mvcc().watermark(), pinned_ts);

    txn1.release(&mut storage);
    assert_eq!(storage.mvcc().watermark(), pinned_ts);

    txn2.release(&mut storage);
    assert_eq!(storage.mvcc().watermark(), latest_ts);
}

#[test]
fn test_successive_watermarks_compact_internal_versions_without_changing_visible_reads() {
    let options = LsmStorageOptions::default_for_week2_test(CompactionOptions::NoCompaction);
    let mut storage = LsmStorageInner::open(options);

    storage.write_batch(&[put("a", "1"), put("b", "1")]).unwrap();
    let snapshot1a = storage.new_txn().unwrap();
    let snapshot1b = storage.new_txn().unwrap();
    assert_eq!(snapshot1a.read_ts(), snapshot1b.read_ts());

    storage.write_batch(&[put("a", "2"), put("d", "2")]).unwrap();
    let snapshot2 = storage.new_txn().unwrap();

    storage.write_batch(&[put("a", "3"), del("d")]).unwrap();
    let snapshot3 = storage.new_txn().unwrap();

    storage.write_batch(&[put("c", "4"), del("a")]).unwrap();
    storage.force_flush().unwrap();

    snapshot1a.release(&mut storage);
    assert_eq!(storage.mvcc().watermark(), 1);
    storage.force_full_compaction().unwrap();
    let mut internal = construct_merge_iterator_over_storage(&storage.state);
    check_iter_result_by_key_and_ts(
        &mut internal,
        vec![
            (("a", 4), ""),
            (("a", 3), "3"),
            (("a", 2), "2"),
            (("a", 1), "1"),
            (("b", 1), "1"),
            (("c", 4), "4"),
            (("d", 3), ""),
            (("d", 2), "2"),
        ],
    );
    let mut iter = match snapshot1b.scan(&storage, Bound::Unbounded, Bound::Unbounded) {
        Ok(iter) => iter,
        Err(_) => panic!("the scan failed"),
    };
    check_lsm_iter_result_by_key(&mut iter, vec![("a", "1"), ("b", "1")]);

    let snapshot1b = iter.finish();
    snapshot1b.release(&mut storage);
    assert_eq!(storage.mvcc().watermark(), 2);
    storage.force_full_compaction().unwrap();
    let mut internal = construct_merge_iterator_over_storage(&storage.state);
    check_iter_result_by_key_and_ts(
        &mut internal,
        vec![
            (("a", 4), ""),
            (("a", 3), "3"),
            (("a", 2), "2"),
            (("b", 1), "1"),
            (("c", 4), "4"),
            (("d", 3), ""),
            (("d", 2), "2"),
        ],
    );
    let mut iter = match snapshot2.scan(&storage, Bound::Unbounded, Bound::Unbounded) {
        Ok(iter) => iter,
        Err(_) => panic!("the scan failed"),
    };
    check_lsm_iter_result_by_key(&mut iter, vec![("a", "2"), ("b", "1"), ("d", "2")]);

    let snapshot2 = iter.finish();
    snapshot2.release(&mut storage);
    assert_eq!(storage.mvcc().watermark(), 3);
    storage.force_full_compaction().unwrap();
    let mut internal = construct_merge_iterator_over_storage(&storage.state);
    check_iter_result_by_key_and_ts(
        &mut internal,
        vec![(("a", 4), ""), (("a", 3), "3"), (("b", 1), "1"), (("c", 4), "4")],
    );
    let mut iter = match snapshot3.scan(&storage, Bound::Unbounded, Bound::Unbounded) {
        Ok(iter) => iter,
        Err(_) => panic!("the scan failed"),
    };
    check_lsm_iter_result_by_key(&mut iter, vec![("a", "3"), ("b", "1")]);

    let snapshot3 = iter.finish();
    snapshot3.release(&mut storage);
    assert_eq!(storage.mvcc().watermark(), 4);
    storage.force_full_compaction().unwrap();
    let mut internal = construct_merge_iterator_over_storage(&storage.state);
    check_iter_result_by_key_and_ts(&mut internal, vec![(("b", 1), "1"), (("c", 4), "4")]);
    let mut iter = storage.scan(Bound::Unbounded, Bound::Unbounded).unwrap();
    check_lsm_iter_result_by_key(&mut iter, vec![("b", "1"), ("c", "4")]);
}
