use std::ops::Bound;

use mini_lsm::compact::CompactionOptions;
use mini_lsm::error::Error;
use mini_lsm::hash::is_hashable;
use mini_lsm::iterators::StorageIterator;
use mini_lsm::lsm_iterator::FusedIterator;
use mini_lsm::lsm_storage::{LsmStorageInner, LsmStorageOptions};
use mini_lsm::mvcc::key_set::KeySet;
use mini_lsm::mvcc::txn::{Transaction, TxnIterator};
use mini_lsm::mvcc::watermark::Watermark;
use mini_lsm::mvcc::{CommittedTxnData, LsmMvccInner};

fn engine(serializable: bool) -> LsmStorageInner {
    let mut options = LsmStorageOptions::default_for_week2_test(CompactionOptions::NoCompaction);
    options.serializable = serializable;
    LsmStorageInner::open(options)
}

fn scan<'a>(
    txn: Transaction,
    storage: &'a LsmStorageInner,
    lower: Bound<&[u8]>,
    upper: Bound<&[u8]>,
) -> TxnIterator<'a> {
    match txn.scan(storage, lower, upper) {
        Ok(iter) => iter,
        Err((_, e)) => panic!("the scan failed: {:?}", e),
    }
}

fn drain(iter: &mut TxnIterator<'_>) -> Vec<(String, String)> {
    let mut out = Vec::new();
    while iter.is_valid() {
        out.push((
            String::from_utf8(iter.key().key_ref().to_vec()).unwrap(),
            String::from_utf8(iter.value().to_vec()).unwrap(),
        ));
        iter.next().unwrap();
    }
    out
}

fn owned(items: &[(&str, &str)]) -> Vec<(String, String)> {
    items.iter().map(|(k, v)| (k.to_string(), v.to_string())).collect()
}

#[test]
fn a_transaction_reads_its_snapshot_and_its_own_writes() {
    let mut storage = engine(false);
    storage.put(b"a", b"1").unwrap();
    storage.put(b"b", b"2").unwrap();
    let mut txn = storage.new_txn().unwrap();
    storage.put(b"a", b"9").unwrap();
    assert_eq!(txn.get(&storage, b"a").unwrap(), Some(b"1".to_vec()));
    txn.put(b"a", b"mine");
    txn.delete(b"b");
    assert_eq!(txn.get(&storage, b"a").unwrap(), Some(b"mine".to_vec()));
    assert_eq!(txn.get(&storage, b"b").unwrap(), None);
    assert_eq!(txn.get(&storage, b"c").unwrap(), None);
    assert_eq!(storage.get(b"a").unwrap(), Some(b"9".to_vec()));
    assert_eq!(storage.get(b"b").unwrap(), Some(b"2".to_vec()));
    txn.release(&mut storage);
}

#[test]
fn a_commit_publishes_all_writes_at_once() {
    let mut storage = engine(false);
    storage.put(b"b", b"2").unwrap();
    let mut txn = storage.new_txn().unwrap();
    txn.put(b"a", b"1");
    txn.delete(b"b");
    txn.commit(&mut storage).unwrap();
    assert_eq!(storage.mvcc().latest_commit_ts(), 2);
    assert_eq!(storage.get(b"a").unwrap(), Some(b"1".to_vec()));
    assert_eq!(storage.get(b"b").unwrap(), None);
    assert_eq!(storage.get_with_ts(b"b", 1).unwrap(), Some(b"2".to_vec()));
    assert_eq!(txn.commit(&mut storage).unwrap_err(), Error::AlreadyCommitted);
    txn.release(&mut storage);
}

#[test]
fn a_transaction_scan_puts_own_writes_in_front() {
    let mut storage = engine(false);
    for (k, v) in [("a", "1"), ("b", "2"), ("c", "3"), ("d", "4")] {
        storage.put(k.as_bytes(), v.as_bytes()).unwrap();
    }
    let mut txn = storage.new_txn().unwrap();
    txn.put(b"b", b"two");
    txn.put(b"bb", b"new");
    txn.delete(b"c");
    let mut iter = scan(txn, &storage, Bound::Included(b"b"), Bound::Unbounded);
    assert_eq!(iter.num_active_iterators(), 1 + 1);
    assert_eq!(drain(&mut iter), owned(&[("b", "two"), ("bb", "new"), ("d", "4")]));
    iter.next().unwrap();
    let txn = iter.finish();
    let mut iter = scan(txn, &storage, Bound::Unbounded, Bound::Excluded(b"b"));
    assert_eq!(drain(&mut iter), owned(&[("a", "1")]));
}

#[test]
fn a_scan_shows_no_deletion_however_many_stand_together() {
    let mut storage = engine(false);
    storage.put(b"c", b"1").unwrap();
    let mut txn = storage.new_txn().unwrap();
    txn.put(b"0", b"first");
    for user in [b"a", b"b", b"c"] {
        txn.delete(user);
    }
    txn.put(b"d", b"last");
    txn.delete(b"e");
    txn.delete(b"f");
    assert_eq!(txn.get(&storage, b"b").unwrap(), None);
    let mut iter = scan(txn, &storage, Bound::Unbounded, Bound::Unbounded);
    assert_eq!(drain(&mut iter), owned(&[("0", "first"), ("d", "last")]));
    let txn = iter.finish();
    let mut iter = scan(txn, &storage, Bound::Included(b"a"), Bound::Included(b"c"));
    assert_eq!(drain(&mut iter), owned(&[]));
}

#[test]
fn a_conflicting_transaction_is_refused() {
    let mut storage = engine(true);
    storage.put(b"k", b"0").unwrap();
    let mut first = storage.new_txn().unwrap();
    let mut second = storage.new_txn().unwrap();
    assert_eq!(first.get(&storage, b"k").unwrap(), Some(b"0".to_vec()));
    assert_eq!(second.get(&storage, b"k").unwrap(), Some(b"0".to_vec()));
    first.put(b"k", b"1");
    second.put(b"x", b"2");
    first.commit(&mut storage).unwrap();
    assert_eq!(second.commit(&mut storage).unwrap_err(), Error::Conflict);
    assert_eq!(storage.get(b"x").unwrap(), None);
    assert_eq!(second.commit(&mut storage).unwrap_err(), Error::AlreadyCommitted);
}

#[test]
fn transactions_on_different_keys_do_not_conflict() {
    let mut storage = engine(true);
    let mut first = storage.new_txn().unwrap();
    let mut second = storage.new_txn().unwrap();
    assert_eq!(first.get(&storage, b"a").unwrap(), None);
    assert_eq!(second.get(&storage, b"b").unwrap(), None);
    first.put(b"a", b"1");
    second.put(b"b", b"2");
    first.commit(&mut storage).unwrap();
    second.commit(&mut storage).unwrap();
    assert_eq!(storage.get(b"b").unwrap(), Some(b"2".to_vec()));
}

#[test]
fn a_transaction_that_wrote_nothing_never_conflicts() {
    let mut storage = engine(true);
    storage.put(b"k", b"0").unwrap();
    let mut reader = storage.new_txn().unwrap();
    assert!(reader.get(&storage, b"k").unwrap().is_some());
    let mut writer = storage.new_txn().unwrap();
    writer.put(b"k", b"1");
    writer.commit(&mut storage).unwrap();
    reader.commit(&mut storage).unwrap();
}

#[test]
fn a_scan_counts_as_reading_the_keys_it_showed() {
    let mut storage = engine(true);
    storage.put(b"a", b"1").unwrap();
    storage.put(b"b", b"2").unwrap();
    let txn = storage.new_txn().unwrap();
    let mut iter = scan(txn, &storage, Bound::Unbounded, Bound::Unbounded);
    drain(&mut iter);
    let mut txn = iter.finish();
    let mut other = storage.new_txn().unwrap();
    other.put(b"b", b"3");
    other.commit(&mut storage).unwrap();
    txn.put(b"c", b"4");
    assert_eq!(txn.commit(&mut storage).unwrap_err(), Error::Conflict);
}

#[test]
fn keys_that_cannot_be_hashed_are_read_written_and_compared() {
    let odd = [255u8; 8];
    assert!(!is_hashable(&odd));
    assert!(is_hashable(b"ordinary"));
    let mut storage = engine(true);
    let mut reader = storage.new_txn().unwrap();
    assert_eq!(reader.get(&storage, &odd).unwrap(), None);
    reader.put(b"other", b"1");
    let mut writer = storage.new_txn().unwrap();
    writer.put(&odd, b"x");
    writer.commit(&mut storage).unwrap();
    assert_eq!(reader.commit(&mut storage).unwrap_err(), Error::Conflict);
    let txn = storage.new_txn().unwrap();
    let mut iter = scan(txn, &storage, Bound::Unbounded, Bound::Unbounded);
    assert!(iter.is_valid());
    assert_eq!(iter.key().key_ref(), &odd);
    iter.next().unwrap();
    assert!(!iter.is_valid());
    storage.force_freeze_memtable();
    storage.force_flush_next_imm_memtable().unwrap();
    assert_eq!(storage.get(&odd).unwrap(), Some(b"x".to_vec()));
}

#[test]
fn the_write_set_is_made_of_hashes() {
    let mut storage = engine(true);
    let mut txn = storage.new_txn().unwrap();
    txn.put(b"k", b"1");
    txn.commit(&mut storage).unwrap();
    let mut hashes = KeySet::new();
    hashes.insert(farmhash::hash32(b"k"));
    assert!(storage.mvcc().has_conflict(0, &hashes));
    assert!(!storage.mvcc().has_conflict(1, &hashes));
    let mut others = KeySet::new();
    others.insert(farmhash::hash32(b"other"));
    assert!(!storage.mvcc().has_conflict(0, &others));
}

#[test]
fn sets_of_hashes() {
    let mut a = KeySet::new();
    assert!(a.is_empty());
    a.insert(1);
    a.insert(2);
    a.insert(1);
    let b = a.copied();
    assert!(b.contains(1) && b.contains(2) && !b.contains(3));
    assert!(!a.is_disjoint(&b));
    let mut c = KeySet::new();
    c.insert(3);
    assert!(a.is_disjoint(&c));
    assert!(c.is_disjoint(&KeySet::new()));
}

#[test]
fn the_watermark_is_the_smallest_timestamp_with_a_reader() {
    let mut w = Watermark::new();
    assert_eq!(w.watermark(), None);
    w.add_reader(5);
    w.add_reader(3);
    w.add_reader(3);
    assert_eq!(w.watermark(), Some(3));
    assert_eq!(w.num_retained_snapshots(), 2);
    assert_eq!(w.num_readers(3), 2);
    w.remove_reader(3);
    assert_eq!(w.watermark(), Some(3));
    w.remove_reader(3);
    assert_eq!(w.watermark(), Some(5));
    w.remove_reader(5);
    assert_eq!(w.watermark(), None);
}

#[test]
fn a_new_reader_leaves_the_watermark_and_a_commit_moves_it_without_readers() {
    let mut mvcc = LsmMvccInner::new(7);
    assert_eq!(mvcc.watermark(), 7);
    let ts = mvcc.add_reader().unwrap();
    assert_eq!(ts, 7);
    mvcc.update_commit_ts(9);
    assert_eq!(mvcc.watermark(), 7);
    mvcc.remove_reader(7);
    assert_eq!(mvcc.watermark(), 9);
    let mut key_hashes = KeySet::new();
    key_hashes.insert(11);
    mvcc.remember(CommittedTxnData { key_hashes, read_ts: 7, commit_ts: 9 });
    let mut reads = KeySet::new();
    reads.insert(11);
    assert!(mvcc.has_conflict(8, &reads));
    assert!(!mvcc.has_conflict(9, &reads));
}

#[test]
fn a_fused_iterator_may_be_moved_past_its_end() {
    let mut storage = engine(true);
    storage.put(b"a", b"1").unwrap();
    let txn = storage.new_txn().unwrap();
    let iter = scan(txn, &storage, Bound::Unbounded, Bound::Unbounded);
    let active = iter.num_active_iterators();
    let mut fused = FusedIterator::new(iter);
    assert!(fused.is_valid());
    assert_eq!(fused.key().key_ref(), b"a");
    assert_eq!(fused.num_active_iterators(), active);
    for _ in 0..3 {
        fused.next().unwrap();
        assert!(!fused.is_valid());
    }
}
