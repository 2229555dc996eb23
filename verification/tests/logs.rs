use std::ops::Bound;

use mini_lsm::error::Error;
use mini_lsm::iterators::StorageIterator;
use mini_lsm::key::KeySlice;
use mini_lsm::manifest::Manifest;
use mini_lsm::mem_table::MemTable;
use mini_lsm::table::builder::SsTableBuilder;
use mini_lsm::version_map::VersionMap;
use mini_lsm::wal::Wal;

fn key(user: &str, ts: u64) -> KeySlice<'_> {
    KeySlice::from_slice(user.as_bytes(), ts)
}

#[test]
fn the_checksum_is_crc32() {
    assert_eq!(Wal::checksum(b"123456789"), 0xcbf43926);
    assert_eq!(Wal::checksum(b""), 0);
}

#[test]
fn a_log_record_has_a_length_a_body_and_a_checksum() {
    let mut wal = Wal::create();
    wal.put(key("k", 3), b"vw").unwrap();
    let bytes = wal.sync();
    let body: Vec<u8> = vec![0, 1, b'k', 0, 0, 0, 0, 0, 0, 0, 3, 0, 2, b'v', b'w'];
    let mut expected: Vec<u8> = vec![0, 0, 0, 15];
    expected.extend_from_slice(&body);
    expected.extend_from_slice(&crc32fast::hash(&body).to_be_bytes());
    assert_eq!(bytes, expected);
    assert!(wal.sync().is_empty());
}

fn sample_log() -> Vec<u8> {
    let mut wal = Wal::create();
    wal.put_batch(&[(key("a", 1), b"1".as_slice()), (key("b", 1), b"2".as_slice())]).unwrap();
    wal.put(key("a", 2), b"").unwrap();
    wal.sync()
}

#[test]
fn a_log_that_was_written_is_recovered() {
    let log = sample_log();
    let mut map = VersionMap::new();
    let mut wal = Wal::recover(&log, &mut map).unwrap();
    assert!(wal.sync().is_empty());
    assert_eq!(map.get(key("a", 1)), Some(b"1".to_vec()));
    assert_eq!(map.get(key("a", 2)), Some(b"".to_vec()));
    assert_eq!(map.get(key("b", 1)), Some(b"2".to_vec()));
    assert_eq!(map.get(key("b", 2)), None);
    assert!(!map.is_empty());
}

#[test]
fn an_empty_log_is_recovered_as_nothing() {
    let mut map = VersionMap::new();
    Wal::recover(&[], &mut map).unwrap();
    assert!(map.is_empty());
}

fn recover_error(log: &[u8]) -> Error {
    let mut map = VersionMap::new();
    match Wal::recover(log, &mut map) {
        Ok(_) => panic!("the log should not be readable"),
        Err(e) => e,
    }
}

#[test]
fn a_damaged_log_is_refused() {
    let log = sample_log();
    assert_eq!(recover_error(&log[..log.len() - 1]), Error::TruncatedChecksum);
    assert_eq!(recover_error(&log[..log.len() - 5]), Error::TruncatedBody);
    assert_eq!(recover_error(&[0, 0]), Error::TruncatedLength);
    let mut wrong = log.clone();
    wrong[7] ^= 1;
    assert_eq!(recover_error(&wrong), Error::ChecksumMismatch);
    // a body of one byte is not a whole entry
    assert_eq!(recover_error(&[0, 0, 0, 1, 9, 0, 0, 0, 0]), Error::MalformedBody);
}

#[test]
fn records_before_the_damage_are_recovered() {
    let log = sample_log();
    let mut map = VersionMap::new();
    let r = Wal::recover(&log[..log.len() - 1], &mut map);
    assert!(r.is_err());
    assert_eq!(map.get(key("a", 1)), Some(b"1".to_vec()));
    assert_eq!(map.get(key("a", 2)), None);
}

#[test]
fn manifest_records_are_framed_and_read_back() {
    let mut manifest = Manifest::create();
    manifest.add_record(b"{\"Flush\":1}").unwrap();
    manifest.add_record_when_init(b"{}").unwrap();
    let bytes = manifest.sync();
    let mut expected: Vec<u8> = vec![0, 0, 0, 11];
    expected.extend_from_slice(b"{\"Flush\":1}");
    expected.extend_from_slice(&crc32fast::hash(b"{\"Flush\":1}").to_be_bytes());
    assert_eq!(&bytes[..19], expected.as_slice());
    let (_, records) = Manifest::recover(&bytes).unwrap();
    assert_eq!(records, vec![b"{\"Flush\":1}".to_vec(), b"{}".to_vec()]);
}

fn manifest_error(bytes: &[u8]) -> Error {
    match Manifest::recover(bytes) {
        Ok(_) => panic!("the manifest should not be readable"),
        Err(e) => e,
    }
}

#[test]
fn a_damaged_manifest_is_refused() {
    let mut manifest = Manifest::create();
    manifest.add_record(b"record").unwrap();
    let bytes = manifest.sync();
    assert_eq!(manifest_error(&bytes[..bytes.len() - 1]), Error::TruncatedChecksum);
    assert_eq!(manifest_error(&bytes[..6]), Error::TruncatedBody);
    let mut wrong = bytes.clone();
    wrong[4] ^= 1;
    assert_eq!(manifest_error(&wrong), Error::ChecksumMismatch);
    // less than a whole length is the end
    let (_, records) = Manifest::recover(&bytes[..3]).unwrap();
    assert!(records.is_empty());
}

#[test]
fn a_memtable_keeps_all_versions_in_order() {
    let mut table = MemTable::create(5);
    assert_eq!(table.id(), 5);
    assert!(table.is_empty());
    table.put(key("b", 1), b"one").unwrap();
    table.put(key("a", 1), b"x").unwrap();
    table.put(key("b", 2), b"two").unwrap();
    table.put(key("b", 2), b"TWO").unwrap();
    assert_eq!(table.get(key("b", 1)), Some(b"one".to_vec()));
    assert_eq!(table.get(key("b", 2)), Some(b"TWO".to_vec()));
    assert_eq!(table.get(key("c", 2)), None);
    assert_eq!(table.get_version(b"b", 1), Some(b"one".to_vec()));
    assert_eq!(table.get_version(b"b", 9), Some(b"TWO".to_vec()));
    assert_eq!(table.get_version(b"b", 0), None);
    // key and value lengths are counted for each write
    assert_eq!(table.approximate_size(), (1 + 3) + (1 + 1) + (1 + 3) + (1 + 3));
    let mut iter = table.scan(Bound::Unbounded, Bound::Unbounded);
    let mut seen = Vec::new();
    while iter.is_valid() {
        seen.push((iter.key().key_ref().to_vec(), iter.key().ts()));
        iter.next().unwrap();
    }
    assert_eq!(seen, vec![(b"a".to_vec(), 1), (b"b".to_vec(), 2), (b"b".to_vec(), 1)]);
}

#[test]
fn a_memtable_scan_respects_its_bounds() {
    let mut table = MemTable::create(0);
    for k in ["a", "b", "c", "d"] {
        table.for_testing_put_slice(k.as_bytes(), k.as_bytes()).unwrap();
    }
    assert_eq!(table.for_testing_get_slice(b"c"), Some(b"c".to_vec()));
    let mut iter = table.for_testing_scan_slice(
        Bound::Excluded(b"a".as_slice()),
        Bound::Included(b"c".as_slice()),
    );
    let mut seen = Vec::new();
    while iter.is_valid() {
        seen.push(iter.value().to_vec());
        iter.next().unwrap();
    }
    assert_eq!(seen, vec![b"b".to_vec(), b"c".to_vec()]);
    let iter = table.for_testing_scan_slice(
        Bound::Included(b"d".as_slice()),
        Bound::Excluded(b"b".as_slice()),
    );
    assert!(!iter.is_valid());
}

#[test]
fn a_memtable_is_recovered_from_its_log() {
    let mut table = MemTable::create_with_wal(3);
    table.put(key("a", 1), b"1").unwrap();
    table.put_batch(&[(key("b", 2), b"2".as_slice()), (key("c", 2), b"3".as_slice())]).unwrap();
    let log = table.sync_wal().unwrap();
    let again = MemTable::recover_from_wal(3, &log).unwrap();
    assert_eq!(again.id(), 3);
    assert_eq!(again.get(key("b", 2)), Some(b"2".to_vec()));
    assert_eq!(again.get(key("a", 1)), Some(b"1".to_vec()));
    assert_eq!(again.approximate_size(), 6);
    assert!(MemTable::create(1).sync_wal().is_none());
}

#[test]
fn a_memtable_is_flushed_to_a_table() {
    let mut table = MemTable::create(9);
    table.put(key("a", 1), b"1").unwrap();
    table.put(key("b", 1), b"").unwrap();
    let sst = table.flush(SsTableBuilder::new(128)).unwrap();
    assert_eq!(sst.sst_id(), 9);
    assert_eq!(sst.first_key().key, b"a".to_vec());
    assert_eq!(sst.last_key().key, b"b".to_vec());
}

#[test]
fn what_a_table_cannot_hold_is_not_flushed() {
    let mut table = MemTable::create(9);
    let long = vec![7u8; 70000];
    table.put(key("a", 1), &long).unwrap();
    match table.flush(SsTableBuilder::new(128)) {
        Ok(_) => panic!("a value of this length cannot be flushed"),
        Err(e) => assert_eq!(e, Error::EntryTooLarge),
    }
    let mut table = MemTable::create(9);
    table.put(KeySlice::from_slice(&long, 1), b"x").unwrap();
    match table.flush(SsTableBuilder::new(128)) {
        Ok(_) => panic!("a key of this length cannot be flushed"),
        Err(e) => assert_eq!(e, Error::EntryTooLarge),
    }
}

#[test]
fn keys_that_are_empty_or_cannot_be_hashed_are_flushed_like_others() {
    let mut table = MemTable::create(9);
    let odd = [255u8; 8];
    table.put(key("", 1), b"1").unwrap();
    table.put(KeySlice::from_slice(&odd, 1), b"x").unwrap();
    let sst = table.flush(SsTableBuilder::new(128)).unwrap();
    assert_eq!(sst.first_key().key, b"".to_vec());
    assert_eq!(sst.last_key().key, odd.to_vec());
}
