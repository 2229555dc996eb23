use std::ops::Bound;
use std::sync::Arc;

use mini_lsm::common::overlapping_sst_range;
use mini_lsm::error::Error;
use mini_lsm::iterators::concat_iterator::SstConcatIterator;
use mini_lsm::iterators::merge_iterator::MergeIterator;
use mini_lsm::iterators::two_merge_iterator::TwoMergeIterator;
use mini_lsm::iterators::StorageIterator;
use mini_lsm::key::KeySlice;
use mini_lsm::lsm_iterator::FusedIterator;
use mini_lsm::table::bloom::{Bloom, BLOOM_BITS_PER_KEY};
use mini_lsm::table::builder::SsTableBuilder;
use mini_lsm::table::iterator::SsTableIterator;
use mini_lsm::table::SsTable;

fn key(user: &str, ts: u64) -> KeySlice<'_> {
    KeySlice::from_slice(user.as_bytes(), ts)
}

fn table(id: usize, block_size: usize, items: &[(&str, u64, &str)]) -> Arc<SsTable> {
    let mut builder = SsTableBuilder::new(block_size);
    for (user, ts, value) in items {
        builder.add(key(user, *ts), value.as_bytes());
    }
    Arc::new(builder.build(id).unwrap())
}

fn drain<I: StorageIterator>(iter: &mut I) -> Vec<(String, u64, String)> {
    let mut out = Vec::new();
    while iter.is_valid() {
        out.push((
            String::from_utf8(iter.key().key_ref().to_vec()).unwrap(),
            iter.key().ts(),
            String::from_utf8(iter.value().to_vec()).unwrap(),
        ));
        iter.next().unwrap();
    }
    out
}

fn owned(items: &[(&str, u64, &str)]) -> Vec<(String, u64, String)> {
    items.iter().map(|(k, t, v)| (k.to_string(), *t, v.to_string())).collect()
}

const FRUIT: [(&str, u64, &str); 5] = [
    ("apple", 3, "green"),
    ("apple", 1, "red"),
    ("cherry", 2, "dark"),
    ("grape", 4, ""),
    ("melon", 1, "big"),
];

fn number(bytes: &[u8]) -> usize {
    bytes.iter().fold(0, |n, b| n * 256 + *b as usize)
}

fn take<'a>(bytes: &mut &'a [u8], n: usize) -> &'a [u8] {
    let (head, tail) = bytes.split_at(n);
    *bytes = tail;
    head
}

#[test]
fn the_metadata_of_the_blocks_ascend() {
    let t = table(0, 32, &FRUIT);
    let file = t.content();
    let filter = number(&file[file.len() - 4..]);
    let start = number(&file[filter - 4..filter]);
    let mut rest = &file[start..filter - 4];
    let count = number(take(&mut rest, 4));
    assert!(count > 2);
    assert_eq!(count, t.num_of_blocks());
    let mut metas: Vec<(usize, KeySlice, KeySlice)> = Vec::new();
    for _ in 0..count {
        let offset = number(take(&mut rest, 4));
        let len = number(take(&mut rest, 2));
        let first = KeySlice::from_raw(take(&mut rest, len));
        let len = number(take(&mut rest, 2));
        let last = KeySlice::from_raw(take(&mut rest, len));
        metas.push((offset, first, last));
    }
    assert!(rest.is_empty());
    assert_eq!((metas[0].0, metas[0].1.key_ref()), (0, b"apple".as_slice()));
    for (_, first, last) in &metas {
        assert!(!last.less(first));
    }
    for pair in metas.windows(2) {
        assert!(pair[0].0 < pair[1].0);
        assert!(pair[0].2.less(&pair[1].1));
    }
    assert_eq!(metas[count - 1].2.key_ref(), b"melon");
}

#[test]
fn a_table_yields_what_was_added() {
    for block_size in [1usize, 32, 64, 4096] {
        let t = table(7, block_size, &FRUIT);
        assert_eq!(t.sst_id(), 7);
        assert_eq!(t.first_key().key, b"apple".to_vec());
        assert_eq!(t.first_key().ts, 3);
        assert_eq!(t.last_key().key, b"melon".to_vec());
        let mut iter = SsTableIterator::create_and_seek_to_first(t).unwrap();
        assert_eq!(drain(&mut iter), owned(&FRUIT));
    }
}

#[test]
fn small_blocks_make_many_blocks() {
    let t = table(1, 1, &FRUIT);
    assert_eq!(t.num_of_blocks(), 5);
    let t = table(1, 4096, &FRUIT);
    assert_eq!(t.num_of_blocks(), 1);
}

#[test]
fn a_table_file_ends_with_its_offsets() {
    let t = table(1, 4096, &[("a", 1, "b")]);
    let file = t.content();
    // block: entry of 4 + 9 + 2 + 1 bytes, one offset, their number
    let block: Vec<u8> = vec![
        0, 0, 0, 9, b'a', 0, 0, 0, 0, 0, 0, 0, 1, 0, 1, b'b', 0, 0, 0, 1,
    ];
    assert_eq!(&file[0..20], block.as_slice());
    // metadata: number of blocks, offset, first and last key
    let mut meta: Vec<u8> = vec![0, 0, 0, 1, 0, 0, 0, 0];
    for _ in 0..2 {
        meta.extend_from_slice(&[0, 9, b'a', 0, 0, 0, 0, 0, 0, 0, 1]);
    }
    meta.extend_from_slice(&[0, 0, 0, 20]);
    assert_eq!(&file[20..54], meta.as_slice());
    assert_eq!(&file[file.len() - 4..], &[0, 0, 0, 54]);
    assert_eq!(t.table_size(), file.len() as u64);
    // one key gives a filter of the smallest size: eight bytes and the number of probes
    assert_eq!(file.len(), 54 + 9 + 4);
}

#[test]
fn seeking_in_a_table_finds_the_first_key_that_is_not_smaller() {
    for block_size in [1usize, 40, 4096] {
        let t = table(1, block_size, &FRUIT);
        let iter = SsTableIterator::create_and_seek_to_key(t.clone(), key("apple", 2)).unwrap();
        assert_eq!(iter.key().ts(), 1);
        let iter = SsTableIterator::create_and_seek_to_key(t.clone(), key("banana", 0)).unwrap();
        assert_eq!(iter.key().key_ref(), b"cherry");
        let iter = SsTableIterator::create_and_seek_to_key(t.clone(), key("zebra", 0)).unwrap();
        assert!(!iter.is_valid());
        let mut iter = SsTableIterator::create_and_seek_to_first(t).unwrap();
        iter.seek_to_key(key("grape", 9)).unwrap();
        assert_eq!(iter.key().key_ref(), b"grape");
        iter.seek_to_first().unwrap();
        assert_eq!(iter.key().key_ref(), b"apple");
    }
}

#[test]
fn a_table_without_entries_cannot_be_iterated() {
    let t = Arc::new(SsTableBuilder::new(64).build(1).unwrap());
    match SsTableIterator::create_and_seek_to_first(t) {
        Ok(_) => panic!("an empty table has no first entry"),
        Err(e) => assert_eq!(e, Error::EmptyTable),
    }
}

#[test]
fn the_filter_passes_every_key_of_the_table() {
    let hashes: Vec<u32> = (0..100u32).map(|i| i.wrapping_mul(2654435761)).collect();
    let bloom = Bloom::build_from_key_hashes(&hashes, BLOOM_BITS_PER_KEY);
    for h in &hashes {
        assert!(bloom.may_contain(*h));
    }
    let others = (0..1000u32).map(|i| i.wrapping_mul(40503).wrapping_add(77));
    let passed = others.filter(|h| bloom.may_contain(*h)).count();
    assert!(passed < 200);
}

#[test]
fn the_filter_of_a_table_is_made_of_fingerprints() {
    let t = table(1, 4096, &[("apple", 1, "x"), ("melon", 1, "y")]);
    let bloom = t.bloom().as_ref().unwrap();
    assert!(bloom.may_contain(farmhash::fingerprint32(b"apple")));
    assert!(bloom.may_contain(farmhash::fingerprint32(b"melon")));
    let mut expected = Vec::new();
    Bloom::build_from_key_hashes(
        &[farmhash::fingerprint32(b"apple"), farmhash::fingerprint32(b"melon")],
        BLOOM_BITS_PER_KEY,
    )
    .encode(&mut expected);
    let mut actual = Vec::new();
    bloom.encode(&mut actual);
    assert_eq!(actual, expected);
}

#[test]
fn a_merge_prefers_the_first_iterator() {
    let a = table(1, 64, &[("a", 1, "new"), ("c", 1, "c")]);
    let b = table(2, 64, &[("a", 1, "old"), ("b", 1, "b")]);
    let ia = SsTableIterator::create_and_seek_to_first(a.clone()).unwrap();
    let ib = SsTableIterator::create_and_seek_to_first(b.clone()).unwrap();
    let mut two = TwoMergeIterator::create(ia, ib).unwrap();
    assert_eq!(two.num_active_iterators(), 2);
    let expected = owned(&[("a", 1, "new"), ("b", 1, "b"), ("c", 1, "c")]);
    assert_eq!(drain(&mut two), expected);
    let ia = SsTableIterator::create_and_seek_to_first(a).unwrap();
    let ib = SsTableIterator::create_and_seek_to_first(b).unwrap();
    let mut many = MergeIterator::create(vec![ia, ib]);
    assert_eq!(drain(&mut many), expected);
}

#[test]
fn a_merge_of_nothing_is_not_valid() {
    let none: Vec<SsTableIterator> = Vec::new();
    let mut iter = MergeIterator::create(none);
    assert!(!iter.is_valid());
    assert_eq!(iter.num_active_iterators(), 0);
    assert_eq!(drain(&mut iter), owned(&[]));
}

#[test]
fn tables_that_follow_each_other_are_one_run() {
    let tables = vec![
        table(1, 64, &[("a", 1, "1"), ("b", 1, "2")]),
        table(2, 64, &[("d", 2, "3")]),
        table(3, 64, &[("f", 5, "4"), ("g", 5, "5")]),
    ];
    let mut iter = SstConcatIterator::create_and_seek_to_first(tables.clone()).unwrap();
    assert_eq!(
        drain(&mut iter),
        owned(&[("a", 1, "1"), ("b", 1, "2"), ("d", 2, "3"), ("f", 5, "4"), ("g", 5, "5")])
    );
    let mut iter = SstConcatIterator::create_and_seek_to_key(tables.clone(), key("d", 2)).unwrap();
    assert_eq!(drain(&mut iter), owned(&[("d", 2, "3"), ("f", 5, "4"), ("g", 5, "5")]));
    let mut iter = SstConcatIterator::create_and_seek_to_key(tables.clone(), key("", 0)).unwrap();
    assert_eq!(drain(&mut iter).len(), 5);
    // behind the end of the table that starts before the key there is nothing to stand on
    let iter = SstConcatIterator::create_and_seek_to_key(tables.clone(), key("c", 0)).unwrap();
    assert!(!iter.is_valid());
    let iter = SstConcatIterator::create_and_seek_to_key(tables.clone(), key("z", 0)).unwrap();
    assert!(!iter.is_valid());
    let iter = SstConcatIterator::create_and_seek_to_key(Vec::new(), key("a", 0)).unwrap();
    assert!(!iter.is_valid());
    let mut iter = SstConcatIterator::create_and_seek_to_first(Vec::new()).unwrap();
    assert!(!iter.is_valid());
    assert_eq!(iter.next().unwrap_err(), Error::InvalidIterator);
}

#[test]
fn tables_outside_a_range_are_left_out() {
    let tables = vec![
        table(1, 64, &[("a", 1, "1"), ("b", 1, "2")]),
        table(2, 64, &[("d", 2, "3")]),
        table(3, 64, &[("f", 5, "4"), ("g", 5, "5")]),
    ];
    let range = overlapping_sst_range(&tables, Bound::Included(b"c".as_slice()), Bound::Unbounded);
    assert_eq!(range, 1..3);
    let range = overlapping_sst_range(
        &tables,
        Bound::Excluded(b"b".as_slice()),
        Bound::Excluded(b"f".as_slice()),
    );
    assert_eq!(range, 1..2);
    let range = overlapping_sst_range(&tables, Bound::Unbounded, Bound::Included(b"a".as_slice()));
    assert_eq!(range, 0..1);
}

#[test]
fn a_fused_iterator_may_be_moved_past_the_end() {
    let t = table(1, 64, &[("a", 1, "1")]);
    let iter = SsTableIterator::create_and_seek_to_first(t).unwrap();
    let mut fused = FusedIterator::new(iter);
    assert!(fused.is_valid());
    fused.next().unwrap();
    assert!(!fused.is_valid());
    fused.next().unwrap();
    assert!(!fused.is_valid());
}

#[test]
fn a_key_is_in_the_block_whose_ends_are_around_it() {
    let t = table(1, 64, &[("b", 2, "1"), ("d", 2, "2")]);
    let iter = SsTableIterator::create_and_seek_to_first(t).unwrap();
    assert_eq!(iter.first_key_at_idx(0).key_ref(), b"b");
    for inside in [key("b", 2), key("b", 1), key("c", 9), key("d", 3), key("d", 2)] {
        assert!(iter.key_in_block(0, inside));
    }
    for outside in [key("a", 2), key("b", 3), key("d", 1), key("e", 2)] {
        assert!(!iter.key_in_block(0, outside));
    }
}
