use std::sync::Arc;

use mini_lsm::block::builder::BlockBuilder;
use mini_lsm::block::iterator::BlockIterator;
use mini_lsm::block::Block;
use mini_lsm::error::Error;
use mini_lsm::key::{KeySlice, KeyVec};
use mini_lsm::order::{bytes_equal, bytes_less};

fn key(user: &str, ts: u64) -> KeySlice<'_> {
    KeySlice::from_slice(user.as_bytes(), ts)
}

fn small_block() -> Block {
    let mut builder = BlockBuilder::new(4096);
    assert!(builder.is_empty());
    assert!(builder.add(key("apple", 2), b"red"));
    assert!(builder.add(key("apple", 1), b""));
    assert!(builder.add(key("apply", 7), b"now"));
    assert!(!builder.is_empty());
    builder.build()
}

#[test]
fn a_block_is_written_as_entries_offsets_and_their_number() {
    let mut builder = BlockBuilder::new(4096);
    assert!(builder.add(key("ab", 1), b"x"));
    assert!(builder.add(key("ac", 2), b"yz"));
    assert_eq!(builder.first_key().key, b"ab".to_vec());
    assert_eq!(builder.last_key().key, b"ac".to_vec());
    assert_eq!(builder.last_key().ts, 2);
    let image = builder.build().encode();
    let expected: Vec<u8> = vec![
        0, 0, 0, 10, b'a', b'b', 0, 0, 0, 0, 0, 0, 0, 1, 0, 1, b'x', // first entry
        0, 1, 0, 9, b'c', 0, 0, 0, 0, 0, 0, 0, 2, 0, 2, b'y', b'z', // shares one byte
        0, 0, 0, 17, // offsets
        0, 2, // their number
    ];
    assert_eq!(image, expected);
}

#[test]
fn a_written_block_is_read_back() {
    let block = small_block();
    let image = block.encode();
    let again = Block::decode(&image);
    assert_eq!(again.encode(), image);
}

#[test]
fn the_iterator_walks_a_block_in_order() {
    let image = small_block().encode();
    let block = Arc::new(Block::decode(&image).expand().unwrap());
    let mut iter = BlockIterator::create_and_seek_to_first(block);
    let mut seen = Vec::new();
    while iter.is_valid() {
        seen.push((iter.key().key_ref().to_vec(), iter.key().ts(), iter.value().to_vec()));
        iter.next();
    }
    assert_eq!(
        seen,
        vec![
            (b"apple".to_vec(), 2, b"red".to_vec()),
            (b"apple".to_vec(), 1, b"".to_vec()),
            (b"apply".to_vec(), 7, b"now".to_vec()),
        ]
    );
}

#[test]
fn seeking_in_a_block_finds_the_first_key_that_is_not_smaller() {
    let block = Arc::new(small_block().expand().unwrap());
    let iter = BlockIterator::create_and_seek_to_key(block.clone(), key("apple", 1));
    assert_eq!(iter.key().ts(), 1);
    let iter = BlockIterator::create_and_seek_to_key(block.clone(), key("applf", 0));
    assert_eq!(iter.key().key_ref(), b"apply");
    let iter = BlockIterator::create_and_seek_to_key(block.clone(), key("zebra", 0));
    assert!(!iter.is_valid());
    let mut iter = BlockIterator::new(block);
    assert!(!iter.is_valid());
    iter.seek_to_key(key("a", 0));
    assert_eq!(iter.key().key_ref(), b"apple");
    assert_eq!(iter.key().ts(), 2);
}

#[test]
fn a_built_block_expands_to_what_was_added() {
    let items: Vec<(String, u64, String)> =
        (0..40).map(|i| (format!("key{:03}", i / 2), 9 - i % 2, format!("value{}", i))).collect();
    let mut builder = BlockBuilder::new(4096);
    assert!(builder.first_key().key.is_empty());
    assert!(builder.last_key().key.is_empty());
    for (user, ts, value) in &items {
        assert!(builder.add(key(user, *ts), value.as_bytes()));
    }
    assert_eq!(builder.first_key().key, b"key000".to_vec());
    assert_eq!(builder.last_key().key, b"key019".to_vec());
    let plain = builder.build().expand().unwrap();
    let mut iter = BlockIterator::create_and_seek_to_first(Arc::new(plain));
    for (user, ts, value) in &items {
        assert!(iter.is_valid());
        assert_eq!(iter.key().key_ref(), user.as_bytes());
        assert_eq!(iter.key().ts(), *ts);
        assert_eq!(iter.value(), value.as_bytes());
        iter.next();
    }
    assert!(!iter.is_valid());
}

#[test]
fn a_full_block_takes_its_first_entry_only() {
    let mut builder = BlockBuilder::new(16);
    assert!(builder.add(key("first", 0), b"a value that is longer than the block"));
    assert!(!builder.add(key("second", 0), b"x"));
    let block = builder.build().expand().unwrap();
    let mut iter = BlockIterator::create_and_seek_to_first(Arc::new(block));
    assert!(iter.is_valid());
    iter.next();
    assert!(!iter.is_valid());
}

#[test]
fn a_broken_block_cannot_be_expanded() {
    // one entry that claims a longer key than there is
    let image: Vec<u8> = vec![0, 0, 0, 200, 1, 2, 3, 0, 0, 0, 1];
    assert_eq!(Block::decode(&image).expand().err(), Some(Error::CorruptBlock));
}

#[test]
fn an_empty_block_expands_to_an_empty_block() {
    let image: Vec<u8> = vec![0, 0];
    let block = Block::decode(&image).expand().unwrap();
    assert_eq!(block.encode(), vec![0, 0]);
}

#[test]
fn keys_are_ordered_by_user_key_and_then_from_new_to_old() {
    assert!(key("a", 1).less(&key("b", 9)));
    assert!(key("a", 9).less(&key("a", 1)));
    assert!(!key("a", 1).less(&key("a", 9)));
    assert!(key("a", 5).equal(&key("a", 5)));
    assert!(bytes_less(b"ab", b"abc"));
    assert!(!bytes_less(b"b", b"ab"));
    assert!(bytes_equal(b"xyz", b"xyz"));
}

#[test]
fn a_raw_key_is_the_user_key_and_the_timestamp() {
    let raw = key("k", 258).to_raw();
    assert_eq!(raw, vec![b'k', 0, 0, 0, 0, 0, 0, 1, 2]);
    let back = KeySlice::from_raw(&raw);
    assert_eq!(back.key_ref(), b"k");
    assert_eq!(back.ts(), 258);
    let short = KeySlice::from_raw(b"abc");
    assert!(short.is_empty());
    let owned = KeyVec::from_vec_with_ts(b"k".to_vec(), 258);
    assert!(owned.as_key_slice().equal(&back));
}
