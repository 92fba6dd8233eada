use std::sync::Arc;

use mini_lsm::builder::BlockBuilder;
use mini_lsm::iterator::BlockIterator;
use mini_lsm::key::{key_bytes_eq, key_bytes_lt, KeyVec};

fn key(bytes: &[u8]) -> KeyVec {
    KeyVec::from_vec(bytes.to_vec())
}

#[test]
fn key_order_is_lexicographic() {
    assert!(key_bytes_lt(b"a", b"b"));
    assert!(!key_bytes_lt(b"b", b"a"));
    assert!(key_bytes_lt(b"a", b"ab"));
    assert!(!key_bytes_lt(b"ab", b"a"));
    assert!(!key_bytes_lt(b"abc", b"abc"));
    assert!(key_bytes_lt(b"", b"a"));
    assert!(key_bytes_eq(b"abc", b"abc"));
    assert!(!key_bytes_eq(b"abc", b"abd"));
    assert!(!key_bytes_eq(b"ab", b"abc"));
    let a = key(b"abc");
    let b = key(b"abd");
    assert!(a.is_lt(&b));
    assert!(!b.is_lt(&a));
    assert!(a.is_eq(&a.duplicate()));
    assert!(!a.is_eq(&b));
}

#[test]
fn key_vec_basics() {
    let mut k = KeyVec::new();
    assert!(k.is_empty());
    assert_eq!(k.len(), 0);
    k.append(b"ab");
    k.append(b"c");
    assert_eq!(k.len(), 3);
    assert_eq!(k.raw_ref().as_slice(), b"abc");
}

#[test]
fn builder_starts_empty() {
    let builder = BlockBuilder::new(4096);
    assert!(builder.is_empty());
    // offsets are empty and only the trailing entry count is reserved
    assert_eq!(builder.current_size(), 2);
}

#[test]
fn additional_size_counts_all_fields() {
    // 2 (key len) + 3 (key) + 2 (value len) + 5 (value) + 2 (offset slot)
    let k = key(b"abc");
    assert_eq!(BlockBuilder::additional_size_of_write(&k, b"hello"), 14);
}

#[test]
fn block_round_trip_reproduces_entries() {
    let mut builder = BlockBuilder::new(4096);
    let entries: Vec<(&[u8], &[u8])> =
        vec![(b"a", b"1"), (b"b", b"22"), (b"c", b"333"), (b"dd", b"")];
    for (k, v) in &entries {
        assert!(builder.add(&key(k), v));
    }
    let block = builder.build();
    assert_eq!(block.num_of_elements(), 4);
    let block = Arc::new(block);
    let mut iter = BlockIterator::create_and_seek_to_first(block);
    for (k, v) in &entries {
        assert!(iter.is_valid());
        assert_eq!(iter.key().raw_ref().as_slice(), *k);
        assert_eq!(iter.value(), *v);
        iter.next();
    }
    assert!(!iter.is_valid());
    // advancing an exhausted cursor changes nothing
    iter.next();
    assert!(!iter.is_valid());
}

#[test]
fn decode_helpers_read_single_entries() {
    let mut builder = BlockBuilder::new(4096);
    assert!(builder.add(&key(b"apple"), b"red"));
    assert!(builder.add(&key(b"pear"), b"green"));
    let block = builder.build();
    assert_eq!(
        BlockIterator::get_key_at_idx(&block, 0).raw_ref().as_slice(),
        b"apple"
    );
    assert_eq!(
        BlockIterator::get_key_at_idx(&block, 1).raw_ref().as_slice(),
        b"pear"
    );
    // entry 0: key_len(2) + "apple"(5) + value_len(2) then "red"(3)
    assert_eq!(BlockIterator::get_data_value_range_at_idx(&block, 0), (9, 12));
    // entry 1 starts at 12: key_len(2) + "pear"(4) + value_len(2) then "green"(5)
    assert_eq!(
        BlockIterator::get_data_value_range_at_idx(&block, 1),
        (20, 25)
    );
}

#[test]
fn size_budget_is_respected_after_first_entry() {
    // each ("x", "") entry adds 2 + 1 + 2 + 0 + 2 = 7 bytes
    let mut builder = BlockBuilder::new(16);
    assert!(builder.add(&key(b"a"), b""));
    assert_eq!(builder.current_size(), 9);
    assert!(builder.add(&key(b"b"), b""));
    assert_eq!(builder.current_size(), 16);
    assert!(!builder.add(&key(b"c"), b""));
    assert_eq!(builder.current_size(), 16);
    let block = builder.build();
    assert_eq!(block.num_of_elements(), 2);
}

#[test]
fn oversized_first_entry_is_always_accepted() {
    let mut builder = BlockBuilder::new(4);
    assert!(builder.add(&key(b"very-long-key"), b"very-long-value"));
    assert!(builder.current_size() > 4);
    assert!(!builder.add(&key(b"z"), b""));
    let block = builder.build();
    assert_eq!(block.num_of_elements(), 1);
}

#[test]
fn seek_to_key_lands_on_smallest_at_least() {
    let mut builder = BlockBuilder::new(4096);
    assert!(builder.add(&key(b"b"), b"2"));
    assert!(builder.add(&key(b"d"), b"4"));
    assert!(builder.add(&key(b"f"), b"6"));
    let block = Arc::new(builder.build());

    let cases: Vec<(&[u8], Option<(&[u8], &[u8])>)> = vec![
        (b"a", Some((b"b", b"2"))),
        (b"b", Some((b"b", b"2"))),
        (b"c", Some((b"d", b"4"))),
        (b"d", Some((b"d", b"4"))),
        (b"e", Some((b"f", b"6"))),
        (b"f", Some((b"f", b"6"))),
        (b"g", None),
    ];
    for (target, expected) in cases {
        let iter = BlockIterator::create_and_seek_to_key(Arc::clone(&block), &key(target));
        match expected {
            Some((k, v)) => {
                assert!(iter.is_valid());
                assert_eq!(iter.key().raw_ref().as_slice(), k);
                assert_eq!(iter.value(), v);
            }
            None => assert!(!iter.is_valid()),
        }
    }
}

#[test]
fn seek_then_scan_sees_the_tail_in_order() {
    let mut builder = BlockBuilder::new(4096);
    assert!(builder.add(&key(b"alpha"), b"1"));
    assert!(builder.add(&key(b"beta"), b"2"));
    assert!(builder.add(&key(b"gamma"), b"3"));
    let block = Arc::new(builder.build());
    let mut iter = BlockIterator::create_and_seek_to_first(block);
    iter.seek_to_key(&key(b"b"));
    let mut seen: Vec<Vec<u8>> = Vec::new();
    while iter.is_valid() {
        seen.push(iter.key().raw_ref().clone());
        iter.next();
    }
    assert_eq!(seen, vec![b"beta".to_vec(), b"gamma".to_vec()]);
    // seeking again from the same cursor restarts from the front
    iter.seek_to_key(&key(b"a"));
    assert!(iter.is_valid());
    assert_eq!(iter.key().raw_ref().as_slice(), b"alpha");
}
