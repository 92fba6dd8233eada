use std::sync::Arc;

use mini_lsm::builder::BlockBuilder;
use mini_lsm::iterator::BlockIterator;
use mini_lsm::key::KeyVec;
use mini_lsm::merge_iterator::MergeIterator;
use mini_lsm::storage_iterator::StorageIterator;

fn key(bytes: &[u8]) -> KeyVec {
    KeyVec::from_vec(bytes.to_vec())
}

fn block_iter(entries: &[(&[u8], &[u8])]) -> BlockIterator {
    let mut builder = BlockBuilder::new(4096);
    for (k, v) in entries {
        assert!(builder.add(&key(k), v));
    }
    BlockIterator::create_and_seek_to_first(Arc::new(builder.build()))
}

fn drain<I: StorageIterator>(mut merge: MergeIterator<I>) -> Vec<(Vec<u8>, Vec<u8>)> {
    let mut out = Vec::new();
    while merge.is_valid() {
        out.push((merge.key().raw_ref().clone(), merge.value().to_vec()));
        merge.next().unwrap();
    }
    out
}

#[test]
fn merge_example_two_sources() {
    // S0 = [(b,2),(d,4)], S1 = [(a,1),(b,99),(c,3)], S0 has priority 0:
    // b comes from S0, S1's 99 never surfaces.
    let s0 = block_iter(&[(b"b", b"2"), (b"d", b"4")]);
    let s1 = block_iter(&[(b"a", b"1"), (b"b", b"99"), (b"c", b"3")]);
    let merge = MergeIterator::create(vec![Box::new(s0), Box::new(s1)]);
    let out = drain(merge);
    let expected: Vec<(Vec<u8>, Vec<u8>)> = vec![
        (b"a".to_vec(), b"1".to_vec()),
        (b"b".to_vec(), b"2".to_vec()),
        (b"c".to_vec(), b"3".to_vec()),
        (b"d".to_vec(), b"4".to_vec()),
    ];
    assert_eq!(out, expected);
}

#[test]
fn merge_priority_tie_break() {
    let fresh = block_iter(&[(b"k", b"new")]);
    let stale = block_iter(&[(b"k", b"old")]);
    let merge = MergeIterator::create(vec![Box::new(fresh), Box::new(stale)]);
    let out = drain(merge);
    assert_eq!(out, vec![(b"k".to_vec(), b"new".to_vec())]);
}

#[test]
fn merge_emits_every_key_once_in_order() {
    let s0 = block_iter(&[(b"b", b"b0"), (b"e", b"e0"), (b"g", b"g0")]);
    let s1 = block_iter(&[(b"a", b"a1"), (b"b", b"b1"), (b"f", b"f1")]);
    let s2 = block_iter(&[(b"b", b"b2"), (b"f", b"f2"), (b"h", b"h2")]);
    let merge = MergeIterator::create(vec![Box::new(s0), Box::new(s1), Box::new(s2)]);
    let out = drain(merge);
    let expected: Vec<(Vec<u8>, Vec<u8>)> = vec![
        (b"a".to_vec(), b"a1".to_vec()),
        (b"b".to_vec(), b"b0".to_vec()),
        (b"e".to_vec(), b"e0".to_vec()),
        (b"f".to_vec(), b"f1".to_vec()),
        (b"g".to_vec(), b"g0".to_vec()),
        (b"h".to_vec(), b"h2".to_vec()),
    ];
    assert_eq!(out, expected);
}

#[test]
fn merge_of_single_source_is_identity() {
    let s0 = block_iter(&[(b"x", b"1"), (b"y", b"2")]);
    let merge = MergeIterator::create(vec![Box::new(s0)]);
    let out = drain(merge);
    assert_eq!(
        out,
        vec![(b"x".to_vec(), b"1".to_vec()), (b"y".to_vec(), b"2".to_vec())]
    );
}

#[test]
fn merge_of_no_sources_starts_invalid() {
    let merge: MergeIterator<BlockIterator> = MergeIterator::create(vec![]);
    assert!(!merge.is_valid());
}

#[test]
fn merge_discards_exhausted_sources_at_creation() {
    let mut builder = BlockBuilder::new(4096);
    assert!(builder.add(&key(b"a"), b"1"));
    let block = Arc::new(builder.build());
    // a cursor seeked past the last key is exhausted from the start
    let spent = BlockIterator::create_and_seek_to_key(Arc::clone(&block), &key(b"z"));
    assert!(!BlockIterator::is_valid(&spent));
    let live = block_iter(&[(b"m", b"13")]);
    let merge = MergeIterator::create(vec![Box::new(spent), Box::new(live)]);
    let out = drain(merge);
    assert_eq!(out, vec![(b"m".to_vec(), b"13".to_vec())]);
}

#[test]
fn merge_exhaustion_is_terminal() {
    let s0 = block_iter(&[(b"a", b"1")]);
    let s1 = block_iter(&[(b"a", b"2")]);
    let mut merge = MergeIterator::create(vec![Box::new(s0), Box::new(s1)]);
    assert!(merge.is_valid());
    merge.next().unwrap();
    assert!(!merge.is_valid());
    assert!(!merge.is_valid());
    assert!(!merge.is_valid());
}

#[test]
fn merge_through_the_trait_interface() {
    let s0 = block_iter(&[(b"p", b"0")]);
    let s1 = block_iter(&[(b"q", b"1")]);
    let mut merge = MergeIterator::create(vec![Box::new(s0), Box::new(s1)]);
    // MergeIterator offers the same four-operation contract its sources do
    assert!(merge.is_valid());
    assert_eq!(merge.key().raw_ref().as_slice(), b"p");
    assert_eq!(merge.value(), b"0");
    merge.next().unwrap();
    assert_eq!(merge.key().raw_ref().as_slice(), b"q");
    merge.next().unwrap();
    assert!(!merge.is_valid());
}

#[test]
fn merge_iterators_nest() {
    // a merge iterator is itself a sorted source and can be merged again
    let s0 = block_iter(&[(b"a", b"a0"), (b"c", b"c0")]);
    let s1 = block_iter(&[(b"b", b"b1"), (b"c", b"c1")]);
    let inner1 = MergeIterator::create(vec![Box::new(s0), Box::new(s1)]);
    let s2 = block_iter(&[(b"a", b"a2"), (b"d", b"d2")]);
    let inner2 = MergeIterator::create(vec![Box::new(s2)]);
    let outer = MergeIterator::create(vec![Box::new(inner1), Box::new(inner2)]);
    let out = drain(outer);
    let expected: Vec<(Vec<u8>, Vec<u8>)> = vec![
        (b"a".to_vec(), b"a0".to_vec()),
        (b"b".to_vec(), b"b1".to_vec()),
        (b"c".to_vec(), b"c0".to_vec()),
        (b"d".to_vec(), b"d2".to_vec()),
    ];
    assert_eq!(out, expected);
}
