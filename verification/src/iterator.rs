//! A cursor over one immutable block: forward iteration and seek-to-key
//! over its sorted entries. The block itself is shared read-only; the
//! cursor holds the current decoded key and the current value's byte range.

use vstd::prelude::*;

use std::sync::Arc;

use crate::block::{entry_end, val_start, Block, Entry};
use crate::key::{lex_lt, KeyVec};
use crate::storage_iterator::StorageIterator;

verus! {

/// Iterates on a block.
pub struct BlockIterator {
    /// The internal `Block`, wrapped by an `Arc`.
    block: Arc<Block>,
    /// The current key; empty means the iterator is exhausted.
    key: KeyVec,
    /// The current value's byte range inside the block's buffer.
    value_range: (usize, usize),
    /// Index of the current entry.
    idx: usize,
    /// The first key in the block.
    first_key: KeyVec,
}

impl BlockIterator {
    /// The block this cursor walks.
    pub closed spec fn blk(self) -> Block {
        *self.block
    }

    /// The cursor denotes a real position: when the current key is
    /// non-empty it is the key of entry `idx`, and the value range is that
    /// entry's value region.
    pub closed spec fn wf(self) -> bool {
        &&& self.blk().wf()
        &&& self.key@.len() > 0 ==> {
            &&& (self.idx as int) < self.blk().entries().len()
            &&& self.key@ == self.blk().entries()[self.idx as int].0
            &&& self.value_range.0 == val_start(
                self.blk().data@,
                self.blk().offsets@[self.idx as int] as int,
            )
            &&& self.value_range.1 == entry_end(
                self.blk().data@,
                self.blk().offsets@[self.idx as int] as int,
            )
        }
        &&& self.first_key@.len() > 0 ==> self.first_key@ == self.blk().entries()[0].0
    }

    /// The entries still ahead of (and including) the current position.
    pub closed spec fn remaining(self) -> Seq<Entry> {
        if self.key@.len() == 0 {
            Seq::empty()
        } else {
            self.blk().entries().skip(self.idx as int)
        }
    }

    fn new(block: Arc<Block>) -> (r: Self)
        requires
            (*block).wf(),
        ensures
            r.wf(),
            r.blk() == *block,
            r.remaining() == Seq::<Entry>::empty(),
    {
        Self {
            block,
            key: KeyVec::new(),
            value_range: (0, 0),
            idx: 0,
            first_key: KeyVec::new(),
        }
    }

    /// Decodes and returns the key of entry `idx`.
    pub fn get_key_at_idx(block: &Block, idx: usize) -> (r: KeyVec)
        requires
            block.wf(),
            (idx as int) < block.entries().len(),
        ensures
            r@ == block.entries()[idx as int].0,
            r@.len() > 0,
    {
        let key_len_start = block.offsets[idx] as usize;
        let key_len = crate::block::get_u16_at(&block.data, key_len_start) as usize;
        let key_data_start = key_len_start + 2;
        let key_data = vstd::slice::slice_subrange(
            block.data.as_slice(),
            key_data_start,
            key_data_start + key_len,
        );
        let mut key = KeyVec::new();
        key.append(key_data);
        proof {
            assert(key@ =~= key_data@);
        }
        key
    }

    /// Computes the byte range of entry `idx`'s value within the block's
    /// buffer.
    pub fn get_data_value_range_at_idx(block: &Block, idx: usize) -> (r: (usize, usize))
        requires
            block.wf(),
            (idx as int) < block.entries().len(),
        ensures
            r.0 == val_start(block.data@, block.offsets@[idx as int] as int),
            r.1 == entry_end(block.data@, block.offsets@[idx as int] as int),
            r.0 <= r.1 <= block.data@.len(),
            block.data@.subrange(r.0 as int, r.1 as int) == block.entries()[idx as int].1,
    {
        let key_len_start = block.offsets[idx] as usize;
        let key_len = crate::block::get_u16_at(&block.data, key_len_start) as usize;
        let data_len_start = key_len_start + 2 + key_len;
        let data_len = crate::block::get_u16_at(&block.data, data_len_start) as usize;
        (data_len_start + 2, data_len_start + 2 + data_len)
    }

    /// Creates a block iterator and seeks to the first entry.
    pub fn create_and_seek_to_first(block: Arc<Block>) -> (r: Self)
        requires
            (*block).wf(),
        ensures
            r.wf(),
            r.blk() == *block,
            r.remaining() == (*block).entries(),
            r.remaining().len() > 0,
    {
        let mut iter = Self::new(block);
        iter.seek_to_first();
        let fk = iter.key.duplicate();
        iter.first_key = fk;
        iter
    }

    /// Creates a block iterator positioned at the first entry whose key is
    /// greater than or equal to `key`, or exhausted if there is none.
    pub fn create_and_seek_to_key(block: Arc<Block>, key: &KeyVec) -> (r: Self)
        requires
            (*block).wf(),
        ensures
            r.wf(),
            r.blk() == *block,
            r.remaining() == (*block).entries().skip(
                (*block).entries().len() - r.remaining().len(),
            ),
            forall|j: int|
                0 <= j < (*block).entries().len() - r.remaining().len() ==> lex_lt(
                    (*block).entries()[j].0,
                    key@,
                ),
            r.remaining().len() > 0 ==> !lex_lt(r.remaining()[0].0, key@),
    {
        let mut iter = Self::create_and_seek_to_first(block);
        iter.seek_to_key(key);
        iter
    }

    /// Returns the key of the current entry. The cursor must be valid.
    pub fn key(&self) -> (r: &KeyVec)
        requires
            self.wf(),
            self.remaining().len() > 0,
        ensures
            r@ == self.remaining()[0].0,
    {
        &self.key
    }

    /// Returns the value of the current entry. The cursor must be valid.
    pub fn value(&self) -> (r: &[u8])
        requires
            self.wf(),
            self.remaining().len() > 0,
        ensures
            r@ == self.remaining()[0].1,
    {
        let blk = &*self.block;
        vstd::slice::slice_subrange(blk.data.as_slice(), self.value_range.0, self.value_range.1)
    }

    /// Returns true if the cursor currently denotes a real entry.
    pub fn is_valid(&self) -> (r: bool)
        requires
            self.wf(),
        ensures
            r == (self.remaining().len() > 0),
    {
        !self.key.is_empty()
    }

    /// Seeks to the first key in the block.
    pub fn seek_to_first(&mut self)
        requires
            old(self).wf(),
        ensures
            final(self).wf(),
            final(self).blk() == old(self).blk(),
            final(self).remaining() == old(self).blk().entries(),
            final(self).remaining().len() > 0,
    {
        let blk = &*self.block;
        let k = Self::get_key_at_idx(blk, 0);
        let vr = Self::get_data_value_range_at_idx(blk, 0);
        self.key = k;
        self.value_range = vr;
        self.idx = 0;
        proof {
            assert(self.remaining() =~= self.blk().entries());
        }
    }

    /// Moves to the next entry, or marks the cursor exhausted past the last
    /// one. On an already-exhausted cursor this changes nothing.
    pub fn next(&mut self)
        requires
            old(self).wf(),
        ensures
            final(self).wf(),
            final(self).blk() == old(self).blk(),
            old(self).remaining().len() > 0 ==> final(self).remaining() == old(
                self,
            ).remaining().drop_first(),
            old(self).remaining().len() == 0 ==> *final(self) == *old(self),
    {
        if self.is_valid() {
            self.idx += 1;
            let blk = &*self.block;
            if self.idx < blk.offsets.len() {
                let k = Self::get_key_at_idx(blk, self.idx);
                let vr = Self::get_data_value_range_at_idx(blk, self.idx);
                self.key = k;
                self.value_range = vr;
                proof {
                    assert(self.remaining() =~= old(self).remaining().drop_first());
                }
            } else {
                self.key = KeyVec::new();
                proof {
                    assert(old(self).remaining().len() == 1);
                    assert(self.remaining() =~= old(self).remaining().drop_first());
                }
            }
        }
    }

    /// Seeks to the first entry whose key is greater than or equal to
    /// `key`: every entry before the final position is strictly below
    /// `key`, and the entry at it (if any) is not.
    pub fn seek_to_key(&mut self, key: &KeyVec)
        requires
            old(self).wf(),
        ensures
            final(self).wf(),
            final(self).blk() == old(self).blk(),
            final(self).remaining() == old(self).blk().entries().skip(
                old(self).blk().entries().len() - final(self).remaining().len(),
            ),
            forall|j: int|
                0 <= j < old(self).blk().entries().len() - final(self).remaining().len()
                    ==> lex_lt(old(self).blk().entries()[j].0, key@),
            final(self).remaining().len() > 0 ==> !lex_lt(final(self).remaining()[0].0, key@),
    {
        self.seek_to_first();
        let ghost es = self.blk().entries();
        proof {
            assert(es.skip(0) =~= es);
        }
        while self.is_valid() && self.key.is_lt(key)
            invariant
                self.wf(),
                self.blk() == old(self).blk(),
                es == self.blk().entries(),
                self.remaining().len() <= es.len(),
                self.remaining() == es.skip(es.len() - self.remaining().len()),
                forall|j: int|
                    0 <= j < es.len() - self.remaining().len() ==> lex_lt(es[j].0, key@),
            decreases self.remaining().len(),
        {
            proof {
                let i = es.len() - self.remaining().len();
                assert(self.remaining()[0] == es[i]);
                assert(es.skip(i).drop_first() =~= es.skip(i + 1));
            }
            self.next();
        }
    }
}

impl StorageIterator for BlockIterator {
    open spec fn entries(&self) -> Seq<Entry> {
        self.remaining()
    }

    open spec fn inv(&self) -> bool {
        self.wf()
    }

    proof fn lemma_sorted(&self) {
        if self.key@.len() > 0 {
            let es = self.blk().entries();
            let idx = self.idx as int;
            assert forall|i: int, j: int| 0 <= i < j < self.remaining().len() implies lex_lt(
                self.remaining()[i].0,
                self.remaining()[j].0,
            ) by {
                assert(self.remaining()[i] == es[idx + i]);
                assert(self.remaining()[j] == es[idx + j]);
            }
            assert forall|i: int| 0 <= i < self.remaining().len() implies self.remaining()[i].0.len()
                > 0 by {
                assert(self.remaining()[i] == es[idx + i]);
            }
        }
    }

    fn is_valid(&self) -> (r: bool) {
        BlockIterator::is_valid(self)
    }

    fn key(&self) -> (k: &KeyVec) {
        BlockIterator::key(self)
    }

    fn value(&self) -> (v: &[u8]) {
        BlockIterator::value(self)
    }

    fn next(&mut self) -> (r: Result<(), anyhow::Error>) {
        BlockIterator::next(self);
        Ok(())
    }
}

} // verus!
