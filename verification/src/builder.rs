//! Builds a block: accumulates sorted key/value pairs under a serialized
//! size budget, then finalizes into an immutable `Block`.

use vstd::prelude::*;

use crate::block::{
    entries_of, entries_wf, entry_at, key_at, key_len_at, lemma_be_u16_roundtrip,
    lemma_entry_unchanged_by_extension, put_bytes, put_u16, val_at, val_len_at, valid_entry_at,
    Block, Entry,
};
use crate::key::{lemma_lex_lt_trans, lex_lt, KeyVec};

verus! {

/// The bytes one entry adds to the serialized block: its two length fields,
/// its key and value bytes, and one more offset slot.
pub open spec fn additional_size(k: Seq<u8>, v: Seq<u8>) -> int {
    2 + k.len() + 2 + v.len() + 2int
}

/// Builds a block.
pub struct BlockBuilder {
    /// Offsets of each key-value entry.
    pub offsets: Vec<u16>,
    /// All serialized key-value pairs in the block.
    pub data: Vec<u8>,
    /// The expected block size.
    pub block_size: usize,
    /// The first key in the block.
    pub first_key: KeyVec,
}

impl BlockBuilder {
    /// The accumulated entries are well formed and sorted, the entry region
    /// fits the 16-bit offset space, and `first_key` tracks the first entry.
    pub open spec fn wf(self) -> bool {
        &&& self.offsets@.len() <= self.data@.len()
        &&& self.data@.len() <= 0xFFFF
        &&& entries_wf(self.data@, self.offsets@)
        &&& self.first_key@ == if self.offsets@.len() == 0 {
            Seq::<u8>::empty()
        } else {
            entries_of(self.data@, self.offsets@)[0].0
        }
    }

    /// The entries accepted so far, in the order they were added.
    pub open spec fn entries(self) -> Seq<Entry> {
        entries_of(self.data@, self.offsets@)
    }

    /// The serialized size of the block so far: entry bytes, one 16-bit
    /// offset per entry, and the trailing 16-bit entry count.
    pub open spec fn size(self) -> int {
        self.data@.len() + self.offsets@.len() * 2 + 2int
    }

    /// Creates a new block builder targeting `block_size` serialized bytes.
    pub fn new(block_size: usize) -> (r: BlockBuilder)
        ensures
            r.wf(),
            r.entries().len() == 0,
            r.block_size == block_size,
            r.size() == 2,
    {
        BlockBuilder {
            offsets: Vec::new(),
            data: Vec::new(),
            block_size,
            first_key: KeyVec::new(),
        }
    }

    /// The serialized size of the block were it finalized now.
    pub fn current_size(&self) -> (n: usize)
        requires
            self.wf(),
        ensures
            n == self.size(),
    {
        self.data.len() + self.offsets.len() * 2 + 2
    }

    /// The bytes that appending this entry would add.
    pub fn additional_size_of_write(key: &KeyVec, value: &[u8]) -> (n: usize)
        requires
            key@.len() + value@.len() + 6 <= usize::MAX,
        ensures
            n == additional_size(key@, value@),
    {
        2  // key length field
         + key.len()  // key bytes
         + 2  // value length field
         + value.len()  // value bytes
         + 2  // one more offset slot
    }

    /// Check if there is no key-value pair in the block.
    pub fn is_empty(&self) -> (r: bool)
        ensures
            r == (self.entries().len() == 0),
    {
        self.offsets.is_empty()
    }

    /// Adds a key-value pair to the block. Returns false when the block is
    /// full. The first entry is always accepted, whatever its size; keys
    /// must arrive in strictly ascending order, and the entry region must
    /// stay within the 16-bit offset space of the block layout.
    #[must_use]
    pub fn add(&mut self, key: &KeyVec, value: &[u8]) -> (r: bool)
        requires
            old(self).wf(),
            key@.len() > 0,
            old(self).entries().len() > 0 ==> lex_lt(old(self).entries().last().0, key@),
            old(self).data@.len() + 4 + key@.len() + value@.len() <= 0xFFFF,
        ensures
            final(self).wf(),
            final(self).block_size == old(self).block_size,
            r == (old(self).entries().len() == 0 || old(self).size() + additional_size(
                key@,
                value@,
            ) <= old(self).block_size),
            r ==> final(self).entries() == old(self).entries().push((key@, value@)),
            r ==> final(self).size() == old(self).size() + additional_size(key@, value@),
            r ==> (final(self).size() <= final(self).block_size || final(self).entries().len()
                == 1),
            !r ==> *final(self) == *old(self),
    {
        // Check if we have enough space; always allow adding the first entry.
        if !(self.is_empty() || self.current_size() + Self::additional_size_of_write(key, value)
            <= self.block_size) {
            return false;
        }
        let ghost d0 = self.data@;
        let ghost offs0 = self.offsets@;
        let ghost n0 = offs0.len() as int;
        let off16 = self.data.len() as u16;
        self.offsets.push(off16);
        put_u16(&mut self.data, key.len() as u16);
        put_bytes(&mut self.data, key.raw_ref().as_slice());
        put_u16(&mut self.data, value.len() as u16);
        put_bytes(&mut self.data, value);
        if self.first_key.is_empty() {
            self.first_key = key.duplicate();
        }
        proof {
            let off = d0.len() as int;
            let d4 = self.data@;
            let klen = key@.len() as int;
            let vlen = value@.len() as int;
            lemma_be_u16_roundtrip(klen as u16);
            lemma_be_u16_roundtrip(vlen as u16);
            assert(d4.len() == off + 4 + klen + vlen);
            // The old region is untouched.
            assert(forall|i: int| 0 <= i < d0.len() ==> d0[i] == d4[i]);
            // The new entry decodes to exactly the pair just appended.
            assert(d4[off] == ((klen / 256) as u8));
            assert(d4[off + 1] == ((klen % 256) as u8));
            assert(key_len_at(d4, off) == klen);
            assert(key_at(d4, off) =~= key@);
            assert(d4[off + 2 + klen] == ((vlen / 256) as u8));
            assert(d4[off + 2 + klen + 1] == ((vlen % 256) as u8));
            assert(val_len_at(d4, off) == vlen);
            assert(val_at(d4, off) =~= value@);
            assert(valid_entry_at(d4, off));
            // The old entries decode as before.
            assert forall|i: int| 0 <= i < n0 implies valid_entry_at(d4, #[trigger] offs0[i] as int)
                && entry_at(d4, offs0[i] as int) == entry_at(d0, offs0[i] as int) by {
                lemma_entry_unchanged_by_extension(d0, d4, offs0[i] as int);
            }
            assert(self.offsets@ == offs0.push(off16));
            assert(off16 as int == off);
            assert(self.entries() =~= old(self).entries().push((key@, value@)));
            // Sorted: the new key comes after every old key.
            assert forall|i: int, j: int| 0 <= i < j < self.offsets@.len() implies lex_lt(
                key_at(d4, #[trigger] self.offsets@[i] as int),
                key_at(d4, #[trigger] self.offsets@[j] as int),
            ) by {
                if j < n0 {
                    assert(lex_lt(key_at(d0, offs0[i] as int), key_at(d0, offs0[j] as int)));
                } else {
                    assert(key_at(d4, self.offsets@[j] as int) == key@);
                    assert(old(self).entries().last().0 == key_at(d0, offs0[n0 - 1] as int));
                    if i < n0 - 1 {
                        assert(lex_lt(
                            key_at(d0, offs0[i] as int),
                            key_at(d0, offs0[n0 - 1] as int),
                        ));
                        lemma_lex_lt_trans(
                            key_at(d0, offs0[i] as int),
                            key_at(d0, offs0[n0 - 1] as int),
                            key@,
                        );
                    }
                }
            }
            // The first key tracks entry 0.
            if n0 == 0 {
                assert(self.entries()[0] == (key@, value@));
            } else {
                assert(self.entries()[0] == old(self).entries()[0]);
            }
        }
        true
    }

    /// Finalizes the accumulated entries into an immutable block. A builder
    /// is only ever finalized after at least one entry was accepted.
    pub fn build(self) -> (r: Block)
        requires
            self.wf(),
            self.entries().len() > 0,
        ensures
            r.wf(),
            r.entries() == self.entries(),
            r.size() == self.size(),
    {
        Block { data: self.data, offsets: self.offsets }
    }
}

} // verus!
