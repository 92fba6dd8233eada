//! The immutable block: a densely packed byte buffer of sorted key/value
//! entries plus an offset index, the atomic unit of sorted storage.
//!
//! Layout of one entry at byte offset `off` inside `data`:
//! `key_len: u16 | key bytes | value_len: u16 | value bytes`,
//! all integers big-endian. `offsets[i]` is the offset of entry `i`.

use vstd::prelude::*;

use bytes::Buf;
use bytes::BufMut;

use crate::key::lex_lt;

verus! {

/// One decoded entry: its key bytes and its value bytes.
pub type Entry = (Seq<u8>, Seq<u8>);

/// The integer denoted by two big-endian bytes.
pub open spec fn be_u16(hi: u8, lo: u8) -> int {
    hi * 256 + lo
}

/// The key length field of the entry at `off`.
pub open spec fn key_len_at(data: Seq<u8>, off: int) -> int {
    be_u16(data[off], data[off + 1])
}

/// The key bytes of the entry at `off`.
pub open spec fn key_at(data: Seq<u8>, off: int) -> Seq<u8> {
    data.subrange(off + 2, off + 2 + key_len_at(data, off))
}

/// The position of the value length field of the entry at `off`.
pub open spec fn val_len_pos(data: Seq<u8>, off: int) -> int {
    off + 2 + key_len_at(data, off)
}

/// The value length field of the entry at `off`.
pub open spec fn val_len_at(data: Seq<u8>, off: int) -> int {
    be_u16(data[val_len_pos(data, off)], data[val_len_pos(data, off) + 1])
}

/// The first byte of the value of the entry at `off`.
pub open spec fn val_start(data: Seq<u8>, off: int) -> int {
    val_len_pos(data, off) + 2
}

/// One past the last byte of the entry at `off`.
pub open spec fn entry_end(data: Seq<u8>, off: int) -> int {
    val_start(data, off) + val_len_at(data, off)
}

/// The value bytes of the entry at `off`.
pub open spec fn val_at(data: Seq<u8>, off: int) -> Seq<u8> {
    data.subrange(val_start(data, off), entry_end(data, off))
}

/// The entry encoded at `off`.
pub open spec fn entry_at(data: Seq<u8>, off: int) -> Entry {
    (key_at(data, off), val_at(data, off))
}

/// The bytes at `off` encode a whole entry with a non-empty key.
pub open spec fn valid_entry_at(data: Seq<u8>, off: int) -> bool {
    &&& 0 <= off
    &&& off + 2 <= data.len()
    &&& key_len_at(data, off) > 0
    &&& val_len_pos(data, off) + 2 <= data.len()
    &&& entry_end(data, off) <= data.len()
}

/// Every offset points at a whole entry, and the entries stand in strictly
/// ascending key order.
pub open spec fn entries_wf(data: Seq<u8>, offsets: Seq<u16>) -> bool {
    &&& forall|i: int|
        0 <= i < offsets.len() ==> valid_entry_at(data, #[trigger] offsets[i] as int)
    &&& forall|i: int, j: int|
        0 <= i < j < offsets.len() ==> lex_lt(
            key_at(data, #[trigger] offsets[i] as int),
            key_at(data, #[trigger] offsets[j] as int),
        )
}

/// The sequence of entries that `data` and `offsets` encode.
pub open spec fn entries_of(data: Seq<u8>, offsets: Seq<u16>) -> Seq<Entry> {
    Seq::new(offsets.len(), |i: int| entry_at(data, offsets[i] as int))
}

/// Extending the buffer to the right disturbs no entry already encoded in it.
pub proof fn lemma_entry_unchanged_by_extension(d1: Seq<u8>, d2: Seq<u8>, off: int)
    requires
        valid_entry_at(d1, off),
        d1.len() <= d2.len(),
        forall|i: int| 0 <= i < d1.len() ==> d1[i] == d2[i],
    ensures
        valid_entry_at(d2, off),
        key_at(d2, off) == key_at(d1, off),
        val_at(d2, off) == val_at(d1, off),
        entry_at(d2, off) == entry_at(d1, off),
{
    assert(key_len_at(d2, off) == key_len_at(d1, off));
    assert(key_at(d2, off) =~= key_at(d1, off));
    assert(val_len_at(d2, off) == val_len_at(d1, off));
    assert(val_at(d2, off) =~= val_at(d1, off));
}

/// An immutable, size-bounded, sorted run of key/value entries with an
/// offset index. Built exactly once by a `BlockBuilder`, then only read.
pub struct Block {
    /// All serialized key-value pairs in the block.
    pub data: Vec<u8>,
    /// Offset of each entry within `data`.
    pub offsets: Vec<u16>,
}

impl Block {
    /// A finalized block is never empty, its entry region fits the 16-bit
    /// offset space, and its entries are well formed and sorted.
    pub open spec fn wf(self) -> bool {
        &&& self.offsets@.len() >= 1
        &&& self.offsets@.len() <= self.data@.len()
        &&& self.data@.len() <= 0xFFFF
        &&& entries_wf(self.data@, self.offsets@)
    }

    /// The entries this block encodes, in key order.
    pub open spec fn entries(self) -> Seq<Entry> {
        entries_of(self.data@, self.offsets@)
    }

    /// The block's serialized size in bytes: the entry region, one 16-bit
    /// offset per entry, and the trailing 16-bit entry count.
    pub open spec fn size(self) -> int {
        self.data@.len() + self.offsets@.len() * 2 + 2int
    }

    /// How many entries the block holds.
    pub fn num_of_elements(&self) -> (n: usize)
        ensures
            n == self.entries().len(),
    {
        self.offsets.len()
    }
}

/// Relies on `bytes::BufMut::put_u16` on `Vec<u8>`: appends exactly the two
/// big-endian bytes of `v`.
#[verifier::external_body]
pub(crate) fn put_u16(data: &mut Vec<u8>, v: u16)
    ensures
        final(data)@ == old(data)@ + seq![
            ((v as int) / 256) as u8,
            ((v as int) % 256) as u8,
        ],
{
    data.put_u16(v)
}

/// Relies on `bytes::BufMut::put` on `Vec<u8>`: appends the bytes of `src`.
#[verifier::external_body]
pub(crate) fn put_bytes(data: &mut Vec<u8>, src: &[u8])
    ensures
        final(data)@ == old(data)@ + src@,
{
    data.put(src)
}

/// Relies on `bytes::Buf::get_u16` on a byte slice: reads the big-endian
/// 16-bit integer at `pos`.
#[verifier::external_body]
pub(crate) fn get_u16_at(data: &Vec<u8>, pos: usize) -> (r: u16)
    requires
        pos + 2 <= data@.len(),
    ensures
        r as int == be_u16(data@[pos as int], data@[pos as int + 1]),
{
    (&data[pos..]).get_u16()
}

/// The two big-endian bytes of `v` denote `v` again.
pub proof fn lemma_be_u16_roundtrip(v: u16)
    ensures
        be_u16(((v as int) / 256) as u8, ((v as int) % 256) as u8) == v as int,
{
    assert(v as int == 256 * ((v as int) / 256) + (v as int) % 256) by (nonlinear_arith);
}

} // verus!
