//! The sorted-iterator capability: the contract any ordered source — a
//! block iterator, a memtable iterator, a nested merge — must satisfy to
//! take part in merging.

use vstd::prelude::*;

use crate::block::Entry;
use crate::key::{lex_lt, KeyVec};

verus! {

/// Relies on `anyhow::Error` only as an opaque value: the failure an
/// underlying source reports from a fallible advance, carried through the
/// merge untouched.
#[verifier::external_type_specification]
#[verifier::external_body]
pub struct ExAnyhowError(anyhow::Error);

/// An ordered source of key/value entries. `entries` is the source's
/// mathematical content: what still lies ahead of it, the current entry
/// first. A well-formed source holds strictly ascending, non-empty keys.
pub trait StorageIterator: Sized {
    /// The entries still ahead of the source, the current one first.
    spec fn entries(&self) -> Seq<Entry>;

    /// The source's own well-formedness.
    spec fn inv(&self) -> bool;

    /// A well-formed source's remaining entries carry strictly ascending,
    /// non-empty keys.
    proof fn lemma_sorted(&self)
        requires
            self.inv(),
        ensures
            forall|i: int, j: int|
                0 <= i < j < self.entries().len() ==> lex_lt(
                    self.entries()[i].0,
                    self.entries()[j].0,
                ),
            forall|i: int| 0 <= i < self.entries().len() ==> self.entries()[i].0.len() > 0,
    ;

    /// Whether the source still has an entry to give.
    fn is_valid(&self) -> (r: bool)
        requires
            self.inv(),
        ensures
            r == (self.entries().len() > 0),
    ;

    /// The current entry's key. The source must be valid.
    fn key(&self) -> (k: &KeyVec)
        requires
            self.inv(),
            self.entries().len() > 0,
        ensures
            k@ == self.entries()[0].0,
    ;

    /// The current entry's value. The source must be valid.
    fn value(&self) -> (v: &[u8])
        requires
            self.inv(),
            self.entries().len() > 0,
        ensures
            v@ == self.entries()[0].1,
    ;

    /// Advances one step. Underlying sources may perform fallible work; a
    /// failed advance stays well formed but promises nothing about where
    /// the source then stands, so a caller propagates the failure and
    /// stops relying on that source.
    fn next(&mut self) -> (r: Result<(), anyhow::Error>)
        requires
            old(self).inv(),
            old(self).entries().len() > 0,
        ensures
            final(self).inv(),
            r is Ok ==> final(self).entries() == old(self).entries().drop_first(),
    ;
}

} // verus!
