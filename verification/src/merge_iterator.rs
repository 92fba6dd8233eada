//! The k-way merge: combines N sorted sources into one globally sorted,
//! duplicate-resolved stream. Sources are ranked by priority — the index
//! assigned at construction, lower index meaning fresher data — and when
//! several sources hold the same key, only the freshest one's entry is
//! ever emitted.

use vstd::prelude::*;

use crate::block::Entry;
use crate::key::{
    lemma_lex_lt_asym, lemma_lex_lt_connected, lemma_lex_lt_irrefl, lemma_lex_lt_trans, lex_lt,
    KeyVec,
};
use crate::storage_iterator::StorageIterator;

verus! {

/// One merge source as mathematics: its priority and its remaining entries.
pub type Src = (int, Seq<Entry>);

/// The key a source currently stands on.
pub open spec fn src_first_key(s: Src) -> Seq<u8> {
    s.1[0].0
}

/// Whether a source still has entries to give.
pub open spec fn src_live(s: Src) -> bool {
    s.1.len() > 0
}

/// Source `a` is chosen ahead of source `b`: strictly smaller current key,
/// or the same key and a smaller (fresher) priority.
pub open spec fn src_before(a: Src, b: Src) -> bool {
    ||| lex_lt(src_first_key(a), src_first_key(b))
    ||| (src_first_key(a) == src_first_key(b) && a.0 < b.0)
}

/// No two sources share a priority.
pub open spec fn pri_distinct(srcs: Seq<Src>) -> bool {
    forall|i: int, j: int| 0 <= i < j < srcs.len() ==> srcs[i].0 != srcs[j].0
}

/// One source's entries are strictly ascending in key.
pub open spec fn src_sorted(s: Seq<Entry>) -> bool {
    forall|i: int, j: int| 0 <= i < j < s.len() ==> lex_lt(s[i].0, s[j].0)
}

/// Every source's entries are strictly ascending in key.
pub open spec fn srcs_sorted(srcs: Seq<Src>) -> bool {
    forall|m: int| 0 <= m < srcs.len() ==> src_sorted(#[trigger] srcs[m].1)
}

/// Some source still has entries to give.
pub open spec fn some_live(srcs: Seq<Src>) -> bool {
    exists|i: int| 0 <= i < srcs.len() && src_live(#[trigger] srcs[i])
}

/// Source `i` is live and comes ahead of every other live source.
pub open spec fn is_min_source(srcs: Seq<Src>, i: int) -> bool {
    &&& 0 <= i < srcs.len()
    &&& src_live(srcs[i])
    &&& forall|j: int|
        0 <= j < srcs.len() && src_live(#[trigger] srcs[j]) && j != i ==> src_before(
            srcs[i],
            srcs[j],
        )
}

/// The index of the source chosen next.
pub open spec fn min_source(srcs: Seq<Src>) -> int {
    choose|i: int| is_min_source(srcs, i)
}

/// How many entries are left over all sources.
pub open spec fn total_len(srcs: Seq<Src>) -> nat
    decreases srcs.len(),
{
    if srcs.len() == 0 {
        0
    } else {
        total_len(srcs.drop_last()) + srcs.last().1.len()
    }
}

/// Every source standing exactly on key `k` advanced one step past it.
pub open spec fn advance_key(srcs: Seq<Src>, k: Seq<u8>) -> Seq<Src> {
    Seq::new(
        srcs.len(),
        |i: int|
            if srcs[i].1.len() > 0 && srcs[i].1[0].0 == k {
                (srcs[i].0, srcs[i].1.drop_first())
            } else {
                srcs[i]
            },
    )
}

/// Two live sources with different priorities are always ordered one way
/// or the other.
pub proof fn lemma_src_before_total(a: Src, b: Src)
    requires
        a.0 != b.0,
        src_live(a),
        src_live(b),
        !src_before(a, b),
    ensures
        src_before(b, a),
{
    if !lex_lt(src_first_key(b), src_first_key(a)) {
        lemma_lex_lt_connected(src_first_key(a), src_first_key(b));
    }
}

/// The choice order among sources is transitive.
pub proof fn lemma_src_before_trans(a: Src, b: Src, c: Src)
    requires
        src_before(a, b),
        src_before(b, c),
    ensures
        src_before(a, c),
{
    if lex_lt(src_first_key(a), src_first_key(b)) && lex_lt(
        src_first_key(b),
        src_first_key(c),
    ) {
        lemma_lex_lt_trans(src_first_key(a), src_first_key(b), src_first_key(c));
    }
}

/// The choice order is asymmetric: at most one of two sources is chosen
/// ahead of the other.
pub proof fn lemma_min_source_unique(srcs: Seq<Src>, i: int, j: int)
    requires
        is_min_source(srcs, i),
        is_min_source(srcs, j),
    ensures
        i == j,
{
    if i != j {
        assert(src_before(srcs[i], srcs[j]));
        assert(src_before(srcs[j], srcs[i]));
        if lex_lt(src_first_key(srcs[i]), src_first_key(srcs[j])) {
            if lex_lt(src_first_key(srcs[j]), src_first_key(srcs[i])) {
                lemma_lex_lt_asym(src_first_key(srcs[i]), src_first_key(srcs[j]));
            } else {
                lemma_lex_lt_irrefl(src_first_key(srcs[i]));
            }
        } else {
            lemma_lex_lt_irrefl(src_first_key(srcs[j]));
        }
    }
}

/// Among finitely many sources with at least one live, a first choice
/// exists.
pub proof fn lemma_min_source_exists(srcs: Seq<Src>)
    requires
        some_live(srcs),
        pri_distinct(srcs),
    ensures
        exists|i: int| is_min_source(srcs, i),
    decreases srcs.len(),
{
    let n = srcs.len() as int;
    let prefix = srcs.drop_last();
    assert(forall|t: int| 0 <= t < n - 1 ==> prefix[t] == srcs[t]);
    if some_live(prefix) {
        assert(pri_distinct(prefix));
        lemma_min_source_exists(prefix);
        let i = choose|i: int| is_min_source(prefix, i);
        assert(is_min_source(prefix, i));
        if src_live(srcs[n - 1]) {
            if src_before(srcs[i], srcs[n - 1]) {
                assert(is_min_source(srcs, i));
            } else {
                assert(srcs[i].0 != srcs[n - 1].0);
                lemma_src_before_total(srcs[i], srcs[n - 1]);
                assert forall|j: int|
                    0 <= j < n && src_live(#[trigger] srcs[j]) && j != n - 1 implies src_before(
                    srcs[n - 1],
                    srcs[j],
                ) by {
                    if j != i {
                        lemma_src_before_trans(srcs[n - 1], srcs[i], srcs[j]);
                    }
                }
                assert(is_min_source(srcs, n - 1));
            }
        } else {
            assert(is_min_source(srcs, i));
        }
    } else {
        let w = choose|i: int| 0 <= i < srcs.len() && src_live(#[trigger] srcs[i]);
        assert(w == n - 1);
        assert(is_min_source(srcs, n - 1));
    }
}

/// Fewer entries in every source means no more entries in total.
pub proof fn lemma_total_len_le(a: Seq<Src>, b: Seq<Src>)
    requires
        a.len() == b.len(),
        forall|m: int| 0 <= m < a.len() ==> b[m].1.len() <= a[m].1.len(),
    ensures
        total_len(b) <= total_len(a),
    decreases a.len(),
{
    if a.len() > 0 {
        assert(forall|m: int|
            0 <= m < a.len() - 1 ==> b.drop_last()[m].1.len() <= a.drop_last()[m].1.len());
        lemma_total_len_le(a.drop_last(), b.drop_last());
    }
}

/// Fewer entries in one source and no more in any other means strictly
/// fewer entries in total.
pub proof fn lemma_total_len_lt(a: Seq<Src>, b: Seq<Src>, i: int)
    requires
        a.len() == b.len(),
        0 <= i < a.len(),
        forall|m: int| 0 <= m < a.len() ==> b[m].1.len() <= a[m].1.len(),
        b[i].1.len() < a[i].1.len(),
    ensures
        total_len(b) < total_len(a),
    decreases a.len(),
{
    assert(forall|m: int|
        0 <= m < a.len() - 1 ==> b.drop_last()[m].1.len() <= a.drop_last()[m].1.len());
    if i == a.len() - 1 {
        lemma_total_len_le(a.drop_last(), b.drop_last());
    } else {
        lemma_total_len_lt(a.drop_last(), b.drop_last(), i);
    }
}

/// The stream a set of prioritized sources merges to: repeatedly take the
/// entry of the first-choice source, then advance every source standing on
/// that entry's key one step past it.
pub open spec fn merged(srcs: Seq<Src>) -> Seq<Entry>
    decreases total_len(srcs),
    when pri_distinct(srcs)
{
    if !some_live(srcs) {
        Seq::empty()
    } else {
        proof {
            lemma_min_source_exists(srcs);
            let i = min_source(srcs);
            assert(is_min_source(srcs, i));
            let adv = advance_key(srcs, srcs[i].1[0].0);
            assert(forall|m: int| 0 <= m < srcs.len() ==> adv[m].1.len() <= srcs[m].1.len());
            lemma_total_len_lt(srcs, adv, i);
            assert(pri_distinct(adv));
        }
        seq![srcs[min_source(srcs)].1[0]] + merged(
            advance_key(srcs, srcs[min_source(srcs)].1[0].0),
        )
    }
}

/// With distinct priorities the merged stream is empty exactly when every
/// source is exhausted.
pub proof fn lemma_merged_empty(srcs: Seq<Src>)
    requires
        pri_distinct(srcs),
    ensures
        (merged(srcs).len() > 0) == some_live(srcs),
{
}

/// The priority/source pairing behind a merge iterator's vector.
pub open spec fn srcs_of<I: StorageIterator>(ws: Seq<HeapWrapper<I>>) -> Seq<Src> {
    Seq::new(ws.len(), |i: int| ((ws[i].0 as int), (*ws[i].1).entries()))
}

/// The still-valid inputs among `its`, in their original order.
pub open spec fn live_sources<I: StorageIterator>(its: Seq<Box<I>>) -> Seq<Box<I>>
    decreases its.len(),
{
    if its.len() == 0 {
        Seq::empty()
    } else {
        let rest = live_sources(its.drop_last());
        if (*its.last()).entries().len() > 0 {
            rest.push(its.last())
        } else {
            rest
        }
    }
}

/// The sources a merge is created over: the valid inputs, in order, each
/// given its position among them as priority.
pub open spec fn init_sources<I: StorageIterator>(its: Seq<Box<I>>) -> Seq<Src> {
    Seq::new(live_sources(its).len(), |i: int| (i, (*live_sources(its)[i]).entries()))
}

/// A source wrapped with its priority for the merge's selection order.
pub struct HeapWrapper<I: StorageIterator>(pub usize, pub Box<I>);

impl<I: StorageIterator> HeapWrapper<I> {
    /// Whether this source is chosen ahead of `other`: smaller current
    /// key first; on equal keys, the smaller priority wins.
    pub fn precedes(&self, other: &Self) -> (r: bool)
        requires
            (*self.1).inv(),
            (*other.1).inv(),
            (*self.1).entries().len() > 0,
            (*other.1).entries().len() > 0,
        ensures
            r == src_before(
                ((self.0 as int), (*self.1).entries()),
                ((other.0 as int), (*other.1).entries()),
            ),
    {
        let a: &I = &*self.1;
        let b: &I = &*other.1;
        let ka = a.key();
        let kb = b.key();
        if ka.is_lt(kb) {
            true
        } else if ka.is_eq(kb) {
            self.0 < other.0
        } else {
            false
        }
    }
}

/// Merge multiple sorted sources of the same type. If the same key occurs
/// in several sources, the one with the smaller index wins.
pub struct MergeIterator<I: StorageIterator> {
    /// All live wrapped sources, in ascending priority order.
    iters: Vec<HeapWrapper<I>>,
    /// The position of the currently selected source, if any is live.
    cur: Option<usize>,
}

impl<I: StorageIterator> MergeIterator<I> {
    /// The prioritized sources still feeding this merge.
    pub closed spec fn sources(self) -> Seq<Src> {
        srcs_of(self.iters@)
    }

    /// Every held source is well formed, priorities ascend strictly, and
    /// the selected source is the first choice among the live ones.
    pub closed spec fn wf(self) -> bool {
        &&& forall|m: int|
            0 <= m < self.iters@.len() ==> (*#[trigger] self.iters@[m].1).inv()
        &&& forall|m: int, j: int|
            0 <= m < j < self.iters@.len() ==> self.iters@[m].0 < self.iters@[j].0
        &&& match self.cur {
            Some(c) => (c as int) < self.iters@.len() && is_min_source(self.sources(), c as int),
            None => !some_live(self.sources()),
        }
    }

    /// The merged stream still ahead of this iterator.
    pub open spec fn remaining(self) -> Seq<Entry> {
        merged(self.sources())
    }

    proof fn lemma_wf_props(self)
        requires
            self.wf(),
        ensures
            pri_distinct(self.sources()),
            srcs_sorted(self.sources()),
    {
        assert forall|m: int| 0 <= m < self.sources().len() implies src_sorted(
            #[trigger] self.sources()[m].1,
        ) by {
            (*self.iters@[m].1).lemma_sorted();
        }
    }

    /// What the head of the merged stream is, and how the stream continues,
    /// while some source is live.
    proof fn lemma_head(self)
        requires
            self.wf(),
            some_live(self.sources()),
        ensures
            self.cur is Some,
            match self.cur {
                Some(c) => {
                    &&& is_min_source(self.sources(), c as int)
                    &&& merged(self.sources()) == seq![self.sources()[c as int].1[0]] + merged(
                        advance_key(self.sources(), self.sources()[c as int].1[0].0),
                    )
                    &&& merged(self.sources())[0] == self.sources()[c as int].1[0]
                },
                None => false,
            },
    {
        self.lemma_wf_props();
        match self.cur {
            Some(c) => {
                lemma_min_source_exists(self.sources());
                assert(is_min_source(self.sources(), min_source(self.sources())));
                lemma_min_source_unique(self.sources(), c as int, min_source(self.sources()));
            },
            None => {
                assert(false);
            },
        }
    }

    /// Finds the live source chosen first under `(key, priority)` order.
    fn find_min_live(v: &Vec<HeapWrapper<I>>) -> (r: Option<usize>)
        requires
            forall|m: int| 0 <= m < v@.len() ==> (*#[trigger] v@[m].1).inv(),
            forall|m: int, j: int| 0 <= m < j < v@.len() ==> v@[m].0 < v@[j].0,
        ensures
            match r {
                Some(c) => (c as int) < v@.len() && is_min_source(srcs_of(v@), c as int),
                None => !some_live(srcs_of(v@)),
            },
    {
        let ghost srcs = srcs_of(v@);
        let mut best: Option<usize> = None;
        let mut m: usize = 0;
        while m < v.len()
            invariant
                forall|t: int| 0 <= t < v@.len() ==> (*#[trigger] v@[t].1).inv(),
                forall|t: int, j: int| 0 <= t < j < v@.len() ==> v@[t].0 < v@[j].0,
                srcs == srcs_of(v@),
                m <= v@.len(),
                match best {
                    Some(c) => (c as int) < m && src_live(srcs[c as int]) && forall|j: int|
                        0 <= j < m && src_live(#[trigger] srcs[j]) && j != c as int ==> src_before(
                            srcs[c as int],
                            srcs[j],
                        ),
                    None => forall|j: int| 0 <= j < m ==> !src_live(#[trigger] srcs[j]),
                },
            decreases v@.len() - m,
        {
            let valid = { let it: &I = &*v[m].1; it.is_valid() };
            if valid {
                match best {
                    None => {
                        best = Some(m);
                    },
                    Some(c) => {
                        if v[m].precedes(&v[c]) {
                            proof {
                                assert forall|j: int|
                                    0 <= j < m + 1 && src_live(#[trigger] srcs[j]) && j != m as int
                                    implies src_before(srcs[m as int], srcs[j]) by {
                                    if j != c as int {
                                        lemma_src_before_trans(
                                            srcs[m as int],
                                            srcs[c as int],
                                            srcs[j],
                                        );
                                    }
                                }
                            }
                            best = Some(m);
                        } else {
                            proof {
                                lemma_src_before_total(srcs[m as int], srcs[c as int]);
                            }
                        }
                    },
                }
            }
            m += 1;
        }
        best
    }

    /// Creates a merge over `iters`, discarding sources that are already
    /// exhausted and ranking the rest by their position: index = priority,
    /// lower = fresher.
    pub fn create(iters: Vec<Box<I>>) -> (r: Self)
        requires
            forall|i: int| 0 <= i < iters@.len() ==> (*#[trigger] iters@[i]).inv(),
        ensures
            r.wf(),
            r.sources() == init_sources(iters@),
            r.remaining() == merged(init_sources(iters@)),
    {
        let ghost orig = iters@;
        let mut input = iters;
        let mut v: Vec<HeapWrapper<I>> = Vec::new();
        proof {
            assert(orig.take(0) =~= Seq::<Box<I>>::empty());
            assert(srcs_of(v@) =~= init_sources(orig.take(0)));
        }
        while input.len() > 0
            invariant
                input@ == orig.skip(orig.len() - input@.len()),
                input@.len() <= orig.len(),
                forall|i: int| 0 <= i < orig.len() ==> (*#[trigger] orig[i]).inv(),
                srcs_of(v@) == init_sources(orig.take(orig.len() - input@.len())),
                v@.len() == live_sources(orig.take(orig.len() - input@.len())).len(),
                forall|m: int| 0 <= m < v@.len() ==> (#[trigger] v@[m]).0 == m,
                forall|m: int| 0 <= m < v@.len() ==> (*#[trigger] v@[m].1).inv(),
            decreases input@.len(),
        {
            let ghost done = orig.len() - input@.len();
            let b = input.remove(0);
            proof {
                assert(b == orig[done]);
                assert(input@ =~= orig.skip(orig.len() - input@.len()));
                assert(orig.take(done + 1).drop_last() =~= orig.take(done));
                assert(orig.take(done + 1).last() == orig[done]);
            }
            let valid = { let it: &I = &*b; it.is_valid() };
            if valid {
                let w = HeapWrapper(v.len(), b);
                let ghost v0 = v@;
                v.push(w);
                proof {
                    let t0 = orig.take(done);
                    let t1 = orig.take(done + 1);
                    assert(live_sources(t1) == live_sources(t0).push(orig[done]));
                    assert(init_sources(t1).len() == v@.len());
                    assert forall|m: int| 0 <= m < v@.len() implies srcs_of(v@)[m]
                        == init_sources(t1)[m] by {
                        if m < v0.len() {
                            assert(v@[m] == v0[m]);
                            assert(live_sources(t1)[m] == live_sources(t0)[m]);
                            assert(srcs_of(v0)[m] == init_sources(t0)[m]);
                        } else {
                            assert(live_sources(t1)[m] == orig[done]);
                            assert(v@[m] == w);
                        }
                    }
                    assert(srcs_of(v@) =~= init_sources(t1));
                }
            } else {
                proof {
                    assert(live_sources(orig.take(done + 1)) == live_sources(orig.take(done)));
                    assert(srcs_of(v@) =~= init_sources(orig.take(done + 1)));
                }
            }
        }
        proof {
            assert(orig.take(orig.len() as int) =~= orig);
        }
        let cur = Self::find_min_live(&v);
        MergeIterator { iters: v, cur }
    }

    /// Whether the merge still has an entry to give.
    pub fn is_valid(&self) -> (r: bool)
        requires
            self.wf(),
        ensures
            r == (self.remaining().len() > 0),
    {
        proof {
            self.lemma_wf_props();
            lemma_merged_empty(self.sources());
        }
        match self.cur {
            Some(_) => true,
            None => false,
        }
    }

    /// The key of the current entry: the smallest key any live source still
    /// holds. The merge must be valid.
    pub fn key(&self) -> (k: &KeyVec)
        requires
            self.wf(),
            self.remaining().len() > 0,
        ensures
            k@ == self.remaining()[0].0,
    {
        proof {
            self.lemma_wf_props();
            lemma_merged_empty(self.sources());
            self.lemma_head();
        }
        let c = self.cur.unwrap();
        let it: &I = &*self.iters[c].1;
        it.key()
    }

    /// The value of the current entry: the freshest source's value for the
    /// current key. The merge must be valid.
    pub fn value(&self) -> (v: &[u8])
        requires
            self.wf(),
            self.remaining().len() > 0,
        ensures
            v@ == self.remaining()[0].1,
    {
        proof {
            self.lemma_wf_props();
            lemma_merged_empty(self.sources());
            self.lemma_head();
        }
        let c = self.cur.unwrap();
        let it: &I = &*self.iters[c].1;
        it.value()
    }

    /// Advances the merge one entry: every other source standing on the
    /// current key is first advanced past it (so the key surfaces only
    /// once), then the current source moves on and the first choice among
    /// the live sources is selected anew. A deprioritized source that
    /// fails to advance leaves the structure and the failure propagates at
    /// once; if the current source fails, the failure propagates after the
    /// first choice is selected anew.
    pub fn next(&mut self) -> (r: Result<(), anyhow::Error>)
        requires
            old(self).wf(),
            old(self).remaining().len() > 0,
        ensures
            final(self).wf(),
            r is Ok ==> final(self).sources() == advance_key(
                old(self).sources(),
                old(self).remaining()[0].0,
            ),
            r is Ok ==> final(self).remaining() == old(self).remaining().drop_first(),
    {
        proof {
            self.lemma_wf_props();
            lemma_merged_empty(self.sources());
            self.lemma_head();
        }
        let ghost srcs0 = self.sources();
        let ghost n = self.iters@.len() as int;
        let c = self.cur.unwrap();
        let ghost k = srcs0[c as int].1[0].0;
        let curkey = {
            let it: &I = &*self.iters[c].1;
            it.key().duplicate()
        };
        // Advance every other live source standing on the current key.
        let mut m: usize = 0;
        while m < self.iters.len()
            invariant
                self.iters@.len() == n,
                self.cur == Some(c),
                (c as int) < n,
                curkey@ == k,
                k == srcs0[c as int].1[0].0,
                is_min_source(srcs0, c as int),
                srcs_sorted(srcs0),
                srcs0.len() == n,
                0 <= m as int <= n,
                forall|t: int| 0 <= t < n ==> (*#[trigger] self.iters@[t].1).inv(),
                forall|t: int, j: int| 0 <= t < j < n ==> self.iters@[t].0 < self.iters@[j].0,
                forall|t: int|
                    0 <= t < m as int && t != c as int ==> self.sources()[t] == advance_key(
                        srcs0,
                        k,
                    )[t],
                forall|t: int|
                    (m as int <= t < n || t == c as int) ==> self.sources()[t] == srcs0[t],
            decreases n - m as int,
        {
            if m != c {
                let go = {
                    let it: &I = &*self.iters[m].1;
                    it.is_valid() && it.key().is_eq(&curkey)
                };
                if go {
                    let res = {
                        let it: &mut I = &mut *self.iters[m].1;
                        it.next()
                    };
                    match res {
                        Ok(()) => {
                            proof {
                                assert(self.sources()[m as int] == advance_key(srcs0, k)[
                                    m as int
                                ]);
                            }
                        },
                        Err(e) => {
                            let ghost s_b = self.sources();
                            self.iters.remove(m);
                            let cnew = if m < c {
                                c - 1
                            } else {
                                c
                            };
                            self.cur = Some(cnew);
                            proof {
                                let s_a = self.sources();
                                assert(s_a.len() == n - 1);
                                assert(forall|t: int|
                                    0 <= t < m as int ==> s_a[t] == s_b[t]);
                                assert(forall|t: int|
                                    m as int <= t < n - 1 ==> s_a[t] == s_b[t + 1]);
                                assert(s_a[cnew as int] == srcs0[c as int]);
                                assert forall|j: int|
                                    0 <= j < s_a.len() && src_live(#[trigger] s_a[j]) && j
                                    != cnew as int implies src_before(
                                    s_a[cnew as int],
                                    s_a[j],
                                ) by {
                                    let t = if j < m as int {
                                        j
                                    } else {
                                        j + 1
                                    };
                                    assert(s_a[j] == s_b[t]);
                                    assert(t != c as int);
                                    if s_b[t] == srcs0[t] {
                                        assert(src_before(srcs0[c as int], srcs0[t]));
                                    } else {
                                        assert(s_b[t] == advance_key(srcs0, k)[t]);
                                        assert(srcs0[t].1.len() > 0 && srcs0[t].1[0].0 == k);
                                        assert(s_b[t].1 == srcs0[t].1.drop_first());
                                        assert(src_first_key(s_b[t]) == srcs0[t].1[1].0);
                                        assert(lex_lt(srcs0[t].1[0].0, srcs0[t].1[1].0));
                                    }
                                }
                                assert(is_min_source(s_a, cnew as int));
                            }
                            return Err(e);
                        },
                    }
                }
            }
            m += 1;
        }
        // Advance the current source itself.
        let res = {
            let it: &mut I = &mut *self.iters[c].1;
            it.next()
        };
        match res {
            Ok(()) => {},
            Err(e) => {
                // The current source is mid-step: select the first choice
                // among the live sources anew before propagating.
                let cur2 = Self::find_min_live(&self.iters);
                self.cur = cur2;
                return Err(e);
            },
        }
        proof {
            assert(self.sources()[c as int] == advance_key(srcs0, k)[c as int]);
            assert(self.sources() =~= advance_key(srcs0, k));
        }
        // Select the first choice among the live sources anew.
        let cur = Self::find_min_live(&self.iters);
        self.cur = cur;
        proof {
            assert(self.remaining() =~= old(self).remaining().drop_first());
        }
        Ok(())
    }
}

/// A source holds some entry with key `k`.
pub open spec fn src_has_key(s: Seq<Entry>, k: Seq<u8>) -> bool {
    exists|t: int| 0 <= t < s.len() && s[t].0 == k
}

/// The chosen source index satisfies the first-choice property.
pub proof fn lemma_min_source_props(srcs: Seq<Src>)
    requires
        pri_distinct(srcs),
        some_live(srcs),
    ensures
        is_min_source(srcs, min_source(srcs)),
{
    lemma_min_source_exists(srcs);
}

/// Advancing past a key keeps every source strictly ascending.
pub proof fn lemma_advance_sorted(srcs: Seq<Src>, k: Seq<u8>)
    requires
        srcs_sorted(srcs),
    ensures
        srcs_sorted(advance_key(srcs, k)),
{
    let adv = advance_key(srcs, k);
    assert forall|m: int| 0 <= m < adv.len() implies src_sorted(#[trigger] adv[m].1) by {
        if srcs[m].1.len() > 0 && srcs[m].1[0].0 == k {
            assert forall|a: int, b: int| 0 <= a < b < adv[m].1.len() implies lex_lt(
                adv[m].1[a].0,
                adv[m].1[b].0,
            ) by {
                assert(adv[m].1[a] == srcs[m].1[a + 1]);
                assert(adv[m].1[b] == srcs[m].1[b + 1]);
            }
        }
    }
}

/// Advancing past the chosen key strictly shrinks what is left.
pub proof fn lemma_advance_decreases(srcs: Seq<Src>, i: int)
    requires
        is_min_source(srcs, i),
    ensures
        total_len(advance_key(srcs, srcs[i].1[0].0)) < total_len(srcs),
        pri_distinct(srcs) ==> pri_distinct(advance_key(srcs, srcs[i].1[0].0)),
{
    let adv = advance_key(srcs, srcs[i].1[0].0);
    assert(forall|m: int| 0 <= m < srcs.len() ==> adv[m].1.len() <= srcs[m].1.len());
    lemma_total_len_lt(srcs, adv, i);
}

/// A lower bound below every key in every source bounds every key of the
/// merged stream.
pub proof fn lemma_merged_keys_bound(srcs: Seq<Src>, lo: Seq<u8>)
    requires
        pri_distinct(srcs),
        forall|m: int, j: int|
            0 <= m < srcs.len() && 0 <= j < srcs[m].1.len() ==> lex_lt(
                lo,
                #[trigger] srcs[m].1[j].0,
            ),
    ensures
        forall|idx: int| 0 <= idx < merged(srcs).len() ==> lex_lt(lo, #[trigger] merged(
            srcs,
        )[idx].0),
    decreases total_len(srcs),
{
    if some_live(srcs) {
        lemma_min_source_props(srcs);
        let i = min_source(srcs);
        let adv = advance_key(srcs, srcs[i].1[0].0);
        lemma_advance_decreases(srcs, i);
        assert forall|m: int, j: int|
            0 <= m < adv.len() && 0 <= j < adv[m].1.len() implies lex_lt(
            lo,
            #[trigger] adv[m].1[j].0,
        ) by {
            if srcs[m].1.len() > 0 && srcs[m].1[0].0 == srcs[i].1[0].0 {
                assert(adv[m].1[j] == srcs[m].1[j + 1]);
            } else {
                assert(adv[m].1[j] == srcs[m].1[j]);
            }
        }
        lemma_merged_keys_bound(adv, lo);
        assert forall|idx: int| 0 <= idx < merged(srcs).len() implies lex_lt(
            lo,
            #[trigger] merged(srcs)[idx].0,
        ) by {
            if idx > 0 {
                assert(merged(srcs)[idx] == merged(adv)[idx - 1]);
            }
        }
    }
}

/// Law (merge order): over sorted sources with distinct priorities, the
/// merged stream is strictly ascending in key — no key ever surfaces
/// twice.
pub proof fn lemma_merged_sorted(srcs: Seq<Src>)
    requires
        pri_distinct(srcs),
        srcs_sorted(srcs),
    ensures
        src_sorted(merged(srcs)),
    decreases total_len(srcs),
{
    if some_live(srcs) {
        lemma_min_source_props(srcs);
        let i = min_source(srcs);
        let k = srcs[i].1[0].0;
        let adv = advance_key(srcs, k);
        lemma_advance_decreases(srcs, i);
        lemma_advance_sorted(srcs, k);
        lemma_merged_sorted(adv);
        assert forall|m: int, j: int|
            0 <= m < adv.len() && 0 <= j < adv[m].1.len() implies lex_lt(
            k,
            #[trigger] adv[m].1[j].0,
        ) by {
            if srcs[m].1.len() > 0 && srcs[m].1[0].0 == k {
                assert(adv[m].1[j] == srcs[m].1[j + 1]);
                assert(lex_lt(srcs[m].1[0].0, srcs[m].1[j + 1].0));
            } else {
                assert(adv[m].1[j] == srcs[m].1[j]);
                assert(src_live(srcs[m]));
                assert(srcs[m].1[0].0 != k);
                if m != i {
                    assert(src_before(srcs[i], srcs[m]));
                    assert(lex_lt(k, srcs[m].1[0].0));
                } else {
                    assert(false);
                }
                if j > 0 {
                    assert(lex_lt(srcs[m].1[0].0, srcs[m].1[j].0));
                    lemma_lex_lt_trans(k, srcs[m].1[0].0, srcs[m].1[j].0);
                }
            }
        }
        lemma_merged_keys_bound(adv, k);
        assert forall|a: int, b: int| 0 <= a < b < merged(srcs).len() implies lex_lt(
            merged(srcs)[a].0,
            merged(srcs)[b].0,
        ) by {
            assert(merged(srcs)[b] == merged(adv)[b - 1]);
            if a > 0 {
                assert(merged(srcs)[a] == merged(adv)[a - 1]);
            } else {
                assert(merged(srcs)[0].0 == k);
            }
        }
    }
}

/// Law (merge totality): every key any source still holds surfaces in the
/// merged stream.
pub proof fn lemma_merged_complete(srcs: Seq<Src>, m: int, j: int)
    requires
        pri_distinct(srcs),
        srcs_sorted(srcs),
        0 <= m < srcs.len(),
        0 <= j < srcs[m].1.len(),
    ensures
        exists|idx: int|
            0 <= idx < merged(srcs).len() && #[trigger] merged(srcs)[idx].0 == srcs[m].1[j].0,
    decreases total_len(srcs),
{
    let k0 = srcs[m].1[j].0;
    assert(some_live(srcs));
    lemma_min_source_props(srcs);
    let i = min_source(srcs);
    let k = srcs[i].1[0].0;
    if k0 == k {
        assert(merged(srcs)[0].0 == k0);
    } else {
        let adv = advance_key(srcs, k);
        lemma_advance_decreases(srcs, i);
        lemma_advance_sorted(srcs, k);
        let jj = if srcs[m].1[0].0 == k {
            j - 1
        } else {
            j
        };
        if srcs[m].1[0].0 == k {
            assert(j != 0);
            assert(adv[m].1[jj] == srcs[m].1[j]);
        } else {
            assert(adv[m].1[jj] == srcs[m].1[j]);
        }
        lemma_merged_complete(adv, m, jj);
        let idx = choose|idx: int|
            0 <= idx < merged(adv).len() && #[trigger] merged(adv)[idx].0 == adv[m].1[jj].0;
        assert(merged(srcs)[idx + 1].0 == k0);
    }
}

/// Law (priority tie-break): an entry whose source is fresher — of
/// strictly smaller priority — than every other source holding its key
/// surfaces in the merged stream exactly as that source holds it.
pub proof fn lemma_merged_tiebreak(srcs: Seq<Src>, m: int, j: int)
    requires
        pri_distinct(srcs),
        srcs_sorted(srcs),
        0 <= m < srcs.len(),
        0 <= j < srcs[m].1.len(),
        forall|t: int|
            0 <= t < srcs.len() && t != m && src_has_key(#[trigger] srcs[t].1, srcs[m].1[j].0)
                ==> srcs[m].0 < srcs[t].0,
    ensures
        exists|idx: int|
            0 <= idx < merged(srcs).len() && #[trigger] merged(srcs)[idx] == srcs[m].1[j],
    decreases total_len(srcs),
{
    let e = srcs[m].1[j];
    let k0 = e.0;
    assert(some_live(srcs));
    lemma_min_source_props(srcs);
    let i = min_source(srcs);
    let k = srcs[i].1[0].0;
    if k0 == k {
        if i != m {
            assert(srcs[i].1[0].0 == k0);
            assert(src_has_key(srcs[i].1, k0));
            assert(srcs[m].0 < srcs[i].0);
            assert(src_before(srcs[i], srcs[m]));
            if lex_lt(srcs[i].1[0].0, srcs[m].1[0].0) {
                // the first key of the holder cannot lie above k0
                if j > 0 {
                    assert(lex_lt(srcs[m].1[0].0, srcs[m].1[j].0));
                    lemma_lex_lt_trans(k0, srcs[m].1[0].0, srcs[m].1[j].0);
                    lemma_lex_lt_irrefl(k0);
                } else {
                    lemma_lex_lt_irrefl(k0);
                }
            }
            assert(false);
        }
        if j > 0 {
            assert(lex_lt(srcs[m].1[0].0, srcs[m].1[j].0));
            lemma_lex_lt_irrefl(k0);
        }
        assert(merged(srcs)[0] == e);
    } else {
        let adv = advance_key(srcs, k);
        lemma_advance_decreases(srcs, i);
        lemma_advance_sorted(srcs, k);
        let jj = if srcs[m].1[0].0 == k {
            j - 1
        } else {
            j
        };
        if srcs[m].1[0].0 == k {
            assert(j != 0);
            assert(adv[m].1[jj] == srcs[m].1[j]);
        } else {
            assert(adv[m].1[jj] == srcs[m].1[j]);
        }
        assert forall|t: int|
            0 <= t < adv.len() && t != m && src_has_key(#[trigger] adv[t].1, k0) implies adv[m].0
            < adv[t].0 by {
            let u = choose|u: int| 0 <= u < adv[t].1.len() && adv[t].1[u].0 == k0;
            if srcs[t].1.len() > 0 && srcs[t].1[0].0 == k {
                assert(adv[t].1[u] == srcs[t].1[u + 1]);
                assert(src_has_key(srcs[t].1, k0));
            } else {
                assert(adv[t].1[u] == srcs[t].1[u]);
                assert(src_has_key(srcs[t].1, k0));
            }
        }
        lemma_merged_tiebreak(adv, m, jj);
        let idx = choose|idx: int|
            0 <= idx < merged(adv).len() && #[trigger] merged(adv)[idx] == adv[m].1[jj];
        assert(merged(srcs)[idx + 1] == e);
    }
}

/// Entry `e` stands in one of the sources.
pub open spec fn in_sources(srcs: Seq<Src>, e: Entry) -> bool {
    exists|m: int, j: int| 0 <= m < srcs.len() && 0 <= j < srcs[m].1.len() && srcs[m].1[j] == e
}

/// Law (no invention): everything the merged stream emits is an entry of
/// one of the sources.
pub proof fn lemma_merged_membership(srcs: Seq<Src>)
    requires
        pri_distinct(srcs),
    ensures
        forall|idx: int| 0 <= idx < merged(srcs).len() ==> in_sources(srcs, #[trigger] merged(
            srcs,
        )[idx]),
    decreases total_len(srcs),
{
    if some_live(srcs) {
        lemma_min_source_props(srcs);
        let i = min_source(srcs);
        let adv = advance_key(srcs, srcs[i].1[0].0);
        lemma_advance_decreases(srcs, i);
        lemma_merged_membership(adv);
        assert forall|idx: int| 0 <= idx < merged(srcs).len() implies in_sources(
            srcs,
            #[trigger] merged(srcs)[idx],
        ) by {
            if idx == 0 {
                assert(merged(srcs)[0] == srcs[i].1[0]);
            } else {
                let e = merged(srcs)[idx];
                assert(e == merged(adv)[idx - 1]);
                assert(in_sources(adv, e));
                let (m, j): (int, int) = choose|m: int, j: int|
                    0 <= m < adv.len() && 0 <= j < adv[m].1.len() && adv[m].1[j] == e;
                if srcs[m].1.len() > 0 && srcs[m].1[0].0 == srcs[i].1[0].0 {
                    assert(srcs[m].1[j + 1] == e);
                } else {
                    assert(srcs[m].1[j] == e);
                }
            }
        }
    }
}

impl<I: StorageIterator> StorageIterator for MergeIterator<I> {
    open spec fn entries(&self) -> Seq<Entry> {
        self.remaining()
    }

    open spec fn inv(&self) -> bool {
        self.wf()
    }

    proof fn lemma_sorted(&self) {
        self.lemma_wf_props();
        lemma_merged_sorted(self.sources());
        assert forall|m: int, j: int|
            0 <= m < self.sources().len() && 0 <= j < self.sources()[m].1.len() implies lex_lt(
            Seq::<u8>::empty(),
            #[trigger] self.sources()[m].1[j].0,
        ) by {
            (*self.iters@[m].1).lemma_sorted();
            assert(self.sources()[m].1[j].0.len() > 0);
        }
        lemma_merged_keys_bound(self.sources(), Seq::empty());
        assert forall|i: int| 0 <= i < self.remaining().len() implies self.remaining()[i].0.len()
            > 0 by {
            assert(lex_lt(Seq::<u8>::empty(), self.remaining()[i].0));
        }
    }

    fn is_valid(&self) -> (r: bool) {
        MergeIterator::is_valid(self)
    }

    fn key(&self) -> (k: &KeyVec) {
        MergeIterator::key(self)
    }

    fn value(&self) -> (v: &[u8]) {
        MergeIterator::value(self)
    }

    fn next(&mut self) -> (r: Result<(), anyhow::Error>) {
        MergeIterator::next(self)
    }
}

} // verus!
