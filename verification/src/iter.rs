//! Iteration over sorted entries: forward, seekable and rewindable layers,
//! and a k-way merging iterator that yields the globally sorted merge of its
//! children.

use vstd::prelude::*;

use vstd::multiset::Multiset;

use crate::data::OrderedKey;

verus! {

/// The views of a sequence of entries.
pub open spec fn seq_view<K: View, V: View>(s: Seq<(K, V)>) -> Seq<(K::V, V::V)> {
    s.map_values(|e: (K, V)| e@)
}

/// Entry views weakly ascending in key order: no later key is strictly below
/// an earlier one.
pub open spec fn sorted_le<K: OrderedKey, V: View>(s: Seq<(K::V, V::V)>) -> bool {
    forall|i: int, j: int|
        0 <= i < j < s.len() ==> !K::lt_view(#[trigger] s[j].0, #[trigger] s[i].0)
}

/// Entry views strictly ascending in key order.
pub open spec fn sorted_lt<K: OrderedKey, V: View>(s: Seq<(K::V, V::V)>) -> bool {
    forall|i: int, j: int| 0 <= i < j < s.len() ==> K::lt_view(#[trigger] s[i].0, #[trigger] s[j].0)
}

/// A strictly sorted sequence is weakly sorted.
pub proof fn lemma_sorted_lt_le<K: OrderedKey, V: View>(s: Seq<(K::V, V::V)>)
    requires
        sorted_lt::<K, V>(s),
    ensures
        sorted_le::<K, V>(s),
{
    assert forall|i: int, j: int|
        0 <= i < j < s.len() implies !K::lt_view(#[trigger] s[j].0, #[trigger] s[i].0) by {
        K::lemma_strict_order(s[i].0, s[j].0, s[j].0);
    }
}

/// An iterator over entries that remembers the entry it returned last.
///
/// `all` is the whole sequence the iterator ranges over, as views; `pos`
/// counts the entries already returned; `has_cur` says whether the entry at
/// `pos - 1` is at hand.
pub trait ForwardIter<K: OrderedKey, V: View>: Sized {
    spec fn all(&self) -> Seq<(K::V, V::V)>;

    spec fn pos(&self) -> int;

    spec fn has_cur(&self) -> bool;

    spec fn inv(&self) -> bool;

    /// The position stays within the sequence.
    proof fn lemma_inv(&self)
        requires
            self.inv(),
        ensures
            0 <= self.pos() <= self.all().len(),
            self.has_cur() ==> 1 <= self.pos(),
    ;

    /// Returns the last entry.
    fn last(&self) -> (r: Option<&(K, V)>)
        requires
            self.inv(),
        ensures
            match r {
                Some(e) => self.has_cur() && 1 <= self.pos() <= self.all().len() && e@
                    == self.all()[self.pos() - 1],
                None => !self.has_cur(),
            },
    ;

    /// Advances to the next entry and returns it.
    fn next(&mut self) -> (r: Option<&(K, V)>)
        requires
            old(self).inv(),
        ensures
            final(self).inv(),
            final(self).all() == old(self).all(),
            old(self).pos() < old(self).all().len() ==> final(self).pos() == old(self).pos() + 1
                && final(self).has_cur(),
            old(self).pos() >= old(self).all().len() ==> final(self).pos() == old(self).pos()
                && !final(self).has_cur(),
            match r {
                Some(e) => old(self).pos() < old(self).all().len() && e@ == old(self).all()[old(
                    self,
                ).pos()],
                None => old(self).pos() >= old(self).all().len(),
            },
    ;
}

/// An iterator that can jump to the first entry at or after a target key.
/// When its data is ordered (`seek_ready`), a seek leaves everything below
/// the target behind the position and everything at or above it from the
/// position on.
pub trait SeekableIter<K: OrderedKey, V: View>: ForwardIter<K, V> {
    /// Whether the data the iterator ranges over is ordered, so a seek can
    /// position exactly.
    spec fn seek_ready(&self) -> bool;

    /// Positions the next entry at or after the target.
    fn seek(&mut self, target: &K)
        requires
            old(self).inv(),
        ensures
            final(self).inv(),
            !final(self).has_cur(),
            old(self).seek_ready() ==> 0 <= final(self).pos() <= final(self).all().len(),
            (old(self).seek_ready() ==> forall|i: int|
                0 <= i < final(self).pos() ==> K::lt_view(
                    (#[trigger] final(self).all()[i]).0,
                    target@,
                )),
            (old(self).seek_ready() ==> forall|i: int|
                final(self).pos() <= i < final(self).all().len() ==> !K::lt_view(
                    (#[trigger] final(self).all()[i]).0,
                    target@,
                )),
    ;
}

/// An iterator that can start over.
///
/// `reset_all` is the sequence the iterator ranges over once rewound; a
/// rewound iterator replays exactly that sequence, and rewinding twice
/// replays the same sequence twice.
pub trait RewindableIter<K: OrderedKey, V: View>: ForwardIter<K, V> {
    spec fn reset_all(&self) -> Seq<(K::V, V::V)>;

    /// Positions the next entry at the beginning.
    fn rewind(&mut self)
        requires
            old(self).inv(),
        ensures
            final(self).inv(),
            final(self).pos() == 0,
            !final(self).has_cur(),
            final(self).all() == old(self).reset_all(),
            final(self).reset_all() == old(self).reset_all(),
    ;
}

/// Rewinding replays the same sequence: two states reached by rewinding the
/// same iterator range over equal sequences, entry for entry.
pub proof fn lemma_rewind_replay<K: OrderedKey, V: View, I: RewindableIter<K, V>>(
    before: I,
    once: I,
    twice: I,
)
    requires
        once.all() == before.reset_all(),
        once.reset_all() == before.reset_all(),
        twice.all() == once.reset_all(),
    ensures
        twice.all() == once.all(),
        forall|i: int| 0 <= i < once.all().len() ==> twice.all()[i] == once.all()[i],
{
}

/// A wrapper that iterates over a borrowed vector of entries.
pub struct SliceIter<'a, K, V> {
    data: &'a Vec<(K, V)>,
    idx: usize,
    has: bool,
}

impl<'a, K: OrderedKey, V: View> SliceIter<'a, K, V> {
    pub fn new(data: &'a Vec<(K, V)>) -> (r: SliceIter<'a, K, V>)
        ensures
            r.inv(),
            r.all() == seq_view(data@),
            r.pos() == 0,
            !r.has_cur(),
            r.reset_all() == seq_view(data@),
    {
        SliceIter { data, idx: 0, has: false }
    }

    /// Jumps to the first entry whose key is at or after the target,
    /// assuming the entries are sorted.
    pub fn seek_sorted(&mut self, target: &K)
        requires
            old(self).inv(),
            sorted_le::<K, V>(old(self).all()),
        ensures
            final(self).inv(),
            final(self).all() == old(self).all(),
            final(self).reset_all() == old(self).reset_all(),
            !final(self).has_cur(),
            0 <= final(self).pos() <= final(self).all().len(),
            forall|i: int|
                0 <= i < final(self).pos() ==> K::lt_view(
                    #[trigger] final(self).all()[i].0,
                    target@,
                ),
            forall|i: int|
                final(self).pos() <= i < final(self).all().len() ==> !K::lt_view(
                    #[trigger] final(self).all()[i].0,
                    target@,
                ),
    {
        let r = binary_rank::<K, V>(self.data, target);
        self.idx = r;
        self.has = false;
    }
}

/// The first position in sorted `data` whose key is at or after `target`.
pub fn binary_rank<K: OrderedKey, V: View>(data: &Vec<(K, V)>, target: &K) -> (r: usize)
    requires
        sorted_le::<K, V>(seq_view(data@)),
    ensures
        0 <= r <= data@.len(),
        forall|i: int| 0 <= i < r ==> K::lt_view(#[trigger] seq_view(data@)[i].0, target@),
        forall|i: int|
            r <= i < data@.len() ==> !K::lt_view(#[trigger] seq_view(data@)[i].0, target@),
{
    let ghost s = seq_view(data@);
    let mut lo: usize = 0;
    let mut hi: usize = data.len();
    while lo < hi
        invariant
            0 <= lo <= hi <= s.len(),
            s == seq_view(data@),
            sorted_le::<K, V>(s),
            forall|i: int| 0 <= i < lo ==> K::lt_view(#[trigger] s[i].0, target@),
            forall|i: int| hi <= i < s.len() ==> !K::lt_view(#[trigger] s[i].0, target@),
        decreases hi - lo,
    {
        let mid = lo + (hi - lo) / 2;
        let e = &data[mid];
        if e.0.key_lt(target) {
            proof {
                assert forall|i: int| 0 <= i < mid + 1 implies K::lt_view(
                    #[trigger] s[i].0,
                    target@,
                ) by {
                    if i < mid {
                        K::lemma_strict_order(s[i].0, s[mid as int].0, target@);
                        K::lemma_strict_order(s[mid as int].0, s[i].0, target@);
                        if K::lt_view(s[i].0, target@) {
                        } else {
                            K::lemma_strict_order(target@, s[i].0, s[mid as int].0);
                        }
                    }
                }
            }
            lo = mid + 1;
        } else {
            proof {
                assert forall|i: int| mid <= i < s.len() implies !K::lt_view(
                    #[trigger] s[i].0,
                    target@,
                ) by {
                    if i > mid {
                        K::lemma_strict_order(s[i].0, s[mid as int].0, target@);
                    }
                }
            }
            hi = mid;
        }
    }
    lo
}

impl<'a, K: OrderedKey, V: View> ForwardIter<K, V> for SliceIter<'a, K, V> {
    closed spec fn all(&self) -> Seq<(K::V, V::V)> {
        seq_view(self.data@)
    }

    closed spec fn pos(&self) -> int {
        self.idx as int
    }

    closed spec fn has_cur(&self) -> bool {
        self.has
    }

    closed spec fn inv(&self) -> bool {
        self.idx <= self.data@.len() && (self.has ==> 1 <= self.idx)
    }

    proof fn lemma_inv(&self) {
    }

    fn last(&self) -> (r: Option<&(K, V)>) {
        if self.has {
            Some(&self.data[self.idx - 1])
        } else {
            None
        }
    }

    fn next(&mut self) -> (r: Option<&(K, V)>) {
        if self.idx < self.data.len() {
            let i = self.idx;
            self.idx = self.idx + 1;
            self.has = true;
            Some(&self.data[i])
        } else {
            self.has = false;
            None
        }
    }
}

impl<'a, K: OrderedKey, V: View> SeekableIter<K, V> for SliceIter<'a, K, V> {
    closed spec fn seek_ready(&self) -> bool {
        sorted_le::<K, V>(seq_view(self.data@))
    }

    fn seek(&mut self, target: &K) {
        let r = binary_rank_any::<K, V>(self.data, target);
        self.idx = r;
        self.has = false;
    }
}

/// A rank computed on entries that need not be sorted; on sorted entries it
/// is the position of the first entry at or after the target.
pub fn binary_rank_any<K: OrderedKey, V: View>(data: &Vec<(K, V)>, target: &K) -> (r: usize)
    ensures
        0 <= r <= data@.len(),
        (sorted_le::<K, V>(seq_view(data@)) ==> forall|i: int|
            0 <= i < r ==> K::lt_view((#[trigger] seq_view(data@)[i]).0, target@)),
        (sorted_le::<K, V>(seq_view(data@)) ==> forall|i: int|
            r <= i < data@.len() ==> !K::lt_view((#[trigger] seq_view(data@)[i]).0, target@)),
{
    let ghost s = seq_view(data@);
    let mut lo: usize = 0;
    let mut hi: usize = data.len();
    while lo < hi
        invariant
            0 <= lo <= hi <= data@.len(),
            s == seq_view(data@),
            (sorted_le::<K, V>(s) ==> forall|i: int|
                0 <= i < lo ==> K::lt_view((#[trigger] s[i]).0, target@)),
            (sorted_le::<K, V>(s) ==> forall|i: int|
                hi <= i < s.len() ==> !K::lt_view((#[trigger] s[i]).0, target@)),
        decreases hi - lo,
    {
        let mid = lo + (hi - lo) / 2;
        let e = &data[mid];
        if e.0.key_lt(target) {
            proof {
                if sorted_le::<K, V>(s) {
                    assert(s[mid as int].0 == e.0@);
                    assert forall|i: int| 0 <= i < mid + 1 implies K::lt_view(
                        (#[trigger] s[i]).0,
                        target@,
                    ) by {
                        if i < mid {
                            assert(!K::lt_view(s[mid as int].0, s[i].0));
                            K::lemma_strict_order(s[mid as int].0, s[i].0, target@);
                        } else {
                            assert(s[i].0 == e.0@);
                        }
                    }
                }
            }
            lo = mid + 1;
        } else {
            proof {
                if sorted_le::<K, V>(s) {
                    assert forall|i: int| mid <= i < s.len() implies !K::lt_view(
                        (#[trigger] s[i]).0,
                        target@,
                    ) by {
                        if i > mid {
                            K::lemma_strict_order(s[i].0, s[mid as int].0, target@);
                        }
                    }
                }
            }
            hi = mid;
        }
    }
    lo
}

impl<'a, K: OrderedKey, V: View> RewindableIter<K, V> for SliceIter<'a, K, V> {
    closed spec fn reset_all(&self) -> Seq<(K::V, V::V)> {
        seq_view(self.data@)
    }

    fn rewind(&mut self) {
        self.idx = 0;
        self.has = false;
    }
}

/// A wrapper that turns an optional entry into a rewindable iterator.
pub struct OptionIter<K, V> {
    item: Option<(K, V)>,
    taken: bool,
    has: bool,
}

impl<K: OrderedKey, V: View> OptionIter<K, V> {
    pub fn new(item: Option<(K, V)>) -> (r: OptionIter<K, V>)
        ensures
            r.inv(),
            r.pos() == 0,
            !r.has_cur(),
            r.all() == match item {
                Some(e) => seq![e@],
                None => Seq::<(K::V, V::V)>::empty(),
            },
            r.reset_all() == r.all(),
    {
        OptionIter { item, taken: false, has: false }
    }
}

impl<K: OrderedKey, V: View> ForwardIter<K, V> for OptionIter<K, V> {
    closed spec fn all(&self) -> Seq<(K::V, V::V)> {
        match self.item {
            Some(e) => seq![e@],
            None => Seq::empty(),
        }
    }

    closed spec fn pos(&self) -> int {
        if self.taken {
            1
        } else {
            0
        }
    }

    closed spec fn has_cur(&self) -> bool {
        self.has
    }

    closed spec fn inv(&self) -> bool {
        (self.taken ==> self.item is Some) && (self.has ==> self.taken)
    }

    proof fn lemma_inv(&self) {
    }

    fn last(&self) -> (r: Option<&(K, V)>) {
        if self.has {
            self.item.as_ref()
        } else {
            None
        }
    }

    fn next(&mut self) -> (r: Option<&(K, V)>) {
        if self.taken {
            self.has = false;
            return None;
        }
        match &self.item {
            Some(_) => {
                self.taken = true;
                self.has = true;
                self.item.as_ref()
            },
            None => {
                self.has = false;
                None
            },
        }
    }
}

impl<K: OrderedKey, V: View> RewindableIter<K, V> for OptionIter<K, V> {
    closed spec fn reset_all(&self) -> Seq<(K::V, V::V)> {
        self.all()
    }

    fn rewind(&mut self) {
        self.taken = false;
        self.has = false;
    }
}


/// Positions into a family of sequences: one cursor per sequence, each
/// within bounds.
pub open spec fn poss_wf<K: OrderedKey, V: View>(
    seqs: Seq<Seq<(K::V, V::V)>>,
    poss: Seq<int>,
) -> bool {
    poss.len() == seqs.len() && forall|j: int|
        0 <= j < poss.len() ==> 0 <= #[trigger] poss[j] <= seqs[j].len()
}

/// The entries of the family that the cursors have not passed yet, counted
/// over the first `n` sequences.
pub open spec fn rem_total<K: OrderedKey, V: View>(
    seqs: Seq<Seq<(K::V, V::V)>>,
    poss: Seq<int>,
    n: int,
) -> int
    decreases n,
{
    if n <= 0 {
        0
    } else {
        rem_total::<K, V>(seqs, poss, n - 1) + (seqs[n - 1].len() - poss[n - 1])
    }
}

/// Advancing one live cursor drops the remaining count by one.
pub proof fn lemma_rem_total_update<K: OrderedKey, V: View>(
    seqs: Seq<Seq<(K::V, V::V)>>,
    poss: Seq<int>,
    i: int,
    n: int,
)
    requires
        0 <= i < poss.len(),
        poss.len() == seqs.len(),
        n <= poss.len(),
    ensures
        rem_total::<K, V>(seqs, poss.update(i, poss[i] + 1), n) == if i < n {
            rem_total::<K, V>(seqs, poss, n) - 1
        } else {
            rem_total::<K, V>(seqs, poss, n)
        },
    decreases n,
{
    if n > 0 {
        lemma_rem_total_update::<K, V>(seqs, poss, i, n - 1);
        let up = poss.update(i, poss[i] + 1);
        assert(up[n - 1] == if i == n - 1 {
            poss[i] + 1
        } else {
            poss[n - 1]
        });
    }
}

/// The remaining count is non-negative.
pub proof fn lemma_rem_total_nonneg<K: OrderedKey, V: View>(
    seqs: Seq<Seq<(K::V, V::V)>>,
    poss: Seq<int>,
    n: int,
)
    requires
        poss_wf::<K, V>(seqs, poss),
        n <= poss.len(),
    ensures
        rem_total::<K, V>(seqs, poss, n) >= 0,
    decreases n,
{
    if n > 0 {
        lemma_rem_total_nonneg::<K, V>(seqs, poss, n - 1);
    }
}

/// The first cursor among the first `n` whose head key is minimal, scanning
/// left to right and replacing the candidate only on a strictly smaller key;
/// `-1` when every cursor is exhausted.
pub open spec fn scan_min<K: OrderedKey, V: View>(
    seqs: Seq<Seq<(K::V, V::V)>>,
    poss: Seq<int>,
    n: int,
) -> int
    decreases n,
{
    if n <= 0 {
        -1
    } else {
        let p = scan_min::<K, V>(seqs, poss, n - 1);
        if !(poss[n - 1] < seqs[n - 1].len()) {
            p
        } else if p < 0 {
            n - 1
        } else if K::lt_view(seqs[n - 1][poss[n - 1]].0, seqs[p][poss[p]].0) {
            n - 1
        } else {
            p
        }
    }
}

/// What the scan finds: a live cursor whose head no other live cursor beats.
pub proof fn lemma_scan_min<K: OrderedKey, V: View>(
    seqs: Seq<Seq<(K::V, V::V)>>,
    poss: Seq<int>,
    n: int,
)
    requires
        poss_wf::<K, V>(seqs, poss),
        n <= poss.len(),
    ensures
        scan_min::<K, V>(seqs, poss, n) < 0 ==> forall|j: int|
            0 <= j < n ==> !(#[trigger] poss[j] < seqs[j].len()),
        scan_min::<K, V>(seqs, poss, n) >= 0 ==> {
            let i = scan_min::<K, V>(seqs, poss, n);
            0 <= i < n && poss[i] < seqs[i].len() && forall|j: int|
                0 <= j < n && #[trigger] poss[j] < seqs[j].len() ==> !K::lt_view(
                    seqs[j][poss[j]].0,
                    seqs[i][poss[i]].0,
                )
        },
    decreases n,
{
    if n > 0 {
        lemma_scan_min::<K, V>(seqs, poss, n - 1);
        let p = scan_min::<K, V>(seqs, poss, n - 1);
        let i = scan_min::<K, V>(seqs, poss, n);
        if i >= 0 {
            assert forall|j: int|
                0 <= j < n && #[trigger] poss[j] < seqs[j].len() implies !K::lt_view(
                seqs[j][poss[j]].0,
                seqs[i][poss[i]].0,
            ) by {
                if j < n - 1 {
                    assert(poss[j] < seqs[j].len());
                    assert(p >= 0);
                    assert(!K::lt_view(seqs[j][poss[j]].0, seqs[p][poss[p]].0));
                    if i == n - 1 {
                        K::lemma_strict_order(
                            seqs[j][poss[j]].0,
                            seqs[n - 1][poss[n - 1]].0,
                            seqs[p][poss[p]].0,
                        );
                    }
                } else {
                    K::lemma_strict_order(
                        seqs[n - 1][poss[n - 1]].0,
                        seqs[n - 1][poss[n - 1]].0,
                        seqs[n - 1][poss[n - 1]].0,
                    );
                }
            }
        }
    }
}

#[via_fn]
proof fn merge_from_decreases<K: OrderedKey, V: View>(seqs: Seq<Seq<(K::V, V::V)>>, poss: Seq<int>) {
    let n = seqs.len() as int;
    lemma_rem_total_nonneg::<K, V>(seqs, poss, n);
    let i = scan_min::<K, V>(seqs, poss, n);
    if i >= 0 {
        lemma_scan_min::<K, V>(seqs, poss, n);
        lemma_rem_total_update::<K, V>(seqs, poss, i, n);
        let up = poss.update(i, poss[i] + 1);
        assert(poss_wf::<K, V>(seqs, up));
        lemma_rem_total_nonneg::<K, V>(seqs, up, n);
    }
}

/// The k-way merge of the family read from the given cursors: repeatedly
/// emit the head of the first cursor with a minimal key.
pub open spec fn merge_from<K: OrderedKey, V: View>(
    seqs: Seq<Seq<(K::V, V::V)>>,
    poss: Seq<int>,
) -> Seq<(K::V, V::V)>
    decreases rem_total::<K, V>(seqs, poss, seqs.len() as int)
        when poss_wf::<K, V>(seqs, poss)
        via merge_from_decreases::<K, V>
{
    let i = scan_min::<K, V>(seqs, poss, seqs.len() as int);
    if i < 0 {
        Seq::empty()
    } else {
        seq![seqs[i][poss[i]]] + merge_from::<K, V>(seqs, poss.update(i, poss[i] + 1))
    }
}


/// An entry of the remaining-entries union comes from some cursor's
/// remainder.
pub proof fn lemma_rem_msets_member<K: OrderedKey, V: View>(
    seqs: Seq<Seq<(K::V, V::V)>>,
    poss: Seq<int>,
    n: int,
    e: (K::V, V::V),
)
    requires
        poss_wf::<K, V>(seqs, poss),
        n <= poss.len(),
        rem_msets::<K, V>(seqs, poss, n).count(e) > 0,
    ensures
        exists|j: int| 0 <= j < n && (#[trigger] seqs[j]).skip(poss[j]).contains(e),
    decreases n,
{
    broadcast use vstd::seq_lib::group_to_multiset_ensures;

    if n > 0 {
        if seqs[n - 1].skip(poss[n - 1]).to_multiset().count(e) > 0 {
            assert(seqs[n - 1].skip(poss[n - 1]).contains(e));
        } else {
            lemma_rem_msets_member::<K, V>(seqs, poss, n - 1, e);
        }
    }
}

/// An iterator that merges the entries of several child iterators in
/// ascending key order; children are primed lazily on the first `next`.
pub struct MergingIter<K: OrderedKey, V: View, I: ForwardIter<K, V>> {
    children: Vec<I>,
    cur: usize,
    primed: bool,
    base: Ghost<Seq<int>>,
    epos: Ghost<int>,
    _marker: core::marker::PhantomData<(K, V)>,
}

impl<K: OrderedKey, V: View, I: ForwardIter<K, V>> MergingIter<K, V, I> {
    /// The child iterators.
    pub closed spec fn children_view(&self) -> Seq<I> {
        self.children@
    }

    /// The children's whole sequences.
    pub closed spec fn alls(&self) -> Seq<Seq<(K::V, V::V)>> {
        Seq::new(self.children@.len() as nat, |j: int| self.children@[j].all())
    }

    /// Cursors at the next entry each child has not emitted, counting the
    /// top child's entry at hand as emitted.
    pub closed spec fn frontier(&self) -> Seq<int> {
        Seq::new(
            self.children@.len() as nat,
            |j: int|
                if self.children@[j].has_cur() && !(self.primed && j == self.cur) {
                    self.children@[j].pos() - 1
                } else {
                    self.children@[j].pos()
                },
        )
    }

    /// Cursors counting every entry at hand as pending.
    pub closed spec fn pending(&self) -> Seq<int> {
        Seq::new(
            self.children@.len() as nat,
            |j: int|
                if self.children@[j].has_cur() {
                    self.children@[j].pos() - 1
                } else {
                    self.children@[j].pos()
                },
        )
    }

    pub closed spec fn children_ok(&self) -> bool {
        let n = self.children@.len() as int;
        &&& self.base@.len() == n
        &&& (forall|j: int| 0 <= j < n ==> (#[trigger] self.children@[j]).inv())
        &&& (forall|j: int|
            0 <= j < n ==> 0 <= #[trigger] self.base@[j] <= self.children@[j].pos()
                <= self.children@[j].all().len())
        &&& (forall|j: int|
            0 <= j < n ==> ((#[trigger] self.children@[j]).has_cur() ==> self.base@[j]
                < self.children@[j].pos()))
    }

    pub closed spec fn merging_inv(&self) -> bool {
        let n = self.children@.len() as int;
        &&& self.children_ok()
        &&& if !self.primed {
            &&& (forall|j: int|
                0 <= j < n ==> !(#[trigger] self.children@[j]).has_cur()
                    && self.children@[j].pos() == self.base@[j])
            &&& self.epos@ == 0
        } else {
            &&& (forall|j: int|
                0 <= j < n ==> ((#[trigger] self.children@[j]).has_cur()
                    || self.children@[j].pos() == self.children@[j].all().len()))
            &&& self.cur <= n
            &&& (self.cur < n ==> self.children@[self.cur as int].has_cur())
            &&& (self.cur == n ==> forall|j: int|
                0 <= j < n ==> !(#[trigger] self.children@[j]).has_cur())
            &&& (self.cur < n ==> self.epos@ >= 1 && 0 <= self.epos@ - 1
                < merge_from::<K, V>(self.alls(), self.base@).len() && merge_from::<K, V>(
                self.alls(),
                self.base@,
            )[self.epos@ - 1] == self.children@[self.cur as int].all()[self.children@[self.cur as int].pos()
                - 1])
        }
        &&& 0 <= self.epos@ <= merge_from::<K, V>(self.alls(), self.base@).len()
        &&& merge_from::<K, V>(self.alls(), self.base@).skip(self.epos@) == merge_from::<K, V>(
            self.alls(),
            self.frontier(),
        )
    }

    /// Builds a merging iterator over the given children, each positioned
    /// where it stands.
    pub fn new(children: Vec<I>) -> (r: MergingIter<K, V, I>)
        requires
            forall|j: int|
                0 <= j < children@.len() ==> (#[trigger] children@[j]).inv() && !children@[j].has_cur(),
        ensures
            r.inv(),
            r.pos() == 0,
            !r.has_cur(),
            r.all() == merge_from::<K, V>(
                Seq::new(children@.len() as nat, |j: int| children@[j].all()),
                Seq::new(children@.len() as nat, |j: int| children@[j].pos()),
            ),
            r.children_view() == children@,
    {
        let ghost base = Seq::new(children@.len() as nat, |j: int| children@[j].pos());
        let r = MergingIter {
            children,
            cur: 0,
            primed: false,
            base: Ghost(base),
            epos: Ghost(0),
            _marker: core::marker::PhantomData,
        };
        proof {
            let n = r.children@.len() as int;
            assert forall|j: int| 0 <= j < n implies 0 <= #[trigger] r.base@[j]
                <= r.children@[j].pos() <= r.children@[j].all().len() by {
                r.children@[j].lemma_inv();
            }
            assert(r.frontier() =~= r.base@);
            assert(merge_from::<K, V>(r.alls(), r.base@).skip(0) =~= merge_from::<K, V>(
                r.alls(),
                r.frontier(),
            ));
        }
        r
    }

    /// Advances every child once so each holds its first pending entry.
    fn init_heap(&mut self)
        requires
            old(self).inv(),
            !old(self).primed,
        ensures
            final(self).children_ok(),
            final(self).primed,
            final(self).alls() == old(self).alls(),
            final(self).base@ == old(self).base@,
            final(self).epos@ == old(self).epos@,
            final(self).pending() =~= old(self).base@,
            forall|j: int|
                0 <= j < final(self).children@.len() ==> ((#[trigger] final(self).children@[j]).has_cur()
                    || final(self).children@[j].pos() == final(self).children@[j].all().len()),
            ({
                let n = final(self).children@.len() as int;
                let sm = scan_min::<K, V>(final(self).alls(), final(self).pending(), n);
                (sm < 0 ==> final(self).cur == n) && (sm >= 0 ==> final(self).cur == sm)
            }),
    {
        let n = self.children.len();
        let mut j: usize = 0;
        while j < n
            invariant
                n == self.children@.len(),
                0 <= j <= n,
                self.base@.len() == n,
                !self.primed,
                forall|k: int| 0 <= k < n ==> (#[trigger] self.children@[k]).inv(),
                forall|k: int|
                    0 <= k < n ==> #[trigger] self.children@[k].all() == old(
                        self,
                    ).children@[k].all(),
                self.base@ == old(self).base@,
                self.epos@ == old(self).epos@,
                self.cur == old(self).cur,
                forall|k: int|
                    j <= k < n ==> !(#[trigger] self.children@[k]).has_cur()
                        && self.children@[k].pos() == self.base@[k],
                forall|k: int|
                    0 <= k < j ==> {
                        let c = #[trigger] self.children@[k];
                        &&& 0 <= self.base@[k] <= c.pos() <= c.all().len()
                        &&& (c.has_cur() || c.pos() == c.all().len())
                        &&& (c.has_cur() ==> self.base@[k] < c.pos())
                        &&& (if c.has_cur() {
                            c.pos() - 1
                        } else {
                            c.pos()
                        }) == self.base@[k]
                    },
                forall|k: int|
                    0 <= k < n ==> 0 <= #[trigger] self.base@[k] <= self.children@[k].pos()
                        <= self.children@[k].all().len(),
            decreases n - j,
        {
            let c = &mut self.children[j];
            let _ = c.next();
            j = j + 1;
        }
        self.primed = true;
        self.rescan();
        proof {
            assert(self.alls() =~= old(self).alls());
            assert(self.pending() =~= old(self).base@);
        }
    }

    /// Repositions `cur` at the first child holding a minimal pending key;
    /// `children.len()` when every child is exhausted.
    fn rescan(&mut self)
        requires
            old(self).children_ok(),
            forall|j: int|
                0 <= j < old(self).children@.len() ==> ((#[trigger] old(self).children@[j]).has_cur()
                    || old(self).children@[j].pos() == old(self).children@[j].all().len()),
        ensures
            final(self).children@ == old(self).children@,
            final(self).base@ == old(self).base@,
            final(self).epos@ == old(self).epos@,
            final(self).primed == old(self).primed,
            ({
                let n = final(self).children@.len() as int;
                let sm = scan_min::<K, V>(final(self).alls(), final(self).pending(), n);
                (sm < 0 ==> final(self).cur == n) && (sm >= 0 ==> final(self).cur == sm)
            }),
    {
        let ghost seqs = self.alls();
        let ghost poss = self.pending();
        let n = self.children.len();
        let mut best: usize = n;
        let mut j: usize = 0;
        while j < n
            invariant
                n == self.children@.len(),
                0 <= j <= n,
                self.children_ok(),
                forall|k: int|
                    0 <= k < n ==> ((#[trigger] self.children@[k]).has_cur()
                        || self.children@[k].pos() == self.children@[k].all().len()),
                seqs == self.alls(),
                poss == self.pending(),
                ({
                    let sm = scan_min::<K, V>(seqs, poss, j as int);
                    (sm < 0 ==> best == n) && (sm >= 0 ==> best == sm && best < j)
                }),
            decreases n - j,
        {
            proof {
                assert(self.children@[j as int].inv());
                let cj = self.children@[j as int];
                if cj.has_cur() {
                    assert(poss[j as int] == cj.pos() - 1);
                    assert(poss[j as int] < seqs[j as int].len());
                    assert(seqs[j as int][poss[j as int]] == cj.all()[cj.pos() - 1]);
                } else {
                    assert(poss[j as int] == cj.pos());
                    assert(cj.pos() == cj.all().len());
                    assert(!(poss[j as int] < seqs[j as int].len()));
                }
            }
            let ghost smj = scan_min::<K, V>(seqs, poss, j as int);
            proof {
                assert(poss_wf::<K, V>(seqs, poss));
                lemma_scan_min::<K, V>(seqs, poss, j as int);
            }
            let lj_some = {
                let lj = self.children[j].last();
                lj.is_some()
            };
            proof {
                assert(lj_some == self.children@[j as int].has_cur());
            }
            if lj_some {
                if best == n {
                    best = j;
                } else {
                    proof {
                        assert(self.children@[best as int].inv());
                        assert(smj == best as int && poss[best as int] < seqs[best as int].len());
                        assert(self.children@[best as int].has_cur());
                    }
                    let take = {
                        let lj = self.children[j].last();
                        let lb = self.children[best].last();
                        match (lj, lb) {
                            (Some(ej), Some(eb)) => ej.0.key_lt(&eb.0),
                            _ => false,
                        }
                    };
                    proof {
                        assert(take == K::lt_view(
                            seqs[j as int][poss[j as int]].0,
                            seqs[best as int][poss[best as int]].0,
                        ));
                    }
                    if take {
                        best = j;
                    }
                }
            }
            proof {
                let smj1 = scan_min::<K, V>(seqs, poss, j as int + 1);
                assert(smj1 == if !(poss[j as int] < seqs[j as int].len()) {
                    smj
                } else if smj < 0 {
                    j as int
                } else if K::lt_view(seqs[j as int][poss[j as int]].0, seqs[smj][poss[smj]].0) {
                    j as int
                } else {
                    smj
                });
            }
            j = j + 1;
        }
        self.cur = best;
    }
}



impl<K: OrderedKey, V: View, I: ForwardIter<K, V>> ForwardIter<K, V> for MergingIter<K, V, I> {
    closed spec fn all(&self) -> Seq<(K::V, V::V)> {
        merge_from::<K, V>(self.alls(), self.base@)
    }

    closed spec fn pos(&self) -> int {
        self.epos@
    }

    closed spec fn has_cur(&self) -> bool {
        self.primed && self.cur < self.children@.len()
    }

    closed spec fn inv(&self) -> bool {
        self.merging_inv()
    }

    proof fn lemma_inv(&self) {
    }

    fn last(&self) -> (r: Option<&(K, V)>) {
        if self.primed && self.cur < self.children.len() {
            proof {
                assert(self.children@[self.cur as int].inv());
            }
            self.children[self.cur].last()
        } else {
            None
        }
    }

    fn next(&mut self) -> (r: Option<&(K, V)>) {
        let ghost pre = *self;
        let n = self.children.len();
        if !self.primed {
            self.init_heap();
            proof {
                assert(merge_from::<K, V>(self.alls(), self.base@).skip(self.epos@)
                    =~= merge_from::<K, V>(self.alls(), self.pending()));
            }
        } else if self.cur < n {
            let c = self.cur;
            proof {
                assert(self.children@[c as int].inv());
            }
            {
                let ch = &mut self.children[c];
                let _ = ch.next();
            }
            proof {
                assert(self.alls() =~= pre.alls());
                assert(self.pending() =~= pre.frontier());
            }
            self.rescan();
            proof {
                assert(self.alls() =~= pre.alls());
                assert(self.pending() =~= pre.frontier());
            }
        } else {
            proof {
                assert(self.frontier() =~= self.pending());
                assert(poss_wf::<K, V>(self.alls(), self.pending()));
                assert(poss_wf::<K, V>(self.alls(), self.base@));
                let sm = scan_min::<K, V>(self.alls(), self.pending(), n as int);
                lemma_scan_min::<K, V>(self.alls(), self.pending(), n as int);
                if sm >= 0 {
                    assert(self.pending()[sm] < self.alls()[sm].len());
                    assert(self.children@[sm].has_cur() || self.children@[sm].pos()
                        == self.children@[sm].all().len());
                    assert(false);
                }
                assert(merge_from::<K, V>(self.alls(), self.pending()) =~= Seq::empty());
                assert(merge_from::<K, V>(self.alls(), self.base@).skip(self.epos@).len() == 0);
            }
            return None;
        }
        // Every child now holds a pending entry or is exhausted, `cur` points
        // at the first minimal pending key, and the merge of the pending
        // cursors is what remains after `epos` emitted entries.
        proof {
            assert(self.alls() == pre.alls());
            assert(self.base@ == pre.base@);
            assert(self.epos@ == pre.epos@);
            assert(poss_wf::<K, V>(self.alls(), self.pending()));
            assert(poss_wf::<K, V>(self.alls(), self.base@));
            assert(merge_from::<K, V>(self.alls(), self.base@).skip(self.epos@) == merge_from::<
                K,
                V,
            >(self.alls(), self.pending()));
        }
        if self.cur < n {
            let ghost seqs = self.alls();
            let ghost poss = self.pending();
            let ghost epos0 = self.epos@;
            proof {
                lemma_scan_min::<K, V>(seqs, poss, n as int);
                let sm = scan_min::<K, V>(seqs, poss, n as int);
                assert(self.children@[self.cur as int].has_cur());
                assert(poss[self.cur as int] < seqs[self.cur as int].len());
                assert(sm >= 0 && sm == self.cur);
                assert(merge_from::<K, V>(seqs, poss) == seq![seqs[sm][poss[sm]]] + merge_from::<
                    K,
                    V,
                >(seqs, poss.update(sm, poss[sm] + 1)));
                assert(merge_from::<K, V>(seqs, self.base@).skip(epos0).len() >= 1);
                assert(merge_from::<K, V>(seqs, self.base@).skip(epos0)[0] == merge_from::<K, V>(
                    seqs,
                    self.base@,
                )[epos0]);
                assert(merge_from::<K, V>(seqs, self.base@)[epos0] == seqs[sm][poss[sm]]);
            }
            self.epos = Ghost(self.epos@ + 1);
            proof {
                let sm = self.cur as int;
                assert(self.frontier() =~= poss.update(sm, poss[sm] + 1));
                assert(merge_from::<K, V>(seqs, self.base@).skip(self.epos@) =~= merge_from::<
                    K,
                    V,
                >(seqs, poss).skip(1));
                assert(merge_from::<K, V>(seqs, poss).skip(1) =~= merge_from::<K, V>(
                    seqs,
                    poss.update(sm, poss[sm] + 1),
                ));
                assert(self.children@[sm].inv());
            }
            proof {
                assert(self.merging_inv());
            }
            let r = self.children[self.cur].last();
            r
        } else {
            proof {
                let sm = scan_min::<K, V>(self.alls(), self.pending(), n as int);
                assert(poss_wf::<K, V>(self.alls(), self.pending()));
                assert(poss_wf::<K, V>(self.alls(), self.base@));
                lemma_scan_min::<K, V>(self.alls(), self.pending(), n as int);
                if sm >= 0 {
                    assert(self.pending()[sm] < self.alls()[sm].len());
                    assert(false);
                }
                assert forall|j: int| 0 <= j < n implies !(#[trigger] self.children@[j]).has_cur() by {
                    if self.children@[j].has_cur() {
                        assert(self.pending()[j] < self.alls()[j].len());
                    }
                }
                assert(merge_from::<K, V>(self.alls(), self.pending()) =~= Seq::empty());
                assert(merge_from::<K, V>(self.alls(), self.base@).skip(self.epos@).len() == 0);
                assert(self.frontier() =~= self.pending());
                assert(merge_from::<K, V>(self.alls(), self.base@).skip(self.epos@)
                    =~= merge_from::<K, V>(self.alls(), self.frontier()));
                assert(self.merging_inv());
            }
            None
        }
    }
}

impl<K: OrderedKey, V: View, I: SeekableIter<K, V>> SeekableIter<K, V> for MergingIter<K, V, I> {
    closed spec fn seek_ready(&self) -> bool {
        forall|k: int|
            0 <= k < self.children@.len() ==> sorted_le::<K, V>(
                (#[trigger] self.children@[k]).all(),
            ) && self.children@[k].seek_ready()
    }

    fn seek(&mut self, target: &K) {
        let ghost ready = old(self).seek_ready();
        let n = self.children.len();
        let mut j: usize = 0;
        while j < n
            invariant
                n == self.children@.len(),
                0 <= j <= n,
                ready == old(self).seek_ready(),
                old(self).children_view().len() == n,
                forall|k: int| 0 <= k < n ==> (#[trigger] self.children@[k]).inv(),
                forall|k: int| 0 <= k < j ==> !(#[trigger] self.children@[k]).has_cur(),
                forall|k: int|
                    j <= k < n ==> #[trigger] self.children@[k] == old(self).children_view()[k],
                (ready ==> forall|k: int, idx: int|
                    0 <= k < j && (#[trigger] self.children@[k]).pos() <= idx
                        < self.children@[k].all().len() ==> !K::lt_view(
                        (#[trigger] self.children@[k].all()[idx]).0,
                        target@,
                    )),
            decreases n - j,
        {
            proof {
                if ready {
                    let c = old(self).children_view()[j as int];
                    assert(sorted_le::<K, V>(c.all()) && c.seek_ready());
                    assert(self.children@[j as int] == c);
                }
            }
            {
                let ch = &mut self.children[j];
                ch.seek(target);
            }
            j = j + 1;
        }
        self.primed = false;
        self.cur = 0;
        self.epos = Ghost(0);
        self.base = Ghost(Seq::new(self.children@.len() as nat, |k: int| self.children@[k].pos()));
        proof {
            let m = self.children@.len() as int;
            assert forall|k: int| 0 <= k < m implies 0 <= #[trigger] self.base@[k]
                <= self.children@[k].pos() <= self.children@[k].all().len() by {
                self.children@[k].lemma_inv();
            }
            assert(self.frontier() =~= self.base@);
            assert(merge_from::<K, V>(self.alls(), self.base@).skip(0) =~= merge_from::<K, V>(
                self.alls(),
                self.frontier(),
            ));
            if ready {
                broadcast use vstd::seq_lib::group_to_multiset_ensures;

                // Everything the merge still yields sits at or above the
                // target: it comes from some child's remainder, and every
                // child was positioned there.
                assert(poss_wf::<K, V>(self.alls(), self.base@));
                lemma_merge_multiset::<K, V>(self.alls(), self.base@);
                let whole = merge_from::<K, V>(self.alls(), self.base@);
                assert forall|i: int| 0 <= i < whole.len() implies !K::lt_view(
                    (#[trigger] whole[i]).0,
                    target@,
                ) by {
                    assert(whole.contains(whole[i]));
                    assert(whole.to_multiset().count(whole[i]) > 0);
                    lemma_rem_msets_member::<K, V>(self.alls(), self.base@, m, whole[i]);
                    let k = choose|k: int|
                        0 <= k < m && (#[trigger] self.alls()[k]).skip(self.base@[k]).contains(
                            whole[i],
                        );
                    let rem = self.alls()[k].skip(self.base@[k]);
                    let idx = choose|idx: int| 0 <= idx < rem.len() && rem[idx] == whole[i];
                    assert(self.children@[k].all()[self.base@[k] + idx] == whole[i]);
                    assert(self.children@[k].pos() <= self.base@[k] + idx
                        < self.children@[k].all().len());
                }
            }
        }
    }
}

impl<K: OrderedKey, V: View, I: RewindableIter<K, V>> RewindableIter<K, V> for MergingIter<
    K,
    V,
    I,
> {
    closed spec fn reset_all(&self) -> Seq<(K::V, V::V)> {
        merge_from::<K, V>(
            Seq::new(self.children@.len() as nat, |j: int| self.children@[j].reset_all()),
            Seq::new(self.children@.len() as nat, |j: int| 0int),
        )
    }

    fn rewind(&mut self) {
        let ghost pre = *self;
        let n = self.children.len();
        let mut j: usize = 0;
        while j < n
            invariant
                n == self.children@.len(),
                0 <= j <= n,
                forall|k: int| 0 <= k < n ==> (#[trigger] self.children@[k]).inv(),
                forall|k: int|
                    0 <= k < j ==> !(#[trigger] self.children@[k]).has_cur()
                        && self.children@[k].pos() == 0 && self.children@[k].all()
                        == pre.children@[k].reset_all() && self.children@[k].reset_all()
                        == pre.children@[k].reset_all(),
                forall|k: int|
                    j <= k < n ==> #[trigger] self.children@[k].reset_all()
                        == pre.children@[k].reset_all(),
            decreases n - j,
        {
            {
                let ch = &mut self.children[j];
                ch.rewind();
            }
            j = j + 1;
        }
        self.primed = false;
        self.cur = 0;
        self.epos = Ghost(0);
        self.base = Ghost(Seq::new(self.children@.len() as nat, |k: int| 0int));
        proof {
            let m = self.children@.len() as int;
            assert forall|k: int| 0 <= k < m implies 0 <= #[trigger] self.base@[k]
                <= self.children@[k].pos() <= self.children@[k].all().len() by {
                self.children@[k].lemma_inv();
            }
            assert(self.frontier() =~= self.base@);
            assert(merge_from::<K, V>(self.alls(), self.base@).skip(0) =~= merge_from::<K, V>(
                self.alls(),
                self.frontier(),
            ));
            assert(self.alls() =~= Seq::new(
                pre.children@.len() as nat,
                |k: int| pre.children@[k].reset_all(),
            ));
            assert(self.base@ =~= Seq::new(pre.children@.len() as nat, |k: int| 0int));
            assert(Seq::new(self.children@.len() as nat, |k: int| self.children@[k].reset_all())
                =~= Seq::new(pre.children@.len() as nat, |k: int| pre.children@[k].reset_all()));
        }
    }
}

/// A builder that collects the children of a `MergingIter`.
pub struct MergingIterBuilder<K: OrderedKey, V: View, I: ForwardIter<K, V>> {
    children: Vec<I>,
    _marker: core::marker::PhantomData<(K, V)>,
}

impl<K: OrderedKey, V: View, I: ForwardIter<K, V>> MergingIterBuilder<K, V, I> {
    /// The children collected so far.
    pub closed spec fn kids(&self) -> Seq<I> {
        self.children@
    }

    pub closed spec fn kids_ok(&self) -> bool {
        forall|j: int|
            0 <= j < self.children@.len() ==> (#[trigger] self.children@[j]).inv()
                && !self.children@[j].has_cur()
    }

    pub fn new() -> (r: MergingIterBuilder<K, V, I>)
        ensures
            r.kids() =~= Seq::<I>::empty(),
            r.kids_ok(),
    {
        MergingIterBuilder { children: Vec::new(), _marker: core::marker::PhantomData }
    }

    /// Adds a child iterator.
    pub fn add(&mut self, child: I)
        requires
            old(self).kids_ok(),
            child.inv(),
            !child.has_cur(),
        ensures
            final(self).kids() == old(self).kids().push(child),
            final(self).kids_ok(),
    {
        self.children.push(child);
    }

    /// Builds the merging iterator over the collected children.
    pub fn build(self) -> (r: MergingIter<K, V, I>)
        requires
            self.kids_ok(),
        ensures
            r.inv(),
            r.pos() == 0,
            !r.has_cur(),
            r.all() == merge_from::<K, V>(
                Seq::new(self.kids().len() as nat, |j: int| self.kids()[j].all()),
                Seq::new(self.kids().len() as nat, |j: int| self.kids()[j].pos()),
            ),
    {
        MergingIter::new(self.children)
    }
}

impl<K: OrderedKey, V: View, I: RewindableIter<K, V>> MergingIterBuilder<K, V, I> {
    /// Builds the merging iterator over the collected children; rewinding it
    /// replays the merge of the children's own replays from the start.
    pub fn build_rewindable(self) -> (r: MergingIter<K, V, I>)
        requires
            self.kids_ok(),
        ensures
            r.inv(),
            r.pos() == 0,
            !r.has_cur(),
            r.all() == merge_from::<K, V>(
                Seq::new(self.kids().len() as nat, |j: int| self.kids()[j].all()),
                Seq::new(self.kids().len() as nat, |j: int| self.kids()[j].pos()),
            ),
            r.reset_all() == merge_from::<K, V>(
                Seq::new(self.kids().len() as nat, |j: int| self.kids()[j].reset_all()),
                Seq::new(self.kids().len() as nat, |j: int| 0int),
            ),
    {
        let ghost kids = self.children@;
        let r = MergingIter::new(self.children);
        proof {
            assert(r.reset_all() == merge_from::<K, V>(
                Seq::new(kids.len(), |j: int| kids[j].reset_all()),
                Seq::new(kids.len(), |j: int| 0int),
            ));
        }
        r
    }
}



/// The multisets of the entries the cursors have not passed, summed over the
/// first `n` sequences.
pub open spec fn rem_msets<K: OrderedKey, V: View>(
    seqs: Seq<Seq<(K::V, V::V)>>,
    poss: Seq<int>,
    n: int,
) -> Multiset<(K::V, V::V)>
    decreases n,
{
    if n <= 0 {
        Multiset::empty()
    } else {
        rem_msets::<K, V>(seqs, poss, n - 1).add(seqs[n - 1].skip(poss[n - 1]).to_multiset())
    }
}

proof fn lemma_rem_msets_update<K: OrderedKey, V: View>(
    seqs: Seq<Seq<(K::V, V::V)>>,
    poss: Seq<int>,
    i: int,
    n: int,
)
    requires
        poss_wf::<K, V>(seqs, poss),
        0 <= i < poss.len(),
        n <= poss.len(),
        poss[i] < seqs[i].len(),
    ensures
        i < n ==> rem_msets::<K, V>(seqs, poss, n) =~= rem_msets::<K, V>(
            seqs,
            poss.update(i, poss[i] + 1),
            n,
        ).insert(seqs[i][poss[i]]),
        i >= n ==> rem_msets::<K, V>(seqs, poss, n) == rem_msets::<K, V>(
            seqs,
            poss.update(i, poss[i] + 1),
            n,
        ),
    decreases n,
{
    broadcast use vstd::seq_lib::group_seq_properties;

    if n > 0 {
        lemma_rem_msets_update::<K, V>(seqs, poss, i, n - 1);
        let up = poss.update(i, poss[i] + 1);
        if i == n - 1 {
            let s = seqs[i];
            let p = poss[i];
            assert(s.skip(p) =~= seq![s[p]] + s.skip(p + 1));
            vstd::seq_lib::lemma_multiset_commutative(seq![s[p]], s.skip(p + 1));
            assert(seq![s[p]].to_multiset() =~= Multiset::empty().insert(s[p]));
            assert(s.skip(p).to_multiset() =~= s.skip(p + 1).to_multiset().insert(s[p]));
        }
    }
}

/// The merge carries exactly the entries the cursors have not passed: it is
/// multiset-equal to the union of the children's remainders.
pub proof fn lemma_merge_multiset<K: OrderedKey, V: View>(
    seqs: Seq<Seq<(K::V, V::V)>>,
    poss: Seq<int>,
)
    requires
        poss_wf::<K, V>(seqs, poss),
    ensures
        merge_from::<K, V>(seqs, poss).to_multiset() == rem_msets::<K, V>(
            seqs,
            poss,
            seqs.len() as int,
        ),
    decreases rem_total::<K, V>(seqs, poss, seqs.len() as int),
{
    broadcast use vstd::seq_lib::group_seq_properties;

    let n = seqs.len() as int;
    lemma_rem_total_nonneg::<K, V>(seqs, poss, n);
    lemma_scan_min::<K, V>(seqs, poss, n);
    let i = scan_min::<K, V>(seqs, poss, n);
    if i < 0 {
        assert(merge_from::<K, V>(seqs, poss) == Seq::<(K::V, V::V)>::empty());
        assert(Seq::<(K::V, V::V)>::empty().to_multiset() =~= Multiset::empty());
        assert forall|m: int| 0 <= m <= n implies rem_msets::<K, V>(seqs, poss, m)
            =~= Multiset::empty() by {
            lemma_rem_msets_empty::<K, V>(seqs, poss, m);
        }
        assert(merge_from::<K, V>(seqs, poss).to_multiset() =~= rem_msets::<K, V>(seqs, poss, n));
    } else {
        let up = poss.update(i, poss[i] + 1);
        lemma_rem_total_update::<K, V>(seqs, poss, i, n);
        assert(poss_wf::<K, V>(seqs, up));
        lemma_rem_total_nonneg::<K, V>(seqs, up, n);
        lemma_merge_multiset::<K, V>(seqs, up);
        lemma_rem_msets_update::<K, V>(seqs, poss, i, n);
        let e = seqs[i][poss[i]];
        let m = merge_from::<K, V>(seqs, poss);
        assert(m == seq![e] + merge_from::<K, V>(seqs, up));
        vstd::seq_lib::lemma_multiset_commutative(seq![e], merge_from::<K, V>(seqs, up));
        assert(seq![e].to_multiset() =~= Multiset::empty().insert(e));
        assert(m.to_multiset() =~= merge_from::<K, V>(seqs, up).to_multiset().insert(e));
        assert(m.to_multiset() =~= rem_msets::<K, V>(seqs, poss, n));
    }
}

proof fn lemma_rem_msets_empty<K: OrderedKey, V: View>(
    seqs: Seq<Seq<(K::V, V::V)>>,
    poss: Seq<int>,
    n: int,
)
    requires
        poss_wf::<K, V>(seqs, poss),
        n <= poss.len(),
        forall|j: int| 0 <= j < poss.len() ==> !(#[trigger] poss[j] < seqs[j].len()),
    ensures
        rem_msets::<K, V>(seqs, poss, n) =~= Multiset::empty(),
    decreases n,
{
    broadcast use vstd::seq_lib::group_seq_properties;

    if n > 0 {
        lemma_rem_msets_empty::<K, V>(seqs, poss, n - 1);
        assert(seqs[n - 1].skip(poss[n - 1]) =~= Seq::empty());
    }
}

/// Merging weakly sorted children yields a weakly sorted sequence.
pub proof fn lemma_merge_sorted<K: OrderedKey, V: View>(
    seqs: Seq<Seq<(K::V, V::V)>>,
    poss: Seq<int>,
)
    requires
        poss_wf::<K, V>(seqs, poss),
        forall|j: int| 0 <= j < seqs.len() ==> sorted_le::<K, V>(#[trigger] seqs[j]),
    ensures
        sorted_le::<K, V>(merge_from::<K, V>(seqs, poss)),
    decreases rem_total::<K, V>(seqs, poss, seqs.len() as int),
{
    let n = seqs.len() as int;
    lemma_rem_total_nonneg::<K, V>(seqs, poss, n);
    lemma_scan_min::<K, V>(seqs, poss, n);
    let i = scan_min::<K, V>(seqs, poss, n);
    if i >= 0 {
        let up = poss.update(i, poss[i] + 1);
        lemma_rem_total_update::<K, V>(seqs, poss, i, n);
        assert(poss_wf::<K, V>(seqs, up));
        lemma_rem_total_nonneg::<K, V>(seqs, up, n);
        lemma_merge_sorted::<K, V>(seqs, up);
        let e = seqs[i][poss[i]];
        let m = merge_from::<K, V>(seqs, poss);
        let rest = merge_from::<K, V>(seqs, up);
        assert(m == seq![e] + rest);
        assert(m[0] == e);
        lemma_scan_min::<K, V>(seqs, up, n);
        let i2 = scan_min::<K, V>(seqs, up, n);
        if rest.len() > 0 {
            assert(i2 >= 0) by {
                if i2 < 0 {
                    assert(rest == Seq::<(K::V, V::V)>::empty());
                }
            }
            // The tail's head is the minimal live head after the advance;
            // the emitted head is at or below it.
            assert(rest[0] == seqs[i2][up[i2]]);
            assert(!K::lt_view(rest[0].0, e.0)) by {
                if i2 == i {
                    assert(up[i] == poss[i] + 1);
                    assert(!K::lt_view(seqs[i][poss[i] + 1].0, seqs[i][poss[i]].0));
                } else {
                    assert(up[i2] == poss[i2]);
                    assert(poss[i2] < seqs[i2].len());
                    assert(!K::lt_view(seqs[i2][poss[i2]].0, e.0));
                }
            }
        }
        assert forall|a: int, b: int| 0 <= a < b < m.len() implies !K::lt_view(
            #[trigger] m[b].0,
            #[trigger] m[a].0,
        ) by {
            if a == 0 {
                assert(m[b] == rest[b - 1]);
                if b - 1 == 0 {
                } else {
                    assert(!K::lt_view(rest[b - 1].0, rest[0].0));
                    K::lemma_strict_order(rest[b - 1].0, rest[0].0, e.0);
                }
            } else {
                assert(m[a] == rest[a - 1] && m[b] == rest[b - 1]);
            }
        }
    }
}

} // verus!
