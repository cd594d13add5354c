//! The logical page model: chains of owned pages whose header counts the
//! pages reachable behind them, and typed page contents — materialized data
//! and index bases, deltas, and the payloads of structural changes.

use vstd::prelude::*;

use crate::data::{bytes_eq, lex_lt, OrderedKey, Value};
use crate::iter::{binary_rank, seq_view, sorted_lt};

verus! {

/// The records' byte cost: each key's length plus its value's length.
pub open spec fn rec_size(s: Seq<(Seq<u8>, Seq<u8>)>) -> int
    decreases s.len(),
{
    if s.len() == 0 {
        0
    } else {
        rec_size(s.drop_last()) + s.last().0.len() + s.last().1.len()
    }
}

/// A prefix never costs more than the whole.
pub proof fn lemma_rec_size_monotone(s: Seq<(Seq<u8>, Seq<u8>)>, t: Seq<(Seq<u8>, Seq<u8>)>)
    requires
        s.is_prefix_of(t),
    ensures
        rec_size(s) <= rec_size(t),
    decreases t.len(),
{
    if s.len() < t.len() {
        assert(s.is_prefix_of(t.drop_last()));
        lemma_rec_size_monotone(s, t.drop_last());
    } else {
        assert(s =~= t);
    }
}

/// Whether the association list holds exactly the pair `(k, v)`.
pub open spec fn has_pair<T>(s: Seq<(Seq<u8>, T)>, k: Seq<u8>, v: T) -> bool {
    exists|i: int| 0 <= i < s.len() && #[trigger] s[i] == (k, v)
}

/// Whether the association list holds the key.
pub open spec fn has_key<T>(s: Seq<(Seq<u8>, T)>, k: Seq<u8>) -> bool {
    exists|i: int| 0 <= i < s.len() && (#[trigger] s[i]).0 == k
}

/// Replaces or inserts a pair, keeping the list sorted; afterwards the key
/// maps to exactly the new value and every other key is untouched.
fn assoc_insert<T: View>(v: &mut Vec<(Vec<u8>, T)>, key: Vec<u8>, val: T) -> (prev: Option<T>)
    requires
        sorted_lt::<Vec<u8>, T>(seq_view(old(v)@)),
    ensures
        sorted_lt::<Vec<u8>, T>(seq_view(final(v)@)),
        forall|k2: Seq<u8>, v2: T::V|
            #[trigger] has_pair(seq_view(final(v)@), k2, v2) <==> ((k2 == key@ && v2 == val@) || (
            k2 != key@ && has_pair(seq_view(old(v)@), k2, v2))),
        final(v)@.len() <= old(v)@.len() + 1,
        match prev {
            Some(pv) => has_pair(seq_view(old(v)@), key@, pv@),
            None => !has_key(seq_view(old(v)@), key@),
        },
{
    let ghost s_old = seq_view(v@);
    proof {
        crate::iter::lemma_sorted_lt_le::<Vec<u8>, T>(s_old);
    }
    let r = binary_rank::<Vec<u8>, T>(v, &key);
    proof {
        assert forall|i: int, j: int|
            0 <= i < s_old.len() && 0 <= j < s_old.len() && i != j implies s_old[i].0
            != s_old[j].0 by {
            if i < j {
                crate::data::lemma_lex_asym(s_old[i].0, s_old[i].0);
            } else {
                crate::data::lemma_lex_asym(s_old[j].0, s_old[j].0);
            }
        }
        crate::data::lemma_lex_asym(key@, key@);
    }
    let matched = r < v.len() && bytes_eq(&v[r].0, &key);
    if matched {
        let mut newpair = (key, val);
        {
            let slot = &mut v[r];
            core::mem::swap(slot, &mut newpair);
        }
        proof {
            assert(s_old[r as int] == (newpair.0@, newpair.1@));
            assert(has_pair(s_old, s_old[r as int].0, newpair.1@));
        }
        proof {
            let s_new = seq_view(v@);
            assert(s_new =~= s_old.update(r as int, (key@, val@)));
            assert(s_old[r as int].0 == key@);
            assert forall|i: int, j: int|
                0 <= i < j < s_new.len() implies lex_lt(
                (#[trigger] s_new[i]).0,
                (#[trigger] s_new[j]).0,
            ) by {
                assert(lex_lt(s_old[i].0, s_old[j].0));
            }
            assert forall|k2: Seq<u8>, v2: T::V|
                #[trigger] has_pair(s_new, k2, v2) <==> ((k2 == key@ && v2 == val@) || (k2 != key@
                    && has_pair(s_old, k2, v2))) by {
                if has_pair(s_new, k2, v2) {
                    let i = choose|i: int| 0 <= i < s_new.len() && #[trigger] s_new[i] == (k2, v2);
                    if i != r {
                        assert(s_old[i] == (k2, v2));
                        assert(s_old[i].0 != s_old[r as int].0);
                    }
                }
                if k2 == key@ && v2 == val@ {
                    assert(s_new[r as int] == (k2, v2));
                }
                if k2 != key@ && has_pair(s_old, k2, v2) {
                    let i = choose|i: int| 0 <= i < s_old.len() && #[trigger] s_old[i] == (k2, v2);
                    assert(i != r);
                    assert(s_new[i] == (k2, v2));
                }
            }
        }
        Some(newpair.1)
    } else {
        proof {
            assert forall|i: int| 0 <= i < s_old.len() implies (#[trigger] s_old[i]).0
                != key@ by {
                if i >= r {
                    if s_old[i].0 == key@ {
                        if i == r {
                        } else {
                            assert(lex_lt(s_old[r as int].0, s_old[i].0));
                            assert(!lex_lt(s_old[r as int].0, key@));
                            crate::data::lemma_lex_asym(s_old[r as int].0, key@);
                        }
                    }
                }
            }
        }
        v.insert(r, (key, val));
        proof {
            let s_new = seq_view(v@);
            assert(s_new =~= s_old.insert(r as int, (key@, val@)));
            assert forall|i: int, j: int|
                0 <= i < j < s_new.len() implies lex_lt(
                (#[trigger] s_new[i]).0,
                (#[trigger] s_new[j]).0,
            ) by {
                if j < r {
                    assert(s_new[i] == s_old[i] && s_new[j] == s_old[j]);
                } else if i > r {
                    assert(s_new[i] == s_old[i - 1] && s_new[j] == s_old[j - 1]);
                } else if i < r && j == r {
                    assert(s_new[i] == s_old[i] && s_new[j].0 == key@);
                } else if i == r && j > r {
                    assert(s_new[j] == s_old[j - 1] && s_new[i].0 == key@);
                    assert(!lex_lt(s_old[j - 1].0, key@));
                    crate::data::lemma_lex_connex(key@, s_old[j - 1].0);
                } else {
                    assert(i < r && j > r);
                    assert(s_new[i] == s_old[i] && s_new[j] == s_old[j - 1]);
                    if i <= j - 1 - 1 {
                        assert(lex_lt(s_old[i].0, s_old[j - 1].0));
                    } else {
                        assert(i == j - 1);
                        assert(lex_lt(s_old[i].0, key@));
                        assert(!lex_lt(s_old[j - 1].0, key@));
                    }
                    assert(lex_lt(s_new[i].0, s_new[j].0));
                }
            }
            assert forall|k2: Seq<u8>, v2: T::V|
                #[trigger] has_pair(s_new, k2, v2) <==> ((k2 == key@ && v2 == val@) || (k2 != key@
                    && has_pair(s_old, k2, v2))) by {
                if has_pair(s_new, k2, v2) {
                    let i = choose|i: int| 0 <= i < s_new.len() && #[trigger] s_new[i] == (k2, v2);
                    if i < r {
                        assert(s_old[i] == (k2, v2));
                    } else if i > r {
                        assert(s_old[i - 1] == (k2, v2));
                    }
                }
                if k2 == key@ && v2 == val@ {
                    assert(s_new[r as int] == (k2, v2));
                }
                if k2 != key@ && has_pair(s_old, k2, v2) {
                    let i = choose|i: int| 0 <= i < s_old.len() && #[trigger] s_old[i] == (k2, v2);
                    if i < r {
                        assert(s_new[i] == (k2, v2));
                    } else {
                        assert(s_new[i + 1] == (k2, v2));
                    }
                }
            }
        }
        None
    }
}

/// Removes a key if present, keeping the list sorted; afterwards the key is
/// absent and every other pair is untouched.
fn assoc_remove<T: View>(v: &mut Vec<(Vec<u8>, T)>, key: &Vec<u8>)
    requires
        sorted_lt::<Vec<u8>, T>(seq_view(old(v)@)),
    ensures
        sorted_lt::<Vec<u8>, T>(seq_view(final(v)@)),
        forall|k2: Seq<u8>, v2: T::V|
            #[trigger] has_pair(seq_view(final(v)@), k2, v2) <==> (k2 != key@ && has_pair(
                seq_view(old(v)@),
                k2,
                v2,
            )),
        final(v)@.len() <= old(v)@.len(),
{
    let ghost s_old = seq_view(v@);
    proof {
        crate::iter::lemma_sorted_lt_le::<Vec<u8>, T>(s_old);
    }
    let r = binary_rank::<Vec<u8>, T>(v, key);
    proof {
        assert forall|i: int| 0 <= i < s_old.len() && i != r implies (#[trigger] s_old[i]).0
            != key@ by {
            if i < r {
                assert(lex_lt(s_old[i].0, key@));
                crate::data::lemma_lex_asym(key@, key@);
            } else {
                if s_old[i].0 == key@ && (r as int) < s_old.len() {
                    assert(lex_lt(s_old[r as int].0, s_old[i].0));
                    assert(!lex_lt(s_old[r as int].0, key@));
                    crate::data::lemma_lex_asym(s_old[r as int].0, key@);
                }
            }
        }
    }
    if r < v.len() && bytes_eq(&v[r].0, key) {
        let _ = v.remove(r);
        proof {
            let s_new = seq_view(v@);
            assert(s_new =~= s_old.remove(r as int));
            assert forall|i: int, j: int|
                0 <= i < j < s_new.len() implies lex_lt(
                (#[trigger] s_new[i]).0,
                (#[trigger] s_new[j]).0,
            ) by {
                let i0 = if i < r {
                    i
                } else {
                    i + 1
                };
                let j0 = if j < r {
                    j
                } else {
                    j + 1
                };
                assert(s_new[i] == s_old[i0] && s_new[j] == s_old[j0]);
            }
            assert forall|k2: Seq<u8>, v2: T::V|
                #[trigger] has_pair(s_new, k2, v2) <==> (k2 != key@ && has_pair(
                    s_old,
                    k2,
                    v2,
                )) by {
                if has_pair(s_new, k2, v2) {
                    let i = choose|i: int| 0 <= i < s_new.len() && #[trigger] s_new[i] == (k2, v2);
                    let i0 = if i < r {
                        i
                    } else {
                        i + 1
                    };
                    assert(s_old[i0] == (k2, v2));
                }
                if k2 != key@ && has_pair(s_old, k2, v2) {
                    let i = choose|i: int| 0 <= i < s_old.len() && #[trigger] s_old[i] == (k2, v2);
                    if i < r {
                        assert(s_new[i] == (k2, v2));
                    } else {
                        assert(i > r);
                        assert(s_new[i - 1] == (k2, v2));
                    }
                }
            }
        }
    }
}

/// Looks a key up in a sorted association list.
fn assoc_get<'a, T: View>(v: &'a Vec<(Vec<u8>, T)>, key: &Vec<u8>) -> (r: Option<&'a T>)
    requires
        sorted_lt::<Vec<u8>, T>(seq_view(v@)),
    ensures
        match r {
            Some(t) => has_pair(seq_view(v@), key@, t@),
            None => !has_key(seq_view(v@), key@),
        },
{
    let ghost s = seq_view(v@);
    proof {
        crate::iter::lemma_sorted_lt_le::<Vec<u8>, T>(s);
    }
    let r = binary_rank::<Vec<u8>, T>(v, key);
    if r < v.len() && bytes_eq(&v[r].0, key) {
        proof {
            assert(s[r as int] == (key@, v@[r as int].1@));
        }
        Some(&v[r].1)
    } else {
        proof {
            assert forall|i: int| 0 <= i < s.len() implies (#[trigger] s[i]).0 != key@ by {
                if i < r {
                    assert(lex_lt(s[i].0, key@));
                    crate::data::lemma_lex_asym(key@, key@);
                } else if s[i].0 == key@ && (r as int) < s.len() && i > r {
                    assert(lex_lt(s[r as int].0, s[i].0));
                    assert(!lex_lt(s[r as int].0, key@));
                    crate::data::lemma_lex_asym(s[r as int].0, key@);
                }
            }
        }
        None
    }
}


/// The position of the last entry whose key is at or below `key`, in a
/// sorted association list.
fn assoc_rank_le<T: View>(v: &Vec<(Vec<u8>, T)>, key: &Vec<u8>) -> (r: Option<usize>)
    requires
        sorted_lt::<Vec<u8>, T>(seq_view(v@)),
    ensures
        match r {
            Some(m) => m < seq_view(v@).len() && !lex_lt(key@, seq_view(v@)[m as int].0) && (
            forall|i: int|
                m < i < seq_view(v@).len() ==> lex_lt(key@, (#[trigger] seq_view(v@)[i]).0)),
            None => forall|i: int|
                0 <= i < seq_view(v@).len() ==> lex_lt(key@, (#[trigger] seq_view(v@)[i]).0),
        },
{
    let ghost s = seq_view(v@);
    proof {
        crate::iter::lemma_sorted_lt_le::<Vec<u8>, T>(s);
    }
    let r = binary_rank::<Vec<u8>, T>(v, key);
    if r < v.len() && !crate::data::bytes_lt(key, &v[r].0) {
        proof {
            assert forall|i: int| (r as int) < i < s.len() implies lex_lt(
                key@,
                (#[trigger] s[i]).0,
            ) by {
                assert(lex_lt(s[r as int].0, s[i].0));
                if !lex_lt(key@, s[i].0) {
                    crate::data::lemma_lex_trans(s[r as int].0, s[i].0, key@);
                    crate::data::lemma_lex_connex(key@, s[i].0);
                    if s[i].0 == key@ {
                        crate::data::lemma_lex_asym(s[r as int].0, key@);
                    } else {
                        crate::data::lemma_lex_asym(s[r as int].0, key@);
                        crate::data::lemma_lex_trans(s[i].0, key@, s[r as int].0);
                        crate::data::lemma_lex_asym(s[i].0, s[r as int].0);
                    }
                }
            }
        }
        return Some(r);
    }
    proof {
        if (r as int) < s.len() {
            assert(!lex_lt(s[r as int].0, key@));
            assert(lex_lt(key@, s[r as int].0)) by {
                crate::data::lemma_lex_connex(key@, s[r as int].0);
            }
        }
        assert forall|i: int| r <= i < s.len() implies lex_lt(key@, (#[trigger] s[i]).0) by {
            if i > r {
                assert(lex_lt(s[r as int].0, s[i].0));
                crate::data::lemma_lex_trans(key@, s[r as int].0, s[i].0);
            }
        }
    }
    if r > 0 {
        proof {
            let m = r - 1;
            assert(lex_lt(s[m as int].0, key@));
            crate::data::lemma_lex_asym(key@, s[m as int].0);
        }
        return Some(r - 1);
    }
    None
}

/// A child reference held by the logical index model: a page id and the
/// epoch it was last observed at.
#[derive(Copy, Clone, Debug, PartialEq, Eq, Structural)]
pub struct PageIndex {
    pub id: u64,
    pub epoch: u64,
}

impl View for PageIndex {
    type V = PageIndex;

    open spec fn view(&self) -> PageIndex {
        *self
    }
}

/// The payload of a split: the bounds of the split node and the new right
/// sibling.
pub struct SplitNode {
    pub lowest: Vec<u8>,
    pub middle: Vec<u8>,
    pub highest: Vec<u8>,
    pub right_page: PageIndex,
}

/// An index delta: within `[lowest, highest)` the child is `new_child`.
pub struct DeltaIndex {
    pub lowest: Vec<u8>,
    pub highest: Vec<u8>,
    pub new_child: PageIndex,
}

impl DeltaIndex {
    /// The child, when the key falls inside this delta's range; an empty
    /// `highest` leaves the range open above.
    pub fn covers(&self, key: &Vec<u8>) -> (r: Option<PageIndex>)
        ensures
            r == if !lex_lt(key@, self.lowest@) && (lex_lt(key@, self.highest@) || self.highest@.len()
                == 0) {
                Some(self.new_child)
            } else {
                None::<PageIndex>
            },
    {
        if !crate::data::bytes_lt(key, &self.lowest) && (crate::data::bytes_lt(key, &self.highest)
            || self.highest.len() == 0) {
            Some(self.new_child)
        } else {
            None
        }
    }
}

/// A materialized set of records, sorted by key, with its key range.
pub struct BaseData {
    size: u64,
    lowest: Vec<u8>,
    highest: Vec<u8>,
    records: Vec<(Vec<u8>, Vec<u8>)>,
}

impl BaseData {
    /// The records as views.
    pub closed spec fn view_records(self) -> Seq<(Seq<u8>, Seq<u8>)> {
        seq_view(self.records@)
    }

    pub closed spec fn lowest_spec(self) -> Seq<u8> {
        self.lowest@
    }

    pub closed spec fn highest_spec(self) -> Seq<u8> {
        self.highest@
    }

    pub closed spec fn size_spec(self) -> u64 {
        self.size
    }

    /// Records stay strictly sorted by key.
    pub open spec fn wf(self) -> bool {
        sorted_lt::<Vec<u8>, Vec<u8>>(self.view_records())
    }

    pub fn new() -> (r: BaseData)
        ensures
            r.wf(),
            r.view_records() =~= Seq::<(Seq<u8>, Seq<u8>)>::empty(),
            r.size_spec() == 0,
            r.lowest_spec() =~= Seq::<u8>::empty(),
            r.highest_spec() =~= Seq::<u8>::empty(),
    {
        BaseData { size: 0, lowest: Vec::new(), highest: Vec::new(), records: Vec::new() }
    }

    /// The tracked byte size of the records; kept approximately, saturating
    /// on overflow.
    pub fn size(&self) -> (r: u64)
        ensures
            r == self.size_spec(),
    {
        self.size
    }

    pub fn lowest(&self) -> (r: &Vec<u8>)
        ensures
            r@ == self.lowest_spec(),
    {
        &self.lowest
    }

    pub fn highest(&self) -> (r: &Vec<u8>)
        ensures
            r@ == self.highest_spec(),
    {
        &self.highest
    }

    /// Looks a key up.
    pub fn get(&self, key: &Vec<u8>) -> (r: Option<&Vec<u8>>)
        requires
            self.wf(),
        ensures
            match r {
                Some(value) => has_pair(self.view_records(), key@, value@),
                None => !has_key(self.view_records(), key@),
            },
    {
        assoc_get(&self.records, key)
    }

    /// Folds a delta in: its puts land with their values, its tombstones
    /// take their keys out, and every other record stays.
    pub fn apply(&mut self, delta: DeltaData)
        requires
            old(self).wf(),
            delta.wf(),
        ensures
            final(self).wf(),
            forall|k2: Seq<u8>, v2: Seq<u8>|
                #[trigger] has_pair(final(self).view_records(), k2, v2) <==> (has_pair(
                    delta.view_records(),
                    k2,
                    Some(v2),
                ) || (!has_key(delta.view_records(), k2) && has_pair(
                    old(self).view_records(),
                    k2,
                    v2,
                ))),
    {
        let ghost dv = delta.view_records();
        let ghost orig = self.view_records();
        let recs = delta.records;
        let mut i: usize = 0;
        proof {
            assert(dv.subrange(0, 0) =~= Seq::<(Seq<u8>, Option<Seq<u8>>)>::empty());
        }
        while i < recs.len()
            invariant
                self.wf(),
                0 <= i <= recs@.len(),
                dv == seq_view(recs@),
                sorted_lt::<Vec<u8>, Value>(dv),
                forall|k2: Seq<u8>, v2: Seq<u8>|
                    #[trigger] has_pair(self.view_records(), k2, v2) <==> (has_pair(
                        dv.subrange(0, i as int),
                        k2,
                        Some(v2),
                    ) || (!has_key(dv.subrange(0, i as int), k2) && has_pair(orig, k2, v2))),
            decreases recs@.len() - i,
        {
            let ghost pre = self.view_records();
            let e = &recs[i];
            let ghost de = dv[i as int];
            proof {
                // This key is new to the processed prefix.
                assert forall|j: int| 0 <= j < i implies (#[trigger] dv[j]).0 != de.0 by {
                    assert(lex_lt(dv[j].0, dv[i as int].0));
                    crate::data::lemma_lex_asym(dv[j].0, dv[j].0);
                }
                assert(dv.subrange(0, i + 1) =~= dv.subrange(0, i as int).push(de));
            }
            match &e.1 {
                Value::Put(b) => {
                    let k = crate::data::dup_bytes(&e.0);
                    let val = crate::data::dup_bytes(b);
                    let kl = k.len() as u64;
                    let vl = val.len() as u64;
                    let prev = assoc_insert(&mut self.records, k, val);
                    if self.size as u128 + kl as u128 + vl as u128 <= u64::MAX as u128 {
                        self.size = self.size + kl + vl;
                    } else {
                        self.size = u64::MAX;
                    }
                    match prev {
                        Some(pv) => {
                            let ol = pv.len() as u64;
                            if self.size >= ol {
                                self.size = self.size - ol;
                            } else {
                                self.size = 0;
                            }
                        },
                        None => {},
                    }
                },
                Value::Delete => {
                    assoc_remove(&mut self.records, &e.0);
                },
            }
            proof {
                let prefix1 = dv.subrange(0, i + 1);
                let prefix0 = dv.subrange(0, i as int);
                assert forall|k2: Seq<u8>, v2: Seq<u8>|
                    #[trigger] has_pair(self.view_records(), k2, v2) <==> (has_pair(
                        prefix1,
                        k2,
                        Some(v2),
                    ) || (!has_key(prefix1, k2) && has_pair(orig, k2, v2))) by {
                    if k2 == de.0 {
                        assert(!has_key(prefix0, k2)) by {
                            if has_key(prefix0, k2) {
                                let j = choose|j: int|
                                    0 <= j < prefix0.len() && (#[trigger] prefix0[j]).0 == k2;
                                assert(dv[j].0 == de.0);
                            }
                        }
                        assert(prefix1[i as int] == de);
                        if has_pair(prefix1, k2, Some(v2)) {
                            let j = choose|j: int|
                                0 <= j < prefix1.len() && #[trigger] prefix1[j] == (k2, Some(v2));
                            assert(j == i);
                        }
                        assert(has_key(prefix1, k2));
                    } else {
                        if has_pair(prefix1, k2, Some(v2)) {
                            let j = choose|j: int|
                                0 <= j < prefix1.len() && #[trigger] prefix1[j] == (k2, Some(v2));
                            assert(j < i);
                            assert(prefix0[j] == (k2, Some(v2)));
                        }
                        if has_pair(prefix0, k2, Some(v2)) {
                            let j = choose|j: int|
                                0 <= j < prefix0.len() && #[trigger] prefix0[j] == (k2, Some(v2));
                            assert(prefix1[j] == (k2, Some(v2)));
                        }
                        if has_key(prefix1, k2) {
                            let j = choose|j: int|
                                0 <= j < prefix1.len() && (#[trigger] prefix1[j]).0 == k2;
                            assert(j < i);
                            assert(prefix0[j].0 == k2);
                        }
                        if has_key(prefix0, k2) {
                            let j = choose|j: int|
                                0 <= j < prefix0.len() && (#[trigger] prefix0[j]).0 == k2;
                            assert(prefix1[j].0 == k2);
                        }
                    }
                }
            }
            i = i + 1;
        }
        proof {
            assert(dv.subrange(0, recs@.len() as int) =~= dv);
        }
    }

    /// Splits off the upper half: the right side starts at the median key
    /// and inherits the old upper bound.
    pub fn split(&mut self) -> (r: Option<BaseData>)
        requires
            old(self).wf(),
        ensures
            final(self).wf(),
            match r {
                Some(right) => {
                    let cut = (old(self).view_records().len() as int + 1) / 2;
                    &&& right.wf()
                    &&& 0 < cut < old(self).view_records().len()
                    &&& final(self).view_records() =~= old(self).view_records().subrange(0, cut)
                    &&& right.view_records() =~= old(self).view_records().subrange(
                        cut,
                        old(self).view_records().len() as int,
                    )
                    &&& right.lowest_spec() == old(self).view_records()[cut].0
                    &&& final(self).highest_spec() == right.lowest_spec()
                    &&& right.highest_spec() == old(self).highest_spec()
                    &&& final(self).lowest_spec() == old(self).lowest_spec()
                    &&& (rec_size(right.view_records()) <= u64::MAX ==> right.size_spec() as int
                        == rec_size(right.view_records()))
                    &&& final(self).size_spec() == if old(self).size_spec() >= right.size_spec() {
                        old(self).size_spec() - right.size_spec()
                    } else {
                        0
                    }
                },
                None => (old(self).view_records().len() as int + 1) / 2 >= old(
                    self,
                ).view_records().len() && *final(self) == *old(self),
            },
    {
        let nth = self.records.len() / 2 + self.records.len() % 2;
        proof {
            assert(nth as int == (old(self).view_records().len() as int + 1) / 2);
        }
        if nth < self.records.len() {
            let upper = self.records.split_off(nth);
            let ghost whole = old(self).view_records();
            let ghost cut = (whole.len() as int + 1) / 2;
            let sep = crate::data::dup_bytes(&upper[0].0);
            let mut old_hi: Vec<u8> = Vec::new();
            core::mem::swap(&mut old_hi, &mut self.highest);
            self.highest = crate::data::dup_bytes(&sep);
            let mut rsize: u64 = 0;
            let mut stop = false;
            let mut j: usize = 0;
            proof {
                assert(seq_view(upper@).subrange(0, 0) =~= Seq::<(Seq<u8>, Seq<u8>)>::empty());
            }
            while j < upper.len()
                invariant
                    0 <= j <= upper@.len(),
                    !stop ==> rsize as int == rec_size(seq_view(upper@).subrange(0, j as int)),
                    stop ==> rec_size(seq_view(upper@).subrange(0, j as int)) > u64::MAX,
                decreases upper@.len() - j,
            {
                let ghost prefix = seq_view(upper@).subrange(0, j as int);
                let kl = upper[j].0.len() as u64;
                let vl = upper[j].1.len() as u64;
                proof {
                    assert(seq_view(upper@).subrange(0, j + 1) =~= prefix.push(
                        (upper@[j as int].0@, upper@[j as int].1@),
                    ));
                    assert(seq_view(upper@).subrange(0, j + 1).drop_last() =~= prefix);
                }
                if stop {
                    proof {
                        assert(prefix.is_prefix_of(seq_view(upper@).subrange(0, j + 1)));
                        lemma_rec_size_monotone(prefix, seq_view(upper@).subrange(0, j + 1));
                    }
                } else if rsize as u128 + kl as u128 + vl as u128 <= u64::MAX as u128 {
                    rsize = rsize + kl + vl;
                } else {
                    stop = true;
                }
                j = j + 1;
            }
            proof {
                assert(seq_view(upper@).subrange(0, upper@.len() as int) =~= seq_view(upper@));
            }
            if self.size >= rsize {
                self.size = self.size - rsize;
            } else {
                self.size = 0;
            }
            let right = BaseData { size: rsize, lowest: sep, highest: old_hi, records: upper };
            proof {
                assert(self.view_records() =~= whole.subrange(0, cut));
                assert(right.view_records() =~= whole.subrange(cut, whole.len() as int));
            }
            Some(right)
        } else {
            None
        }
    }
}

/// A batch of record changes, sorted by key: puts with their bytes and
/// tombstones.
pub struct DeltaData {
    records: Vec<(Vec<u8>, Value)>,
}

impl DeltaData {
    /// The changes as views: a put carries its bytes, a tombstone nothing.
    pub closed spec fn view_records(self) -> Seq<(Seq<u8>, Option<Seq<u8>>)> {
        seq_view(self.records@)
    }

    pub open spec fn wf(self) -> bool {
        sorted_lt::<Vec<u8>, Value>(self.view_records())
    }

    pub fn new() -> (r: DeltaData)
        ensures
            r.wf(),
            r.view_records() =~= Seq::<(Seq<u8>, Option<Seq<u8>>)>::empty(),
    {
        DeltaData { records: Vec::new() }
    }

    /// Looks a key's pending change up.
    pub fn get(&self, key: &Vec<u8>) -> (r: Option<&Value>)
        requires
            self.wf(),
        ensures
            match r {
                Some(value) => has_pair(self.view_records(), key@, value@),
                None => !has_key(self.view_records(), key@),
            },
    {
        assoc_get(&self.records, key)
    }

    /// Records a change, replacing any pending one for the same key.
    pub fn add(&mut self, key: Vec<u8>, value: Value)
        requires
            old(self).wf(),
        ensures
            final(self).wf(),
            forall|k2: Seq<u8>, v2: Option<Seq<u8>>|
                #[trigger] has_pair(final(self).view_records(), k2, v2) <==> ((k2 == key@ && v2
                    == value@) || (k2 != key@ && has_pair(old(self).view_records(), k2, v2))),
    {
        let _ = assoc_insert(&mut self.records, key, value);
    }

    /// Folds an older batch in: this batch's changes win, the other's fill
    /// the keys this one does not touch.
    pub fn merge(&mut self, other: DeltaData)
        requires
            old(self).wf(),
            other.wf(),
        ensures
            final(self).wf(),
            forall|k2: Seq<u8>, v2: Option<Seq<u8>>|
                #[trigger] has_pair(final(self).view_records(), k2, v2) <==> (has_pair(
                    old(self).view_records(),
                    k2,
                    v2,
                ) || (!has_key(old(self).view_records(), k2) && has_pair(
                    other.view_records(),
                    k2,
                    v2,
                ))),
    {
        let ghost ov = other.view_records();
        let ghost orig = self.view_records();
        let recs = other.records;
        let mut i: usize = 0;
        proof {
            assert(ov.subrange(0, 0) =~= Seq::<(Seq<u8>, Option<Seq<u8>>)>::empty());
        }
        while i < recs.len()
            invariant
                self.wf(),
                0 <= i <= recs@.len(),
                ov == seq_view(recs@),
                sorted_lt::<Vec<u8>, Value>(ov),
                forall|k2: Seq<u8>, v2: Option<Seq<u8>>|
                    #[trigger] has_pair(self.view_records(), k2, v2) <==> (has_pair(orig, k2, v2)
                        || (!has_key(orig, k2) && has_pair(ov.subrange(0, i as int), k2, v2))),
            decreases recs@.len() - i,
        {
            let e = &recs[i];
            let ghost de = ov[i as int];
            proof {
                assert forall|j: int| 0 <= j < i implies (#[trigger] ov[j]).0 != de.0 by {
                    assert(lex_lt(ov[j].0, ov[i as int].0));
                    crate::data::lemma_lex_asym(ov[j].0, ov[j].0);
                }
                assert(ov.subrange(0, i + 1) =~= ov.subrange(0, i as int).push(de));
            }
            let ghost before = self.view_records();
            let absent = {
                let cur = assoc_get(&self.records, &e.0);
                proof {
                    if cur is Some {
                        assert(has_pair(before, de.0, cur->Some_0@));
                        assert(has_key(before, de.0)) by {
                            let w = choose|w: int|
                                0 <= w < before.len() && #[trigger] before[w] == (
                                de.0,
                                cur->Some_0@,
                                );
                            assert(before[w].0 == de.0);
                        }
                    }
                }
                cur.is_none()
            };
            proof {
                if !absent {
                    // The key already stands: it cannot come from the
                    // processed prefix, so this batch held it at entry.
                    let v0 = choose|v0: Option<Seq<u8>>| has_pair(before, de.0, v0);
                    assert(has_pair(before, de.0, v0));
                    if !has_pair(orig, de.0, v0) {
                        assert(has_pair(ov.subrange(0, i as int), de.0, v0));
                        let j = choose|j: int|
                            0 <= j < i && #[trigger] ov.subrange(0, i as int)[j] == (de.0, v0);
                        assert(ov[j].0 == de.0);
                    }
                    assert(has_key(orig, de.0)) by {
                        let w = choose|w: int|
                            0 <= w < orig.len() && #[trigger] orig[w] == (de.0, v0);
                        assert(orig[w].0 == de.0);
                    }
                }
                if absent {
                    if has_key(orig, de.0) {
                        let w = choose|w: int|
                            0 <= w < orig.len() && (#[trigger] orig[w]).0 == de.0;
                        assert(has_pair(orig, de.0, orig[w].1));
                        assert(has_pair(before, de.0, orig[w].1));
                        assert(has_key(before, de.0)) by {
                            let w2 = choose|w2: int|
                                0 <= w2 < before.len() && #[trigger] before[w2] == (
                                de.0,
                                orig[w].1,
                                );
                            assert(before[w2].0 == de.0);
                        }
                        assert(false);
                    }
                }
            }
            if absent {
                let k = crate::data::dup_bytes(&e.0);
                let val = crate::data::Duplicable::dup(&e.1);
                let _ = assoc_insert(&mut self.records, k, val);
            }
            proof {
                let prefix1 = ov.subrange(0, i + 1);
                let prefix0 = ov.subrange(0, i as int);
                assert forall|k2: Seq<u8>, v2: Option<Seq<u8>>|
                    #[trigger] has_pair(self.view_records(), k2, v2) <==> (has_pair(orig, k2, v2)
                        || (!has_key(orig, k2) && has_pair(prefix1, k2, v2))) by {
                    if k2 != de.0 {
                        if has_pair(prefix1, k2, v2) {
                            let j = choose|j: int|
                                0 <= j < prefix1.len() && #[trigger] prefix1[j] == (k2, v2);
                            assert(j < i);
                            assert(prefix0[j] == (k2, v2));
                        }
                        if has_pair(prefix0, k2, v2) {
                            let j = choose|j: int|
                                0 <= j < prefix0.len() && #[trigger] prefix0[j] == (k2, v2);
                            assert(prefix1[j] == (k2, v2));
                        }
                    } else {
                        assert(!has_key(prefix0, k2)) by {
                            if has_key(prefix0, k2) {
                                let j = choose|j: int|
                                    0 <= j < prefix0.len() && (#[trigger] prefix0[j]).0 == k2;
                                assert(ov[j].0 == de.0);
                            }
                        }
                        assert(prefix1[i as int] == de);
                        if has_pair(prefix1, k2, v2) {
                            let j = choose|j: int|
                                0 <= j < prefix1.len() && #[trigger] prefix1[j] == (k2, v2);
                            assert(j == i);
                        }

                    }
                }
            }
            i = i + 1;
        }
        proof {
            assert(ov.subrange(0, recs@.len() as int) =~= ov);
        }
    }
}



/// The separators' byte cost: each key's length plus a fixed entry size.
pub open spec fn sep_size(s: Seq<(Seq<u8>, PageIndex)>) -> int
    decreases s.len(),
{
    if s.len() == 0 {
        0
    } else {
        sep_size(s.drop_last()) + s.last().0.len() + 16
    }
}

/// A prefix never costs more than the whole.
pub proof fn lemma_sep_size_monotone(s: Seq<(Seq<u8>, PageIndex)>, t: Seq<(Seq<u8>, PageIndex)>)
    requires
        s.is_prefix_of(t),
    ensures
        sep_size(s) <= sep_size(t),
    decreases t.len(),
{
    if s.len() < t.len() {
        assert(s.is_prefix_of(t.drop_last()));
        lemma_sep_size_monotone(s, t.drop_last());
    } else {
        assert(s =~= t);
    }
}

/// The position of the last separator at or below a key.
pub open spec fn covering_pos(s: Seq<(Seq<u8>, PageIndex)>, k: Seq<u8>, m: int) -> bool {
    0 <= m < s.len() && !lex_lt(k, s[m].0) && (forall|i: int|
        m < i < s.len() ==> lex_lt(k, (#[trigger] s[i]).0))
}

/// One index delta's first half: the covering separator's child refreshed
/// when it already names the delta's child, else the delta's low bound
/// inserted mapping to it; every other pair untouched.
pub open spec fn upserted(
    s: Seq<(Seq<u8>, PageIndex)>,
    lo: Seq<u8>,
    child: PageIndex,
    u: Seq<(Seq<u8>, PageIndex)>,
) -> bool {
    if exists|m: int| #[trigger] covering_pos(s, lo, m) && s[m].1.id == child.id {
        exists|m: int|
            #[trigger] covering_pos(s, lo, m) && s[m].1.id == child.id && (forall|
                k2: Seq<u8>,
                v2: PageIndex,
            |
                #[trigger] has_pair(u, k2, v2) <==> ((k2 == s[m].0 && v2 == child) || (k2 != s[m].0
                    && has_pair(s, k2, v2))))
    } else {
        forall|k2: Seq<u8>, v2: PageIndex|
            #[trigger] has_pair(u, k2, v2) <==> ((k2 == lo && v2 == child) || (k2 != lo
                && has_pair(s, k2, v2)))
    }
}

/// One index delta's second half: separators strictly inside the delta's
/// open range are dropped, everything else kept.
pub open spec fn retained(
    u: Seq<(Seq<u8>, PageIndex)>,
    lo: Seq<u8>,
    hi: Seq<u8>,
    out: Seq<(Seq<u8>, PageIndex)>,
) -> bool {
    forall|k2: Seq<u8>, v2: PageIndex|
        #[trigger] has_pair(out, k2, v2) <==> (has_pair(u, k2, v2) && !(lex_lt(lo, k2) && lex_lt(
            k2,
            hi,
        )))
}

/// One index delta folded in whole.
pub open spec fn delta_applied(
    s: Seq<(Seq<u8>, PageIndex)>,
    lo: Seq<u8>,
    hi: Seq<u8>,
    child: PageIndex,
    out: Seq<(Seq<u8>, PageIndex)>,
) -> bool {
    exists|u: Seq<(Seq<u8>, PageIndex)>| #[trigger] upserted(s, lo, child, u) && retained(
        u,
        lo,
        hi,
        out,
    )
}

/// A materialized separator array, sorted by key, mapping each separator to
/// its child.
pub struct BaseIndex {
    size: u64,
    lowest: Vec<u8>,
    highest: Vec<u8>,
    children: Vec<(Vec<u8>, PageIndex)>,
}

impl BaseIndex {
    /// The separator entries as views.
    pub closed spec fn view_children(self) -> Seq<(Seq<u8>, PageIndex)> {
        seq_view(self.children@)
    }

    pub closed spec fn lowest_spec(self) -> Seq<u8> {
        self.lowest@
    }

    pub closed spec fn highest_spec(self) -> Seq<u8> {
        self.highest@
    }

    pub closed spec fn size_spec(self) -> u64 {
        self.size
    }

    /// Separators stay strictly sorted.
    pub open spec fn wf(self) -> bool {
        sorted_lt::<Vec<u8>, PageIndex>(self.view_children())
    }

    pub fn new() -> (r: BaseIndex)
        ensures
            r.wf(),
            r.view_children() =~= Seq::<(Seq<u8>, PageIndex)>::empty(),
            r.size_spec() == 0,
            r.lowest_spec() =~= Seq::<u8>::empty(),
            r.highest_spec() =~= Seq::<u8>::empty(),
    {
        BaseIndex { size: 0, lowest: Vec::new(), highest: Vec::new(), children: Vec::new() }
    }

    /// The tracked byte size of the entries; kept approximately.
    pub fn size(&self) -> (r: u64)
        ensures
            r == self.size_spec(),
    {
        self.size
    }

    pub fn lowest(&self) -> (r: &Vec<u8>)
        ensures
            r@ == self.lowest_spec(),
    {
        &self.lowest
    }

    pub fn highest(&self) -> (r: &Vec<u8>)
        ensures
            r@ == self.highest_spec(),
    {
        &self.highest
    }

    /// The child covering the key: the entry with the largest separator at
    /// or below it.
    pub fn get(&self, key: &Vec<u8>) -> (r: Option<PageIndex>)
        requires
            self.wf(),
        ensures
            match r {
                Some(idx) => exists|m: int|
                    0 <= m < self.view_children().len() && (#[trigger] self.view_children()[m]).1
                        == idx && !lex_lt(key@, self.view_children()[m].0) && (forall|i: int|
                        m < i < self.view_children().len() ==> lex_lt(
                            key@,
                            (#[trigger] self.view_children()[i]).0,
                        )),
                None => forall|i: int|
                    0 <= i < self.view_children().len() ==> lex_lt(
                        key@,
                        (#[trigger] self.view_children()[i]).0,
                    ),
            },
    {
        match assoc_rank_le(&self.children, key) {
            Some(m) => {
                proof {
                    assert(self.view_children()[m as int].1 == self.children@[m as int].1);
                }
                Some(self.children[m].1)
            },
            None => None,
        }
    }

    /// Adds a separator.
    pub fn add(&mut self, key: Vec<u8>, index: PageIndex)
        requires
            old(self).wf(),
        ensures
            final(self).wf(),
            forall|k2: Seq<u8>, v2: PageIndex|
                #[trigger] has_pair(final(self).view_children(), k2, v2) <==> ((k2 == key@ && v2
                    == index) || (k2 != key@ && has_pair(old(self).view_children(), k2, v2))),
    {
        let _ = assoc_insert(&mut self.children, key, index);
    }

    /// Folds index deltas in, newest first already applied, so walk the
    /// batch backwards: refresh the epoch of the covering same-id child or
    /// insert the delta's separator, then drop every separator strictly
    /// inside the delta's range; everything else is untouched.
    pub fn apply(&mut self, deltas: Vec<DeltaIndex>) -> (mids: Ghost<
        Seq<Seq<(Seq<u8>, PageIndex)>>,
    >)
        requires
            old(self).wf(),
        ensures
            final(self).wf(),
            mids@.len() == deltas@.len() + 1,
            mids@[deltas@.len() as int] == old(self).view_children(),
            mids@[0] == final(self).view_children(),
            forall|k: int|
                0 <= k < deltas@.len() ==> delta_applied(
                    mids@[k + 1],
                    deltas@[k].lowest@,
                    deltas@[k].highest@,
                    deltas@[k].new_child,
                    #[trigger] mids@[k],
                ),
    {
        let ghost orig = self.view_children();
        let ghost mut mids = Seq::new((deltas@.len() + 1) as nat, |k: int| orig);
        let mut i: usize = deltas.len();
        while i > 0
            invariant
                self.wf(),
                0 <= i <= deltas@.len(),
                mids.len() == deltas@.len() + 1,
                mids[deltas@.len() as int] == orig,
                mids[i as int] == self.view_children(),
                forall|k: int|
                    i <= k < deltas@.len() ==> delta_applied(
                        mids[k + 1],
                        deltas@[k].lowest@,
                        deltas@[k].highest@,
                        deltas@[k].new_child,
                        #[trigger] mids[k],
                    ),
            decreases i,
        {
            i = i - 1;
            let ghost mid = self.view_children();
            let delta = &deltas[i];
            let ghost lo = delta.lowest@;
            let ghost hi = delta.highest@;
            let ghost child = delta.new_child;
            // First half: refresh the covering same-id child, else insert
            // the delta's separator.
            let cover = assoc_rank_le(&self.children, &delta.lowest);
            let ghost has_existing = (exists|m: int|
                #[trigger] covering_pos(mid, lo, m) && mid[m].1.id == child.id);
            let key_used: Vec<u8> = match cover {
                Some(m) => {
                    proof {
                        assert(covering_pos(mid, lo, m as int));
                        assert forall|m2: int|
                            #[trigger] covering_pos(mid, lo, m2) implies m2 == m as int by {
                            if m2 < m as int {
                                assert(lex_lt(lo, mid[m as int].0));
                            } else if m2 > m as int {
                                assert(lex_lt(lo, mid[m2].0));
                            }
                        }
                    }
                    if self.children[m].1.id == delta.new_child.id {
                        proof {
                            assert(has_existing);
                        }
                        crate::data::dup_bytes(&self.children[m].0)
                    } else {
                        proof {
                            assert(!has_existing);
                        }
                        crate::data::dup_bytes(&delta.lowest)
                    }
                },
                None => {
                    proof {
                        assert forall|m2: int| !(#[trigger] covering_pos(mid, lo, m2)) by {
                            if covering_pos(mid, lo, m2) {
                                assert(lex_lt(lo, mid[m2].0));
                            }
                        }
                        assert(!has_existing);
                    }
                    crate::data::dup_bytes(&delta.lowest)
                },
            };
            let _ = assoc_insert(&mut self.children, key_used, delta.new_child);
            let ghost up_view = self.view_children();
            proof {
                assert(upserted(mid, lo, child, up_view)) by {
                    if has_existing {
                        let m = choose|m: int|
                            #[trigger] covering_pos(mid, lo, m) && mid[m].1.id == child.id;
                        assert(key_used@ == mid[m].0);
                        assert(covering_pos(mid, lo, m) && mid[m].1.id == child.id && (forall|
                            k2: Seq<u8>,
                            v2: PageIndex,
                        |
                            #[trigger] has_pair(up_view, k2, v2) <==> ((k2 == mid[m].0 && v2
                                == child) || (k2 != mid[m].0 && has_pair(mid, k2, v2)))));
                    } else {
                        assert(key_used@ == lo);
                    }
                }
            }
            // Second half: drop the separators strictly inside the range.
            let mut kept: Vec<(Vec<u8>, PageIndex)> = Vec::new();
            let mut j: usize = 0;
            let ghost cur = seq_view(self.children@);
            let ghost mut idxs = Seq::<int>::empty();
            while j < self.children.len()
                invariant
                    0 <= j <= self.children@.len(),
                    cur == seq_view(self.children@),
                    sorted_lt::<Vec<u8>, PageIndex>(cur),
                    lo == delta.lowest@ && hi == delta.highest@,
                    idxs.len() == kept@.len(),
                    forall|a: int|
                        0 <= a < idxs.len() ==> 0 <= #[trigger] idxs[a] < j && seq_view(
                            kept@,
                        )[a] == cur[idxs[a]],
                    forall|a: int, b: int| 0 <= a < b < idxs.len() ==> #[trigger] idxs[a] < #[trigger] idxs[b],
                    forall|k2: Seq<u8>, v2: PageIndex|
                        #[trigger] has_pair(seq_view(kept@), k2, v2) <==> ((exists|b: int|
                            0 <= b < j && #[trigger] cur[b] == (k2, v2)) && !(lex_lt(lo, k2)
                            && lex_lt(k2, hi))),
                decreases self.children@.len() - j,
            {
                let e = &self.children[j];
                let keep = !crate::data::bytes_lt(&delta.lowest, &e.0) || !crate::data::bytes_lt(
                    &e.0,
                    &delta.highest,
                );
                let ghost kept_pre = seq_view(kept@);
                if keep {
                    kept.push((crate::data::dup_bytes(&e.0), e.1));
                    proof {
                        idxs = idxs.push(j as int);
                        assert(seq_view(kept@) =~= kept_pre.push((cur[j as int].0, cur[j as int].1)));
                        assert((cur[j as int].0, cur[j as int].1) == cur[j as int]);
                    }
                }
                proof {
                    assert forall|k2: Seq<u8>, v2: PageIndex|
                        #[trigger] has_pair(seq_view(kept@), k2, v2) <==> ((exists|b: int|
                            0 <= b < j + 1 && #[trigger] cur[b] == (k2, v2)) && !(lex_lt(lo, k2)
                            && lex_lt(k2, hi))) by {
                        if has_pair(seq_view(kept@), k2, v2) {
                            let a = choose|a: int|
                                0 <= a < seq_view(kept@).len() && #[trigger] seq_view(kept@)[a] == (
                                k2,
                                v2,
                                );
                            if a < kept_pre.len() {
                                assert(kept_pre[a] == (k2, v2));
                                assert(has_pair(kept_pre, k2, v2));
                            } else {
                                assert(seq_view(kept@)[a] == cur[j as int]);
                            }
                        }
                        if (exists|b: int| 0 <= b < j + 1 && #[trigger] cur[b] == (k2, v2)) && !(
                        lex_lt(lo, k2) && lex_lt(k2, hi)) {
                            let b = choose|b: int| 0 <= b < j + 1 && #[trigger] cur[b] == (k2, v2);
                            if b < j {
                                assert(has_pair(kept_pre, k2, v2));
                                let a = choose|a: int|
                                    0 <= a < kept_pre.len() && #[trigger] kept_pre[a] == (k2, v2);
                                if keep {
                                    assert(seq_view(kept@)[a] == (k2, v2));
                                } else {
                                    assert(seq_view(kept@) == kept_pre);
                                }
                            } else {
                                assert(cur[j as int] == (k2, v2));
                                assert(keep);
                                assert(seq_view(kept@)[seq_view(kept@).len() - 1] == (k2, v2));
                            }
                        }
                    }
                }
                j = j + 1;
            }
            proof {
                let kv = seq_view(kept@);
                assert forall|a: int, b: int|
                    0 <= a < b < kv.len() implies lex_lt(
                    (#[trigger] kv[a]).0,
                    (#[trigger] kv[b]).0,
                ) by {
                    assert(kv[a] == cur[idxs[a]] && kv[b] == cur[idxs[b]]);
                    assert(idxs[a] < idxs[b]);
                }
            }
            self.children = kept;
            proof {
                assert(retained(up_view, lo, hi, self.view_children())) by {
                    assert forall|k2: Seq<u8>, v2: PageIndex|
                        #[trigger] has_pair(self.view_children(), k2, v2) <==> (has_pair(
                            up_view,
                            k2,
                            v2,
                        ) && !(lex_lt(lo, k2) && lex_lt(k2, hi))) by {}
                }
                assert(delta_applied(mid, lo, hi, child, self.view_children())) by {
                    assert(upserted(mid, lo, child, up_view) && retained(
                        up_view,
                        lo,
                        hi,
                        self.view_children(),
                    ));
                }
                mids = mids.update(i as int, self.view_children());
                assert(delta_applied(
                    mids[i as int + 1],
                    deltas@[i as int].lowest@,
                    deltas@[i as int].highest@,
                    deltas@[i as int].new_child,
                    mids[i as int],
                ));
            }
        }
        Ghost(mids)
    }

    /// Splits off the upper half of the separators.
    pub fn split(&mut self) -> (r: Option<BaseIndex>)
        requires
            old(self).wf(),
        ensures
            final(self).wf(),
            match r {
                Some(right) => {
                    let cut = (old(self).view_children().len() as int + 1) / 2;
                    &&& right.wf()
                    &&& 0 < cut < old(self).view_children().len()
                    &&& final(self).view_children() =~= old(self).view_children().subrange(0, cut)
                    &&& right.view_children() =~= old(self).view_children().subrange(
                        cut,
                        old(self).view_children().len() as int,
                    )
                    &&& right.lowest_spec() == old(self).view_children()[cut].0
                    &&& final(self).highest_spec() == right.lowest_spec()
                    &&& right.highest_spec() == old(self).highest_spec()
                    &&& final(self).lowest_spec() == old(self).lowest_spec()
                    &&& (sep_size(right.view_children()) <= u64::MAX ==> right.size_spec() as int
                        == sep_size(right.view_children()))
                    &&& final(self).size_spec() == if old(self).size_spec() >= right.size_spec() {
                        old(self).size_spec() - right.size_spec()
                    } else {
                        0
                    }
                },
                None => (old(self).view_children().len() as int + 1) / 2 >= old(
                    self,
                ).view_children().len() && *final(self) == *old(self),
            },
    {
        let nth = self.children.len() / 2 + self.children.len() % 2;
        proof {
            assert(nth as int == (old(self).view_children().len() as int + 1) / 2);
        }
        if nth < self.children.len() {
            let upper = self.children.split_off(nth);
            let ghost whole = old(self).view_children();
            let ghost cut = (whole.len() as int + 1) / 2;
            let sep = crate::data::dup_bytes(&upper[0].0);
            let mut old_hi: Vec<u8> = Vec::new();
            core::mem::swap(&mut old_hi, &mut self.highest);
            self.highest = crate::data::dup_bytes(&sep);
            let mut rsize: u64 = 0;
            let mut stop = false;
            let mut j: usize = 0;
            proof {
                assert(seq_view(upper@).subrange(0, 0) =~= Seq::<(Seq<u8>, PageIndex)>::empty());
            }
            while j < upper.len()
                invariant
                    0 <= j <= upper@.len(),
                    !stop ==> rsize as int == sep_size(seq_view(upper@).subrange(0, j as int)),
                    stop ==> sep_size(seq_view(upper@).subrange(0, j as int)) > u64::MAX,
                decreases upper@.len() - j,
            {
                let ghost prefix = seq_view(upper@).subrange(0, j as int);
                let kl = upper[j].0.len() as u64;
                proof {
                    assert(seq_view(upper@).subrange(0, j + 1) =~= prefix.push(
                        (upper@[j as int].0@, upper@[j as int].1@),
                    ));
                    assert(seq_view(upper@).subrange(0, j + 1).drop_last() =~= prefix);
                }
                if stop {
                    proof {
                        assert(prefix.is_prefix_of(seq_view(upper@).subrange(0, j + 1)));
                        lemma_sep_size_monotone(prefix, seq_view(upper@).subrange(0, j + 1));
                    }
                } else if rsize as u128 + kl as u128 + 16 <= u64::MAX as u128 {
                    rsize = rsize + kl + 16;
                } else {
                    stop = true;
                }
                j = j + 1;
            }
            proof {
                assert(seq_view(upper@).subrange(0, upper@.len() as int) =~= seq_view(upper@));
            }
            if self.size >= rsize {
                self.size = self.size - rsize;
            } else {
                self.size = 0;
            }
            let right = BaseIndex { size: rsize, lowest: sep, highest: old_hi, children: upper };
            proof {
                assert(self.view_children() =~= whole.subrange(0, cut));
                assert(right.view_children() =~= whole.subrange(cut, whole.len() as int));
            }
            Some(right)
        } else {
            None
        }
    }
}



/// The payload of a merge: the consumed right sibling's whole chain, owned.
pub struct MergeNode {
    pub lowest: Vec<u8>,
    pub highest: Vec<u8>,
    pub right_page: PageBuf,
}

/// The typed content of a logical page.
pub enum PageContent {
    BaseData(BaseData),
    DeltaData(DeltaData),
    SplitData(SplitNode),
    MergeData(MergeNode),
    RemoveData,
    BaseIndex(BaseIndex),
    DeltaIndex(DeltaIndex),
    SplitIndex(SplitNode),
    MergeIndex(MergeNode),
    RemoveIndex,
}

impl PageContent {
    /// True for the data-node kinds.
    pub fn is_data(&self) -> (r: bool)
        ensures
            r <==> (self is BaseData || self is DeltaData || self is SplitData || self is MergeData
                || self is RemoveData),
    {
        match self {
            PageContent::BaseData(_)
            | PageContent::DeltaData(_)
            | PageContent::SplitData(_)
            | PageContent::MergeData(_)
            | PageContent::RemoveData => true,
            _ => false,
        }
    }

    /// True for the kinds that mark a removed node.
    pub fn is_removed(&self) -> (r: bool)
        ensures
            r <==> (self is RemoveData || self is RemoveIndex),
    {
        match self {
            PageContent::RemoveData | PageContent::RemoveIndex => true,
            _ => false,
        }
    }
}

/// A logical page header: the chain length behind this page and the node's
/// structural epoch.
pub struct PageHeader {
    len: usize,
    epoch: u64,
}

impl PageHeader {
    pub closed spec fn len_spec(self) -> usize {
        self.len
    }

    pub closed spec fn epoch_spec(self) -> u64 {
        self.epoch
    }

    pub fn new() -> (r: PageHeader)
        ensures
            r.len_spec() == 1,
            r.epoch_spec() == 0,
    {
        PageHeader { len: 1, epoch: 0 }
    }

    /// The same header one structural epoch later.
    pub fn into_next_epoch(self) -> (r: PageHeader)
        requires
            self.epoch_spec() < u64::MAX,
        ensures
            r.epoch_spec() == self.epoch_spec() + 1,
            r.len_spec() == self.len_spec(),
    {
        PageHeader { len: self.len, epoch: self.epoch + 1 }
    }
}

/// A logical page: header, content, and the owned rest of its chain.
pub struct Page {
    header: PageHeader,
    content: PageContent,
    next: Option<Box<Page>>,
}

impl Page {
    /// The pages reachable from this one, itself included.
    pub closed spec fn chain_count(self) -> nat
        decreases self,
    {
        1 + match self.next {
            Some(b) => b.chain_count(),
            None => 0,
        }
    }

    /// Every header on the chain counts the pages behind it.
    pub closed spec fn chain_wf(self) -> bool
        decreases self,
    {
        self.header.len_spec() == self.chain_count() && match self.next {
            Some(b) => b.chain_wf(),
            None => true,
        }
    }

    pub closed spec fn header_spec(self) -> PageHeader {
        self.header
    }

    /// This page's own content.
    pub closed spec fn content_spec(self) -> PageContent {
        self.content
    }

    /// Whether this page ends its chain.
    pub closed spec fn is_tail(self) -> bool {
        self.next is None
    }

    /// Chains this page in front of another, taking ownership of it; the
    /// header keeps the next page's epoch and counts one page more.
    pub fn link(&mut self, next: PageBuf)
        requires
            old(self).is_tail(),
            next.chain_wf(),
            next.chain_count() < usize::MAX,
        ensures
            final(self).chain_wf(),
            final(self).chain_count() == next.chain_count() + 1,
            final(self).header_spec().epoch_spec() == next.head_epoch(),
            final(self).content_spec() == old(self).content_spec(),
    {
        let PageBuf(b) = next;
        let n = b.chain_len_exec();
        self.header = PageHeader { len: n + 1, epoch: b.header.epoch };
        self.next = Some(b);
    }

    /// Reads the chain length off the chain itself.
    fn chain_len_exec(&self) -> (r: usize)
        requires
            self.chain_wf(),
            self.chain_count() < usize::MAX,
        ensures
            r == self.chain_count(),
    {
        self.header.len
    }
}

/// An owned page chain.
pub struct PageBuf(Box<Page>);

impl PageBuf {
    pub closed spec fn chain_wf(self) -> bool {
        self.0.chain_wf()
    }

    pub closed spec fn chain_count(self) -> nat {
        self.0.chain_count()
    }

    pub closed spec fn head_epoch(self) -> u64 {
        self.0.header.epoch_spec()
    }

    /// A single page with the given header and content; the header must
    /// count exactly this page.
    pub fn new(header: PageHeader, content: PageContent) -> (r: PageBuf)
        requires
            header.len_spec() == 1,
        ensures
            r.chain_wf(),
            r.chain_count() == 1,
            r.head_epoch() == header.epoch_spec(),
            r.head_content() == content,
    {
        PageBuf(Box::new(Page { header, content, next: None }))
    }

    /// A single fresh page around the given content.
    pub fn with_content(content: PageContent) -> (r: PageBuf)
        ensures
            r.chain_wf(),
            r.chain_count() == 1,
            r.head_epoch() == 0,
            r.head_content() == content,
    {
        PageBuf::new(PageHeader::new(), content)
    }

    /// A page chained in front of an owned chain.
    pub fn with_next(next: PageBuf, content: PageContent) -> (r: PageBuf)
        requires
            next.chain_wf(),
            next.chain_count() < usize::MAX,
        ensures
            r.chain_wf(),
            r.chain_count() == next.chain_count() + 1,
            r.head_epoch() == next.head_epoch(),
            r.head_content() == content,
    {
        let mut page = Page { header: PageHeader::new(), content, next: None };
        page.link(next);
        PageBuf(Box::new(page))
    }

    /// A read-only view of the chain's head.
    pub fn as_ref<'a>(&'a self) -> (r: PageRef<'a>)
        ensures
            r.target() == *self.box_ref(),
    {
        PageRef(&self.0)
    }

    /// The head page.
    pub closed spec fn box_ref(self) -> Box<Page> {
        self.0
    }

    /// The head page's content.
    pub closed spec fn head_content(self) -> PageContent {
        self.0.content_spec()
    }
}

/// A borrowed view of a page on a chain.
#[derive(Clone, Copy)]
pub struct PageRef<'a>(&'a Page);

impl<'a> PageRef<'a> {
    /// The page viewed.
    pub closed spec fn target(self) -> Page {
        *self.0
    }

    /// The recorded chain length behind this page.
    pub fn len(self) -> (r: usize)
        ensures
            r == self.target().header_spec().len_spec(),
            self.target().chain_wf() ==> r == self.target().chain_count(),
    {
        proof {
            if self.target().chain_wf() {
            }
        }
        self.0.header.len
    }

    /// The next page of the chain, if any.
    pub fn next(self) -> (r: Option<PageRef<'a>>)
        ensures
            match r {
                Some(p) => self.target().chain_wf() ==> (p.target().chain_wf()
                    && p.target().chain_count() + 1 == self.target().chain_count()),
                None => true,
            },
    {
        match &self.0.next {
            Some(b) => Some(PageRef(b)),
            None => None,
        }
    }

    /// The node's structural epoch.
    pub fn epoch(self) -> (r: u64)
        ensures
            r == self.target().header_spec().epoch_spec(),
    {
        self.0.header.epoch
    }

    /// The page header.
    pub fn header(self) -> (r: &'a PageHeader)
        ensures
            *r == self.target().header_spec(),
    {
        &self.0.header
    }

    /// True when the page belongs to a data node.
    pub fn is_data(self) -> (r: bool)
        ensures
            r <==> (self.content_spec() is BaseData || self.content_spec() is DeltaData
                || self.content_spec() is SplitData || self.content_spec() is MergeData
                || self.content_spec() is RemoveData),
    {
        self.0.content.is_data()
    }

    /// The page content.
    pub fn content(self) -> (r: &'a PageContent)
        ensures
            *r == self.content_spec(),
    {
        &self.0.content
    }

    pub closed spec fn content_spec(self) -> PageContent {
        self.0.content
    }
}


} // verus!
