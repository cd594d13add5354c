//! Data pages: a header plus entries sorted by key, with binary search,
//! seeking, and a builder that fills a page from a rewindable iterator.

use vstd::prelude::*;

use crate::base::{kind_as_u8, PageAlloc, PageBuilder, PageKind, PagePtr};
use crate::data::{Duplicable, EncSized, OrderedKey};
use crate::data::enc_total;
use crate::error::Error;
use crate::iter::{
    binary_rank, seq_view, sorted_le, sorted_lt, ForwardIter, RewindableIter, SeekableIter,
};

verus! {

/// A builder that sizes and creates data pages.
pub struct DataPageBuilder {
    base: PageBuilder,
    size: u64,
    num: u64,
    overflowed: bool,
}

impl DataPageBuilder {
    pub closed spec fn size_spec(self) -> u64 {
        self.size
    }

    pub closed spec fn num_spec(self) -> u64 {
        self.num
    }

    pub closed spec fn overflowed_spec(self) -> bool {
        self.overflowed
    }

    pub fn new() -> (r: DataPageBuilder)
        ensures
            r.size_spec() == 0,
            r.num_spec() == 0,
            !r.overflowed_spec(),
    {
        DataPageBuilder { base: PageBuilder::new(PageKind::Data), size: 0, num: 0, overflowed: false }
    }

    /// Accounts one entry: its offset slot, key and value bytes; marks the
    /// builder overflowed once the total would no longer fit the content
    /// size field.
    pub fn add<K: EncSized, V: EncSized>(&mut self, key: &K, value: &V)
        ensures
            final(self).num_spec() == old(self).num_spec() + 1 || old(self).num_spec() == u64::MAX,
            !final(self).overflowed_spec() ==> final(self).size_spec() == old(self).size_spec() + 4
                + K::enc_size_view(key@) + V::enc_size_view(value@),
            old(self).overflowed_spec() ==> final(self).overflowed_spec(),
            !old(self).overflowed_spec() && old(self).size_spec() + 4 + K::enc_size_view(key@)
                + V::enc_size_view(value@) <= u32::MAX ==> !final(self).overflowed_spec(),
            !old(self).overflowed_spec() && old(self).size_spec() + 4 + K::enc_size_view(key@)
                + V::enc_size_view(value@) > u32::MAX ==> final(self).overflowed_spec(),
    {
        let kn = key.enc_size();
        let vn = value.enc_size();
        if self.num < u64::MAX {
            self.num = self.num + 1;
        }
        if self.overflowed {
            return ;
        }
        if (self.size as u128) + 4 + (kn as u128) + (vn as u128) <= u32::MAX as u128 {
            self.size = self.size + 4 + kn + vn;
        } else {
            self.overflowed = true;
        }
    }

    /// The accounted content size.
    pub fn size(&self) -> (r: u64)
        ensures
            r == self.size_spec(),
    {
        self.size
    }

    /// Builds an empty data page.
    pub fn build<K: OrderedKey + EncSized, V: View + EncSized, A: PageAlloc>(
        self,
        pa: &mut A,
    ) -> (r: Result<DataPageBuf<K, V>, Error>)
        ensures
            match r {
                Ok(buf) => buf.wf() && buf.entries_view() == Seq::<(K::V, V::V)>::empty()
                    && buf.hdr_spec().ver_spec() == 0 && buf.hdr_spec().len_spec() == 0
                    && buf.hdr_spec().kind_spec() == 0 && !buf.hdr_spec().is_index_spec()
                    && buf.hdr_spec().next_spec() == 0 && buf.hdr_spec().content_size_spec() == 0,
                Err(e) => e is Alloc,
            },
            old(pa).can_alloc(0) ==> r is Ok,
    {
        let builder = PageBuilder::new(PageKind::Data);
        match builder.build(pa, 0) {
            Ok(ptr) => {
                let buf = DataPageBuf { ptr, entries: Vec::new() };
                proof {
                    assert(seq_view(buf.entries@) =~= Seq::<(K::V, V::V)>::empty());
                }
                Ok(buf)
            },
            Err(e) => Err(e),
        }
    }

    /// Builds a data page holding every entry of the iterator, in order; the
    /// iterator is rewound first. Fails when the entries outgrow the content
    /// size field or the allocator refuses.
    pub fn build_from_iter<
        K: OrderedKey + EncSized + Duplicable,
        V: View + EncSized + Duplicable,
        A: PageAlloc,
        I: RewindableIter<K, V>,
    >(self, pa: &mut A, it: &mut I) -> (r: Result<DataPageBuf<K, V>, Error>)
        requires
            old(it).inv(),
        ensures
            final(it).inv(),
            final(it).all() == old(it).reset_all(),
            match r {
                Ok(buf) => buf.wf() && buf.entries_view() == old(it).reset_all() && buf.hdr_spec().ver_spec()
                    == 0 && buf.hdr_spec().len_spec() == 0 && buf.hdr_spec().kind_spec() == 0
                    && !buf.hdr_spec().is_index_spec() && buf.hdr_spec().next_spec() == 0
                    && buf.hdr_spec().content_size_spec() == enc_total::<K, V>(
                    old(it).reset_all(),
                ) && enc_total::<K, V>(old(it).reset_all()) <= u32::MAX,
                Err(e) => e is Alloc && *final(pa) == *old(pa),
            },
            enc_total::<K, V>(old(it).reset_all()) > u32::MAX ==> r is Err,
            enc_total::<K, V>(old(it).reset_all()) <= u32::MAX && old(pa).can_alloc(
                enc_total::<K, V>(old(it).reset_all()) as u32,
            ) ==> r is Ok,
    {
        it.rewind();
        let ghost whole = it.all();
        let mut entries: Vec<(K, V)> = Vec::new();
        let mut total: u64 = 0;
        let mut stop = false;
        loop
            invariant_except_break
                !stop,
                seq_view(entries@) =~= whole.subrange(0, it.pos()),
                it.pos() == seq_view(entries@).len(),
            invariant
                it.inv(),
                it.all() == whole,
                0 <= it.pos() <= whole.len(),
                total == enc_total::<K, V>(seq_view(entries@)),
                total <= u32::MAX,
            ensures
                it.inv(),
                it.all() == whole,
                !stop ==> seq_view(entries@) =~= whole && total == enc_total::<K, V>(whole)
                    && total <= u32::MAX,
                stop ==> enc_total::<K, V>(whole) > u32::MAX,
            decreases whole.len() - it.pos() + 1,
        {
            let ghost entries_pre = seq_view(entries@);
            match it.next() {
                Some(e) => {
                    let kn = e.0.enc_size();
                    let vn = e.1.enc_size();
                    if (total as u128) + 4 + (kn as u128) + (vn as u128) <= u32::MAX as u128 {
                        total = total + 4 + kn + vn;
                        let ke = e.0.dup();
                        let ve = e.1.dup();
                        entries.push((ke, ve));
                        proof {
                            assert(seq_view(entries@) =~= entries_pre.push((ke@, ve@)));
                            assert(seq_view(entries@) =~= whole.subrange(0, it.pos()));
                            assert(seq_view(entries@).drop_last() =~= entries_pre);
                        }
                    } else {
                        stop = true;
                        proof {
                            let prefix = whole.subrange(0, it.pos());
                            assert(prefix =~= entries_pre.push((e.0@, e.1@)));
                            assert(prefix.drop_last() =~= entries_pre);
                            assert(enc_total::<K, V>(prefix) > u32::MAX);
                            assert(prefix.is_prefix_of(whole));
                            crate::data::lemma_enc_total_monotone::<K, V>(prefix, whole);
                        }
                        break ;
                    }
                },
                None => {
                    proof {
                        assert(whole.subrange(0, it.pos()) =~= whole);
                    }
                    break ;
                },
            }
        }
        if stop {
            return Err(Error::Alloc);
        }
        let builder = PageBuilder::new(PageKind::Data);
        match builder.build(pa, total as u32) {
            Ok(ptr) => Ok(DataPageBuf { ptr, entries }),
            Err(e) => Err(e),
        }
    }
}

/// A freshly built data page: its header and its owned entries.
pub struct DataPageBuf<K, V> {
    ptr: PagePtr,
    entries: Vec<(K, V)>,
}

impl<K: OrderedKey, V: View> DataPageBuf<K, V> {
    /// The header fields.
    pub closed spec fn hdr_spec(self) -> PagePtr {
        self.ptr
    }

    /// The entries as views.
    pub closed spec fn entries_view(self) -> Seq<(K::V, V::V)> {
        seq_view(self.entries@)
    }

    /// The header records the kind of a data page.
    pub open spec fn wf(self) -> bool {
        self.hdr_spec().kind_spec() == kind_as_u8(PageKind::Data)
    }

    /// A copy of the page header.
    pub fn as_ptr(&self) -> (r: PagePtr)
        ensures
            r.ver_spec() == self.hdr_spec().ver_spec(),
            r.len_spec() == self.hdr_spec().len_spec(),
            r.kind_spec() == self.hdr_spec().kind_spec(),
            r.is_index_spec() == self.hdr_spec().is_index_spec(),
            r.next_spec() == self.hdr_spec().next_spec(),
            r.content_size_spec() == self.hdr_spec().content_size_spec(),
    {
        self.ptr.duplicate()
    }

    /// A read-only view of the page.
    pub fn as_ref<'a>(&'a self) -> (r: DataPageRef<'a, K, V>)
        ensures
            r.entries_view() == self.entries_view(),
            r.hdr_spec() == self.hdr_spec(),
    {
        DataPageRef { ptr: &self.ptr, entries: &self.entries }
    }

    /// Stamps the structural version.
    pub fn set_ver(&mut self, ver: crate::base::PageVer)
        ensures
            final(self).hdr_spec().ver_spec() == ver.value(),
            final(self).hdr_spec().len_spec() == old(self).hdr_spec().len_spec(),
            final(self).hdr_spec().kind_spec() == old(self).hdr_spec().kind_spec(),
            final(self).hdr_spec().is_index_spec() == old(self).hdr_spec().is_index_spec(),
            final(self).hdr_spec().next_spec() == old(self).hdr_spec().next_spec(),
            final(self).hdr_spec().content_size_spec() == old(self).hdr_spec().content_size_spec(),
            final(self).entries_view() == old(self).entries_view(),
    {
        self.ptr.set_ver(ver);
    }

    /// Stamps the chain length.
    pub fn set_len(&mut self, len: u8)
        ensures
            final(self).hdr_spec().len_spec() == len,
            final(self).hdr_spec().ver_spec() == old(self).hdr_spec().ver_spec(),
            final(self).hdr_spec().kind_spec() == old(self).hdr_spec().kind_spec(),
            final(self).hdr_spec().is_index_spec() == old(self).hdr_spec().is_index_spec(),
            final(self).hdr_spec().next_spec() == old(self).hdr_spec().next_spec(),
            final(self).hdr_spec().content_size_spec() == old(self).hdr_spec().content_size_spec(),
            final(self).entries_view() == old(self).entries_view(),
    {
        self.ptr.set_len(len);
    }

    /// Stamps the next-page address.
    pub fn set_next(&mut self, next: u64)
        ensures
            final(self).hdr_spec().next_spec() == next,
            final(self).hdr_spec().ver_spec() == old(self).hdr_spec().ver_spec(),
            final(self).hdr_spec().len_spec() == old(self).hdr_spec().len_spec(),
            final(self).hdr_spec().kind_spec() == old(self).hdr_spec().kind_spec(),
            final(self).hdr_spec().is_index_spec() == old(self).hdr_spec().is_index_spec(),
            final(self).hdr_spec().content_size_spec() == old(self).hdr_spec().content_size_spec(),
            final(self).entries_view() == old(self).entries_view(),
    {
        self.ptr.set_next(next);
    }

    /// Stamps the is-index flag.
    pub fn set_index(&mut self, is_index: bool)
        ensures
            final(self).hdr_spec().is_index_spec() == is_index,
            final(self).hdr_spec().ver_spec() == old(self).hdr_spec().ver_spec(),
            final(self).hdr_spec().len_spec() == old(self).hdr_spec().len_spec(),
            final(self).hdr_spec().kind_spec() == old(self).hdr_spec().kind_spec(),
            final(self).hdr_spec().next_spec() == old(self).hdr_spec().next_spec(),
            final(self).hdr_spec().content_size_spec() == old(self).hdr_spec().content_size_spec(),
            final(self).entries_view() == old(self).entries_view(),
    {
        self.ptr.set_index(is_index);
    }

    /// Takes the page apart into its header and entries.
    pub fn into_parts(self) -> (r: (PagePtr, Vec<(K, V)>))
        ensures
            r.0 == self.hdr_spec(),
            seq_view(r.1@) == self.entries_view(),
    {
        let DataPageBuf { ptr, entries } = self;
        (ptr, entries)
    }
}

/// An immutable reference to a data page.
pub struct DataPageRef<'a, K, V> {
    ptr: &'a PagePtr,
    entries: &'a Vec<(K, V)>,
}

impl<'a, K: OrderedKey, V: View> DataPageRef<'a, K, V> {
    /// The header fields.
    pub closed spec fn hdr_spec(self) -> PagePtr {
        *self.ptr
    }

    /// The entries as views.
    pub closed spec fn entries_view(self) -> Seq<(K::V, V::V)> {
        seq_view(self.entries@)
    }

    pub fn new(ptr: &'a PagePtr, entries: &'a Vec<(K, V)>) -> (r: DataPageRef<'a, K, V>)
        ensures
            r.hdr_spec() == *ptr,
            r.entries_view() == seq_view(entries@),
    {
        DataPageRef { ptr, entries }
    }

    /// Returns the number of entries in the page.
    pub fn len(&self) -> (r: usize)
        ensures
            r == self.entries_view().len(),
    {
        self.entries.len()
    }

    /// Returns the entry at the given position.
    pub fn get(&self, index: usize) -> (r: Option<&'a (K, V)>)
        ensures
            match r {
                Some(e) => index < self.entries_view().len() && e@ == self.entries_view()[index as int],
                None => index >= self.entries_view().len(),
            },
    {
        if index < self.entries.len() {
            Some(&self.entries[index])
        } else {
            None
        }
    }

    /// The position of the first entry at or after `target`.
    pub fn rank(&self, target: &K) -> (r: usize)
        requires
            sorted_le::<K, V>(self.entries_view()),
        ensures
            0 <= r <= self.entries_view().len(),
            forall|i: int| 0 <= i < r ==> K::lt_view(#[trigger] self.entries_view()[i].0, target@),
            forall|i: int|
                r <= i < self.entries_view().len() ==> !K::lt_view(
                    #[trigger] self.entries_view()[i].0,
                    target@,
                ),
    {
        binary_rank::<K, V>(self.entries, target)
    }

    /// Returns the first entry at or after `target`.
    pub fn seek(&self, target: &K) -> (r: Option<&'a (K, V)>)
        requires
            sorted_le::<K, V>(self.entries_view()),
        ensures
            match r {
                Some(e) => {
                    exists|m: int|
                        0 <= m < self.entries_view().len() && e@ == self.entries_view()[m]
                            && !K::lt_view(self.entries_view()[m].0, target@) && (forall|i: int|
                            0 <= i < m ==> K::lt_view(#[trigger] self.entries_view()[i].0, target@))
                },
                None => forall|i: int|
                    0 <= i < self.entries_view().len() ==> K::lt_view(
                        #[trigger] self.entries_view()[i].0,
                        target@,
                    ),
            },
    {
        let r = self.rank(target);
        if r < self.entries.len() {
            let e = &self.entries[r];
            proof {
                let sv = self.entries_view();
                let m = r as int;
                assert(0 <= m < sv.len() && e@ == sv[m] && !K::lt_view(sv[m].0, target@) && (
                forall|i: int| 0 <= i < m ==> K::lt_view(#[trigger] sv[i].0, target@)));
            }
            Some(e)
        } else {
            None
        }
    }

    /// Returns the last entry at or before `target`.
    pub fn seek_back(&self, target: &K) -> (r: Option<&'a (K, V)>)
        requires
            sorted_lt::<K, V>(self.entries_view()),
        ensures
            match r {
                Some(e) => {
                    exists|m: int|
                        0 <= m < self.entries_view().len() && e@ == self.entries_view()[m]
                            && !K::lt_view(target@, self.entries_view()[m].0) && (forall|i: int|
                            m < i < self.entries_view().len() ==> K::lt_view(
                                target@,
                                #[trigger] self.entries_view()[i].0,
                            ))
                },
                None => forall|i: int|
                    0 <= i < self.entries_view().len() ==> K::lt_view(
                        target@,
                        #[trigger] self.entries_view()[i].0,
                    ),
            },
    {
        proof {
            crate::iter::lemma_sorted_lt_le::<K, V>(self.entries_view());
        }
        let ghost sv = self.entries_view();
        let r = self.rank(target);
        if r < self.entries.len() {
            let e = &self.entries[r];
            if !target.key_lt(&e.0) {
                proof {
                    let m = r as int;
                    assert forall|i: int| m < i < sv.len() implies K::lt_view(
                        target@,
                        #[trigger] sv[i].0,
                    ) by {
                        assert(K::lt_view(sv[m].0, sv[i].0));
                        if !K::lt_view(target@, sv[i].0) {
                            K::lemma_strict_order(sv[m].0, target@, sv[i].0);
                        }
                    }
                    assert(0 <= m < sv.len() && e@ == sv[m] && !K::lt_view(target@, sv[m].0) && (
                    forall|i: int| m < i < sv.len() ==> K::lt_view(target@, #[trigger] sv[i].0)));
                }
                return Some(e);
            }
        }
        proof {
            if (r as int) < sv.len() {
                assert(K::lt_view(target@, sv[r as int].0));
            }
            assert forall|i: int| r <= i < sv.len() implies K::lt_view(
                target@,
                #[trigger] sv[i].0,
            ) by {
                if i > r {
                    assert(K::lt_view(sv[r as int].0, sv[i].0));
                    K::lemma_strict_order(target@, sv[r as int].0, sv[i].0);
                }
            }
        }
        if r > 0 {
            let e = &self.entries[r - 1];
            proof {
                let m = r - 1;
                assert(K::lt_view(sv[m].0, target@));
                K::lemma_strict_order(sv[m].0, target@, target@);
                assert(!K::lt_view(target@, sv[m].0));
                assert(0 <= m < sv.len() && e@ == sv[m] && !K::lt_view(target@, sv[m].0) && (
                forall|i: int| m < i < sv.len() ==> K::lt_view(target@, #[trigger] sv[i].0)));
            }
            return Some(e);
        }
        None
    }

    /// Returns an iterator over the entries in the page.
    pub fn iter(&self) -> (r: DataPageIter<'a, K, V>)
        ensures
            r.inv(),
            r.all() == self.entries_view(),
            r.pos() == 0,
            !r.has_cur(),
            r.reset_all() == self.entries_view(),
    {
        DataPageIter { entries: self.entries, idx: 0, has: false }
    }
}

/// A forward, seekable, rewindable iterator over a data page.
pub struct DataPageIter<'a, K, V> {
    entries: &'a Vec<(K, V)>,
    idx: usize,
    has: bool,
}

impl<'a, K: OrderedKey, V: View> DataPageIter<'a, K, V> {
    pub fn new(page: DataPageRef<'a, K, V>) -> (r: DataPageIter<'a, K, V>)
        ensures
            r.inv(),
            r.all() == page.entries_view(),
            r.pos() == 0,
            !r.has_cur(),
            r.reset_all() == page.entries_view(),
    {
        page.iter()
    }
}

impl<'a, K: OrderedKey, V: View> ForwardIter<K, V> for DataPageIter<'a, K, V> {
    closed spec fn all(&self) -> Seq<(K::V, V::V)> {
        seq_view(self.entries@)
    }

    closed spec fn pos(&self) -> int {
        self.idx as int
    }

    closed spec fn has_cur(&self) -> bool {
        self.has
    }

    closed spec fn inv(&self) -> bool {
        self.idx <= self.entries@.len() && (self.has ==> 1 <= self.idx)
    }

    proof fn lemma_inv(&self) {
    }

    fn last(&self) -> (r: Option<&(K, V)>) {
        if self.has {
            Some(&self.entries[self.idx - 1])
        } else {
            None
        }
    }

    fn next(&mut self) -> (r: Option<&(K, V)>) {
        if self.idx < self.entries.len() {
            let i = self.idx;
            self.idx = self.idx + 1;
            self.has = true;
            Some(&self.entries[i])
        } else {
            self.has = false;
            None
        }
    }
}

impl<'a, K: OrderedKey, V: View> SeekableIter<K, V> for DataPageIter<'a, K, V> {
    closed spec fn seek_ready(&self) -> bool {
        sorted_le::<K, V>(seq_view(self.entries@))
    }

    fn seek(&mut self, target: &K) {
        let r = crate::iter::binary_rank_any::<K, V>(self.entries, target);
        self.idx = r;
        self.has = false;
    }
}

impl<'a, K: OrderedKey, V: View> RewindableIter<K, V> for DataPageIter<'a, K, V> {
    closed spec fn reset_all(&self) -> Seq<(K::V, V::V)> {
        seq_view(self.entries@)
    }

    fn rewind(&mut self) {
        self.idx = 0;
        self.has = false;
    }
}

} // verus!
