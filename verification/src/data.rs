//! Keys, values and index entries stored in pages, together with the key
//! ordering (user bytes lexicographic, ties broken by LSN descending) and the
//! byte-size accounting used when pages are built.

use vstd::prelude::*;

verus! {

/// Lexicographic strict order on byte strings.
pub open spec fn lex_lt(a: Seq<u8>, b: Seq<u8>) -> bool
    decreases a.len(),
{
    if a.len() == 0 {
        b.len() > 0
    } else if b.len() == 0 {
        false
    } else if a[0] < b[0] {
        true
    } else if a[0] > b[0] {
        false
    } else {
        lex_lt(a.skip(1), b.skip(1))
    }
}

/// `lex_lt` orders any two distinct byte strings one way or the other.
pub proof fn lemma_lex_connex(a: Seq<u8>, b: Seq<u8>)
    ensures
        lex_lt(a, b) || lex_lt(b, a) || a == b,
    decreases a.len(),
{
    if a.len() == 0 || b.len() == 0 {
        if a.len() == 0 && b.len() == 0 {
            assert(a =~= b);
        }
    } else if a[0] == b[0] {
        lemma_lex_connex(a.skip(1), b.skip(1));
        if !lex_lt(a, b) && !lex_lt(b, a) {
            assert(a.skip(1) =~= b.skip(1));
            assert(a =~= b) by {
                assert forall|i: int| 0 <= i < a.len() implies a[i] == b[i] by {
                    if i > 0 {
                        assert(a[i] == a.skip(1)[i - 1]);
                        assert(b[i] == b.skip(1)[i - 1]);
                    }
                }
            }
        }
    }
}

/// `lex_lt` is asymmetric.
pub proof fn lemma_lex_asym(a: Seq<u8>, b: Seq<u8>)
    ensures
        !(lex_lt(a, b) && lex_lt(b, a)),
    decreases a.len(),
{
    if a.len() > 0 && b.len() > 0 && a[0] == b[0] {
        lemma_lex_asym(a.skip(1), b.skip(1));
    }
}

/// `lex_lt` is transitive.
pub proof fn lemma_lex_trans(a: Seq<u8>, b: Seq<u8>, c: Seq<u8>)
    ensures
        lex_lt(a, b) && lex_lt(b, c) ==> lex_lt(a, c),
    decreases a.len(),
{
    if a.len() > 0 && b.len() > 0 && c.len() > 0 {
        lemma_lex_trans(a.skip(1), b.skip(1), c.skip(1));
    }
}

/// A key type that pages can sort and search: a strict weak order on key
/// views given by `lt_view`, decided at run time by `key_lt`.
pub trait OrderedKey: View + Sized {
    /// The strict order on key views.
    spec fn lt_view(a: Self::V, b: Self::V) -> bool;

    /// `lt_view` is asymmetric and its negation is transitive, so keys are
    /// totally preordered.
    proof fn lemma_strict_order(a: Self::V, b: Self::V, c: Self::V)
        ensures
            !(Self::lt_view(a, b) && Self::lt_view(b, a)),
            Self::lt_view(a, b) && Self::lt_view(b, c) ==> Self::lt_view(a, c),
            !Self::lt_view(a, b) && !Self::lt_view(b, c) ==> !Self::lt_view(a, c),
    ;

    /// Decides the order.
    fn key_lt(&self, other: &Self) -> (r: bool)
        ensures
            r == Self::lt_view(self@, other@),
    ;
}

impl OrderedKey for u64 {
    open spec fn lt_view(a: u64, b: u64) -> bool {
        a < b
    }

    proof fn lemma_strict_order(a: u64, b: u64, c: u64) {
    }

    fn key_lt(&self, other: &u64) -> (r: bool) {
        *self < *other
    }
}

impl OrderedKey for Vec<u8> {
    open spec fn lt_view(a: Seq<u8>, b: Seq<u8>) -> bool {
        lex_lt(a, b)
    }

    proof fn lemma_strict_order(a: Seq<u8>, b: Seq<u8>, c: Seq<u8>) {
        lemma_lex_asym(a, b);
        lemma_lex_asym(b, c);
        lemma_lex_asym(a, c);
        lemma_lex_trans(a, b, c);
        lemma_lex_trans(a, c, b);
        lemma_lex_trans(b, a, c);
        lemma_lex_trans(b, c, a);
        lemma_lex_trans(c, a, b);
        lemma_lex_trans(c, b, a);
        lemma_lex_connex(a, b);
        lemma_lex_connex(b, c);
        lemma_lex_connex(a, c);
    }

    fn key_lt(&self, other: &Vec<u8>) -> (r: bool) {
        bytes_lt(self, other)
    }
}

/// A record key: user bytes plus the log sequence number of the mutation.
/// Keys order by raw bytes ascending and, on equal bytes, by LSN descending,
/// so that seeking to the first entry at or after `(raw, lsn)` finds the
/// freshest version visible at `lsn`.
#[derive(Debug)]
pub struct Key {
    pub raw: Vec<u8>,
    pub lsn: u64,
}

impl View for Key {
    type V = (Seq<u8>, u64);

    open spec fn view(&self) -> (Seq<u8>, u64) {
        (self.raw@, self.lsn)
    }
}

impl Key {
    pub fn new(raw: Vec<u8>, lsn: u64) -> (r: Key)
        ensures
            r@ == (raw@, lsn),
    {
        Key { raw, lsn }
    }

    /// Copies the key.
    pub fn duplicate(&self) -> (r: Key)
        ensures
            r@ == self@,
    {
        let mut raw: Vec<u8> = Vec::new();
        let mut i: usize = 0;
        while i < self.raw.len()
            invariant
                0 <= i <= self.raw@.len(),
                raw@ =~= self.raw@.subrange(0, i as int),
            decreases self.raw@.len() - i,
        {
            raw.push(self.raw[i]);
            i = i + 1;
        }
        proof {
            assert(raw@ =~= self.raw@);
        }
        Key { raw, lsn: self.lsn }
    }
}

/// Decides `lex_lt` on byte vectors.
pub fn bytes_lt(a: &Vec<u8>, b: &Vec<u8>) -> (r: bool)
    ensures
        r == lex_lt(a@, b@),
{
    let n = if a.len() < b.len() {
        a.len()
    } else {
        b.len()
    };
    let mut i: usize = 0;
    while i < n && a[i] == b[i]
        invariant
            0 <= i <= n,
            n == if a@.len() < b@.len() {
                a@.len()
            } else {
                b@.len()
            },
            a@.subrange(0, i as int) == b@.subrange(0, i as int),
        decreases n - i,
    {
        proof {
            assert(a@.subrange(0, i + 1) =~= a@.subrange(0, i as int).push(a@[i as int]));
            assert(b@.subrange(0, i + 1) =~= b@.subrange(0, i as int).push(b@[i as int]));
        }
        i = i + 1;
    }
    proof {
        lemma_lex_prefix(a@, b@, i as int);
    }
    if i < n {
        a[i] < b[i]
    } else {
        a.len() < b.len()
    }
}

/// With equal prefixes of length `i`, the lexicographic order is decided by
/// the remainders.
pub proof fn lemma_lex_prefix(a: Seq<u8>, b: Seq<u8>, i: int)
    requires
        0 <= i <= a.len(),
        0 <= i <= b.len(),
        a.subrange(0, i) == b.subrange(0, i),
    ensures
        lex_lt(a, b) <==> lex_lt(a.skip(i), b.skip(i)),
    decreases i,
{
    if i > 0 {
        assert(a.len() > 0 && b.len() > 0);
        assert(a[0] == a.subrange(0, i)[0]);
        assert(b[0] == b.subrange(0, i)[0]);
        assert(a.skip(1).subrange(0, i - 1) =~= a.subrange(0, i).skip(1));
        assert(b.skip(1).subrange(0, i - 1) =~= b.subrange(0, i).skip(1));
        lemma_lex_prefix(a.skip(1), b.skip(1), i - 1);
        assert(a.skip(1).skip(i - 1) =~= a.skip(i));
        assert(b.skip(1).skip(i - 1) =~= b.skip(i));
    } else {
        assert(a.skip(0) =~= a);
        assert(b.skip(0) =~= b);
    }
}

impl OrderedKey for Key {
    /// Raw bytes ascending; equal bytes order by LSN descending.
    open spec fn lt_view(a: (Seq<u8>, u64), b: (Seq<u8>, u64)) -> bool {
        lex_lt(a.0, b.0) || (a.0 == b.0 && a.1 > b.1)
    }

    proof fn lemma_strict_order(a: (Seq<u8>, u64), b: (Seq<u8>, u64), c: (Seq<u8>, u64)) {
        lemma_lex_asym(a.0, b.0);
        lemma_lex_asym(b.0, c.0);
        lemma_lex_asym(a.0, c.0);
        lemma_lex_asym(a.0, a.0);
        lemma_lex_asym(b.0, b.0);
        lemma_lex_asym(c.0, c.0);
        lemma_lex_trans(a.0, b.0, c.0);
        lemma_lex_trans(a.0, c.0, b.0);
        lemma_lex_trans(b.0, a.0, c.0);
        lemma_lex_trans(b.0, c.0, a.0);
        lemma_lex_trans(c.0, a.0, b.0);
        lemma_lex_trans(c.0, b.0, a.0);
        lemma_lex_connex(a.0, b.0);
        lemma_lex_connex(b.0, c.0);
        lemma_lex_connex(a.0, c.0);
    }

    fn key_lt(&self, other: &Key) -> (r: bool) {
        if bytes_lt(&self.raw, &other.raw) {
            true
        } else if bytes_lt(&other.raw, &self.raw) {
            false
        } else {
            proof {
                lemma_lex_connex(self.raw@, other.raw@);
            }
            self.lsn > other.lsn
        }
    }
}

/// A child reference stored in an index page: the child's logical page id and
/// its last observed structural version.
#[derive(Copy, Clone, Debug, PartialEq, Eq, Structural)]
pub struct Index {
    pub id: u64,
    pub ver: u64,
}

impl View for Index {
    type V = Index;

    open spec fn view(&self) -> Index {
        *self
    }
}

impl Index {
    pub fn with_id(id: u64) -> (r: Index)
        ensures
            r.id == id,
            r.ver == 0,
    {
        Index { id, ver: 0 }
    }
}

/// A leaf value: a put carrying its bytes, or a tombstone.
#[derive(Debug)]
pub enum Value {
    Put(Vec<u8>),
    Delete,
}

impl View for Value {
    type V = Option<Seq<u8>>;

    open spec fn view(&self) -> Option<Seq<u8>> {
        match self {
            Value::Put(b) => Some(b@),
            Value::Delete => None,
        }
    }
}

impl Value {
    /// True for the tombstone variant.
    pub fn is_tombstone(&self) -> (r: bool)
        ensures
            r <==> self@ is None,
    {
        match self {
            Value::Delete => true,
            _ => false,
        }
    }
}

/// A type whose page-encoded size is a function of its view.
pub trait EncSized: View + Sized {
    /// Encoded byte count; saturates far above any size a page accepts.
    spec fn enc_size_view(v: Self::V) -> u64;

    /// Computes the encoded byte count.
    fn enc_size(&self) -> (r: u64)
        ensures
            r == Self::enc_size_view(self@),
    ;
}

impl EncSized for u64 {
    open spec fn enc_size_view(v: u64) -> u64 {
        8u64
    }

    fn enc_size(&self) -> (r: u64) {
        8
    }
}

impl EncSized for Key {
    /// A length prefix, the raw bytes, and the LSN.
    open spec fn enc_size_view(v: (Seq<u8>, u64)) -> u64 {
        if v.0.len() + 12 <= u64::MAX {
            (v.0.len() + 12) as u64
        } else {
            u64::MAX
        }
    }

    fn enc_size(&self) -> (r: u64) {
        let l = self.raw.len();
        if l as u64 <= u64::MAX - 12 {
            l as u64 + 12
        } else {
            u64::MAX
        }
    }
}

impl EncSized for Value {
    /// A tag byte, plus a length prefix and the bytes for a put.
    open spec fn enc_size_view(v: Option<Seq<u8>>) -> u64 {
        match v {
            Some(b) => if b.len() + 5 <= u64::MAX {
                (b.len() + 5) as u64
            } else {
                u64::MAX
            },
            None => 1u64,
        }
    }

    fn enc_size(&self) -> (r: u64) {
        match self {
            Value::Put(b) => {
                let l = b.len();
                if l as u64 <= u64::MAX - 5 {
                    l as u64 + 5
                } else {
                    u64::MAX
                }
            },
            Value::Delete => 1,
        }
    }
}

impl EncSized for Index {
    /// The child id and its version.
    open spec fn enc_size_view(v: Index) -> u64 {
        16u64
    }

    fn enc_size(&self) -> (r: u64) {
        16
    }
}

/// Total encoded size of a sequence of entry views, each with its offset
/// slot.
pub open spec fn enc_total<K: EncSized, V: EncSized>(s: Seq<(K::V, V::V)>) -> int
    decreases s.len(),
{
    if s.len() == 0 {
        0
    } else {
        enc_total::<K, V>(s.drop_last()) + 4 + K::enc_size_view(s.last().0) + V::enc_size_view(
            s.last().1,
        )
    }
}

/// Appending entries never shrinks the total.
pub proof fn lemma_enc_total_monotone<K: EncSized, V: EncSized>(
    s: Seq<(K::V, V::V)>,
    t: Seq<(K::V, V::V)>,
)
    requires
        s.is_prefix_of(t),
    ensures
        enc_total::<K, V>(s) <= enc_total::<K, V>(t),
    decreases t.len(),
{
    if s.len() < t.len() {
        assert(s.is_prefix_of(t.drop_last()));
        lemma_enc_total_monotone::<K, V>(s, t.drop_last());
    } else {
        assert(s =~= t);
    }
}


/// A type that can be copied entry by entry, preserving its view.
pub trait Duplicable: View + Sized {
    /// Copies the value.
    fn dup(&self) -> (r: Self)
        ensures
            r@ == self@,
    ;
}

impl Duplicable for u64 {
    fn dup(&self) -> (r: u64) {
        *self
    }
}

impl Duplicable for Key {
    fn dup(&self) -> (r: Key) {
        self.duplicate()
    }
}

impl Duplicable for Index {
    fn dup(&self) -> (r: Index) {
        Index { id: self.id, ver: self.ver }
    }
}

/// Copies a byte vector.
pub fn dup_bytes(b: &Vec<u8>) -> (r: Vec<u8>)
    ensures
        r@ == b@,
{
    let mut out: Vec<u8> = Vec::new();
    let mut i: usize = 0;
    while i < b.len()
        invariant
            0 <= i <= b@.len(),
            out@ =~= b@.subrange(0, i as int),
        decreases b@.len() - i,
    {
        out.push(b[i]);
        i = i + 1;
    }
    proof {
        assert(out@ =~= b@);
    }
    out
}

impl Duplicable for Value {
    fn dup(&self) -> (r: Value) {
        match self {
            Value::Put(b) => Value::Put(dup_bytes(b)),
            Value::Delete => Value::Delete,
        }
    }
}



/// Decides byte-string equality through the lexicographic order.
pub fn bytes_eq(a: &Vec<u8>, b: &Vec<u8>) -> (r: bool)
    ensures
        r == (a@ == b@),
{
    proof {
        lemma_lex_connex(a@, b@);
        lemma_lex_asym(a@, a@);
        lemma_lex_asym(b@, b@);
    }
    if bytes_lt(a, b) {
        false
    } else if bytes_lt(b, a) {
        false
    } else {
        true
    }
}



/// Splitting a sequence splits its total.
pub proof fn lemma_enc_total_concat<K: EncSized, V: EncSized>(
    a: Seq<(K::V, V::V)>,
    b: Seq<(K::V, V::V)>,
)
    ensures
        enc_total::<K, V>(a + b) == enc_total::<K, V>(a) + enc_total::<K, V>(b),
    decreases b.len(),
{
    if b.len() == 0 {
        assert(a + b =~= a);
    } else {
        lemma_enc_total_concat::<K, V>(a, b.drop_last());
        assert((a + b).drop_last() =~= a + b.drop_last());
        assert((a + b).last() == b.last());
    }
}

/// Removing any entry takes exactly its cost off the total.
pub proof fn lemma_enc_total_remove<K: EncSized, V: EncSized>(s: Seq<(K::V, V::V)>, k: int)
    requires
        0 <= k < s.len(),
    ensures
        enc_total::<K, V>(s) == enc_total::<K, V>(s.remove(k)) + 4 + K::enc_size_view(s[k].0)
            + V::enc_size_view(s[k].1),
    decreases s.len(),
{
    if k == s.len() - 1 {
        assert(s.remove(k) =~= s.drop_last());
    } else {
        lemma_enc_total_remove::<K, V>(s.drop_last(), k);
        assert(s.remove(k).drop_last() =~= s.drop_last().remove(k));
        assert(s.remove(k).last() == s.last());
        assert(s.drop_last()[k] == s[k]);
    }
}

/// Two sequences holding the same entries, however ordered, have the same
/// total encoded size.
pub proof fn lemma_enc_total_multiset<K: EncSized, V: EncSized>(
    s1: Seq<(K::V, V::V)>,
    s2: Seq<(K::V, V::V)>,
)
    requires
        s1.to_multiset() == s2.to_multiset(),
    ensures
        enc_total::<K, V>(s1) == enc_total::<K, V>(s2),
    decreases s1.len(),
{
    broadcast use vstd::seq_lib::group_to_multiset_ensures;

    if s1.len() == 0 {
        assert(s1.to_multiset().len() == s1.len());
        assert(s2.to_multiset().len() == s2.len());
        assert(s2.len() == 0);
    } else {
        let e = s1.last();
        assert(s1.contains(e));
        assert(s2.to_multiset().count(e) > 0);
        assert(s2.contains(e));
        let k = choose|k: int| 0 <= k < s2.len() && s2[k] == e;
        let s1p = s1.drop_last();
        let s2p = s2.remove(k);
        assert(s1p =~= s1.remove(s1.len() - 1));
        assert(s1p.to_multiset() =~= s1.to_multiset().remove(e));
        assert(s2p.to_multiset() =~= s2.to_multiset().remove(e));
        lemma_enc_total_multiset::<K, V>(s1p, s2p);
        lemma_enc_total_remove::<K, V>(s2, k);
    }
}


} // verus!
