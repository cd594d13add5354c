//! The page header and its byte-exact codec.
//!
//! A page begins with a 20-byte header: a 48-bit little-endian structural
//! version, a one-byte chain length, a tag byte (low seven bits the page
//! kind, high bit the is-index flag), a 64-bit little-endian address of the
//! next page in the chain, and a 32-bit little-endian content size.

use vstd::prelude::*;
use vstd::arithmetic::div_mod::lemma_fundamental_div_mod;

use crate::error::Error;

verus! {

pub const PAGE_HEADER_SIZE: usize = 20;

pub const PAGE_VERSION_MAX: u64 = 0xFFFF_FFFF_FFFF;

const PAGE_KIND_MASK: u8 = 0x7F;

/// Little-endian value of the bytes of `s` in `[lo, hi)`.
pub open spec fn le_val_range(s: Seq<u8>, lo: int, hi: int) -> int
    decreases hi - lo,
{
    if lo >= hi {
        0
    } else {
        s[lo] + 256 * le_val_range(s, lo + 1, hi)
    }
}

proof fn lemma_div256_bound(x: int, b: int)
    requires
        0 <= x < 256 * b,
        0 < b,
    ensures
        0 <= x / 256 < b,
{
    assert(0 <= x / 256 < b) by (nonlinear_arith)
        requires
            0 <= x < 256 * b,
            0 < b,
    ;
}

/// A 48-bit monotonically increasing structural version.
#[derive(Copy, Clone, Debug, Eq, PartialEq, Structural)]
pub struct PageVer(u64);

impl PageVer {
    #[verifier::type_invariant]
    pub closed spec fn inv(self) -> bool {
        self.0 <= PAGE_VERSION_MAX
    }

    /// The version as a number.
    pub closed spec fn value(self) -> u64 {
        self.0
    }

    pub fn new(ver: u64) -> (r: PageVer)
        requires
            ver <= PAGE_VERSION_MAX,
        ensures
            r.value() == ver,
    {
        PageVer(ver)
    }

    /// The next version.
    pub fn next(self) -> (r: PageVer)
        requires
            self.value() < PAGE_VERSION_MAX,
        ensures
            r.value() == self.value() + 1,
    {
        proof {
            use_type_invariant(self);
        }
        PageVer(self.0 + 1)
    }

    /// The version as a `u64`.
    pub fn into_u64(self) -> (r: u64)
        ensures
            r == self.value(),
    {
        self.0
    }
}

/// The tag byte: low seven bits the page kind, high bit the is-index flag.
#[derive(Copy, Clone, Debug)]
struct PageTag(u8);

impl PageTag {
    spec fn value(self) -> u8 {
        self.0
    }

    spec fn kind_bits(self) -> u8 {
        self.0 & PAGE_KIND_MASK
    }

    spec fn index_bit(self) -> bool {
        self.0 & 0x80 != 0
    }

    fn kind(self) -> (r: PageKind)
        requires
            self.kind_bits() <= 1,
        ensures
            kind_as_u8(r) == self.kind_bits(),
    {
        PageKind::new(self.0 & PAGE_KIND_MASK)
    }

    fn with_kind(self, kind: PageKind) -> (r: PageTag)
        ensures
            r.kind_bits() == kind_as_u8(kind),
            r.index_bit() == self.index_bit(),
    {
        let k = kind_to_u8(kind);
        let t = (self.0 & 0x80) | k;
        proof {
            let s = self.0;
            assert(((s & 0x80) | k) & 0x7F == k && (((s & 0x80) | k) & 0x80 != 0 <==> s & 0x80
                != 0)) by (bit_vector)
                requires
                    k <= 1,
            ;
        }
        PageTag(t)
    }

    fn is_index(self) -> (r: bool)
        ensures
            r == self.index_bit(),
    {
        self.0 & 0x80 != 0
    }

    fn with_index(self, is_index: bool) -> (r: PageTag)
        ensures
            r.index_bit() == is_index,
            r.kind_bits() == self.kind_bits(),
    {
        let s = self.0;
        if is_index {
            proof {
                assert((s | 0x80) & 0x80 != 0 && (s | 0x80) & 0x7F == s & 0x7F) by (bit_vector);
            }
            PageTag(s | 0x80)
        } else {
            proof {
                assert((s & 0x7F) & 0x80 == 0 && (s & 0x7F) & 0x7F == s & 0x7F) by (bit_vector);
            }
            PageTag(s & 0x7F)
        }
    }
}

/// The kind of a page: a data page or a split delta.
#[derive(Copy, Clone, Debug, PartialEq, Eq, Structural)]
pub enum PageKind {
    Data,
    Split,
}

/// The kind's encoding in the tag byte.
pub open spec fn kind_as_u8(k: PageKind) -> u8 {
    match k {
        PageKind::Data => 0,
        PageKind::Split => 1,
    }
}

/// Computes the kind's encoding.
pub fn kind_to_u8(k: PageKind) -> (r: u8)
    ensures
        r == kind_as_u8(k),
{
    match k {
        PageKind::Data => 0,
        PageKind::Split => 1,
    }
}

impl PageKind {
    pub fn new(kind: u8) -> (r: PageKind)
        requires
            kind <= 1,
        ensures
            kind_as_u8(r) == kind,
    {
        if kind == 0 {
            PageKind::Data
        } else {
            PageKind::Split
        }
    }
}

/// An owned page header.
#[derive(Debug)]
pub struct PagePtr {
    ver: PageVer,
    len: u8,
    tag: PageTag,
    next: u64,
    content_size: u32,
}

impl PagePtr {
    #[verifier::type_invariant]
    pub closed spec fn inv(self) -> bool {
        self.tag.kind_bits() <= 1
    }

    /// The structural version.
    pub closed spec fn ver_spec(self) -> u64 {
        self.ver.value()
    }

    /// The chain length.
    pub closed spec fn len_spec(self) -> u8 {
        self.len
    }

    /// The kind bits of the tag byte.
    pub closed spec fn kind_spec(self) -> u8 {
        self.tag.kind_bits()
    }

    /// The is-index bit of the tag byte.
    pub closed spec fn is_index_spec(self) -> bool {
        self.tag.index_bit()
    }

    /// The address of the next page in the chain.
    pub closed spec fn next_spec(self) -> u64 {
        self.next
    }

    /// The content size in bytes.
    pub closed spec fn content_size_spec(self) -> u32 {
        self.content_size
    }

    /// A header with every field zero.
    pub open spec fn is_default_spec(self) -> bool {
        self.ver_spec() == 0 && self.len_spec() == 0 && self.kind_spec() == 0
            && !self.is_index_spec() && self.next_spec() == 0 && self.content_size_spec() == 0
    }

    /// A fresh all-zero header.
    pub fn new() -> (r: PagePtr)
        ensures
            r.is_default_spec(),
    {
        proof {
            assert(0u8 & 0x7F == 0 && 0u8 & 0x80 == 0) by (bit_vector);
        }
        PagePtr { ver: PageVer::new(0), len: 0, tag: PageTag(0), next: 0, content_size: 0 }
    }

    /// Resets every header field to zero.
    pub fn set_default(&mut self)
        ensures
            final(self).is_default_spec(),
    {
        *self = PagePtr::new();
    }

    /// Returns the page version.
    pub fn ver(&self) -> (r: PageVer)
        ensures
            r.value() == self.ver_spec(),
    {
        self.ver
    }

    /// Sets the page version.
    pub fn set_ver(&mut self, ver: PageVer)
        ensures
            final(self).ver_spec() == ver.value(),
            final(self).len_spec() == old(self).len_spec(),
            final(self).kind_spec() == old(self).kind_spec(),
            final(self).is_index_spec() == old(self).is_index_spec(),
            final(self).next_spec() == old(self).next_spec(),
            final(self).content_size_spec() == old(self).content_size_spec(),
    {
        proof {
            use_type_invariant(&*self);
        }
        self.ver = ver;
    }

    /// Returns the length of the chain.
    pub fn len(&self) -> (r: u8)
        ensures
            r == self.len_spec(),
    {
        self.len
    }

    /// Sets the length of the chain.
    pub fn set_len(&mut self, len: u8)
        ensures
            final(self).len_spec() == len,
            final(self).ver_spec() == old(self).ver_spec(),
            final(self).kind_spec() == old(self).kind_spec(),
            final(self).is_index_spec() == old(self).is_index_spec(),
            final(self).next_spec() == old(self).next_spec(),
            final(self).content_size_spec() == old(self).content_size_spec(),
    {
        proof {
            use_type_invariant(&*self);
        }
        self.len = len;
    }

    /// Returns the address of the next page in the chain.
    pub fn next(&self) -> (r: u64)
        ensures
            r == self.next_spec(),
    {
        self.next
    }

    /// Sets the address of the next page in the chain.
    pub fn set_next(&mut self, next: u64)
        ensures
            final(self).next_spec() == next,
            final(self).ver_spec() == old(self).ver_spec(),
            final(self).len_spec() == old(self).len_spec(),
            final(self).kind_spec() == old(self).kind_spec(),
            final(self).is_index_spec() == old(self).is_index_spec(),
            final(self).content_size_spec() == old(self).content_size_spec(),
    {
        proof {
            use_type_invariant(&*self);
        }
        self.next = next;
    }

    /// Returns the page kind.
    pub fn kind(&self) -> (r: PageKind)
        ensures
            kind_as_u8(r) == self.kind_spec(),
    {
        proof {
            use_type_invariant(self);
        }
        self.tag.kind()
    }

    /// Sets the page kind.
    pub fn set_kind(&mut self, kind: PageKind)
        ensures
            final(self).kind_spec() == kind_as_u8(kind),
            final(self).is_index_spec() == old(self).is_index_spec(),
            final(self).ver_spec() == old(self).ver_spec(),
            final(self).len_spec() == old(self).len_spec(),
            final(self).next_spec() == old(self).next_spec(),
            final(self).content_size_spec() == old(self).content_size_spec(),
    {
        proof {
            use_type_invariant(&*self);
        }
        self.tag = self.tag.with_kind(kind);
    }

    /// Returns true if this is an index page.
    pub fn is_index(&self) -> (r: bool)
        ensures
            r == self.is_index_spec(),
    {
        self.tag.is_index()
    }

    /// Sets the is-index flag.
    pub fn set_index(&mut self, is_index: bool)
        ensures
            final(self).is_index_spec() == is_index,
            final(self).kind_spec() == old(self).kind_spec(),
            final(self).ver_spec() == old(self).ver_spec(),
            final(self).len_spec() == old(self).len_spec(),
            final(self).next_spec() == old(self).next_spec(),
            final(self).content_size_spec() == old(self).content_size_spec(),
    {
        proof {
            use_type_invariant(&*self);
        }
        self.tag = self.tag.with_index(is_index);
    }

    /// Returns the page size in bytes, header included.
    pub fn size(&self) -> (r: u64)
        ensures
            r == 20 + self.content_size_spec(),
    {
        20 + self.content_size as u64
    }

    /// Returns the page content size in bytes.
    pub fn content_size(&self) -> (r: u32)
        ensures
            r == self.content_size_spec(),
    {
        self.content_size
    }

    /// Sets the page content size.
    pub fn set_content_size(&mut self, size: u32)
        ensures
            final(self).content_size_spec() == size,
            final(self).ver_spec() == old(self).ver_spec(),
            final(self).len_spec() == old(self).len_spec(),
            final(self).kind_spec() == old(self).kind_spec(),
            final(self).is_index_spec() == old(self).is_index_spec(),
            final(self).next_spec() == old(self).next_spec(),
    {
        proof {
            use_type_invariant(&*self);
        }
        self.content_size = size;
    }

    /// Copies the header.
    pub fn duplicate(&self) -> (r: PagePtr)
        ensures
            r.ver_spec() == self.ver_spec(),
            r.len_spec() == self.len_spec(),
            r.kind_spec() == self.kind_spec(),
            r.is_index_spec() == self.is_index_spec(),
            r.next_spec() == self.next_spec(),
            r.content_size_spec() == self.content_size_spec(),
    {
        proof {
            use_type_invariant(self);
        }
        PagePtr {
            ver: self.ver,
            len: self.len,
            tag: self.tag,
            next: self.next,
            content_size: self.content_size,
        }
    }

    /// Encodes the header into its exact 20-byte layout.
    pub fn encode(&self) -> (out: Vec<u8>)
        ensures
            out@.len() == 20,
            le_val_range(out@, 0, 6) == self.ver_spec(),
            out@[6] == self.len_spec(),
            out@[7] & 0x7F == self.kind_spec(),
            (out@[7] & 0x80 != 0) == self.is_index_spec(),
            le_val_range(out@, 8, 16) == self.next_spec(),
            le_val_range(out@, 16, 20) == self.content_size_spec(),
    {
        proof {
            use_type_invariant(self);
            use_type_invariant(self.ver);
        }
        let mut out: Vec<u8> = Vec::new();
        let v = self.ver.into_u64();
        let v1 = v / 256;
        let v2 = v1 / 256;
        let v3 = v2 / 256;
        let v4 = v3 / 256;
        let v5 = v4 / 256;
        out.push((v % 256) as u8);
        out.push((v1 % 256) as u8);
        out.push((v2 % 256) as u8);
        out.push((v3 % 256) as u8);
        out.push((v4 % 256) as u8);
        out.push((v5 % 256) as u8);
        out.push(self.len);
        out.push(self.tag.0);
        let n = self.next;
        let n1 = n / 256;
        let n2 = n1 / 256;
        let n3 = n2 / 256;
        let n4 = n3 / 256;
        let n5 = n4 / 256;
        let n6 = n5 / 256;
        let n7 = n6 / 256;
        out.push((n % 256) as u8);
        out.push((n1 % 256) as u8);
        out.push((n2 % 256) as u8);
        out.push((n3 % 256) as u8);
        out.push((n4 % 256) as u8);
        out.push((n5 % 256) as u8);
        out.push((n6 % 256) as u8);
        out.push((n7 % 256) as u8);
        let c = self.content_size;
        let c1 = c / 256;
        let c2 = c1 / 256;
        let c3 = c2 / 256;
        out.push((c % 256) as u8);
        out.push((c1 % 256) as u8);
        out.push((c2 % 256) as u8);
        out.push((c3 % 256) as u8);
        proof {
            reveal_with_fuel(le_val_range, 10);
            lemma_fundamental_div_mod(v as int, 256);
            lemma_fundamental_div_mod(v1 as int, 256);
            lemma_fundamental_div_mod(v2 as int, 256);
            lemma_fundamental_div_mod(v3 as int, 256);
            lemma_fundamental_div_mod(v4 as int, 256);
            lemma_fundamental_div_mod(v5 as int, 256);
            lemma_div256_bound(v as int, 0x10000000000);
            lemma_div256_bound(v1 as int, 0x100000000);
            lemma_div256_bound(v2 as int, 0x1000000);
            lemma_div256_bound(v3 as int, 0x10000);
            lemma_div256_bound(v4 as int, 0x100);
            assert(v5 < 256);
            lemma_fundamental_div_mod(n as int, 256);
            lemma_fundamental_div_mod(n1 as int, 256);
            lemma_fundamental_div_mod(n2 as int, 256);
            lemma_fundamental_div_mod(n3 as int, 256);
            lemma_fundamental_div_mod(n4 as int, 256);
            lemma_fundamental_div_mod(n5 as int, 256);
            lemma_fundamental_div_mod(n6 as int, 256);
            lemma_fundamental_div_mod(n7 as int, 256);
            lemma_div256_bound(n as int, 0x100000000000000);
            lemma_div256_bound(n1 as int, 0x1000000000000);
            lemma_div256_bound(n2 as int, 0x10000000000);
            lemma_div256_bound(n3 as int, 0x100000000);
            lemma_div256_bound(n4 as int, 0x1000000);
            lemma_div256_bound(n5 as int, 0x10000);
            lemma_div256_bound(n6 as int, 0x100);
            assert(n7 < 256);
            lemma_fundamental_div_mod(c as int, 256);
            lemma_fundamental_div_mod(c1 as int, 256);
            lemma_fundamental_div_mod(c2 as int, 256);
            lemma_fundamental_div_mod(c3 as int, 256);
            lemma_div256_bound(c as int, 0x1000000);
            lemma_div256_bound(c1 as int, 0x10000);
            lemma_div256_bound(c2 as int, 0x100);
            assert(c3 < 256);
            assert(le_val_range(out@, 0, 6) == v);
            assert(le_val_range(out@, 8, 16) == n);
            assert(le_val_range(out@, 16, 20) == c);
        }
        out
    }

    /// Decodes a header from its 20-byte layout; rejects a buffer of the
    /// wrong length or a tag with kind bits above the largest kind.
    pub fn decode(bytes: &Vec<u8>) -> (r: Result<PagePtr, Error>)
        ensures
            match r {
                Ok(p) => bytes@.len() == 20 && bytes@[7] & 0x7F <= 1 && p.ver_spec()
                    == le_val_range(bytes@, 0, 6) && p.len_spec() == bytes@[6] && p.kind_spec()
                    == bytes@[7] & 0x7F && p.is_index_spec() == (bytes@[7] & 0x80 != 0)
                    && p.next_spec() == le_val_range(bytes@, 8, 16) && p.content_size_spec()
                    == le_val_range(bytes@, 16, 20),
                Err(e) => e is Corrupted && (bytes@.len() != 20 || bytes@[7] & 0x7F > 1),
            },
    {
        if bytes.len() != 20 {
            return Err(Error::Corrupted(corrupted_header_note()));
        }
        if (bytes[7] & 0x7F) > 1 {
            return Err(Error::Corrupted(corrupted_header_note()));
        }
        let tag = PageTag(bytes[7] as u8);
        proof {
            reveal_with_fuel(le_val_range, 10);
        }
        let b = bytes;
        let v: u64 = b[0] as u64 + 256 * (b[1] as u64 + 256 * (b[2] as u64 + 256 * (b[3] as u64
            + 256 * (b[4] as u64 + 256 * (b[5] as u64)))));
        let n: u64 = b[8] as u64 + 256 * (b[9] as u64 + 256 * (b[10] as u64 + 256 * (b[11] as u64
            + 256 * (b[12] as u64 + 256 * (b[13] as u64 + 256 * (b[14] as u64 + 256 * (
        b[15] as u64)))))));
        let c: u32 = b[16] as u32 + 256 * (b[17] as u32 + 256 * (b[18] as u32 + 256 * (
        b[19] as u32)));
        Ok(PagePtr { ver: PageVer::new(v), len: b[6], tag, next: n, content_size: c })
    }
}

/// The message attached to a header that fails to decode.
fn corrupted_header_note() -> String {
    "page header".to_string()
}

/// An interface to allocate and deallocate page headers while tracking live
/// bytes.
pub trait PageAlloc: Sized {
    /// The live-byte counter.
    spec fn live_bytes(&self) -> int;

    /// Whether a request of this size is certain to be served.
    spec fn can_alloc(&self, content_size: u32) -> bool;

    /// Allocates a default header recording `content_size`.
    fn alloc_page(&mut self, content_size: u32) -> (r: Result<PagePtr, Error>)
        ensures
            match r {
                Ok(p) => p.ver_spec() == 0 && p.len_spec() == 0 && p.kind_spec() == 0
                    && !p.is_index_spec() && p.next_spec() == 0 && p.content_size_spec()
                    == content_size && final(self).live_bytes() == old(self).live_bytes() + 20
                    + content_size,
                Err(e) => e is Alloc && *final(self) == *old(self),
            },
            old(self).can_alloc(content_size) ==> r is Ok,
    ;

    /// Returns a page's bytes to the allocator; the counter is
    /// eventually-consistent and saturates at zero.
    fn dealloc_page(&mut self, page: PagePtr)
        ensures
            final(self).live_bytes() == old(self).live_bytes() - 20 - page.content_size_spec()
                || (final(self).live_bytes() == 0 && old(self).live_bytes() < 20
                + page.content_size_spec()),
    ;
}

/// A builder to create base pages of a chosen kind.
pub struct PageBuilder {
    kind: PageKind,
}

impl PageBuilder {
    pub fn new(kind: PageKind) -> (r: PageBuilder)
        ensures
            r.kind_of() == kind,
    {
        PageBuilder { kind }
    }

    /// The kind this builder stamps on pages.
    pub closed spec fn kind_of(self) -> PageKind {
        self.kind
    }

    /// Allocates a header of the given content size and stamps the kind.
    pub fn build<A: PageAlloc>(&self, pa: &mut A, content_size: u32) -> (r: Result<PagePtr, Error>)
        ensures
            match r {
                Ok(p) => p.ver_spec() == 0 && p.len_spec() == 0 && p.kind_spec() == kind_as_u8(
                    self.kind_of(),
                ) && !p.is_index_spec() && p.next_spec() == 0 && p.content_size_spec()
                    == content_size && final(pa).live_bytes() == old(pa).live_bytes() + 20
                    + content_size,
                Err(e) => e is Alloc && *final(pa) == *old(pa),
            },
            old(pa).can_alloc(content_size) ==> r is Ok,
    {
        match pa.alloc_page(content_size) {
            Ok(mut ptr) => {
                ptr.set_kind(self.kind);
                Ok(ptr)
            },
            Err(e) => Err(e),
        }
    }
}

} // verus!
