//! In-memory pages: the tagged page address, the arena that owns published
//! pages, and the view a traversal takes of a mapping-table slot.

use vstd::prelude::*;

use crate::base::{PageAlloc, PagePtr, PageVer};
use crate::data::{Index, Key, Value};
use crate::error::Error;
use crate::pagestore::PageInfo;

verus! {

/// The top bit of a slot address distinguishes memory from disk.
pub const MEM_DISK_MASK: u64 = 0x8000_0000_0000_0000;

/// A tagged address held in a mapping-table slot: in memory, or an opaque
/// disk locator.
#[derive(Copy, Clone, Debug, PartialEq, Eq, Structural)]
pub enum PageAddr {
    Mem(u64),
    Disk(u64),
}

impl PageAddr {
    /// The decoding of a raw slot value: top bit set means on disk.
    pub open spec fn decode_spec(addr: u64) -> PageAddr {
        if addr & MEM_DISK_MASK == 0 {
            PageAddr::Mem(addr)
        } else {
            PageAddr::Disk(addr & !MEM_DISK_MASK)
        }
    }

    /// Decodes a raw slot value.
    pub fn decode(addr: u64) -> (r: PageAddr)
        ensures
            r == PageAddr::decode_spec(addr),
    {
        if addr & MEM_DISK_MASK == 0 {
            PageAddr::Mem(addr)
        } else {
            PageAddr::Disk(addr & !MEM_DISK_MASK)
        }
    }

    /// Encodes the address back into a raw slot value.
    pub fn encode(self) -> (r: u64)
        requires
            self is Mem ==> self->Mem_0 & MEM_DISK_MASK == 0,
            self is Disk ==> self->Disk_0 & MEM_DISK_MASK == 0,
        ensures
            PageAddr::decode_spec(r) == self,
    {
        match self {
            PageAddr::Mem(a) => a,
            PageAddr::Disk(a) => {
                let r = a | MEM_DISK_MASK;
                proof {
                    assert((a | 0x8000_0000_0000_0000u64) & 0x8000_0000_0000_0000u64 != 0 && (a
                        | 0x8000_0000_0000_0000u64) & !0x8000_0000_0000_0000u64 == a && a
                        & !0x8000_0000_0000_0000u64 == a) by (bit_vector)
                        requires
                            a & 0x8000_0000_0000_0000u64 == 0,
                    ;
                }
                r
            },
        }
    }
}

/// A split delta's payload: the bounds of the left child and the new right
/// sibling that holds the keys at or above `middle`.
pub struct SplitCont {
    pub lowest: Vec<u8>,
    pub middle: Vec<u8>,
    pub highest: Vec<u8>,
    pub right_page: Index,
}

/// The typed content of an in-memory page.
pub enum NodeContent {
    Data(Vec<(Key, Value)>),
    Branch(Vec<(Key, Index)>),
    Split(SplitCont),
}

/// An in-memory page: its header and its typed content.
pub struct PageNode {
    pub hdr: PagePtr,
    pub content: NodeContent,
}

/// A size-tracked arena that owns every published in-memory page. A page's
/// address is its arena position plus one, so zero stays the null chain
/// terminator and the disk bit stays clear.
pub struct PageCache {
    pages: Vec<Option<PageNode>>,
    size: u64,
}

/// The largest number of pages the arena addresses.
pub const CACHE_MAX_PAGES: u64 = 0x4000_0000_0000_0000;

impl PageCache {
    /// The arena contents.
    pub closed spec fn pages_view(self) -> Seq<Option<PageNode>> {
        self.pages@
    }

    /// The live-byte counter.
    pub closed spec fn size_spec(self) -> u64 {
        self.size
    }

    pub open spec fn wf(self) -> bool {
        self.pages_view().len() < CACHE_MAX_PAGES
    }

    /// A non-null in-memory address backed by a live page.
    pub open spec fn valid_addr(self, addr: u64) -> bool {
        1 <= addr <= self.pages_view().len() && self.pages_view()[addr - 1] is Some
    }

    /// The page at a valid address.
    pub open spec fn node_at(self, addr: u64) -> PageNode
        recommends
            self.valid_addr(addr),
    {
        self.pages_view()[addr - 1]->Some_0
    }

    pub fn new() -> (r: PageCache)
        ensures
            r.wf(),
            r.pages_view() =~= Seq::<Option<PageNode>>::empty(),
            r.size_spec() == 0,
    {
        PageCache { pages: Vec::new(), size: 0 }
    }

    /// The live-byte counter; callers use it only to decide when to evict.
    pub fn size(&self) -> (r: u64)
        ensures
            r == self.size_spec(),
    {
        self.size
    }

    /// Publishes a page into the arena and returns its address.
    pub fn install(&mut self, node: PageNode) -> (r: Result<u64, Error>)
        requires
            old(self).wf(),
        ensures
            final(self).wf(),
            match r {
                Ok(addr) => final(self).pages_view() == old(self).pages_view().push(Some(node))
                    && addr == old(self).pages_view().len() + 1 && final(self).valid_addr(addr)
                    && final(self).node_at(addr) == node && addr & MEM_DISK_MASK == 0
                    && final(self).size_spec() == old(self).size_spec(),
                Err(e) => e is Alloc && *final(self) == *old(self),
            },
            old(self).pages_view().len() < CACHE_MAX_PAGES - 1 ==> r is Ok,
    {
        if self.pages.len() as u64 >= CACHE_MAX_PAGES - 1 {
            return Err(Error::Alloc);
        }
        let addr = self.pages.len() as u64 + 1;
        self.pages.push(Some(node));
        proof {
            let a = addr;
            assert(a & 0x8000_0000_0000_0000u64 == 0) by (bit_vector)
                requires
                    a < 0x4000_0000_0000_0000u64,
            ;
        }
        Ok(addr)
    }

    /// Borrows the page at an address.
    pub fn node(&self, addr: u64) -> (r: &PageNode)
        requires
            self.valid_addr(addr),
        ensures
            *r == self.node_at(addr),
    {
        let n = self.pages.len();
        let slot = &self.pages[(addr - 1) as usize];
        match slot {
            Some(node) => node,
            None => vstd::pervasive::unreached(),
        }
    }

    /// Removes the page at an address, returning what the slot held; the
    /// address is never reused.
    pub fn uninstall(&mut self, addr: u64) -> (r: PageNode)
        requires
            old(self).wf(),
            old(self).valid_addr(addr),
        ensures
            final(self).wf(),
            r == old(self).node_at(addr),
            final(self).pages_view() == old(self).pages_view().update(addr - 1, None),
            final(self).size_spec() == old(self).size_spec(),
    {
        let n = self.pages.len();
        let mut taken: Option<PageNode> = None;
        let i = (addr - 1) as usize;
        {
            let slot = &mut self.pages[i];
            core::mem::swap(slot, &mut taken);
        }
        proof {
            assert(self.pages@ =~= old(self).pages@.update(addr - 1, None));
        }
        match taken {
            Some(node) => node,
            None => vstd::pervasive::unreached(),
        }
    }
}

impl PageCache {
    /// True when an address is backed by a live page.
    pub fn is_live(&self, addr: u64) -> (r: bool)
        ensures
            r == self.valid_addr(addr),
    {
        if addr >= 1 && addr <= self.pages.len() as u64 {
            let slot = &self.pages[(addr - 1) as usize];
            slot.is_some()
        } else {
            false
        }
    }

    /// Releases bytes of pages that no reader can observe any more.
    pub fn discount(&mut self, bytes: u64)
        ensures
            final(self).pages_view() == old(self).pages_view(),
            final(self).wf() == old(self).wf(),
    {
        if self.size >= bytes {
            self.size = self.size - bytes;
        } else {
            self.size = 0;
        }
    }

    /// Accounts bytes allocated for a page built outside the arena.
    pub fn charge(&mut self, bytes: u64)
        ensures
            final(self).pages_view() == old(self).pages_view(),
            final(self).wf() == old(self).wf(),
    {
        if self.size <= u64::MAX - bytes {
            self.size = self.size + bytes;
        } else {
            self.size = u64::MAX;
        }
    }
}

/// A free-standing allocator used while a page is under construction; it
/// only counts the bytes handed out.
pub struct ScratchAlloc {
    bytes: u64,
}

impl ScratchAlloc {
    pub closed spec fn bytes_spec(self) -> u64 {
        self.bytes
    }

    pub fn new() -> (r: ScratchAlloc)
        ensures
            r.bytes_spec() == 0,
    {
        ScratchAlloc { bytes: 0 }
    }

    /// The bytes handed out so far.
    pub fn bytes(&self) -> (r: u64)
        ensures
            r == self.bytes_spec(),
    {
        self.bytes
    }
}

impl PageAlloc for ScratchAlloc {
    open spec fn live_bytes(&self) -> int {
        self.bytes_spec() as int
    }

    open spec fn can_alloc(&self, content_size: u32) -> bool {
        self.live_bytes() + 20 + content_size <= u64::MAX
    }

    fn alloc_page(&mut self, content_size: u32) -> (r: Result<PagePtr, Error>) {
        if self.bytes > u64::MAX - 20 - content_size as u64 {
            return Err(Error::Alloc);
        }
        self.bytes = self.bytes + 20 + content_size as u64;
        let mut ptr = PagePtr::new();
        ptr.set_content_size(content_size);
        Ok(ptr)
    }

    fn dealloc_page(&mut self, page: PagePtr) {
        let sz = page.size();
        if self.bytes >= sz {
            self.bytes = self.bytes - sz;
        } else {
            self.bytes = 0;
        }
    }
}

impl PageAlloc for PageCache {
    open spec fn live_bytes(&self) -> int {
        self.size_spec() as int
    }

    open spec fn can_alloc(&self, content_size: u32) -> bool {
        self.live_bytes() + 20 + content_size <= u64::MAX
    }

    fn alloc_page(&mut self, content_size: u32) -> (r: Result<PagePtr, Error>) {
        if self.size > u64::MAX - 20 - content_size as u64 {
            return Err(Error::Alloc);
        }
        self.size = self.size + 20 + content_size as u64;
        let mut ptr = PagePtr::new();
        ptr.set_content_size(content_size);
        Ok(ptr)
    }

    fn dealloc_page(&mut self, page: PagePtr) {
        let sz = page.size();
        if self.size >= sz {
            self.size = self.size - sz;
        } else {
            self.size = 0;
        }
    }
}

/// What a traversal sees of a mapping-table slot: a live in-memory page, or
/// the summary of a page that lives on disk.
pub enum PageView {
    Mem(PagePtr, u64),
    Disk(PageInfo, u64),
}

impl PageView {
    /// Returns the page version.
    pub fn ver(&self) -> (r: PageVer)
        ensures
            match self {
                PageView::Mem(p, _) => r.value() == p.ver_spec(),
                PageView::Disk(info, _) => r == info.ver,
            },
    {
        match self {
            PageView::Mem(page, _) => page.ver(),
            PageView::Disk(info, _) => info.ver,
        }
    }

    /// Returns the length of the chain.
    pub fn len(&self) -> (r: u8)
        ensures
            match self {
                PageView::Mem(p, _) => r == p.len_spec(),
                PageView::Disk(info, _) => r == info.len,
            },
    {
        match self {
            PageView::Mem(page, _) => page.len(),
            PageView::Disk(info, _) => info.len,
        }
    }

    /// Returns true if this is an index node.
    pub fn is_index(&self) -> (r: bool)
        ensures
            match self {
                PageView::Mem(p, _) => r == p.is_index_spec(),
                PageView::Disk(info, _) => r == info.is_index,
            },
    {
        match self {
            PageView::Mem(page, _) => page.is_index(),
            PageView::Disk(info, _) => info.is_index,
        }
    }

    /// The address the view was taken from.
    pub fn as_addr(&self) -> (r: PageAddr)
        ensures
            match self {
                PageView::Mem(_, a) => r == PageAddr::Mem(*a),
                PageView::Disk(_, a) => r == PageAddr::Disk(*a),
            },
    {
        match self {
            PageView::Mem(_, addr) => PageAddr::Mem(*addr),
            PageView::Disk(_, addr) => PageAddr::Disk(*addr),
        }
    }
}

} // verus!
