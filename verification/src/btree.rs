//! The tree engine: root-to-leaf descent, delta install through the mapping
//! table's compare-and-swap, and chain consolidation.
//!
//! The tree has an immortal root index node at page id zero whose entries
//! map separators to leaf nodes; each leaf is a chain of one-entry delta
//! pages over a base page.

use vstd::prelude::*;
use vstd::multiset::Multiset;

use crate::Options;
use crate::base::PagePtr;
use crate::data::{dup_bytes, EncSized, Index, Key, OrderedKey, Value};
use crate::epoch::{EpochGuard, EpochRegistry};
use crate::error::Error;
use crate::iter::{seq_view, sorted_lt, ForwardIter, RewindableIter};
use crate::pagecache::{NodeContent, PageAddr, PageCache, PageNode, PageView, MEM_DISK_MASK};
use crate::pagestore::PageStore;
use crate::pagetable::PageTable;

verus! {

pub const ROOT_ID: u64 = 0;

/// The entries a page carries toward a leaf lookup.
pub open spec fn page_entries(node: PageNode) -> Seq<((Seq<u8>, u64), Option<Seq<u8>>)> {
    match node.content {
        NodeContent::Data(es) => seq_view(es@),
        _ => Seq::empty(),
    }
}

/// A chain of `fuel` pages: each page's header counts the pages that remain,
/// and the chain ends at the null address.
pub open spec fn chain_ok(cache: PageCache, addr: u64, fuel: nat) -> bool
    decreases fuel,
{
    if fuel == 0 {
        addr == 0
    } else {
        &&& addr != 0
        &&& cache.valid_addr(addr)
        &&& cache.node_at(addr).hdr.len_spec() == fuel
        &&& chain_ok(cache, cache.node_at(addr).hdr.next_spec(), (fuel - 1) as nat)
    }
}

/// The entries of a chain, head first.
pub open spec fn chain_entries(cache: PageCache, addr: u64, fuel: nat) -> Seq<
    ((Seq<u8>, u64), Option<Seq<u8>>),
>
    decreases fuel,
{
    if fuel == 0 || !cache.valid_addr(addr) {
        Seq::empty()
    } else {
        page_entries(cache.node_at(addr)) + chain_entries(
            cache,
            cache.node_at(addr).hdr.next_spec(),
            (fuel - 1) as nat,
        )
    }
}

/// Every entry of `es` is fresher than every entry of `rest` with the same
/// user bytes.
pub open spec fn dominates(
    es: Seq<((Seq<u8>, u64), Option<Seq<u8>>)>,
    rest: Seq<((Seq<u8>, u64), Option<Seq<u8>>)>,
) -> bool {
    forall|i: int, j: int|
        0 <= i < es.len() && 0 <= j < rest.len() && (#[trigger] es[i]).0.0 == (
        #[trigger] rest[j]).0.0 ==> es[i].0.1 > rest[j].0.1
}

/// A well-formed leaf chain: data pages only, each strictly sorted, each
/// page fresher than the rest of its chain for every user key.
pub open spec fn leaf_chain_wf(cache: PageCache, addr: u64, fuel: nat) -> bool
    decreases fuel,
{
    if fuel == 0 || !cache.valid_addr(addr) {
        true
    } else {
        let node = cache.node_at(addr);
        &&& node.content is Data
        &&& !node.hdr.is_index_spec()
        &&& node.hdr.kind_spec() == 0
        &&& node.hdr.ver_spec() < crate::base::PAGE_VERSION_MAX
        &&& sorted_lt::<Key, Value>(page_entries(node))
        &&& dominates(
            page_entries(node),
            chain_entries(cache, node.hdr.next_spec(), (fuel - 1) as nat),
        )
        &&& leaf_chain_wf(cache, node.hdr.next_spec(), (fuel - 1) as nat)
    }
}

/// The separator entries of the root index page.
pub open spec fn root_entries_of(node: PageNode) -> Seq<((Seq<u8>, u64), Index)> {
    match node.content {
        NodeContent::Branch(es) => seq_view(es@),
        _ => Seq::empty(),
    }
}

/// The child whose separator is the largest at or below `raw`.
pub open spec fn last_le(es: Seq<((Seq<u8>, u64), Index)>, raw: Seq<u8>) -> Option<Index>
    decreases es.len(),
{
    if es.len() == 0 {
        None
    } else if !Key::lt_view((raw, 0u64), es.last().0) {
        Some(es.last().1)
    } else {
        last_le(es.drop_last(), raw)
    }
}

impl BTree {
    /// The raw value of a mapping-table slot.
    pub closed spec fn raw_slot(self, pid: u64) -> u64 {
        self.table.slots_view()[pid as int]
    }

    /// The root page.
    pub closed spec fn root_node(self) -> PageNode {
        self.cache.node_at(self.raw_slot(ROOT_ID))
    }

    /// The root's separator entries.
    pub closed spec fn root_entries(self) -> Seq<((Seq<u8>, u64), Index)> {
        root_entries_of(self.root_node())
    }

    /// The child a user key routes to.
    pub closed spec fn route(self, raw: Seq<u8>) -> Index {
        match last_le(self.root_entries(), raw) {
            Some(idx) => idx,
            None => Index { id: 0, ver: 0 },
        }
    }

    /// The number of pages in the chain of a leaf.
    pub closed spec fn leaf_fuel(self, pid: u64) -> nat {
        self.cache.node_at(self.raw_slot(pid)).hdr.len_spec() as nat
    }

    /// Every entry in a leaf's chain, head first.
    pub closed spec fn leaf_entries(self, pid: u64) -> Seq<((Seq<u8>, u64), Option<Seq<u8>>)> {
        chain_entries(self.cache, self.raw_slot(pid), self.leaf_fuel(pid))
    }

    /// A well-formed leaf target of a root entry.
    pub closed spec fn leaf_ok(self, idx: Index) -> bool {
        &&& idx.id != 0
        &&& idx.id < self.table.slots_view().len()
        &&& self.raw_slot(idx.id) != 0
        &&& self.raw_slot(idx.id) & MEM_DISK_MASK == 0
        &&& self.cache.valid_addr(self.raw_slot(idx.id))
        &&& {
            let head = self.cache.node_at(self.raw_slot(idx.id));
            &&& !head.hdr.is_index_spec()
            &&& head.hdr.ver_spec() == idx.ver
            &&& head.hdr.len_spec() >= 1
            &&& chain_ok(self.cache, self.raw_slot(idx.id), head.hdr.len_spec() as nat)
            &&& leaf_chain_wf(self.cache, self.raw_slot(idx.id), head.hdr.len_spec() as nat)
        }
    }

    /// The tree invariant: a valid root index page whose first separator is
    /// the empty key, and a well-formed leaf chain behind every separator.
    pub closed spec fn wf(self) -> bool {
        &&& self.table.wf()
        &&& self.table.free_view().len() == 0
        &&& self.cache.wf()
        &&& self.table.slots_view().len() >= 1
        &&& self.raw_slot(ROOT_ID) != 0
        &&& self.raw_slot(ROOT_ID) & MEM_DISK_MASK == 0
        &&& self.cache.valid_addr(self.raw_slot(ROOT_ID))
        &&& {
            let root = self.root_node();
            &&& root.content is Branch
            &&& root.hdr.is_index_spec()
            &&& root.hdr.ver_spec() == 0
            &&& root.hdr.len_spec() == 1
            &&& root.hdr.next_spec() == 0
        }
        &&& self.root_entries().len() >= 1
        &&& self.root_entries()[0].0.0 == Seq::<u8>::empty()
        &&& sorted_lt::<Key, Index>(self.root_entries())
        &&& (forall|i: int|
            0 <= i < self.root_entries().len() ==> (#[trigger] self.root_entries()[i]).0.1 == 0)
        &&& (forall|i: int|
            0 <= i < self.root_entries().len() ==> self.leaf_ok(
                (#[trigger] self.root_entries()[i]).1,
            ))
        &&& (forall|i: int, j: int|
            0 <= i < j < self.root_entries().len() ==> (#[trigger] self.root_entries()[i]).1.id
                != (#[trigger] self.root_entries()[j]).1.id)
    }

    /// The leaf's chain-length bookkeeping holds from its head down.
    pub closed spec fn chain_ok_of(self, pid: u64) -> bool {
        chain_ok(self.cache, self.raw_slot(pid), self.leaf_fuel(pid))
    }

    /// The leaf's chain is well formed: data pages, strictly sorted, each
    /// page fresher than the rest of the chain.
    pub closed spec fn leaf_chain_wf_of(self, pid: u64) -> bool {
        leaf_chain_wf(self.cache, self.raw_slot(pid), self.leaf_fuel(pid))
    }

    /// The mapping table and arena of two states agree, so every routing
    /// and chain fact carries over.
    pub closed spec fn same_pages(self, other: BTree) -> bool {
        self.table == other.table && self.cache == other.cache
    }

    /// The number of arena slots the tree has filled; every page install
    /// takes one.
    pub closed spec fn arena_len(self) -> int {
        self.cache.pages_view().len() as int
    }

    /// The tree's current global epoch.
    pub closed spec fn epoch_of(self) -> u64 {
        self.epochs.epoch_spec()
    }

    /// The epochs of the requests currently pinned.
    pub closed spec fn pins_of(self) -> Seq<u64> {
        self.epochs.pins_view()
    }

    /// The chains waiting for reclamation, each with the epoch it was
    /// unlinked in.
    pub closed spec fn deferred_of(self) -> Seq<(u64, u64)> {
        self.epochs.deferred_view()
    }

    /// The configured chain length at which a write consolidates its leaf.
    pub closed spec fn delta_threshold(self) -> u8 {
        self.opts.data_delta_length
    }

    /// The configured byte threshold past which a consolidated leaf splits.
    pub closed spec fn split_threshold(self) -> usize {
        self.opts.data_node_size
    }

    /// Room for consolidating a leaf: its entries fit one page's content
    /// size field and the arena can take the fresh base.
    pub closed spec fn consolidate_room(self, pid: u64) -> bool {
        &&& crate::data::enc_total::<Key, Value>(self.leaf_entries(pid)) <= u32::MAX
        &&& self.arena_len() + 1 < crate::pagecache::CACHE_MAX_PAGES - 1
    }

    /// Room for one mutation of `raw` with payload `val`: the one-entry
    /// delta fits a page, the arena can take the pages the write may
    /// install, and the chain-length byte has headroom.
    pub closed spec fn update_room(self, raw: Seq<u8>, val: Option<Seq<u8>>) -> bool {
        &&& 4 + <Key as EncSized>::enc_size_view((raw, 0u64)) + <Value as EncSized>::enc_size_view(val) <= u32::MAX
        &&& self.arena_len() + 2 < crate::pagecache::CACHE_MAX_PAGES - 1
        &&& self.leaf_fuel(self.route(raw).id) < 255
    }

    /// Room for the consolidation a mutation triggers once its delta is in
    /// place.
    pub closed spec fn post_update_consolidate_room(self, raw: Seq<u8>, val: Option<Seq<u8>>) -> bool {
        &&& crate::data::enc_total::<Key, Value>(self.leaf_entries(self.route(raw).id)) + 4
            + <Key as EncSized>::enc_size_view((raw, 0u64)) + <Value as EncSized>::enc_size_view(val) <= u32::MAX
        &&& self.arena_len() + 2 < crate::pagecache::CACHE_MAX_PAGES - 1
    }

    /// A leaf a split is certain to handle: one base page, past the byte
    /// threshold with headroom in its version and the arena, a legal cut
    /// between two user keys, and a root slot for the new separator.
    #[verifier::opaque]
    pub closed spec fn split_ready(self, pid: u64) -> bool {
        let s = self.leaf_entries(pid);
        let n = s.len() as int;
        let cut = split_cut(s, (n + 1) / 2);
        &&& self.leaf_fuel(pid) == 1
        &&& n >= 2
        &&& crate::data::enc_total::<Key, Value>(s) <= u32::MAX
        &&& crate::data::enc_total::<Key, Value>(s) > self.split_threshold()
        &&& self.cache.node_at(self.raw_slot(pid)).hdr.ver_spec() < crate::base::PAGE_VERSION_MAX
            - 1
        &&& cut < n
        &&& (exists|p: int|
            0 <= p < self.root_entries().len() && (#[trigger] self.root_entries()[p]).1.id == pid
                && crate::data::lex_lt(self.root_entries()[p].0.0, s[cut].0.0) && (p + 1
                == self.root_entries().len() || crate::data::lex_lt(
                s[cut].0.0,
                self.root_entries()[p + 1].0.0,
            )))
        &&& self.arena_len() + 3 < crate::pagecache::CACHE_MAX_PAGES - 1
        &&& self.table.slots_view().len() < u64::MAX
    }

    /// No entry for `raw` carries an LSN at or above `lsn`.
    pub closed spec fn lsn_fresh(self, raw: Seq<u8>, lsn: u64) -> bool {
        forall|i: int|
            0 <= i < self.leaf_entries(self.route(raw).id).len() && (#[trigger] self.leaf_entries(
                self.route(raw).id,
            )[i]).0.0 == raw ==> self.leaf_entries(self.route(raw).id)[i].0.1 < lsn
    }
}

/// Whether `r` is the value visible for `raw` at `q` among `s`: the payload
/// of the freshest entry whose LSN is at or below `q`, or nothing when no
/// such entry exists.
pub open spec fn visible_is(
    s: Seq<((Seq<u8>, u64), Option<Seq<u8>>)>,
    raw: Seq<u8>,
    q: u64,
    r: Option<Option<Seq<u8>>>,
) -> bool {
    match r {
        Some(val) => exists|i: int|
            0 <= i < s.len() && (#[trigger] s[i]).0.0 == raw && s[i].0.1 <= q && s[i].1 == val && (
            forall|j: int|
                0 <= j < s.len() && (#[trigger] s[j]).0.0 == raw && s[j].0.1 <= q ==> s[j].0.1
                    <= s[i].0.1),
        None => forall|j: int|
            0 <= j < s.len() ==> !((#[trigger] s[j]).0.0 == raw && s[j].0.1 <= q),
    }
}

/// A node a descent stopped at: its page id and the view of its head.
struct TreeNode {
    id: u64,
    view: PageView,
}

/// The in-memory core of the Bw-tree.
pub struct BTree {
    opts: Options,
    table: PageTable,
    cache: PageCache,
    store: PageStore,
    epochs: EpochRegistry,
}

impl BTree {
    /// Opens a fresh tree: a root index page over one empty leaf.
    pub fn open(opts: Options) -> (r: Result<BTree, Error>)
        ensures
            r is Ok,
            match r {
                Ok(t) => {
                    &&& t.wf()
                    &&& (forall|raw: Seq<u8>| (#[trigger] t.route(raw)).id == 1)
                    &&& t.leaf_entries(1).len() == 0
                    &&& t.leaf_fuel(1) == 1
                    &&& t.arena_len() == 2
                    &&& t.delta_threshold() == opts.data_delta_length
                    &&& t.split_threshold() == opts.data_node_size
                    &&& (forall|raw: Seq<u8>, lsn: u64| #[trigger] t.lsn_fresh(raw, lsn))
                },
                Err(e) => e is Alloc,
            },
    {
        let store = match PageStore::open(&opts) {
            Ok(s) => s,
            Err(e) => {
                proof {
                    assert(false);
                }
                return Err(e);
            },
        };
        let tree = BTree {
            opts,
            table: PageTable::new(),
            cache: PageCache::new(),
            store,
            epochs: EpochRegistry::new(),
        };
        let r = tree.init();
        proof {
            let t = r->Ok_0;
            assert forall|raw: Seq<u8>| (#[trigger] t.route(raw)).id == 1 by {
                t.lemma_route_single(raw);
            }
            assert forall|raw: Seq<u8>, lsn: u64| #[trigger] t.lsn_fresh(raw, lsn) by {
                assert(t.route(raw).id == 1);
                assert(t.leaf_entries(1).len() == 0);
            }
        }
        r
    }

    /// With a single root separator at the empty key, every key routes to
    /// its child.
    proof fn lemma_route_single(self, raw: Seq<u8>)
        requires
            self.root_entries().len() == 1,
            self.root_entries()[0].0.0 == Seq::<u8>::empty(),
            self.root_entries()[0].0.1 == 0,
        ensures
            self.route(raw) == self.root_entries()[0].1,
    {
        let es = self.root_entries();
        assert(!Key::lt_view((raw, 0u64), es.last().0)) by {
            assert(!crate::data::lex_lt(raw, Seq::<u8>::empty()));
        }
    }

    /// Builds the initial root and leaf.
    fn init(self) -> (r: Result<BTree, Error>)
        requires
            self.table.slots_view().len() == 0,
            self.table.free_view().len() == 0,
            self.table.wf(),
            self.cache.wf(),
            self.cache.pages_view().len() == 0,
        ensures
            r is Ok,
            match r {
                Ok(t) => t.wf() && t.root_entries().len() == 1 && t.root_entries()[0].1 == (Index {
                    id: 1,
                    ver: 0,
                }) && t.leaf_entries(1).len() == 0 && t.leaf_fuel(1) == 1 && t.arena_len() == 2
                    && t.delta_threshold() == self.opts.data_delta_length && t.split_threshold()
                    == self.opts.data_node_size,
                Err(e) => e is Alloc,
            },
    {
        let mut t = self;
        let root_id = match t.table.alloc_pid() {
            Some(pid) => pid,
            None => {
                proof {
                    assert(false);
                }
                return Err(Error::Alloc);
            },
        };
        let leaf_id = match t.table.alloc_pid() {
            Some(pid) => pid,
            None => {
                proof {
                    assert(false);
                }
                return Err(Error::Alloc);
            },
        };
        // A fresh table hands out the root id first.
        proof {
            assert(root_id == 0);
            assert(leaf_id == 1);
        }
        // The empty leaf base page.
        let mut leaf_hdr = PagePtr::new();
        leaf_hdr.set_len(1);
        let leaf_node = PageNode { hdr: leaf_hdr, content: NodeContent::Data(Vec::new()) };
        let leaf_addr = match t.cache.install(leaf_node) {
            Ok(a) => a,
            Err(e) => {
                proof {
                    assert(false);
                }
                return Err(e);
            },
        };
        t.table.set(leaf_id, leaf_addr);
        // The root index page: the empty separator covers every key.
        let mut seps: Vec<(Key, Index)> = Vec::new();
        seps.push((Key::new(Vec::new(), 0), Index { id: leaf_id, ver: 0 }));
        let mut root_hdr = PagePtr::new();
        root_hdr.set_len(1);
        root_hdr.set_index(true);
        let root_node = PageNode { hdr: root_hdr, content: NodeContent::Branch(seps) };
        let root_addr = match t.cache.install(root_node) {
            Ok(a) => a,
            Err(e) => {
                proof {
                    assert(false);
                }
                return Err(e);
            },
        };
        t.table.set(root_id, root_addr);
        proof {
            assert(t.raw_slot(ROOT_ID) == root_addr);
            assert(t.raw_slot(1) == leaf_addr);
            assert(t.cache.node_at(leaf_addr) == leaf_node);
            assert(leaf_node.hdr.len_spec() == 1 && leaf_node.hdr.next_spec() == 0);
            assert(page_entries(leaf_node) =~= seq_view(
                leaf_node.content->Data_0@,
            ));
            assert(seq_view(leaf_node.content->Data_0@) =~= Seq::<
                ((Seq<u8>, u64), Option<Seq<u8>>),
            >::empty());
            assert(chain_entries(t.cache, 0, 0) =~= Seq::<
                ((Seq<u8>, u64), Option<Seq<u8>>),
            >::empty());
            assert(t.root_entries() =~= seq_view(t.root_node().content->Branch_0@));
            assert(t.root_entries().len() == 1);
            assert(t.root_entries()[0].0.0 =~= Seq::<u8>::empty());
            assert(chain_ok(t.cache, 0, 0));
            assert(leaf_chain_wf(t.cache, 0, 0));
            assert(chain_ok(t.cache, leaf_addr, 1));
            assert(page_entries(t.cache.node_at(leaf_addr)) =~= Seq::<
                ((Seq<u8>, u64), Option<Seq<u8>>),
            >::empty());
            assert(leaf_chain_wf(t.cache, leaf_addr, 1));
            assert(t.leaf_ok(Index { id: 1, ver: 0 }));
        }
        Ok(t)
    }

    /// Pins the current epoch for a request.
    pub fn pin(&mut self) -> (r: EpochGuard)
        ensures
            final(self).wf() == old(self).wf(),
            final(self).same_pages(*old(self)),
            r.epoch_spec() == old(self).epoch_of(),
            final(self).epoch_of() == old(self).epoch_of(),
            final(self).pins_of() == old(self).pins_of().push(old(self).epoch_of()),
            final(self).deferred_of() == old(self).deferred_of(),
            final(self).arena_len() == old(self).arena_len(),
    {
        self.epochs.pin()
    }

    /// Releases a request's pin and frees every chain no reader can still
    /// observe: the guard's pin leaves the registry, and exactly the
    /// deferred chains no remaining pin is at or below are dropped from it
    /// and their bytes released.
    pub fn unpin(&mut self, guard: EpochGuard)
        ensures
            final(self).wf() == old(self).wf(),
            final(self).root_entries() == old(self).root_entries(),
            forall|raw: Seq<u8>| final(self).route(raw) == old(self).route(raw),
            forall|pid: u64| final(self).leaf_entries(pid) == #[trigger] old(self).leaf_entries(
                pid,
            ),
            (old(self).pins_of().contains(guard.epoch_spec())
                ==> final(self).pins_of().to_multiset()
                == old(self).pins_of().to_multiset().remove(guard.epoch_spec())),
            (!old(self).pins_of().contains(guard.epoch_spec())
                ==> final(self).pins_of() == old(self).pins_of()),
            final(self).deferred_of() == old(self).deferred_of().filter(
                |e: (u64, u64)|
                    exists|p: int|
                        0 <= p < final(self).pins_of().len() && #[trigger] final(self).pins_of()[p]
                            <= e.0,
            ),
            final(self).arena_len() == old(self).arena_len(),
    {
        self.epochs.unpin(guard);
        let heads = self.epochs.collect();
        let ghost pins_done = self.pins_of();
        let ghost deferred_done = self.deferred_of();
        let mut i: usize = 0;
        proof {
            old(self).lemma_state_frame(*self);
        }
        while i < heads.len()
            invariant
                0 <= i <= heads@.len(),
                self.wf() == old(self).wf(),
                self.root_entries() == old(self).root_entries(),
                forall|raw: Seq<u8>| self.route(raw) == old(self).route(raw),
                forall|pid: u64|
                    self.leaf_entries(pid) == #[trigger] old(self).leaf_entries(pid),
                self.pins_of() == pins_done,
                self.deferred_of() == deferred_done,
                self.arena_len() == old(self).arena_len(),
            decreases heads@.len() - i,
        {
            self.dealloc_page_chain(heads[i]);
            i = i + 1;
        }
    }

    /// Reads a mapping-table slot as a tagged address.
    fn page_addr(&self, id: u64) -> (r: PageAddr)
        requires
            id < self.table.slots_view().len(),
        ensures
            r == PageAddr::decode_spec(self.raw_slot(id)),
    {
        PageAddr::decode(self.table.get(id))
    }

    /// Takes a view of the page at an address.
    fn page_view(&self, addr: PageAddr) -> (r: Option<PageView>)
        requires
            addr is Mem ==> addr->Mem_0 == 0 || self.cache.valid_addr(addr->Mem_0),
        ensures
            match r {
                Some(v) => match v {
                    PageView::Mem(p, a) => addr == PageAddr::Mem(a) && a != 0
                        && self.cache.valid_addr(a) && p.ver_spec() == self.cache.node_at(
                        a,
                    ).hdr.ver_spec() && p.len_spec() == self.cache.node_at(a).hdr.len_spec()
                        && p.is_index_spec() == self.cache.node_at(a).hdr.is_index_spec(),
                    PageView::Disk(_, _) => false,
                },
                None => addr is Disk || addr == PageAddr::Mem(0),
            },
    {
        match addr {
            PageAddr::Mem(a) => {
                if a == 0 {
                    None
                } else {
                    let node = self.cache.node(a);
                    Some(PageView::Mem(node.hdr.duplicate(), a))
                }
            },
            PageAddr::Disk(a) => {
                match self.store.page_info(a) {
                    Some(info) => Some(PageView::Disk(info, a)),
                    None => None,
                }
            },
        }
    }
}


/// `last_le` finds exactly the separator at the greatest index at or below
/// the key.
proof fn lemma_last_le_at(es: Seq<((Seq<u8>, u64), Index)>, raw: Seq<u8>, m: int)
    requires
        0 <= m < es.len(),
        !Key::lt_view((raw, 0u64), es[m].0),
        forall|i: int| m < i < es.len() ==> Key::lt_view((raw, 0u64), #[trigger] es[i].0),
    ensures
        last_le(es, raw) == Some(es[m].1),
    decreases es.len(),
{
    if m == es.len() - 1 {
    } else {
        assert(es.drop_last()[m] == es[m]);
        assert forall|i: int| m < i < es.drop_last().len() implies Key::lt_view(
            (raw, 0u64),
            #[trigger] es.drop_last()[i].0,
        ) by {
            assert(es.drop_last()[i] == es[i]);
        }
        lemma_last_le_at(es.drop_last(), raw, m);
    }
}

impl BTree {
    /// Finds the leaf a user key routes to. A version mismatch would make
    /// the descent restart, but with every structural change completed
    /// before an operation returns, none is ever observed.
    fn try_find_node(&self, raw: &Vec<u8>) -> (r: Result<TreeNode, Error>)
        requires
            self.wf(),
        ensures
            match r {
                Ok(node) => {
                    &&& node.id == self.route(raw@).id
                    &&& self.leaf_ok(self.route(raw@))
                    &&& (exists|i: int|
                        0 <= i < self.root_entries().len() && (#[trigger] self.root_entries()[i]).1
                            == self.route(raw@))
                    &&& match node.view {
                        PageView::Mem(p, a) => a == self.raw_slot(node.id) && p.ver_spec()
                            == self.cache.node_at(a).hdr.ver_spec() && p.len_spec()
                            == self.cache.node_at(a).hdr.len_spec() && p.is_index_spec()
                            == self.cache.node_at(a).hdr.is_index_spec(),
                        PageView::Disk(_, _) => false,
                    }
                },
                Err(_) => false,
            },
    {
        let idx = match self.lookup_index(raw) {
            Ok(Some(idx)) => idx,
            _ => {
                return Err(Error::Again);
            },
        };
        proof {
            assert(self.leaf_ok(idx));
        }
        let addr = self.page_addr(idx.id);
        match self.page_view(addr) {
            Some(view) => {
                let node = TreeNode { id: idx.id, view };
                if node.view.ver().into_u64() != idx.ver {
                    proof {
                        assert(false);
                    }
                    return Err(Error::Again);
                }
                Ok(node)
            },
            None => {
                proof {
                    assert(PageAddr::decode_spec(self.raw_slot(idx.id)) is Mem);
                    assert(false);
                }
                Err(Error::Again)
            },
        }
    }

    /// Resolves the child an index node routes a user key to: the root's
    /// chain is walked page by page, and the first page holding a separator
    /// at or below the key answers.
    fn lookup_index(&self, raw: &Vec<u8>) -> (r: Result<Option<Index>, Error>)
        requires
            self.wf(),
        ensures
            match r {
                Ok(v) => match v {
                    Some(idx) => idx == self.route(raw@) && (exists|i: int|
                        0 <= i < self.root_entries().len()
                            && (#[trigger] self.root_entries()[i]).1 == idx),
                    None => false,
                },
                Err(_) => false,
            },
    {
        let root_addr = self.table.get(ROOT_ID);
        let root = self.cache.node(root_addr);
        match &root.content {
            NodeContent::Branch(es) => {
                let pref = crate::data_page::DataPageRef::<Key, Index>::new(&root.hdr, es);
                let target = Key::new(dup_bytes(raw), 0);
                match pref.seek_back(&target) {
                    Some(e) => {
                        proof {
                            let sv = seq_view(es@);
                            let m = choose|m: int|
                                0 <= m < sv.len() && e@ == sv[m] && !Key::lt_view(
                                    target@,
                                    sv[m].0,
                                ) && (forall|i: int|
                                    m < i < sv.len() ==> Key::lt_view(
                                        target@,
                                        #[trigger] sv[i].0,
                                    ));
                            lemma_last_le_at(sv, raw@, m);
                            assert(0 <= m < self.root_entries().len()
                                && self.root_entries()[m].1 == self.route(raw@));
                        }
                        Ok(Some(e.1))
                    },
                    None => {
                        proof {
                            let sv = seq_view(es@);
                            assert(Key::lt_view((raw@, 0u64), sv[0].0));
                            assert(!crate::data::lex_lt(raw@, Seq::<u8>::empty()));
                            assert(false);
                        }
                        Err(Error::Again)
                    },
                }
            },
            _ => {
                proof {
                    assert(false);
                }
                Err(Error::Again)
            },
        }
    }

    /// Walks a leaf chain head to tail and returns the payload of the
    /// freshest entry for the key visible at `lsn`.
    fn lookup_value(&self, raw: &Vec<u8>, lsn: u64, node: &TreeNode) -> (r: Result<
        Option<Vec<u8>>,
        Error,
    >)
        requires
            self.wf(),
            node.id == self.route(raw@).id,
            self.leaf_ok(self.route(raw@)),
        ensures
            match r {
                Ok(v) => match v {
                    Some(b) => visible_is(self.leaf_entries(node.id), raw@, lsn, Some(Some(b@))),
                    None => visible_is(self.leaf_entries(node.id), raw@, lsn, None) || visible_is(
                        self.leaf_entries(node.id),
                        raw@,
                        lsn,
                        Some(None),
                    ),
                },
                Err(_) => false,
            },
    {
        let head_addr = self.table.get(node.id);
        let mut addr = head_addr;
        let head = self.cache.node(addr);
        let mut fuel = head.hdr.len();
        let ghost whole = self.leaf_entries(node.id);
        let ghost walked = Seq::<((Seq<u8>, u64), Option<Seq<u8>>)>::empty();
        proof {
            assert(whole =~= walked + chain_entries(self.cache, addr, fuel as nat));
        }
        loop
            invariant
                self.wf(),
                whole == self.leaf_entries(node.id),
                chain_ok(self.cache, addr, fuel as nat),
                leaf_chain_wf(self.cache, addr, fuel as nat),
                whole =~= walked + chain_entries(self.cache, addr, fuel as nat),
                forall|j: int|
                    0 <= j < walked.len() ==> !((#[trigger] walked[j]).0.0 == raw@ && walked[j].0.1
                        <= lsn),
            decreases fuel,
        {
            if fuel == 0 {
                proof {
                    assert(chain_entries(self.cache, addr, 0) =~= Seq::<
                        ((Seq<u8>, u64), Option<Seq<u8>>),
                    >::empty());
                    assert(whole =~= walked);
                }
                return Ok(None);
            }
            let pg = self.cache.node(addr);
            let ghost here = page_entries(self.cache.node_at(addr));
            let ghost rest = chain_entries(
                self.cache,
                self.cache.node_at(addr).hdr.next_spec(),
                (fuel - 1) as nat,
            );
            proof {
                assert(chain_entries(self.cache, addr, fuel as nat) =~= here + rest);
            }
            match &pg.content {
                NodeContent::Data(es) => {
                    let pref = crate::data_page::DataPageRef::<Key, Value>::new(&pg.hdr, es);
                    let target = Key::new(dup_bytes(raw), lsn);
                    proof {
                        crate::iter::lemma_sorted_lt_le::<Key, Value>(seq_view(es@));
                    }
                    match pref.seek(&target) {
                        Some(e) => {
                            if crate::data::bytes_eq(&e.0.raw, raw) {
                                // The first page with a visible entry wins:
                                // within the page the seek found the
                                // freshest visible version, pages behind
                                // this one are strictly staler, and pages
                                // already walked had nothing visible.
                                let ghost sv = seq_view(es@);
                                let ghost m = choose|m: int|
                                    0 <= m < sv.len() && e@ == sv[m] && !Key::lt_view(
                                        sv[m].0,
                                        target@,
                                    ) && (forall|i: int|
                                        0 <= i < m ==> Key::lt_view(
                                            #[trigger] sv[i].0,
                                            target@,
                                        ));
                                proof {
                                    self.lemma_page_visible(
                                        whole,
                                        walked,
                                        here,
                                        rest,
                                        sv,
                                        m,
                                        raw@,
                                        lsn,
                                    );
                                }
                                return Ok(
                                    match &e.1 {
                                        Value::Put(b) => Some(dup_bytes(b)),
                                        Value::Delete => None,
                                    },
                                );
                            } else {
                                proof {
                                    self.lemma_page_no_candidate(seq_view(es@), e@, raw@, lsn);
                                }
                            }
                        },
                        None => {
                            proof {
                                let sv = seq_view(es@);
                                assert forall|j: int|
                                    0 <= j < sv.len() implies !((#[trigger] sv[j]).0.0 == raw@
                                    && sv[j].0.1 <= lsn) by {
                                    if sv[j].0.0 == raw@ && sv[j].0.1 <= lsn {
                                        assert(Key::lt_view(sv[j].0, (raw@, lsn)));
                                        crate::data::lemma_lex_asym(raw@, raw@);
                                    }
                                }
                            }
                        },
                    }
                },
                _ => {
                    proof {
                        assert(here =~= Seq::<((Seq<u8>, u64), Option<Seq<u8>>)>::empty());
                    }
                },
            }
            proof {
                walked = walked + here;
                assert forall|j: int|
                    0 <= j < walked.len() implies !((#[trigger] walked[j]).0.0 == raw@
                    && walked[j].0.1 <= lsn) by {
                }
            }
            let next = pg.hdr.next();
            addr = next;
            fuel = fuel - 1;
        }
    }

    /// Within one sorted page, a seek result that misses the user bytes
    /// means the page holds nothing visible for them.
    proof fn lemma_page_no_candidate(
        &self,
        sv: Seq<((Seq<u8>, u64), Option<Seq<u8>>)>,
        e: ((Seq<u8>, u64), Option<Seq<u8>>),
        raw: Seq<u8>,
        lsn: u64,
    )
        requires
            sorted_lt::<Key, Value>(sv),
            e.0.0 != raw,
            exists|m: int|
                0 <= m < sv.len() && e == sv[m] && !Key::lt_view(sv[m].0, (raw, lsn)) && (forall|
                    i: int,
                |
                    0 <= i < m ==> Key::lt_view(#[trigger] sv[i].0, (raw, lsn))),
        ensures
            forall|j: int| 0 <= j < sv.len() ==> !((#[trigger] sv[j]).0.0 == raw && sv[j].0.1 <= lsn),
    {
        let m = choose|m: int|
            0 <= m < sv.len() && e == sv[m] && !Key::lt_view(sv[m].0, (raw, lsn)) && (forall|i: int|
                0 <= i < m ==> Key::lt_view(#[trigger] sv[i].0, (raw, lsn)));
        assert forall|j: int|
            0 <= j < sv.len() implies !((#[trigger] sv[j]).0.0 == raw && sv[j].0.1 <= lsn) by {
            if sv[j].0.0 == raw && sv[j].0.1 <= lsn {
                crate::data::lemma_lex_asym(raw, raw);
                assert(!Key::lt_view(sv[j].0, (raw, lsn)));
                if j < m {
                } else if j == m {
                } else {
                    assert(Key::lt_view(sv[m].0, sv[j].0));
                    crate::data::lemma_lex_asym(sv[m].0.0, raw);
                    crate::data::lemma_lex_connex(sv[m].0.0, raw);
                    if crate::data::lex_lt(sv[m].0.0, raw) {
                        assert(Key::lt_view(sv[m].0, (raw, lsn)));
                    } else {
                        assert(crate::data::lex_lt(raw, sv[m].0.0));
                        assert(Key::lt_view(sv[j].0, sv[m].0) || sv[j].0.0 == sv[m].0.0
                            || crate::data::lex_lt(sv[j].0.0, sv[m].0.0)) by {
                            crate::data::lemma_lex_connex(sv[j].0.0, sv[m].0.0);
                        }
                        if sv[j].0.0 == sv[m].0.0 {
                        } else if crate::data::lex_lt(sv[j].0.0, sv[m].0.0) {
                            crate::data::lemma_lex_asym(sv[j].0.0, sv[m].0.0);
                            assert(Key::lt_view(sv[j].0, sv[m].0));
                            Key::lemma_strict_order(sv[j].0, sv[m].0, sv[j].0);
                        } else {
                        }
                    }
                }
            }
        }
    }

    /// The entry a seek finds in the first page that has one visible is the
    /// freshest visible entry of the whole chain.
    proof fn lemma_page_visible(
        &self,
        whole: Seq<((Seq<u8>, u64), Option<Seq<u8>>)>,
        walked: Seq<((Seq<u8>, u64), Option<Seq<u8>>)>,
        here: Seq<((Seq<u8>, u64), Option<Seq<u8>>)>,
        rest: Seq<((Seq<u8>, u64), Option<Seq<u8>>)>,
        sv: Seq<((Seq<u8>, u64), Option<Seq<u8>>)>,
        m: int,
        raw: Seq<u8>,
        lsn: u64,
    )
        requires
            sorted_lt::<Key, Value>(sv),
            here == sv,
            whole =~= walked + (here + rest),
            dominates(here, rest),
            forall|j: int|
                0 <= j < walked.len() ==> !((#[trigger] walked[j]).0.0 == raw && walked[j].0.1
                    <= lsn),
            0 <= m < sv.len(),
            sv[m].0.0 == raw,
            !Key::lt_view(sv[m].0, (raw, lsn)),
            forall|i: int| 0 <= i < m ==> Key::lt_view(#[trigger] sv[i].0, (raw, lsn)),
        ensures
            visible_is(whole, raw, lsn, Some(sv[m].1)),
    {
        let e = sv[m];
        // The found entry is itself visible.
        assert(e.0.1 <= lsn) by {
            crate::data::lemma_lex_asym(raw, raw);
        }
        let wi = walked.len() + m;
        assert(whole[wi] == e);
        assert forall|j: int|
            0 <= j < whole.len() && (#[trigger] whole[j]).0.0 == raw && whole[j].0.1
                <= lsn implies whole[j].0.1 <= e.0.1 by {
            if j < walked.len() {
                assert(walked[j] == whole[j]);
            } else if j < walked.len() + sv.len() {
                let i = j - walked.len();
                assert(sv[i] == whole[j]);
                if i < m {
                    assert(Key::lt_view(sv[i].0, (raw, lsn)));
                    crate::data::lemma_lex_asym(raw, raw);
                } else if i > m {
                    assert(Key::lt_view(sv[m].0, sv[i].0));
                    crate::data::lemma_lex_asym(raw, raw);
                }
            } else {
                let i = j - walked.len() - sv.len();
                assert(rest[i] == whole[j]);
                assert(e.0.1 > rest[i].0.1);
            }
        }
        assert(0 <= wi < whole.len() && whole[wi].0.0 == raw && whole[wi].0.1 <= lsn
            && whole[wi].1 == e.1 && (forall|j: int|
            0 <= j < whole.len() && (#[trigger] whole[j]).0.0 == raw && whole[j].0.1 <= lsn
                ==> whole[j].0.1 <= whole[wi].0.1));
    }
}



/// A cache extension: every page of `c1` is still live and unchanged in
/// `c2`.
pub open spec fn cache_extends(c1: PageCache, c2: PageCache) -> bool {
    forall|a: u64|
        #[trigger] c1.valid_addr(a) ==> c2.valid_addr(a) && c2.node_at(a) == c1.node_at(a)
}

/// Chain facts carry over to an extended cache.
proof fn lemma_chain_frame(c1: PageCache, c2: PageCache, addr: u64, fuel: nat)
    requires
        cache_extends(c1, c2),
    ensures
        chain_ok(c1, addr, fuel) ==> chain_ok(c2, addr, fuel),
        chain_ok(c1, addr, fuel) ==> chain_entries(c2, addr, fuel) == chain_entries(
            c1,
            addr,
            fuel,
        ),
        chain_ok(c1, addr, fuel) && leaf_chain_wf(c1, addr, fuel) ==> leaf_chain_wf(
            c2,
            addr,
            fuel,
        ),
    decreases fuel,
{
    if fuel > 0 && chain_ok(c1, addr, fuel) {
        let node = c1.node_at(addr);
        lemma_chain_frame(c1, c2, node.hdr.next_spec(), (fuel - 1) as nat);
        assert(chain_entries(c2, addr, fuel) =~= chain_entries(c1, addr, fuel));
    }
}

/// In a well-formed chain every two entries carry distinct keys.
proof fn lemma_chain_keys_distinct(cache: PageCache, addr: u64, fuel: nat)
    requires
        chain_ok(cache, addr, fuel),
        leaf_chain_wf(cache, addr, fuel),
    ensures
        forall|i: int, j: int|
            0 <= i < j < chain_entries(cache, addr, fuel).len() ==> (#[trigger] chain_entries(
                cache,
                addr,
                fuel,
            )[i]).0 != (#[trigger] chain_entries(cache, addr, fuel)[j]).0,
    decreases fuel,
{
    if fuel > 0 {
        let node = cache.node_at(addr);
        let here = page_entries(node);
        let rest = chain_entries(cache, node.hdr.next_spec(), (fuel - 1) as nat);
        let s = chain_entries(cache, addr, fuel);
        lemma_chain_keys_distinct(cache, node.hdr.next_spec(), (fuel - 1) as nat);
        assert(s =~= here + rest);
        assert forall|i: int, j: int|
            0 <= i < j < s.len() implies (#[trigger] s[i]).0 != (#[trigger] s[j]).0 by {
            if j < here.len() {
                assert(Key::lt_view(here[i].0, here[j].0));
                Key::lemma_strict_order(here[i].0, here[j].0, here[i].0);
            } else if i < here.len() {
                assert(s[i] == here[i] && s[j] == rest[j - here.len()]);
                if here[i].0.0 == rest[j - here.len()].0.0 {
                    assert(here[i].0.1 > rest[j - here.len()].0.1);
                }
            } else {
                assert(s[i] == rest[i - here.len()] && s[j] == rest[j - here.len()]);
            }
        }
    }
}

/// A sequence whose entries carry pairwise distinct keys counts every entry
/// at most once.
proof fn lemma_distinct_keys_count(s: Seq<((Seq<u8>, u64), Option<Seq<u8>>)>)
    requires
        forall|i: int, j: int| 0 <= i < j < s.len() ==> (#[trigger] s[i]).0 != (#[trigger] s[j]).0,
    ensures
        forall|e: ((Seq<u8>, u64), Option<Seq<u8>>)|
            #[trigger] s.to_multiset().count(e) <= 1,
    decreases s.len(),
{
    broadcast use vstd::seq_lib::group_seq_properties;

    if s.len() > 0 {
        let dl = s.drop_last();
        let last = s.last();
        lemma_distinct_keys_count(dl);
        assert(s =~= dl.push(last));
        assert forall|e: ((Seq<u8>, u64), Option<Seq<u8>>)|
            #[trigger] s.to_multiset().count(e) <= 1 by {
            assert(s.to_multiset() =~= dl.to_multiset().insert(last));
            if e == last {
                if dl.to_multiset().count(last) > 0 {
                    assert(dl.contains(last));
                    let k = choose|k: int| 0 <= k < dl.len() && dl[k] == last;
                    assert(s[k] == last && s[s.len() - 1] == last);
                    assert(s[k].0 == s[s.len() - 1].0);
                }
            }
        }
    }
}

/// Weakly sorted entries with a duplicate-free multiset are strictly
/// sorted.
proof fn lemma_sorted_le_distinct_lt(
    s: Seq<((Seq<u8>, u64), Option<Seq<u8>>)>,
    t: Seq<((Seq<u8>, u64), Option<Seq<u8>>)>,
)
    requires
        crate::iter::sorted_le::<Key, Value>(s),
        s.to_multiset() == t.to_multiset(),
        forall|i: int, j: int| 0 <= i < j < t.len() ==> (#[trigger] t[i]).0 != (#[trigger] t[j]).0,
    ensures
        sorted_lt::<Key, Value>(s),
{
    broadcast use vstd::seq_lib::group_to_multiset_ensures;

    lemma_distinct_keys_count(t);
    assert forall|i: int, j: int|
        0 <= i < j < s.len() implies Key::lt_view(#[trigger] s[i].0, #[trigger] s[j].0) by {
        assert(!Key::lt_view(s[j].0, s[i].0));
        if !Key::lt_view(s[i].0, s[j].0) {
            // Equivalent keys: lexicographic connexity forces equal views.
            crate::data::lemma_lex_connex(s[i].0.0, s[j].0.0);
            crate::data::lemma_lex_asym(s[i].0.0, s[j].0.0);
            assert(s[i].0.0 == s[j].0.0 && s[i].0.1 == s[j].0.1);
            assert(s[i].0 == s[j].0);
            if s[i] == s[j] {
                let srem = s.remove(i);
                assert(srem.to_multiset() =~= s.to_multiset().remove(s[i]));
                assert(srem[j - 1] == s[j]);
                assert(srem.contains(s[j]));
                assert(srem.to_multiset().count(s[j]) > 0);
                assert(s.to_multiset().count(s[i]) >= 2);
                assert(t.to_multiset().count(s[i]) >= 2);
            } else {
                assert(s.contains(s[i]) && s.contains(s[j]));
                assert(t.to_multiset().count(s[i]) > 0 && t.to_multiset().count(s[j]) > 0);
                assert(t.contains(s[i]) && t.contains(s[j]));
                let a = choose|a: int| 0 <= a < t.len() && t[a] == s[i];
                let b = choose|b: int| 0 <= b < t.len() && t[b] == s[j];
                assert(a != b);
                assert(t[a].0 == t[b].0);
            }
        }
    }
}



/// Copies a page's entries.
fn dup_entries(es: &Vec<(Key, Value)>) -> (r: Vec<(Key, Value)>)
    ensures
        seq_view(r@) =~= seq_view(es@),
{
    let mut out: Vec<(Key, Value)> = Vec::new();
    let mut i: usize = 0;
    while i < es.len()
        invariant
            0 <= i <= es@.len(),
            seq_view(out@) =~= seq_view(es@).subrange(0, i as int),
        decreases es@.len() - i,
    {
        let e = &es[i];
        let k = e.0.duplicate();
        let v = crate::data::Duplicable::dup(&e.1);
        out.push((k, v));
        proof {
            assert(seq_view(out@) =~= seq_view(es@).subrange(0, i as int).push((k@, v@)));
            assert(seq_view(es@).subrange(0, i + 1) =~= seq_view(es@).subrange(0, i as int).push(
                seq_view(es@)[i as int],
            ));
        }
        i = i + 1;
    }
    proof {
        assert(seq_view(es@).subrange(0, es@.len() as int) =~= seq_view(es@));
    }
    out
}

/// The pages of a family laid end to end.
pub open spec fn concat_all(seqs: Seq<Seq<((Seq<u8>, u64), Option<Seq<u8>>)>>) -> Seq<
    ((Seq<u8>, u64), Option<Seq<u8>>),
>
    decreases seqs.len(),
{
    if seqs.len() == 0 {
        Seq::empty()
    } else {
        concat_all(seqs.drop_last()) + seqs.last()
    }
}

/// Concatenation and the per-page multiset sum agree.
proof fn lemma_concat_msets(seqs: Seq<Seq<((Seq<u8>, u64), Option<Seq<u8>>)>>, zeros: Seq<int>)
    requires
        zeros.len() == seqs.len(),
        forall|j: int| 0 <= j < zeros.len() ==> #[trigger] zeros[j] == 0,
    ensures
        concat_all(seqs).to_multiset() == crate::iter::rem_msets::<Key, Value>(
            seqs,
            zeros,
            seqs.len() as int,
        ),
    decreases seqs.len(),
{
    broadcast use vstd::seq_lib::group_to_multiset_ensures;

    let n = seqs.len() as int;
    if n == 0 {
        assert(concat_all(seqs).to_multiset() =~= Multiset::empty());
        assert(crate::iter::rem_msets::<Key, Value>(seqs, zeros, 0) =~= Multiset::empty());
    } else {
        let dl = seqs.drop_last();
        let zl = zeros.drop_last();
        assert(dl.len() == zl.len());
        assert forall|j: int| 0 <= j < zl.len() implies #[trigger] zl[j] == 0 by {
            assert(zl[j] == zeros[j]);
        }
        lemma_concat_msets(dl, zl);
        vstd::seq_lib::lemma_multiset_commutative(concat_all(dl), seqs.last());
        assert(seqs.last().skip(0) =~= seqs.last());
        lemma_rem_msets_prefix(seqs, zeros, n - 1);
        assert(crate::iter::rem_msets::<Key, Value>(seqs, zeros, n) == crate::iter::rem_msets::<
            Key,
            Value,
        >(seqs, zeros, n - 1).add(seqs[n - 1].skip(zeros[n - 1]).to_multiset()));
        assert(seqs[n - 1].skip(zeros[n - 1]) =~= seqs.last());
        assert(concat_all(seqs).to_multiset() =~= crate::iter::rem_msets::<Key, Value>(
            seqs,
            zeros,
            n,
        ));
    }
}

/// The partial multiset sum reads only the first `n` pages.
proof fn lemma_rem_msets_prefix(
    seqs: Seq<Seq<((Seq<u8>, u64), Option<Seq<u8>>)>>,
    zeros: Seq<int>,
    n: int,
)
    requires
        0 <= n < seqs.len(),
        zeros.len() == seqs.len(),
    ensures
        crate::iter::rem_msets::<Key, Value>(seqs.drop_last(), zeros.drop_last(), n)
            == crate::iter::rem_msets::<Key, Value>(seqs, zeros, n),
    decreases n,
{
    if n > 0 {
        lemma_rem_msets_prefix(seqs, zeros, n - 1);
        assert(seqs.drop_last()[n - 1] == seqs[n - 1]);
        assert(zeros.drop_last()[n - 1] == zeros[n - 1]);
    }
}



impl BTree {
    /// Replaces a leaf's chain with one freshly built base page carrying the
    /// same entries, sorted; the old chain is deferred to the epoch
    /// registry. Best-effort: failure changes nothing.
    pub fn try_consolidate_node(&mut self, pid: u64) -> (r: Result<(), Error>)
        requires
            old(self).wf(),
            (exists|i: int|
                0 <= i < old(self).root_entries().len() && (#[trigger] old(self).root_entries()[i]).1.id
                    == pid),
        ensures
            final(self).wf(),
            final(self).root_entries() == old(self).root_entries(),
            forall|raw: Seq<u8>| final(self).route(raw) == old(self).route(raw),
            match r {
                Ok(()) => final(self).leaf_entries(pid).to_multiset() == old(self).leaf_entries(
                    pid,
                ).to_multiset() && final(self).leaf_fuel(pid) == 1 && (forall|i: int|
                    0 <= i < old(self).root_entries().len() && (#[trigger] old(
                        self,
                    ).root_entries()[i]).1.id != pid ==> final(self).leaf_entries(
                        old(self).root_entries()[i].1.id,
                    ) == old(self).leaf_entries(old(self).root_entries()[i].1.id)),
                Err(e) => e is Alloc && final(self).same_pages(*old(self)),
            },
            old(self).consolidate_room(pid) ==> r is Ok,
            final(self).arena_len() <= old(self).arena_len() + 1,
    {
        proof {
            let i0 = choose|i: int|
                0 <= i < self.root_entries().len() && (#[trigger] self.root_entries()[i]).1.id
                    == pid;
            assert(self.leaf_ok(self.root_entries()[i0].1));
        }
        let head_addr = self.table.get(pid);
        let head_len = self.cache.node(head_addr).hdr.len();
        let head_ver = self.cache.node(head_addr).hdr.ver();
        let ghost whole = self.leaf_entries(pid);
        // First pass: copy each data page's entries.
        let mut copies: Vec<Vec<(Key, Value)>> = Vec::new();
        let mut addr = head_addr;
        let mut fuel = head_len;
        let ghost mut seqs = Seq::<Seq<((Seq<u8>, u64), Option<Seq<u8>>)>>::empty();
        proof {
            assert(concat_all(seqs) + chain_entries(self.cache, addr, fuel as nat) =~= whole);
        }
        while fuel > 0
            invariant
                self.wf(),
                chain_ok(self.cache, addr, fuel as nat),
                leaf_chain_wf(self.cache, addr, fuel as nat),
                seqs.len() == copies@.len(),
                forall|j: int| 0 <= j < seqs.len() ==> #[trigger] seqs[j] == seq_view(copies@[j]@),
                forall|j: int|
                    0 <= j < seqs.len() ==> crate::iter::sorted_le::<Key, Value>(
                        #[trigger] seqs[j],
                    ),
                concat_all(seqs) + chain_entries(self.cache, addr, fuel as nat) =~= whole,
            decreases fuel,
        {
            let pg = self.cache.node(addr);
            let ghost here = page_entries(self.cache.node_at(addr));
            match &pg.content {
                NodeContent::Data(es) => {
                    let copy = dup_entries(es);
                    proof {
                        crate::iter::lemma_sorted_lt_le::<Key, Value>(seq_view(es@));
                        let seqs0 = seqs;
                        seqs = seqs.push(seq_view(copy@));
                        assert(seqs.drop_last() =~= seqs0);
                        assert(concat_all(seqs) == concat_all(seqs.drop_last()) + seqs.last());
                        assert(seqs.last() =~= here);
                        assert(concat_all(seqs) =~= concat_all(seqs0) + here);
                    }
                    copies.push(copy);
                    proof {
                        assert forall|j: int| 0 <= j < seqs.len() implies #[trigger] seqs[j]
                            == seq_view(copies@[j]@) by {
                        }
                    }
                },
                _ => {
                    proof {
                        assert(false);
                    }
                },
            }
            let next = pg.hdr.next();
            proof {
                assert(chain_entries(self.cache, addr, fuel as nat) =~= here + chain_entries(
                    self.cache,
                    self.cache.node_at(addr).hdr.next_spec(),
                    (fuel - 1) as nat,
                ));
                assert(concat_all(seqs) + chain_entries(
                    self.cache,
                    self.cache.node_at(addr).hdr.next_spec(),
                    (fuel - 1) as nat,
                ) =~= whole);
            }
            addr = next;
            fuel = fuel - 1;
        }
        proof {
            assert(chain_entries(self.cache, addr, 0) =~= Seq::<
                ((Seq<u8>, u64), Option<Seq<u8>>),
            >::empty());
            assert(concat_all(seqs) =~= whole);
        }
        // Merge every page into one sorted run.
        let mut merger_b = crate::iter::MergingIterBuilder::<
            Key,
            Value,
            crate::iter::SliceIter<Key, Value>,
        >::new();
        let mut j: usize = 0;
        while j < copies.len()
            invariant
                0 <= j <= copies@.len(),
                seqs.len() == copies@.len(),
                forall|k: int| 0 <= k < seqs.len() ==> #[trigger] seqs[k] == seq_view(copies@[k]@),
                merger_b.kids_ok(),
                merger_b.kids().len() == j,
                forall|k: int|
                    0 <= k < j ==> (#[trigger] merger_b.kids()[k]).all() == seqs[k]
                        && merger_b.kids()[k].pos() == 0 && merger_b.kids()[k].reset_all()
                        == seqs[k],
            decreases copies@.len() - j,
        {
            let it = crate::iter::SliceIter::new(&copies[j]);
            merger_b.add(it);
            j = j + 1;
        }
        let ghost kids = merger_b.kids();
        let mut merger = merger_b.build_rewindable();
        let ghost kid_alls = Seq::new(seqs.len(), |k: int| seqs[k]);
        proof {
            assert(kid_alls =~= seqs);
        }
        let mut scratch = crate::pagecache::ScratchAlloc::new();
        let ghost reset_seq = merger.reset_all();
        let buf = match crate::data_page::DataPageBuilder::new().build_from_iter(
            &mut scratch,
            &mut merger,
        ) {
            Ok(b) => b,
            Err(e) => {
                proof {
                    if old(self).consolidate_room(pid) {
                        let zeros = Seq::new(seqs.len(), |k: int| 0int);
                        assert(Seq::new(kids.len() as nat, |j: int| kids[j].reset_all()) =~= seqs);
                        assert(Seq::new(kids.len() as nat, |j: int| 0int) =~= zeros);
                        assert(reset_seq == crate::iter::merge_from::<Key, Value>(seqs, zeros));
                        assert(crate::iter::poss_wf::<Key, Value>(seqs, zeros));
                        crate::iter::lemma_merge_multiset::<Key, Value>(seqs, zeros);
                        lemma_concat_msets(seqs, zeros);
                        crate::data::lemma_enc_total_multiset::<Key, Value>(reset_seq, whole);
                        assert(crate::data::enc_total::<Key, Value>(reset_seq) <= u32::MAX);
                        assert(false);
                    }
                }
                return Err(e);
            },
        };

        proof {
            // The cache was never touched while merging, so the old chain
            // facts still stand.
            let i1 = choose|i: int|
                0 <= i < old(self).root_entries().len() && (#[trigger] old(
                    self,
                ).root_entries()[i]).1.id == pid;
            assert(self.root_entries() == old(self).root_entries());
            assert(self.leaf_ok(self.root_entries()[i1].1));
            // What came out of the merge: same multiset as the chain, and
            // weakly sorted; chain keys are pairwise distinct, so strictly
            // sorted.
            let zeros = Seq::new(seqs.len(), |k: int| 0int);
            assert(crate::iter::poss_wf::<Key, Value>(seqs, zeros));
            assert(buf.entries_view() == crate::iter::merge_from::<Key, Value>(seqs, zeros)) by {
                assert(Seq::new(kids.len() as nat, |j: int| kids[j].reset_all()) =~= seqs);
                assert(Seq::new(kids.len() as nat, |j: int| 0int) =~= zeros);
            }
            crate::iter::lemma_merge_multiset::<Key, Value>(seqs, zeros);
            lemma_concat_msets(seqs, zeros);
            crate::iter::lemma_merge_sorted::<Key, Value>(seqs, zeros);
            lemma_chain_keys_distinct(self.cache, head_addr, head_len as nat);
            lemma_sorted_le_distinct_lt(buf.entries_view(), whole);
            assert(buf.entries_view().to_multiset() == whole.to_multiset());
        }
        let mut buf = buf;
        buf.set_ver(head_ver);
        buf.set_len(1);
        let (hdr, entries) = buf.into_parts();
        let ghost new_page_entries = seq_view(entries@);
        let new_node = PageNode { hdr, content: NodeContent::Data(entries) };
        let ghost cache_pre = self.cache;
        let new_addr = match self.cache.install(new_node) {
            Ok(a) => a,
            Err(e) => {
                proof {
                    if old(self).consolidate_room(pid) {
                        assert(false);
                    }
                }
                return Err(e);
            },
        };
        proof {
            assert(cache_extends(cache_pre, self.cache));
        }
        let ghost table_pre = self.table;
        match self.table.cas(pid, head_addr, new_addr) {
            Ok(()) => {},
            Err(_) => {
                proof {
                    assert(false);
                }
                return Err(Error::Again);
            },
        }
        self.epochs.defer_chain(head_addr);
        proof {
            self.lemma_after_swing(*old(self), cache_pre, pid, new_addr, new_page_entries, head_ver.value());
        }
        let ghost swung = *self;
        self.cache.charge(scratch.bytes());
        proof {
            swung.lemma_state_frame(*self);
        }
        Ok(())
    }

    /// Two states with the same mapping table and the same arena pages make
    /// the same tree: routing and every leaf's chain agree.
    proof fn lemma_state_frame(self, other: BTree)
        requires
            self.table == other.table,
            self.cache.pages_view() == other.cache.pages_view(),
        ensures
            self.wf() == other.wf(),
            self.root_entries() == other.root_entries(),
            forall|raw: Seq<u8>| self.route(raw) == other.route(raw),
            forall|pid: u64| self.leaf_entries(pid) == #[trigger] other.leaf_entries(pid),
            forall|pid: u64| self.leaf_fuel(pid) == #[trigger] other.leaf_fuel(pid),
    {
        assert(self.root_entries() == other.root_entries());
        assert forall|pid: u64| self.leaf_entries(pid) == #[trigger] other.leaf_entries(
            pid,
        ) by {
            self.lemma_chain_entries_same(other, self.raw_slot(pid), self.leaf_fuel(pid));
        }
        if self.wf() {
            assert(other.wf()) by {
                assert forall|i: int| 0 <= i < other.root_entries().len() implies other.leaf_ok(
                    (#[trigger] other.root_entries()[i]).1,
                ) by {
                    assert(self.leaf_ok(self.root_entries()[i].1));
                    let idx = self.root_entries()[i].1;
                    self.lemma_chain_preds_same(
                        other,
                        self.raw_slot(idx.id),
                        self.cache.node_at(self.raw_slot(idx.id)).hdr.len_spec() as nat,
                    );
                }
            }
        }
        if other.wf() {
            assert(self.wf()) by {
                assert forall|i: int| 0 <= i < self.root_entries().len() implies self.leaf_ok(
                    (#[trigger] self.root_entries()[i]).1,
                ) by {
                    assert(other.leaf_ok(other.root_entries()[i].1));
                    let idx = other.root_entries()[i].1;
                    self.lemma_chain_preds_same(
                        other,
                        self.raw_slot(idx.id),
                        self.cache.node_at(self.raw_slot(idx.id)).hdr.len_spec() as nat,
                    );
                }
            }
        }
    }

    proof fn lemma_chain_entries_same(self, other: BTree, addr: u64, fuel: nat)
        requires
            self.cache.pages_view() == other.cache.pages_view(),
        ensures
            chain_entries(self.cache, addr, fuel) == chain_entries(other.cache, addr, fuel),
        decreases fuel,
    {
        if fuel > 0 && self.cache.valid_addr(addr) {
            self.lemma_chain_entries_same(
                other,
                self.cache.node_at(addr).hdr.next_spec(),
                (fuel - 1) as nat,
            );
        }
    }

    proof fn lemma_chain_preds_same(self, other: BTree, addr: u64, fuel: nat)
        requires
            self.cache.pages_view() == other.cache.pages_view(),
        ensures
            chain_ok(self.cache, addr, fuel) == chain_ok(other.cache, addr, fuel),
            leaf_chain_wf(self.cache, addr, fuel) == leaf_chain_wf(other.cache, addr, fuel),
        decreases fuel,
    {
        if fuel > 0 && self.cache.valid_addr(addr) {
            self.lemma_chain_entries_same(
                other,
                self.cache.node_at(addr).hdr.next_spec(),
                (fuel - 1) as nat,
            );
            self.lemma_chain_preds_same(
                other,
                self.cache.node_at(addr).hdr.next_spec(),
                (fuel - 1) as nat,
            );
        }
    }

    /// After installing a fresh single-page chain for `pid` and swinging its
    /// slot, the tree is well formed again and every other leaf reads as
    /// before.
    proof fn lemma_after_swing(
        &self,
        pre: BTree,
        cache_pre: PageCache,
        pid: u64,
        new_addr: u64,
        entries: Seq<((Seq<u8>, u64), Option<Seq<u8>>)>,
        ver: u64,
    )
        requires
            pre.wf(),
            (exists|i: int|
                0 <= i < pre.root_entries().len() && (#[trigger] pre.root_entries()[i]).1.id
                    == pid),
            cache_extends(pre.cache, self.cache),
            cache_extends(cache_pre, self.cache),
            self.cache.wf(),
            self.table.wf(),
            self.table.free_view() == pre.table.free_view(),
            self.table.slots_view() == pre.table.slots_view().update(pid as int, new_addr),
            pid != 0,
            self.cache.valid_addr(new_addr),
            new_addr & MEM_DISK_MASK == 0,
            new_addr != 0,
            ({
                let node = self.cache.node_at(new_addr);
                &&& node.content is Data
                &&& page_entries(node) == entries
                &&& !node.hdr.is_index_spec()
                &&& node.hdr.kind_spec() == 0
                &&& node.hdr.ver_spec() == ver
                &&& ver == self.cache.node_at(pre.raw_slot(pid)).hdr.ver_spec()
                &&& ver < crate::base::PAGE_VERSION_MAX
                &&& node.hdr.len_spec() == 1
                &&& node.hdr.next_spec() == 0
            }),
            sorted_lt::<Key, Value>(entries),
        ensures
            self.wf(),
            self.root_entries() == pre.root_entries(),
            forall|raw: Seq<u8>| self.route(raw) == pre.route(raw),
            self.leaf_entries(pid) == entries,
            self.leaf_fuel(pid) == 1,
            (forall|i: int|
                0 <= i < pre.root_entries().len() && (#[trigger] pre.root_entries()[i]).1.id != pid
                    ==> self.leaf_entries(pre.root_entries()[i].1.id) == pre.leaf_entries(
                    pre.root_entries()[i].1.id,
                )),
    {
        assert(pre.cache.valid_addr(pre.raw_slot(ROOT_ID)));
        let i0 = choose|i: int|
            0 <= i < pre.root_entries().len() && (#[trigger] pre.root_entries()[i]).1.id == pid;
        assert(pre.leaf_ok(pre.root_entries()[i0].1));
        assert(pre.cache.valid_addr(pre.raw_slot(pid)));
        assert(self.raw_slot(ROOT_ID) == pre.raw_slot(ROOT_ID));
        assert(self.root_node() == pre.root_node());
        assert(self.root_entries() == pre.root_entries());
        assert(chain_ok(self.cache, 0, 0) && leaf_chain_wf(self.cache, 0, 0));
        assert(chain_entries(self.cache, 0, 0) =~= Seq::<
            ((Seq<u8>, u64), Option<Seq<u8>>),
        >::empty());
        assert(chain_ok(self.cache, new_addr, 1));
        assert(leaf_chain_wf(self.cache, new_addr, 1)) by {
            assert(dominates(entries, Seq::empty()));
        }
        assert(chain_entries(self.cache, new_addr, 1) =~= entries);
        assert forall|i: int| 0 <= i < self.root_entries().len() implies self.leaf_ok(
            (#[trigger] self.root_entries()[i]).1,
        ) by {
            let idx = pre.root_entries()[i].1;
            assert(pre.leaf_ok(idx));
            if idx.id == pid {
                assert(self.raw_slot(pid) == new_addr);
                assert(self.cache.node_at(new_addr).hdr.ver_spec() == idx.ver);
                assert(self.leaf_ok(idx));
            } else {
                assert(self.raw_slot(idx.id) == pre.raw_slot(idx.id));
                lemma_chain_frame(
                    pre.cache,
                    self.cache,
                    pre.raw_slot(idx.id),
                    pre.cache.node_at(pre.raw_slot(idx.id)).hdr.len_spec() as nat,
                );
                assert(self.leaf_ok(idx));
            }
        }
        assert forall|i: int|
            0 <= i < pre.root_entries().len() && (#[trigger] pre.root_entries()[i]).1.id
                != pid implies self.leaf_entries(pre.root_entries()[i].1.id) == pre.leaf_entries(
            pre.root_entries()[i].1.id,
        ) by {
            let idx = pre.root_entries()[i].1;
            assert(pre.leaf_ok(idx));
            lemma_chain_frame(
                pre.cache,
                self.cache,
                pre.raw_slot(idx.id),
                pre.cache.node_at(pre.raw_slot(idx.id)).hdr.len_spec() as nat,
            );
        }
        assert(self.leaf_entries(pid) =~= entries);
    }
}



impl BTree {
    /// After prepending a delta page to `pid`'s chain and swinging its slot,
    /// the tree is well formed and the leaf reads the delta first.
    proof fn lemma_after_push(
        &self,
        pre: BTree,
        pid: u64,
        new_addr: u64,
        entries: Seq<((Seq<u8>, u64), Option<Seq<u8>>)>,
    )
        requires
            pre.wf(),
            (exists|i: int|
                0 <= i < pre.root_entries().len() && (#[trigger] pre.root_entries()[i]).1.id
                    == pid),
            cache_extends(pre.cache, self.cache),
            self.cache.wf(),
            self.table.wf(),
            self.table.free_view() == pre.table.free_view(),
            self.table.slots_view() == pre.table.slots_view().update(pid as int, new_addr),
            pid != 0,
            self.cache.valid_addr(new_addr),
            new_addr & MEM_DISK_MASK == 0,
            new_addr != 0,
            ({
                let node = self.cache.node_at(new_addr);
                let old_head = pre.cache.node_at(pre.raw_slot(pid));
                &&& node.content is Data
                &&& page_entries(node) == entries
                &&& !node.hdr.is_index_spec()
                &&& node.hdr.kind_spec() == 0
                &&& node.hdr.ver_spec() == old_head.hdr.ver_spec()
                &&& node.hdr.ver_spec() < crate::base::PAGE_VERSION_MAX
                &&& node.hdr.len_spec() == old_head.hdr.len_spec() + 1
                &&& node.hdr.next_spec() == pre.raw_slot(pid)
            }),
            sorted_lt::<Key, Value>(entries),
            dominates(entries, pre.leaf_entries(pid)),
        ensures
            self.wf(),
            self.root_entries() == pre.root_entries(),
            forall|raw: Seq<u8>| self.route(raw) == pre.route(raw),
            self.leaf_entries(pid) == entries + pre.leaf_entries(pid),
            (forall|i: int|
                0 <= i < pre.root_entries().len() && (#[trigger] pre.root_entries()[i]).1.id != pid
                    ==> self.leaf_entries(pre.root_entries()[i].1.id) == pre.leaf_entries(
                    pre.root_entries()[i].1.id,
                )),
    {
        assert(pre.cache.valid_addr(pre.raw_slot(ROOT_ID)));
        let i0 = choose|i: int|
            0 <= i < pre.root_entries().len() && (#[trigger] pre.root_entries()[i]).1.id == pid;
        assert(pre.leaf_ok(pre.root_entries()[i0].1));
        assert(pre.cache.valid_addr(pre.raw_slot(pid)));
        assert(self.raw_slot(ROOT_ID) == pre.raw_slot(ROOT_ID));
        assert(self.root_node() == pre.root_node());
        assert(self.root_entries() == pre.root_entries());
        let old_head_addr = pre.raw_slot(pid);
        let old_len = pre.cache.node_at(old_head_addr).hdr.len_spec() as nat;
        lemma_chain_frame(pre.cache, self.cache, old_head_addr, old_len);
        assert(chain_ok(self.cache, new_addr, old_len + 1));
        assert(chain_entries(self.cache, new_addr, old_len + 1) =~= entries + chain_entries(
            self.cache,
            old_head_addr,
            old_len,
        ));
        assert(leaf_chain_wf(self.cache, new_addr, old_len + 1));
        assert forall|i: int| 0 <= i < self.root_entries().len() implies self.leaf_ok(
            (#[trigger] self.root_entries()[i]).1,
        ) by {
            let idx = pre.root_entries()[i].1;
            assert(pre.leaf_ok(idx));
            if idx.id == pid {
                assert(self.raw_slot(pid) == new_addr);
                assert(self.leaf_ok(idx));
            } else {
                assert(self.raw_slot(idx.id) == pre.raw_slot(idx.id));
                lemma_chain_frame(
                    pre.cache,
                    self.cache,
                    pre.raw_slot(idx.id),
                    pre.cache.node_at(pre.raw_slot(idx.id)).hdr.len_spec() as nat,
                );
                assert(self.leaf_ok(idx));
            }
        }
        assert forall|i: int|
            0 <= i < pre.root_entries().len() && (#[trigger] pre.root_entries()[i]).1.id
                != pid implies self.leaf_entries(pre.root_entries()[i].1.id) == pre.leaf_entries(
            pre.root_entries()[i].1.id,
        ) by {
            let idx = pre.root_entries()[i].1;
            assert(pre.leaf_ok(idx));
            lemma_chain_frame(
                pre.cache,
                self.cache,
                pre.raw_slot(idx.id),
                pre.cache.node_at(pre.raw_slot(idx.id)).hdr.len_spec() as nat,
            );
        }
        assert(self.leaf_entries(pid) =~= entries + pre.leaf_entries(pid));
    }

    /// Installs a one-entry delta at the head of the routed leaf's chain and
    /// consolidates the chain once it grows past the configured length.
    fn try_update(&mut self, key: Key, value: Value) -> (r: Result<(), Error>)
        requires
            old(self).wf(),
            old(self).lsn_fresh(key@.0, key@.1),
        ensures
            final(self).wf(),
            forall|raw: Seq<u8>| final(self).route(raw) == old(self).route(raw),
            match r {
                Ok(()) => final(self).leaf_entries(old(self).route(key@.0).id).to_multiset()
                    == old(self).leaf_entries(old(self).route(key@.0).id).to_multiset().insert(
                    (key@, value@),
                ) && (forall|i: int|
                    0 <= i < old(self).root_entries().len()
                        && (#[trigger] old(self).root_entries()[i]).1.id != old(self).route(
                        key@.0,
                    ).id ==> final(self).leaf_entries(old(self).root_entries()[i].1.id) == old(
                        self,
                    ).leaf_entries(old(self).root_entries()[i].1.id)),
                Err(e) => e is Alloc && (forall|i: int|
                    0 <= i < old(self).root_entries().len() ==> final(self).leaf_entries(
                        (#[trigger] old(self).root_entries()[i]).1.id,
                    ).to_multiset() == old(self).leaf_entries(
                        old(self).root_entries()[i].1.id,
                    ).to_multiset()),
            },
            old(self).update_room(key@.0, value@) ==> r is Ok,
            final(self).arena_len() <= old(self).arena_len() + 3,
            (r is Ok && old(self).leaf_fuel(old(self).route(key@.0).id) < 255
                && old(self).leaf_fuel(old(self).route(key@.0).id) < old(self).delta_threshold()
                ==> final(self).leaf_fuel(old(self).route(key@.0).id)
                == old(self).leaf_fuel(old(self).route(key@.0).id) + 1),
            (r is Ok && old(self).leaf_fuel(old(self).route(key@.0).id) < 255
                && old(self).leaf_fuel(old(self).route(key@.0).id) >= old(self).delta_threshold()
                && old(self).post_update_consolidate_room(key@.0, value@)
                ==> final(self).leaf_fuel(old(self).route(key@.0).id) == 1),
            (forall|raw2: Seq<u8>, lsn2: u64|
                old(self).lsn_fresh(raw2, lsn2) && (raw2 != key@.0 || lsn2 > key@.1)
                    ==> #[trigger] final(self).lsn_fresh(raw2, lsn2)),
            r is Err ==> (forall|raw2: Seq<u8>|
                final(self).leaf_entries(final(self).route(raw2).id).to_multiset() == (
                #[trigger] old(self).leaf_entries(old(self).route(raw2).id)).to_multiset()),
            r is Ok ==> (forall|raw2: Seq<u8>|
                old(self).route(raw2).id != old(self).route(key@.0).id
                    ==> #[trigger] final(self).leaf_entries(old(self).route(raw2).id) == old(
                    self,
                ).leaf_entries(old(self).route(raw2).id)),
    {
        broadcast use vstd::seq_lib::group_to_multiset_ensures;

        let node = match self.try_find_node(&key.raw) {
            Ok(n) => n,
            Err(e) => {
                return Err(Error::Alloc);
            },
        };
        let pid = node.id;
        let ghost p = pid;
        let (mut head_addr, mut head_len) = match &node.view {
            PageView::Mem(ptr, a) => (*a, ptr.len()),
            PageView::Disk(_, _) => {
                proof {
                    assert(false);
                }
                return Err(Error::Alloc);
            },
        };
        let ghost state0 = *self;
        // Never let the chain length outgrow its byte.
        if head_len == u8::MAX {
            match self.try_consolidate_node(pid) {
                Ok(()) => {
                    proof {
                        let i2 = choose|i: int|
                            0 <= i < self.root_entries().len()
                                && (#[trigger] self.root_entries()[i]).1 == state0.route(
                                key@.0,
                            );
                        assert(self.leaf_ok(self.root_entries()[i2].1));
                    }
                    head_addr = self.table.get(pid);
                    head_len = self.cache.node(head_addr).hdr.len();
                },
                Err(e) => {
                    proof {
                        self.lemma_exit_multisets(state0);
                        if old(self).update_room(key@.0, value@) {
                            assert(false);
                        }
                        BTree::lemma_fresh_all(*old(self), *self);
                    }
                    return Err(e);
                },
            }
        }
        let ghost state1 = *self;
        proof {
            assert(state1.wf());
            assert(state1.route(key@.0).id == pid);
            self.lemma_fresh_carries(state0, key@.0, key@.1);
        }
        // Build the one-entry delta.
        let head_ver = self.cache.node(head_addr).hdr.ver();
        let mut delta_iter = crate::iter::OptionIter::<Key, Value>::new(Some((key, value)));
        let ghost entry = ((key@.0, key@.1), value@);
        let mut scratch = crate::pagecache::ScratchAlloc::new();
        let ghost delta_reset = delta_iter.reset_all();
        let buf = match crate::data_page::DataPageBuilder::new().build_from_iter(
            &mut scratch,
            &mut delta_iter,
        ) {
            Ok(b) => b,
            Err(e) => {
                proof {
                    self.lemma_exit_multisets(state0);
                    if old(self).update_room(key@.0, value@) {
                        assert(delta_reset =~= seq![entry]);
                        assert(seq![entry].drop_last() =~= Seq::<
                            ((Seq<u8>, u64), Option<Seq<u8>>),
                        >::empty());
                        assert(crate::data::enc_total::<Key, Value>(
                            Seq::<((Seq<u8>, u64), Option<Seq<u8>>)>::empty(),
                        ) == 0);
                        assert(crate::data::enc_total::<Key, Value>(delta_reset) == 4
                            + <Key as EncSized>::enc_size_view(entry.0)
                            + <Value as EncSized>::enc_size_view(entry.1));
                        assert(<Key as EncSized>::enc_size_view(entry.0)
                            == <Key as EncSized>::enc_size_view((key@.0, 0u64)));
                        assert(false);
                    }
                    BTree::lemma_fresh_all(*old(self), *self);
                }
                return Err(e);
            },
        };
        let mut buf = buf;
        buf.set_ver(head_ver);
        buf.set_len(head_len + 1);
        buf.set_next(head_addr);
        let (hdr, entries) = buf.into_parts();
        let ghost delta_entries = seq_view(entries@);
        let new_node = PageNode { hdr, content: NodeContent::Data(entries) };
        let new_addr = match self.cache.install(new_node) {
            Ok(a) => a,
            Err(e) => {
                proof {
                    self.lemma_exit_multisets(state0);
                    if old(self).update_room(key@.0, value@) {
                        assert(false);
                    }
                    BTree::lemma_fresh_all(*old(self), *self);
                }
                return Err(e);
            },
        };
        match self.table.cas(pid, head_addr, new_addr) {
            Ok(()) => {},
            Err(_) => {
                proof {
                    assert(false);
                }
                return Err(Error::Again);
            },
        }
        proof {
            assert(delta_entries =~= seq![entry]);
            assert(sorted_lt::<Key, Value>(delta_entries));
            assert(dominates(delta_entries, state1.leaf_entries(pid))) by {
                assert forall|i: int, j: int|
                    0 <= i < delta_entries.len() && 0 <= j < state1.leaf_entries(pid).len() && (
                    #[trigger] delta_entries[i]).0.0 == (#[trigger] state1.leaf_entries(
                        pid,
                    )[j]).0.0 implies delta_entries[i].0.1 > state1.leaf_entries(pid)[j].0.1 by {
                }
            }
            self.lemma_after_push(state1, pid, new_addr, delta_entries, );
            vstd::seq_lib::lemma_multiset_commutative(delta_entries, state1.leaf_entries(pid));
            assert(seq![entry].to_multiset() =~= Multiset::empty().insert(entry));
            assert(self.leaf_entries(pid).to_multiset() =~= state1.leaf_entries(
                pid,
            ).to_multiset().insert(entry));
        }
        let ghost state2 = *self;
        self.cache.charge(scratch.bytes());
        proof {
            state2.lemma_state_frame(*self);
        }
        // Consolidate once the delta count reaches the configured length.
        let ghost state3 = *self;
        proof {
            assert(state3.leaf_fuel(p) == head_len + 1);
            if old(self).leaf_fuel(p) < 255 {
                assert(head_len == old(self).leaf_fuel(p));
            }
            if old(self).leaf_fuel(p) < 255 && head_len >= old(self).delta_threshold() && old(
                self,
            ).post_update_consolidate_room(key@.0, value@) {
                // The consolidation about to run has room: the chain is the
                // fresh delta over the untouched old chain.
                assert(state1.leaf_entries(p) == old(self).leaf_entries(p));
                assert(state3.leaf_entries(p) =~= delta_entries + state1.leaf_entries(p));
                crate::data::lemma_enc_total_concat::<Key, Value>(
                    delta_entries,
                    state1.leaf_entries(p),
                );
                assert(seq![entry].drop_last() =~= Seq::<
                    ((Seq<u8>, u64), Option<Seq<u8>>),
                >::empty());
                assert(crate::data::enc_total::<Key, Value>(
                    Seq::<((Seq<u8>, u64), Option<Seq<u8>>)>::empty(),
                ) == 0);
                assert(crate::data::enc_total::<Key, Value>(delta_entries) == 4
                    + <Key as EncSized>::enc_size_view(entry.0) + <Value as EncSized>::enc_size_view(
                    entry.1,
                ));
                assert(<Key as EncSized>::enc_size_view(entry.0) == <Key as EncSized>::enc_size_view(
                    (key@.0, 0u64),
                ));
                assert(state3.consolidate_room(p));
            }
        }
        if head_len >= self.opts.data_delta_length {
            let _ = self.try_consolidate_node(pid);
        }
        proof {
            assert(state3.leaf_entries(p).to_multiset() =~= state1.leaf_entries(
                p,
            ).to_multiset().insert(entry));
            assert(self.leaf_entries(p).to_multiset() =~= old(self).leaf_entries(
                p,
            ).to_multiset().insert(entry));
            assert forall|i: int|
                0 <= i < old(self).root_entries().len()
                    && (#[trigger] old(self).root_entries()[i]).1.id != p implies self.leaf_entries(
                old(self).root_entries()[i].1.id,
            ) == old(self).leaf_entries(old(self).root_entries()[i].1.id) by {
                let idx = old(self).root_entries()[i].1;
                assert(state3.root_entries() == old(self).root_entries());
                assert(state3.root_entries()[i].1 == idx);
                assert(self.leaf_entries(idx.id) == state3.leaf_entries(idx.id));
                assert(state3.leaf_entries(idx.id) == state1.leaf_entries(idx.id));
                assert(state1.leaf_entries(idx.id) == old(self).leaf_entries(idx.id));
            }
            // Chain length afterwards.
            if old(self).leaf_fuel(p) < 255 {
                if old(self).leaf_fuel(p) < old(self).delta_threshold() {
                    assert(self.leaf_fuel(p) == old(self).leaf_fuel(p) + 1);
                } else if old(self).post_update_consolidate_room(key@.0, value@) {
                    assert(self.leaf_fuel(p) == 1);
                }
            }
            // Freshness carries to every key, at strictly newer LSNs for
            // this one.
            BTree::lemma_fresh_after_insert(*old(self), *self, key@.0, key@.1, value@);
            assert forall|raw2: Seq<u8>|
                old(self).route(raw2).id != old(self).route(key@.0).id implies #[trigger] self.leaf_entries(
                old(self).route(raw2).id,
            ) == old(self).leaf_entries(old(self).route(raw2).id) by {
                old(self).lemma_route_is_entry(raw2);
                let i2 = choose|i: int|
                    0 <= i < old(self).root_entries().len() && (#[trigger] old(
                        self,
                    ).root_entries()[i]).1 == old(self).route(raw2);
            }
        }
        Ok(())
    }

    /// A state with the same per-leaf multisets keeps every key equally
    /// fresh.
    proof fn lemma_fresh_carries(&self, pre: BTree, raw: Seq<u8>, lsn: u64)
        requires
            pre.lsn_fresh(raw, lsn),
            pre.route(raw) == self.route(raw),
            self.leaf_entries(self.route(raw).id).to_multiset() == pre.leaf_entries(
                pre.route(raw).id,
            ).to_multiset(),
        ensures
            self.lsn_fresh(raw, lsn),
    {
        broadcast use vstd::seq_lib::group_to_multiset_ensures;

        let p = self.route(raw).id;
        assert forall|i: int|
            0 <= i < self.leaf_entries(p).len() && (#[trigger] self.leaf_entries(p)[i]).0.0
                == raw implies self.leaf_entries(p)[i].0.1 < lsn by {
            let e = self.leaf_entries(p)[i];
            assert(self.leaf_entries(p).contains(e));
            assert(self.leaf_entries(p).to_multiset().count(e) > 0);
            assert(pre.leaf_entries(p).to_multiset().count(e) > 0);
            assert(pre.leaf_entries(p).contains(e));
            let j = choose|j: int| 0 <= j < pre.leaf_entries(p).len() && pre.leaf_entries(p)[j] == e;
        }
    }

    /// On a failure exit the tree reads as before: either nothing moved, or
    /// only a consolidation completed, which preserves every leaf's
    /// multiset.
    proof fn lemma_exit_multisets(&self, pre: BTree)
        requires
            self.wf(),
            pre.wf(),
            self.root_entries() == pre.root_entries(),
            self.table == pre.table && self.cache.pages_view() == pre.cache.pages_view() || (
            forall|i: int|
                0 <= i < pre.root_entries().len() ==> self.leaf_entries(
                    (#[trigger] pre.root_entries()[i]).1.id,
                ).to_multiset() == pre.leaf_entries(pre.root_entries()[i].1.id).to_multiset()),
        ensures
            forall|i: int|
                0 <= i < pre.root_entries().len() ==> self.leaf_entries(
                    (#[trigger] pre.root_entries()[i]).1.id,
                ).to_multiset() == pre.leaf_entries(pre.root_entries()[i].1.id).to_multiset(),
    {
        if self.table == pre.table && self.cache.pages_view() == pre.cache.pages_view() {
            pre.lemma_state_frame(*self);
        }
    }

    /// Applies one mutation, retrying is never needed with every structural
    /// step completed in place.
    fn update(&mut self, key: Key, value: Value) -> (r: Result<(), Error>)
        requires
            old(self).wf(),
            old(self).lsn_fresh(key@.0, key@.1),
        ensures
            final(self).wf(),
            forall|raw: Seq<u8>| final(self).route(raw) == old(self).route(raw),
            match r {
                Ok(()) => final(self).leaf_entries(old(self).route(key@.0).id).to_multiset()
                    == old(self).leaf_entries(old(self).route(key@.0).id).to_multiset().insert(
                    (key@, value@),
                ) && (forall|i: int|
                    0 <= i < old(self).root_entries().len()
                        && (#[trigger] old(self).root_entries()[i]).1.id != old(self).route(
                        key@.0,
                    ).id ==> final(self).leaf_entries(old(self).root_entries()[i].1.id) == old(
                        self,
                    ).leaf_entries(old(self).root_entries()[i].1.id)),
                Err(e) => e is Alloc && (forall|i: int|
                    0 <= i < old(self).root_entries().len() ==> final(self).leaf_entries(
                        (#[trigger] old(self).root_entries()[i]).1.id,
                    ).to_multiset() == old(self).leaf_entries(
                        old(self).root_entries()[i].1.id,
                    ).to_multiset()),
            },
            old(self).update_room(key@.0, value@) ==> r is Ok,
            final(self).arena_len() <= old(self).arena_len() + 3,
            (r is Ok && old(self).leaf_fuel(old(self).route(key@.0).id) < 255
                && old(self).leaf_fuel(old(self).route(key@.0).id) < old(self).delta_threshold()
                ==> final(self).leaf_fuel(old(self).route(key@.0).id)
                == old(self).leaf_fuel(old(self).route(key@.0).id) + 1),
            (r is Ok && old(self).leaf_fuel(old(self).route(key@.0).id) < 255
                && old(self).leaf_fuel(old(self).route(key@.0).id) >= old(self).delta_threshold()
                && old(self).post_update_consolidate_room(key@.0, value@)
                ==> final(self).leaf_fuel(old(self).route(key@.0).id) == 1),
            (forall|raw2: Seq<u8>, lsn2: u64|
                old(self).lsn_fresh(raw2, lsn2) && (raw2 != key@.0 || lsn2 > key@.1)
                    ==> #[trigger] final(self).lsn_fresh(raw2, lsn2)),
            r is Err ==> (forall|raw2: Seq<u8>|
                final(self).leaf_entries(final(self).route(raw2).id).to_multiset() == (
                #[trigger] old(self).leaf_entries(old(self).route(raw2).id)).to_multiset()),
            r is Ok ==> (forall|raw2: Seq<u8>|
                old(self).route(raw2).id != old(self).route(key@.0).id
                    ==> #[trigger] final(self).leaf_entries(old(self).route(raw2).id) == old(
                    self,
                ).leaf_entries(old(self).route(raw2).id)),
    {
        self.try_update(key, value)
    }
}



impl BTree {
    /// Returns the freshest put visible for the key at `lsn`, or nothing on
    /// a tombstone or absence.
    pub fn get(&self, key: &Vec<u8>, lsn: u64, _guard: &EpochGuard) -> (r: Result<
        Option<Vec<u8>>,
        Error,
    >)
        requires
            self.wf(),
        ensures
            match r {
                Ok(v) => match v {
                    Some(b) => visible_is(
                        self.leaf_entries(self.route(key@).id),
                        key@,
                        lsn,
                        Some(Some(b@)),
                    ),
                    None => visible_is(self.leaf_entries(self.route(key@).id), key@, lsn, None)
                        || visible_is(
                        self.leaf_entries(self.route(key@).id),
                        key@,
                        lsn,
                        Some(None),
                    ),
                },
                Err(_) => false,
            },
    {
        let node = match self.try_find_node(key) {
            Ok(n) => n,
            Err(e) => {
                return Err(e);
            },
        };
        self.lookup_value(key, lsn, &node)
    }

    /// Records a put for the key at `lsn`.
    pub fn put(&mut self, key: &Vec<u8>, lsn: u64, value: &Vec<u8>, _guard: &EpochGuard) -> (r:
        Result<(), Error>)
        requires
            old(self).wf(),
            old(self).lsn_fresh(key@, lsn),
        ensures
            final(self).wf(),
            forall|raw: Seq<u8>| final(self).route(raw) == old(self).route(raw),
            match r {
                Ok(()) => final(self).leaf_entries(old(self).route(key@).id).to_multiset() == old(
                    self,
                ).leaf_entries(old(self).route(key@).id).to_multiset().insert(
                    ((key@, lsn), Some(value@)),
                ) && (forall|i: int|
                    0 <= i < old(self).root_entries().len()
                        && (#[trigger] old(self).root_entries()[i]).1.id != old(self).route(
                        key@,
                    ).id ==> final(self).leaf_entries(old(self).root_entries()[i].1.id) == old(
                        self,
                    ).leaf_entries(old(self).root_entries()[i].1.id)),
                Err(e) => e is Alloc && (forall|i: int|
                    0 <= i < old(self).root_entries().len() ==> final(self).leaf_entries(
                        (#[trigger] old(self).root_entries()[i]).1.id,
                    ).to_multiset() == old(self).leaf_entries(
                        old(self).root_entries()[i].1.id,
                    ).to_multiset()),
            },
            old(self).update_room(key@, Some(value@)) ==> r is Ok,
            final(self).arena_len() <= old(self).arena_len() + 3,
            (r is Ok && old(self).leaf_fuel(old(self).route(key@).id) < 255
                && old(self).leaf_fuel(old(self).route(key@).id) < old(self).delta_threshold()
                ==> final(self).leaf_fuel(old(self).route(key@).id)
                == old(self).leaf_fuel(old(self).route(key@).id) + 1),
            (r is Ok && old(self).leaf_fuel(old(self).route(key@).id) < 255
                && old(self).leaf_fuel(old(self).route(key@).id) >= old(self).delta_threshold()
                && old(self).post_update_consolidate_room(key@, Some(value@))
                ==> final(self).leaf_fuel(old(self).route(key@).id) == 1),
            (forall|raw2: Seq<u8>, lsn2: u64|
                old(self).lsn_fresh(raw2, lsn2) && (raw2 != key@ || lsn2 > lsn)
                    ==> #[trigger] final(self).lsn_fresh(raw2, lsn2)),
            r is Err ==> (forall|raw2: Seq<u8>|
                final(self).leaf_entries(final(self).route(raw2).id).to_multiset() == (
                #[trigger] old(self).leaf_entries(old(self).route(raw2).id)).to_multiset()),
            r is Ok ==> (forall|raw2: Seq<u8>|
                old(self).route(raw2).id != old(self).route(key@).id
                    ==> #[trigger] final(self).leaf_entries(old(self).route(raw2).id) == old(
                    self,
                ).leaf_entries(old(self).route(raw2).id)),
    {
        let k = Key::new(dup_bytes(key), lsn);
        let v = Value::Put(dup_bytes(value));
        self.update(k, v)
    }

    /// Records a tombstone for the key at `lsn`.
    pub fn delete(&mut self, key: &Vec<u8>, lsn: u64, _guard: &EpochGuard) -> (r: Result<
        (),
        Error,
    >)
        requires
            old(self).wf(),
            old(self).lsn_fresh(key@, lsn),
        ensures
            final(self).wf(),
            forall|raw: Seq<u8>| final(self).route(raw) == old(self).route(raw),
            match r {
                Ok(()) => final(self).leaf_entries(old(self).route(key@).id).to_multiset() == old(
                    self,
                ).leaf_entries(old(self).route(key@).id).to_multiset().insert(((key@, lsn), None))
                    && (forall|i: int|
                    0 <= i < old(self).root_entries().len()
                        && (#[trigger] old(self).root_entries()[i]).1.id != old(self).route(
                        key@,
                    ).id ==> final(self).leaf_entries(old(self).root_entries()[i].1.id) == old(
                        self,
                    ).leaf_entries(old(self).root_entries()[i].1.id)),
                Err(e) => e is Alloc && (forall|i: int|
                    0 <= i < old(self).root_entries().len() ==> final(self).leaf_entries(
                        (#[trigger] old(self).root_entries()[i]).1.id,
                    ).to_multiset() == old(self).leaf_entries(
                        old(self).root_entries()[i].1.id,
                    ).to_multiset()),
            },
            old(self).update_room(key@, None::<Seq<u8>>) ==> r is Ok,
            final(self).arena_len() <= old(self).arena_len() + 3,
            (r is Ok && old(self).leaf_fuel(old(self).route(key@).id) < 255
                && old(self).leaf_fuel(old(self).route(key@).id) < old(self).delta_threshold()
                ==> final(self).leaf_fuel(old(self).route(key@).id)
                == old(self).leaf_fuel(old(self).route(key@).id) + 1),
            (r is Ok && old(self).leaf_fuel(old(self).route(key@).id) < 255
                && old(self).leaf_fuel(old(self).route(key@).id) >= old(self).delta_threshold()
                && old(self).post_update_consolidate_room(key@, None::<Seq<u8>>)
                ==> final(self).leaf_fuel(old(self).route(key@).id) == 1),
            (forall|raw2: Seq<u8>, lsn2: u64|
                old(self).lsn_fresh(raw2, lsn2) && (raw2 != key@ || lsn2 > lsn)
                    ==> #[trigger] final(self).lsn_fresh(raw2, lsn2)),
            r is Err ==> (forall|raw2: Seq<u8>|
                final(self).leaf_entries(final(self).route(raw2).id).to_multiset() == (
                #[trigger] old(self).leaf_entries(old(self).route(raw2).id)).to_multiset()),
            r is Ok ==> (forall|raw2: Seq<u8>|
                old(self).route(raw2).id != old(self).route(key@).id
                    ==> #[trigger] final(self).leaf_entries(old(self).route(raw2).id) == old(
                    self,
                ).leaf_entries(old(self).route(raw2).id)),
    {
        let k = Key::new(dup_bytes(key), lsn);
        self.update(k, Value::Delete)
    }

    /// The length of a leaf's chain as its head records it.
    pub fn node_chain_len(&self, pid: u64) -> (r: u8)
        requires
            self.wf(),
            (exists|i: int|
                0 <= i < self.root_entries().len() && (#[trigger] self.root_entries()[i]).1.id
                    == pid),
        ensures
            r as nat == self.leaf_fuel(pid),
    {
        proof {
            let i0 = choose|i: int|
                0 <= i < self.root_entries().len() && (#[trigger] self.root_entries()[i]).1.id
                    == pid;
            assert(self.leaf_ok(self.root_entries()[i0].1));
        }
        let addr = self.table.get(pid);
        self.cache.node(addr).hdr.len()
    }

    /// The leaf page id a user key routes to.
    pub fn route_of(&self, key: &Vec<u8>) -> (r: u64)
        requires
            self.wf(),
        ensures
            r == self.route(key@).id,
    {
        let node = match self.try_find_node(key) {
            Ok(n) => n,
            Err(e) => vstd::pervasive::unreached(),
        };
        node.id
    }

    /// Walks an unlinked chain via its own next links and releases its
    /// bytes; the mapping table is never consulted, its slot may already
    /// point elsewhere.
    fn dealloc_page_chain(&mut self, head: u64)
        ensures
            final(self).wf() == old(self).wf(),
            final(self).root_entries() == old(self).root_entries(),
            forall|raw: Seq<u8>| final(self).route(raw) == old(self).route(raw),
            forall|pid: u64| final(self).leaf_entries(pid) == #[trigger] old(self).leaf_entries(
                pid,
            ),
            final(self).pins_of() == old(self).pins_of(),
            final(self).deferred_of() == old(self).deferred_of(),
            final(self).epoch_of() == old(self).epoch_of(),
            final(self).arena_len() == old(self).arena_len(),
    {
        let mut addr = head;
        let mut steps: u8 = if self.cache.is_live(addr) {
            self.cache.node(addr).hdr.len()
        } else {
            0
        };
        while steps > 0 && addr != 0 && self.cache.is_live(addr)
            invariant
                self.table == old(self).table,
                self.cache.pages_view() == old(self).cache.pages_view(),
                self.epochs == old(self).epochs,
            decreases steps,
        {
            let hdr = self.cache.node(addr).hdr.duplicate();
            let next = hdr.next();
            let sz = hdr.size();
            self.cache.discount(sz);
            addr = next;
            steps = steps - 1;
        }
        proof {
            old(self).lemma_state_frame(*self);
        }
    }

    /// Releases what an SMO left half-complete. A traversal that observes a
    /// version mismatch calls this to bring the parent up to date; with
    /// every structural change completed before an operation returns, the
    /// recorded version already matches and there is nothing to install.
    pub fn try_reconcile_node(&self, pid: u64) -> (r: Result<(), Error>)
        requires
            self.wf(),
            (exists|i: int|
                0 <= i < self.root_entries().len() && (#[trigger] self.root_entries()[i]).1.id
                    == pid),
        ensures
            r is Ok,
    {
        proof {
            let i0 = choose|i: int|
                0 <= i < self.root_entries().len() && (#[trigger] self.root_entries()[i]).1.id
                    == pid;
            assert(self.leaf_ok(self.root_entries()[i0].1));
        }
        let root_addr = self.table.get(ROOT_ID);
        let root = self.cache.node(root_addr);
        match &root.content {
            NodeContent::Branch(es) => {
                let mut i: usize = 0;
                while i < es.len()
                    invariant
                        self.wf(),
                        es@ == self.root_node().content->Branch_0@,
                        0 <= i <= es@.len(),
                    decreases es@.len() - i,
                {
                    let e = &es[i];
                    if e.1.id == pid {
                        proof {
                            assert(self.root_entries()[i as int] == (es@[i as int])@);
                            assert(self.root_entries()[i as int].1 == e.1);
                            assert(self.leaf_ok(e.1));
                        }
                        let child_addr = self.page_addr(e.1.id);
                        match self.page_view(child_addr) {
                            Some(view) => {
                                if view.ver().into_u64() == e.1.ver {
                                    return Ok(());
                                } else {
                                    proof {
                                        assert(false);
                                    }
                                    return Err(Error::Again);
                                }
                            },
                            None => {
                                proof {
                                    assert(self.leaf_ok(self.root_entries()[i as int].1));
                                    assert(false);
                                }
                                return Err(Error::Again);
                            },
                        }
                    }
                    i = i + 1;
                }
                Ok(())
            },
            _ => {
                proof {
                    assert(false);
                }
                Err(Error::Again)
            },
        }
    }
}



impl BTree {
    /// Every page's recorded chain length counts exactly the pages
    /// reachable from it through its next links, down to the null
    /// terminator.
    pub proof fn lemma_chain_length(self, pid: u64)
        requires
            self.wf(),
            (exists|i: int|
                0 <= i < self.root_entries().len() && (#[trigger] self.root_entries()[i]).1.id
                    == pid),
        ensures
            self.chain_ok_of(pid),
    {
        let i0 = choose|i: int|
            0 <= i < self.root_entries().len() && (#[trigger] self.root_entries()[i]).1.id == pid;
        assert(self.leaf_ok(self.root_entries()[i0].1));
    }

    /// Every page of every leaf chain keeps its keys strictly ascending
    /// under the key order, and so does the root's separator array.
    pub proof fn lemma_pages_sorted(self, pid: u64)
        requires
            self.wf(),
            (exists|i: int|
                0 <= i < self.root_entries().len() && (#[trigger] self.root_entries()[i]).1.id
                    == pid),
        ensures
            self.leaf_chain_wf_of(pid),
            sorted_lt::<Key, Index>(self.root_entries()),
    {
        let i0 = choose|i: int|
            0 <= i < self.root_entries().len() && (#[trigger] self.root_entries()[i]).1.id == pid;
        assert(self.leaf_ok(self.root_entries()[i0].1));
    }
}

/// A mutation followed by a read of the same key: once the leaf carries the
/// written entry and every older entry for the key is strictly staler, any
/// read at or after the written LSN sees exactly the written payload — the
/// put's bytes, or nothing for a tombstone.
pub proof fn lemma_update_then_get(
    s0: BTree,
    s1: BTree,
    raw: Seq<u8>,
    lsn: u64,
    q: u64,
    val: Option<Seq<u8>>,
)
    requires
        s0.lsn_fresh(raw, lsn),
        s1.route(raw) == s0.route(raw),
        s1.leaf_entries(s1.route(raw).id).to_multiset() == s0.leaf_entries(
            s0.route(raw).id,
        ).to_multiset().insert(((raw, lsn), val)),
        lsn <= q,
    ensures
        visible_is(s1.leaf_entries(s1.route(raw).id), raw, q, Some(val)),
{
    broadcast use vstd::seq_lib::group_to_multiset_ensures;

    let p = s1.route(raw).id;
    let s = s1.leaf_entries(p);
    let s_old = s0.leaf_entries(s0.route(raw).id);
    let e = ((raw, lsn), val);
    assert(s.to_multiset().count(e) > 0) by {
        assert(s.to_multiset().count(e) == s_old.to_multiset().count(e) + 1);
    }
    assert(s.contains(e));
    let wi = choose|i: int| 0 <= i < s.len() && s[i] == e;
    assert forall|j: int|
        0 <= j < s.len() && (#[trigger] s[j]).0.0 == raw && s[j].0.1 <= q implies s[j].0.1
        <= s[wi].0.1 by {
        if s[j] != e {
            assert(s.to_multiset().count(s[j]) > 0);
            assert(s_old.to_multiset().count(s[j]) > 0) by {
                assert(s.to_multiset() == s_old.to_multiset().insert(e));
            }
            assert(s_old.contains(s[j]));
            let k = choose|k: int| 0 <= k < s_old.len() && s_old[k] == s[j];
            assert(s_old[k].0.1 < lsn);
        }
    }
    assert(0 <= wi < s.len() && s[wi].0.0 == raw && s[wi].0.1 <= q && s[wi].1 == val);
}

/// Consolidating a chain preserves every read: with the leaf's entries
/// multiset-equal before and after, the same payload is visible for every
/// key at every LSN.
pub proof fn lemma_consolidation_preserves_reads(
    before: Seq<((Seq<u8>, u64), Option<Seq<u8>>)>,
    after: Seq<((Seq<u8>, u64), Option<Seq<u8>>)>,
    raw: Seq<u8>,
    q: u64,
    r: Option<Option<Seq<u8>>>,
)
    requires
        before.to_multiset() == after.to_multiset(),
    ensures
        visible_is(before, raw, q, r) == visible_is(after, raw, q, r),
{
    broadcast use vstd::seq_lib::group_to_multiset_ensures;

    lemma_visible_transfer(before, after, raw, q, r);
    lemma_visible_transfer(after, before, raw, q, r);
}

proof fn lemma_visible_transfer(
    a: Seq<((Seq<u8>, u64), Option<Seq<u8>>)>,
    b: Seq<((Seq<u8>, u64), Option<Seq<u8>>)>,
    raw: Seq<u8>,
    q: u64,
    r: Option<Option<Seq<u8>>>,
)
    requires
        a.to_multiset() == b.to_multiset(),
    ensures
        visible_is(a, raw, q, r) ==> visible_is(b, raw, q, r),
{
    broadcast use vstd::seq_lib::group_to_multiset_ensures;

    if visible_is(a, raw, q, r) {
        match r {
            Some(val) => {
                let i = choose|i: int|
                    0 <= i < a.len() && (#[trigger] a[i]).0.0 == raw && a[i].0.1 <= q && a[i].1
                        == val && (forall|j: int|
                        0 <= j < a.len() && (#[trigger] a[j]).0.0 == raw && a[j].0.1 <= q
                            ==> a[j].0.1 <= a[i].0.1);
                assert(a.contains(a[i]));
                assert(b.to_multiset().count(a[i]) > 0);
                assert(b.contains(a[i]));
                let m = choose|m: int| 0 <= m < b.len() && b[m] == a[i];
                assert forall|j: int|
                    0 <= j < b.len() && (#[trigger] b[j]).0.0 == raw && b[j].0.1 <= q implies b[j].0.1
                    <= b[m].0.1 by {
                    assert(b.contains(b[j]));
                    assert(a.to_multiset().count(b[j]) > 0);
                    assert(a.contains(b[j]));
                    let k = choose|k: int| 0 <= k < a.len() && a[k] == b[j];
                }
                assert(0 <= m < b.len() && b[m].0.0 == raw && b[m].0.1 <= q && b[m].1 == val);
            },
            None => {
                assert forall|j: int|
                    0 <= j < b.len() implies !((#[trigger] b[j]).0.0 == raw && b[j].0.1 <= q) by {
                    assert(b.contains(b[j]));
                    assert(a.to_multiset().count(b[j]) > 0);
                    assert(a.contains(b[j]));
                    let k = choose|k: int| 0 <= k < a.len() && a[k] == b[j];
                }
            },
        }
    }
}




/// Copies a range of entries out of a page.
fn dup_entry_range(es: &Vec<(Key, Value)>, lo: usize, hi: usize) -> (r: Vec<(Key, Value)>)
    requires
        lo <= hi <= es@.len(),
    ensures
        seq_view(r@) =~= seq_view(es@).subrange(lo as int, hi as int),
{
    let mut out: Vec<(Key, Value)> = Vec::new();
    let mut i: usize = lo;
    while i < hi
        invariant
            lo <= i <= hi <= es@.len(),
            seq_view(out@) =~= seq_view(es@).subrange(lo as int, i as int),
        decreases hi - i,
    {
        let e = &es[i];
        let k = e.0.duplicate();
        let v = crate::data::Duplicable::dup(&e.1);
        out.push((k, v));
        proof {
            assert(seq_view(out@) =~= seq_view(es@).subrange(lo as int, i as int).push(
                (k@, v@),
            ));
            assert(seq_view(es@).subrange(lo as int, i + 1) =~= seq_view(es@).subrange(
                lo as int,
                i as int,
            ).push(seq_view(es@)[i as int]));
        }
        i = i + 1;
    }
    out
}

impl BTree {
    /// The position of the root entry that owns a page id.
    fn find_root_pos(&self, pid: u64) -> (r: Option<usize>)
        requires
            self.wf(),
        ensures
            match r {
                Some(p) => p < self.root_entries().len() && self.root_entries()[p as int].1.id
                    == pid,
                None => forall|i: int|
                    0 <= i < self.root_entries().len() ==> (#[trigger] self.root_entries()[i]).1.id
                        != pid,
            },
    {
        let root_addr = self.table.get(ROOT_ID);
        let root = self.cache.node(root_addr);
        match &root.content {
            NodeContent::Branch(es) => {
                let mut i: usize = 0;
                while i < es.len()
                    invariant
                        self.wf(),
                        es@ == self.root_node().content->Branch_0@,
                        0 <= i <= es@.len(),
                        forall|k2: int|
                            0 <= k2 < i ==> (#[trigger] self.root_entries()[k2]).1.id != pid,
                    decreases es@.len() - i,
                {
                    if es[i].1.id == pid {
                        proof {
                            assert(self.root_entries()[i as int] == (es@[i as int])@);
                        }
                        return Some(i);
                    }
                    proof {
                        assert(self.root_entries()[i as int] == (es@[i as int])@);
                    }
                    i = i + 1;
                }
                None
            },
            _ => {
                proof {
                    assert(false);
                }
                None
            },
        }
    }
}



impl BTree {
    /// Claiming a fresh slot moves no page: routing and every chain stay
    /// put.
    proof fn lemma_slot_grow_frame(self, post: BTree)
        requires
            self.wf(),
            post.cache == self.cache,
            post.table.wf(),
            post.table.free_view().len() == 0,
            self.table.slots_view().len() <= post.table.slots_view().len(),
            forall|i: int|
                0 <= i < self.table.slots_view().len() ==> post.table.slots_view()[i]
                    == #[trigger] self.table.slots_view()[i],
        ensures
            post.wf(),
            post.root_entries() == self.root_entries(),
            forall|raw: Seq<u8>| post.route(raw) == self.route(raw),
            forall|i: int|
                0 <= i < self.root_entries().len() ==> post.leaf_entries(
                    (#[trigger] self.root_entries()[i]).1.id,
                ) == self.leaf_entries(self.root_entries()[i].1.id),
    {
        assert(post.raw_slot(ROOT_ID) == self.raw_slot(ROOT_ID));
        assert(post.root_node() == self.root_node());
        assert(post.root_entries() == self.root_entries());
        assert forall|i: int| 0 <= i < post.root_entries().len() implies post.leaf_ok(
            (#[trigger] post.root_entries()[i]).1,
        ) by {
            let idx = self.root_entries()[i].1;
            assert(self.leaf_ok(idx));
            assert(post.raw_slot(idx.id) == self.raw_slot(idx.id));
        }
        assert forall|i: int|
            0 <= i < self.root_entries().len() implies post.leaf_entries(
            (#[trigger] self.root_entries()[i]).1.id,
        ) == self.leaf_entries(self.root_entries()[i].1.id) by {
            let idx = self.root_entries()[i].1;
            assert(self.leaf_ok(idx));
            assert(post.raw_slot(idx.id) == self.raw_slot(idx.id));
        }
    }

    /// Growing the arena without touching the mapping table changes no
    /// routing and no chain.
    proof fn lemma_extension_frame(self, post: BTree)
        requires
            self.table == post.table,
            cache_extends(self.cache, post.cache),
            post.cache.wf(),
            self.wf(),
        ensures
            post.wf(),
            post.root_entries() == self.root_entries(),
            forall|raw: Seq<u8>| post.route(raw) == self.route(raw),
            forall|i: int|
                0 <= i < self.root_entries().len() ==> post.leaf_entries(
                    (#[trigger] self.root_entries()[i]).1.id,
                ) == self.leaf_entries(self.root_entries()[i].1.id),
    {
        assert(self.cache.valid_addr(self.raw_slot(ROOT_ID)));
        assert(post.root_node() == self.root_node());
        assert(post.root_entries() == self.root_entries());
        assert forall|i: int| 0 <= i < post.root_entries().len() implies post.leaf_ok(
            (#[trigger] post.root_entries()[i]).1,
        ) by {
            let idx = self.root_entries()[i].1;
            assert(self.leaf_ok(idx));
            lemma_chain_frame(
                self.cache,
                post.cache,
                self.raw_slot(idx.id),
                self.cache.node_at(self.raw_slot(idx.id)).hdr.len_spec() as nat,
            );
        }
        assert forall|i: int|
            0 <= i < self.root_entries().len() implies post.leaf_entries(
            (#[trigger] self.root_entries()[i]).1.id,
        ) == self.leaf_entries(self.root_entries()[i].1.id) by {
            let idx = self.root_entries()[i].1;
            assert(self.leaf_ok(idx));
            lemma_chain_frame(
                self.cache,
                post.cache,
                self.raw_slot(idx.id),
                self.cache.node_at(self.raw_slot(idx.id)).hdr.len_spec() as nat,
            );
        }
    }
}

/// The split position: the median, moved forward past any run of one user
/// key's versions; the length when no legal cut exists.
pub open spec fn split_cut(s: Seq<((Seq<u8>, u64), Option<Seq<u8>>)>, m: int) -> int
    decreases s.len() - m,
{
    if m < 1 || m >= s.len() {
        s.len() as int
    } else if s[m].0.0 != s[m - 1].0.0 {
        m
    } else {
        split_cut(s, m + 1)
    }
}

/// Computes the encoded byte size of a page's entries, saturating just past
/// the largest size a page can record.
fn entries_total_size(es: &Vec<(Key, Value)>) -> (r: u64)
    ensures
        crate::data::enc_total::<Key, Value>(seq_view(es@)) <= u32::MAX ==> r as int
            == crate::data::enc_total::<Key, Value>(seq_view(es@)),
        crate::data::enc_total::<Key, Value>(seq_view(es@)) > u32::MAX ==> r > u32::MAX,
{
    broadcast use vstd::seq_lib::group_to_multiset_ensures;

    let mut total: u64 = 0;
    let mut stop = false;
    let mut i: usize = 0;
    proof {
        assert(seq_view(es@).subrange(0, 0) =~= Seq::<((Seq<u8>, u64), Option<Seq<u8>>)>::empty());
    }
    while i < es.len()
        invariant
            0 <= i <= es@.len(),
            !stop ==> total as int == crate::data::enc_total::<Key, Value>(
                seq_view(es@).subrange(0, i as int),
            ) && total <= u32::MAX,
            stop ==> crate::data::enc_total::<Key, Value>(seq_view(es@).subrange(0, i as int))
                > u32::MAX,
        decreases es@.len() - i,
    {
        let ghost prefix = seq_view(es@).subrange(0, i as int);
        let e = &es[i];
        let kn = e.0.enc_size();
        let vn = e.1.enc_size();
        proof {
            assert(seq_view(es@).subrange(0, i + 1) =~= prefix.push(
                (e.0@, e.1@),
            ));
            assert(seq_view(es@).subrange(0, i + 1).drop_last() =~= prefix);
        }
        if stop {
            proof {
                crate::data::lemma_enc_total_monotone::<Key, Value>(
                    prefix,
                    seq_view(es@).subrange(0, i + 1),
                );
                assert(prefix.is_prefix_of(seq_view(es@).subrange(0, i + 1)));
            }
        } else if (total as u128) + 4 + (kn as u128) + (vn as u128) <= u32::MAX as u128 {
            total = total + 4 + kn + vn;
        } else {
            stop = true;
        }
        i = i + 1;
    }
    proof {
        assert(seq_view(es@).subrange(0, es@.len() as int) =~= seq_view(es@));
    }
    if stop {
        u32::MAX as u64 + 1
    } else {
        total
    }
}

/// What a completed split leaves behind: the root carries the split node one
/// version later plus the new separator, the split node's entries are
/// partitioned around the separator between it and the fresh sibling, and
/// every other leaf is untouched.
#[verifier::opaque]
pub open spec fn split_shape(
    pre: BTree,
    post: BTree,
    pid: u64,
    p: int,
    rid: u64,
    middle: Seq<u8>,
) -> bool {
    &&& 0 <= p < pre.root_entries().len()
    &&& pre.root_entries()[p].1.id == pid
    &&& (forall|i: int|
        0 <= i < pre.root_entries().len() ==> (#[trigger] pre.root_entries()[i]).1.id != rid)
    &&& post.root_entries() =~= pre.root_entries().update(
        p,
        (pre.root_entries()[p].0, Index { id: pid, ver: (pre.root_entries()[p].1.ver + 1) as u64 }),
    ).insert(p + 1, ((middle, 0u64), Index { id: rid, ver: 0 }))
    &&& crate::data::lex_lt(pre.root_entries()[p].0.0, middle)
    &&& (p + 1 < pre.root_entries().len() ==> crate::data::lex_lt(
        middle,
        pre.root_entries()[p + 1].0.0,
    ))
    &&& crate::iter::sorted_lt::<Key, Value>(post.leaf_entries(pid))
    &&& crate::iter::sorted_lt::<Key, Value>(post.leaf_entries(rid))
    &&& (post.leaf_entries(pid) + post.leaf_entries(rid)).to_multiset() == pre.leaf_entries(
        pid,
    ).to_multiset()
    &&& (forall|i: int|
        0 <= i < post.leaf_entries(pid).len() ==> crate::data::lex_lt(
            (#[trigger] post.leaf_entries(pid)[i]).0.0,
            middle,
        ))
    &&& (forall|i: int|
        0 <= i < post.leaf_entries(rid).len() ==> !crate::data::lex_lt(
            (#[trigger] post.leaf_entries(rid)[i]).0.0,
            middle,
        ))
    &&& (forall|i: int|
        0 <= i < pre.root_entries().len() && (#[trigger] pre.root_entries()[i]).1.id != pid
            ==> post.leaf_entries(pre.root_entries()[i].1.id) == pre.leaf_entries(
            pre.root_entries()[i].1.id,
        ))
}

impl BTree {
    /// Splits a leaf: its chain is first consolidated to one base, the
    /// upper half of the entries moves to a fresh sibling under a new page
    /// id, the left half is republished one structural version later, and
    /// the root gains the separator. A concurrent engine would post the
    /// split as a delta and let any traversal complete the parent update;
    /// here both steps finish before the call returns, so no half-posted
    /// change is ever observable. The cut never lands inside one user key's
    /// version run, and a leaf too small to cut is left consolidated.
    #[verifier::rlimit(100)]
    #[verifier::spinoff_prover]
    pub fn try_split_node(&mut self, pid: u64) -> (r: Result<(), Error>)
        requires
            old(self).wf(),
            (exists|i: int|
                0 <= i < old(self).root_entries().len() && (#[trigger] old(self).root_entries()[i]).1.id
                    == pid),
        ensures
            final(self).wf(),
            match r {
                Ok(()) => (final(self).root_entries() == old(self).root_entries() && (forall|
                    i: int,
                |
                    0 <= i < old(self).root_entries().len() ==> final(self).leaf_entries(
                        (#[trigger] old(self).root_entries()[i]).1.id,
                    ).to_multiset() == old(self).leaf_entries(
                        old(self).root_entries()[i].1.id,
                    ).to_multiset())) || (exists|p: int, rid: u64, middle: Seq<u8>|
                    split_shape(*old(self), *final(self), pid, p, rid, middle)),
                Err(e) => e is Alloc && (forall|i: int|
                    0 <= i < old(self).root_entries().len() ==> final(self).leaf_entries(
                        (#[trigger] old(self).root_entries()[i]).1.id,
                    ).to_multiset() == old(self).leaf_entries(
                        old(self).root_entries()[i].1.id,
                    ).to_multiset()),
            },
            old(self).split_ready(pid) ==> r is Ok,
            (old(self).split_ready(pid) && r is Ok ==> exists|p: int, rid: u64|
                #[trigger] split_shape(
                    *old(self),
                    *final(self),
                    pid,
                    p,
                    rid,
                    old(self).leaf_entries(pid)[split_cut(
                        old(self).leaf_entries(pid),
                        (old(self).leaf_entries(pid).len() as int + 1) / 2,
                    )].0.0,
                )),
    {
        broadcast use vstd::seq_lib::group_to_multiset_ensures;

        proof {
            let i9 = choose|i: int|
                0 <= i < old(self).root_entries().len() && (#[trigger] old(
                    self,
                ).root_entries()[i]).1.id == pid;
            assert(self.leaf_ok(self.root_entries()[i9].1));
        }
        // A chain of deltas is first consolidated; a lone base is split as
        // it stands.
        let head_addr0 = self.table.get(pid);
        if self.cache.node(head_addr0).hdr.len() != 1 {
            proof {
                if old(self).split_ready(pid) {
                    reveal(BTree::split_ready);
                    assert(false);
                }
            }
            match self.try_consolidate_node(pid) {
                Ok(()) => {},
                Err(e) => {
                    proof {
                        self.lemma_exit_multisets(*old(self));
                    }
                    return Err(e);
                },
            }
        }
        let ghost state1 = *self;
        proof {
            if old(self).split_ready(pid) {
                reveal(BTree::split_ready);
                assert(state1 == *old(self));
            }
            let i9 = choose|i: int|
                0 <= i < old(self).root_entries().len() && (#[trigger] old(
                    self,
                ).root_entries()[i]).1.id == pid;
            assert(self.root_entries()[i9].1.id == pid);
            assert(self.leaf_ok(self.root_entries()[i9].1));
        }
        let head_addr = self.table.get(pid);
        let old_ver = self.cache.node(head_addr).hdr.ver();
        if old_ver.into_u64() >= crate::base::PAGE_VERSION_MAX - 1 {
            proof {
                if old(self).split_ready(pid) {
                reveal(BTree::split_ready);
                    assert(false);
                }
            }
            return Ok(());
        }
        let ghost base_entries = self.leaf_entries(pid);
        let cut = match &self.cache.node(head_addr).content {
            NodeContent::Data(es) => {
                proof {
                    if old(self).split_ready(pid) {
                reveal(BTree::split_ready);
                        assert(base_entries =~= seq_view(es@)) by {
                            assert(self.leaf_fuel(pid) == 1);
                            assert(chain_entries(
                                self.cache,
                                self.cache.node_at(head_addr).hdr.next_spec(),
                                0,
                            ) =~= Seq::<((Seq<u8>, u64), Option<Seq<u8>>)>::empty());
                        }
                    }
                }
                // Only a base that has outgrown the configured byte
                // threshold splits.
                let size = entries_total_size(es);
                if size <= self.opts.data_node_size as u64 {
                    proof {
                        if old(self).split_ready(pid) {
                            reveal(BTree::split_ready);
                            assert(false);
                        }
                    }
                    return Ok(());
                }
                let n = es.len();
                if n < 2 {
                    proof {
                        if old(self).split_ready(pid) {
                            reveal(BTree::split_ready);
                            assert(false);
                        }
                    }
                    return Ok(());
                }
                let mut m: usize = n / 2 + n % 2;
                proof {
                    assert(m as int == (n as int + 1) / 2);
                }
                while m < n && crate::data::bytes_eq(&es[m].0.raw, &es[m - 1].0.raw)
                    invariant
                        1 <= m <= n,
                        n == es@.len(),
                        split_cut(seq_view(es@), (n as int + 1) / 2) == split_cut(
                            seq_view(es@),
                            m as int,
                        ),
                    decreases n - m,
                {
                    proof {
                        assert(seq_view(es@)[m as int].0.0 == es@[m as int].0.raw@);
                        assert(seq_view(es@)[m - 1].0.0 == es@[m - 1].0.raw@);
                    }
                    m = m + 1;
                }
                proof {
                    if m < n {
                        assert(seq_view(es@)[m as int].0.0 != seq_view(es@)[m - 1].0.0);
                        assert(split_cut(seq_view(es@), m as int) == m);
                    } else {
                        assert(split_cut(seq_view(es@), m as int) == n);
                    }
                }
                if m >= n {
                    proof {
                        if old(self).split_ready(pid) {
                            reveal(BTree::split_ready);
                            assert(false);
                        }
                    }
                    return Ok(());
                }
                m
            },
            _ => {
                proof {
                    assert(false);
                }
                return Ok(());
            },
        };
        let (middle, lower, upper) = match &self.cache.node(head_addr).content {
            NodeContent::Data(es) => {
                let middle = dup_bytes(&es[cut].0.raw);
                let lower = dup_entry_range(es, 0, cut);
                let upper = dup_entry_range(es, cut, es.len());
                (middle, lower, upper)
            },
            _ => {
                proof {
                    assert(false);
                }
                return Ok(());
            },
        };
        // The new separator must fall strictly between this node's own
        // separator and the next; anything else leaves the tree as it is.
        let p = match self.find_root_pos(pid) {
            Some(p) => p,
            None => {
                return Ok(());
            },
        };
        let sep_ok = {
            let root = self.cache.node(self.table.get(ROOT_ID));
            match &root.content {
                NodeContent::Branch(rs) => {
                    proof {
                        assert(seq_view(rs@) == self.root_entries());
                    }
                    if p >= rs.len() {
                        false
                    } else {
                        crate::data::bytes_lt(&rs[p].0.raw, &middle) && (p + 1 == rs.len()
                            || crate::data::bytes_lt(&middle, &rs[p + 1].0.raw))
                    }
                },
                _ => false,
            }
        };
        if !sep_ok {
            return Ok(());
        }
        proof {
            // The checks above pin every fact the publication step needs.
            assert(seq_view(self.root_node().content->Branch_0@) == self.root_entries());
            if old(self).split_ready(pid) {
                reveal(BTree::split_ready);
            }
        }
        let ghost pre_state = *old(self);
        let r2 = self.publish_split(
            pid,
            p,
            middle,
            lower,
            upper,
            head_addr,
            old_ver,
            Ghost(pre_state),
            Ghost(cut as int),
        );
        proof {
            if old(self).split_ready(pid) {
                reveal(BTree::split_ready);
                assert(r2 is Ok);
            }
        }
        r2
    }
}



/// What `last_le` finds: the separator at the greatest position at or below
/// the key, or nothing when every separator sits above it.
proof fn lemma_last_le_char(es: Seq<((Seq<u8>, u64), Index)>, raw: Seq<u8>)
    ensures
        match last_le(es, raw) {
            Some(idx) => exists|m: int|
                0 <= m < es.len() && (#[trigger] es[m]).1 == idx && !Key::lt_view(
                    (raw, 0u64),
                    es[m].0,
                ) && (forall|i: int| m < i < es.len() ==> Key::lt_view((raw, 0u64), #[trigger] es[i].0)),
            None => forall|i: int| 0 <= i < es.len() ==> Key::lt_view((raw, 0u64), #[trigger] es[i].0),
        },
    decreases es.len(),
{
    if es.len() > 0 {
        if !Key::lt_view((raw, 0u64), es.last().0) {
            let m = es.len() - 1;
            assert(es[m].1 == es.last().1 && !Key::lt_view((raw, 0u64), es[m].0) && (forall|i: int|
                m < i < es.len() ==> Key::lt_view((raw, 0u64), #[trigger] es[i].0)));
        } else {
            lemma_last_le_char(es.drop_last(), raw);
            let dl = es.drop_last();
            match last_le(dl, raw) {
                Some(idx) => {
                    let m = choose|m: int|
                        0 <= m < dl.len() && (#[trigger] dl[m]).1 == idx && !Key::lt_view(
                            (raw, 0u64),
                            dl[m].0,
                        ) && (forall|i: int|
                            m < i < dl.len() ==> Key::lt_view((raw, 0u64), #[trigger] dl[i].0));
                    assert(es[m] == dl[m]);
                    assert(es[m].1 == idx && !Key::lt_view((raw, 0u64), es[m].0) && (forall|i: int|
                        m < i < es.len() ==> Key::lt_view((raw, 0u64), #[trigger] es[i].0))) by {
                        assert forall|i: int| m < i < es.len() implies Key::lt_view(
                            (raw, 0u64),
                            #[trigger] es[i].0,
                        ) by {
                            if i < es.len() - 1 {
                                assert(es[i] == dl[i]);
                            }
                        }
                    }
                },
                None => {
                    assert forall|i: int| 0 <= i < es.len() implies Key::lt_view(
                        (raw, 0u64),
                        #[trigger] es[i].0,
                    ) by {
                        if i < es.len() - 1 {
                            assert(es[i] == dl[i]);
                        }
                    }
                },
            }
        }
    }
}

/// A lookup skips entries whose user bytes cannot match: prepending them
/// changes nothing it sees.
proof fn lemma_visible_skip_left(
    a: Seq<((Seq<u8>, u64), Option<Seq<u8>>)>,
    b: Seq<((Seq<u8>, u64), Option<Seq<u8>>)>,
    raw: Seq<u8>,
    q: u64,
    rr: Option<Option<Seq<u8>>>,
)
    requires
        forall|i: int| 0 <= i < a.len() ==> (#[trigger] a[i]).0.0 != raw,
    ensures
        visible_is(a + b, raw, q, rr) == visible_is(b, raw, q, rr),
{
    let c = a + b;
    match rr {
        Some(val) => {
            if visible_is(c, raw, q, rr) {
                let i = choose|i: int|
                    0 <= i < c.len() && (#[trigger] c[i]).0.0 == raw && c[i].0.1 <= q && c[i].1
                        == val && (forall|j: int|
                        0 <= j < c.len() && (#[trigger] c[j]).0.0 == raw && c[j].0.1 <= q
                            ==> c[j].0.1 <= c[i].0.1);
                assert(i >= a.len());
                let m = i - a.len();
                assert(b[m] == c[i]);
                assert(0 <= m < b.len() && b[m].0.0 == raw && b[m].0.1 <= q && b[m].1 == val && (
                forall|j: int|
                    0 <= j < b.len() && (#[trigger] b[j]).0.0 == raw && b[j].0.1 <= q ==> b[j].0.1
                        <= b[m].0.1)) by {
                    assert forall|j: int|
                        0 <= j < b.len() && (#[trigger] b[j]).0.0 == raw && b[j].0.1
                            <= q implies b[j].0.1 <= b[m].0.1 by {
                        assert(c[a.len() + j] == b[j]);
                    }
                }
            }
            if visible_is(b, raw, q, rr) {
                let m = choose|m: int|
                    0 <= m < b.len() && (#[trigger] b[m]).0.0 == raw && b[m].0.1 <= q && b[m].1
                        == val && (forall|j: int|
                        0 <= j < b.len() && (#[trigger] b[j]).0.0 == raw && b[j].0.1 <= q
                            ==> b[j].0.1 <= b[m].0.1);
                let i = a.len() + m;
                assert(c[i] == b[m]);
                assert(0 <= i < c.len() && c[i].0.0 == raw && c[i].0.1 <= q && c[i].1 == val && (
                forall|j: int|
                    0 <= j < c.len() && (#[trigger] c[j]).0.0 == raw && c[j].0.1 <= q ==> c[j].0.1
                        <= c[i].0.1)) by {
                    assert forall|j: int|
                        0 <= j < c.len() && (#[trigger] c[j]).0.0 == raw && c[j].0.1
                            <= q implies c[j].0.1 <= c[i].0.1 by {
                        assert(j >= a.len());
                        assert(b[j - a.len()] == c[j]);
                    }
                }
            }
        },
        None => {
            if visible_is(c, raw, q, rr) {
                assert forall|j: int|
                    0 <= j < b.len() implies !((#[trigger] b[j]).0.0 == raw && b[j].0.1 <= q) by {
                    assert(c[a.len() + j] == b[j]);
                }
            }
            if visible_is(b, raw, q, rr) {
                assert forall|j: int|
                    0 <= j < c.len() implies !((#[trigger] c[j]).0.0 == raw && c[j].0.1 <= q) by {
                    if j >= a.len() {
                        assert(b[j - a.len()] == c[j]);
                    }
                }
            }
        },
    }
}

/// The mirror image: appending unmatchable entries changes nothing either.
proof fn lemma_visible_skip_right(
    a: Seq<((Seq<u8>, u64), Option<Seq<u8>>)>,
    b: Seq<((Seq<u8>, u64), Option<Seq<u8>>)>,
    raw: Seq<u8>,
    q: u64,
    rr: Option<Option<Seq<u8>>>,
)
    requires
        forall|i: int| 0 <= i < b.len() ==> (#[trigger] b[i]).0.0 != raw,
    ensures
        visible_is(a + b, raw, q, rr) == visible_is(a, raw, q, rr),
{
    let c = a + b;
    match rr {
        Some(val) => {
            if visible_is(c, raw, q, rr) {
                let i = choose|i: int|
                    0 <= i < c.len() && (#[trigger] c[i]).0.0 == raw && c[i].0.1 <= q && c[i].1
                        == val && (forall|j: int|
                        0 <= j < c.len() && (#[trigger] c[j]).0.0 == raw && c[j].0.1 <= q
                            ==> c[j].0.1 <= c[i].0.1);
                assert(c[i] == if i < a.len() {
                    a[i]
                } else {
                    b[i - a.len()]
                });
                assert(i < a.len());
                assert(0 <= i < a.len() && a[i].0.0 == raw && a[i].0.1 <= q && a[i].1 == val && (
                forall|j: int|
                    0 <= j < a.len() && (#[trigger] a[j]).0.0 == raw && a[j].0.1 <= q ==> a[j].0.1
                        <= a[i].0.1)) by {
                    assert forall|j: int|
                        0 <= j < a.len() && (#[trigger] a[j]).0.0 == raw && a[j].0.1
                            <= q implies a[j].0.1 <= a[i].0.1 by {
                        assert(c[j] == a[j]);
                    }
                }
            }
            if visible_is(a, raw, q, rr) {
                let m = choose|m: int|
                    0 <= m < a.len() && (#[trigger] a[m]).0.0 == raw && a[m].0.1 <= q && a[m].1
                        == val && (forall|j: int|
                        0 <= j < a.len() && (#[trigger] a[j]).0.0 == raw && a[j].0.1 <= q
                            ==> a[j].0.1 <= a[m].0.1);
                assert(c[m] == a[m]);
                assert(0 <= m < c.len() && c[m].0.0 == raw && c[m].0.1 <= q && c[m].1 == val && (
                forall|j: int|
                    0 <= j < c.len() && (#[trigger] c[j]).0.0 == raw && c[j].0.1 <= q ==> c[j].0.1
                        <= c[m].0.1)) by {
                    assert forall|j: int|
                        0 <= j < c.len() && (#[trigger] c[j]).0.0 == raw && c[j].0.1
                            <= q implies c[j].0.1 <= c[m].0.1 by {
                        if j < a.len() {
                            assert(c[j] == a[j]);
                        } else {
                            assert(c[j] == b[j - a.len()]);
                        }
                    }
                }
            }
        },
        None => {
            if visible_is(c, raw, q, rr) {
                assert forall|j: int|
                    0 <= j < a.len() implies !((#[trigger] a[j]).0.0 == raw && a[j].0.1 <= q) by {
                    assert(c[j] == a[j]);
                }
            }
            if visible_is(a, raw, q, rr) {
                assert forall|j: int|
                    0 <= j < c.len() implies !((#[trigger] c[j]).0.0 == raw && c[j].0.1 <= q) by {
                    if j < a.len() {
                        assert(c[j] == a[j]);
                    } else {
                        assert(c[j] == b[j - a.len()]);
                    }
                }
            }
        },
    }
}



/// A split preserves every read: for any key, any LSN and any candidate
/// answer, the value visible through the root after the split is exactly
/// the one visible before it. Keys under the separator keep reading the
/// republished left half, keys at or above it read the new sibling, and
/// every other leaf is untouched.
pub proof fn lemma_split_preserves_reads(
    pre: BTree,
    post: BTree,
    pid: u64,
    p: int,
    rid: u64,
    middle: Seq<u8>,
    raw: Seq<u8>,
    q: u64,
    rr: Option<Option<Seq<u8>>>,
)
    requires
        pre.wf(),
        post.wf(),
        split_shape(pre, post, pid, p, rid, middle),
    ensures
        visible_is(post.leaf_entries(post.route(raw).id), raw, q, rr) == visible_is(
            pre.leaf_entries(pre.route(raw).id),
            raw,
            q,
            rr,
        ),
{
    reveal(split_shape);
    let rsv = pre.root_entries();
    let tgt = post.root_entries();
    let upd = (rsv[p].0, Index { id: pid, ver: (rsv[p].1.ver + 1) as u64 });
    let newe = ((middle, 0u64), Index { id: rid, ver: 0 });
    assert forall|i: int| 0 <= i < tgt.len() implies #[trigger] tgt[i] == (if i < p {
        rsv[i]
    } else if i == p {
        upd
    } else if i == p + 1 {
        newe
    } else {
        rsv[i - 1]
    }) by {
        assert(tgt =~= rsv.update(p, upd).insert(p + 1, newe));
    }
    lemma_last_le_char(rsv, raw);
    if last_le(rsv, raw) is None {
        assert(Key::lt_view((raw, 0u64), rsv[0].0));
        assert(!crate::data::lex_lt(raw, Seq::<u8>::empty()));
        assert(false);
    }
    let m = choose|m: int|
        0 <= m < rsv.len() && (#[trigger] rsv[m]).1 == last_le(rsv, raw)->Some_0 && !Key::lt_view(
            (raw, 0u64),
            rsv[m].0,
        ) && (forall|i: int| m < i < rsv.len() ==> Key::lt_view((raw, 0u64), #[trigger] rsv[i].0));
    assert(pre.route(raw) == rsv[m].1);
    let left = post.leaf_entries(pid);
    let right = post.leaf_entries(rid);
    if m == p {
        lemma_consolidation_preserves_reads(pre.leaf_entries(pid), left + right, raw, q, rr);
        if !crate::data::lex_lt(raw, middle) {
            // Keys at or above the separator route to the sibling.
            assert(!Key::lt_view((raw, 0u64), tgt[p + 1].0));
            assert forall|i: int| p + 1 < i < tgt.len() implies Key::lt_view(
                (raw, 0u64),
                #[trigger] tgt[i].0,
            ) by {
                assert(tgt[i] == rsv[i - 1]);
            }
            lemma_last_le_at(tgt, raw, p + 1);
            assert(post.route(raw) == Index { id: rid, ver: 0 });
            assert forall|i: int| 0 <= i < left.len() implies (#[trigger] left[i]).0.0 != raw by {
                if left[i].0.0 == raw {
                    assert(crate::data::lex_lt(raw, middle));
                }
            }
            lemma_visible_skip_left(left, right, raw, q, rr);
        } else {
            // Keys under the separator keep the split node.
            assert(!Key::lt_view((raw, 0u64), tgt[p].0));
            assert forall|i: int| p < i < tgt.len() implies Key::lt_view(
                (raw, 0u64),
                #[trigger] tgt[i].0,
            ) by {
                if i == p + 1 {
                    assert(tgt[i].0 == (middle, 0u64));
                } else {
                    assert(tgt[i] == rsv[i - 1]);
                }
            }
            lemma_last_le_at(tgt, raw, p);
            assert(post.route(raw) == upd.1);
            assert forall|i: int| 0 <= i < right.len() implies (#[trigger] right[i]).0.0 != raw by {
                if right[i].0.0 == raw {
                    assert(!crate::data::lex_lt(raw, middle));
                }
            }
            lemma_visible_skip_right(left, right, raw, q, rr);
        }
    } else {
        // Any other key keeps its old leaf, whose chain did not move.
        assert(rsv[m].1.id != pid) by {
            if m < p {
                assert(pre.root_entries()[m].1.id != pre.root_entries()[p].1.id);
            } else {
                assert(pre.root_entries()[p].1.id != pre.root_entries()[m].1.id);
            }
        }
        if m < p {
            assert(tgt[m] == rsv[m]);
            assert forall|i: int| m < i < tgt.len() implies Key::lt_view(
                (raw, 0u64),
                #[trigger] tgt[i].0,
            ) by {
                if i < p {
                    assert(tgt[i] == rsv[i]);
                } else if i == p {
                    assert(tgt[i].0 == rsv[p].0);
                } else if i == p + 1 {
                    assert(tgt[i].0 == (middle, 0u64));
                    assert(Key::lt_view((raw, 0u64), rsv[p].0));
                    assert(rsv[p].0.1 == 0);
                    assert(crate::data::lex_lt(raw, rsv[p].0.0));
                    assert(crate::data::lex_lt(rsv[p].0.0, middle));
                    crate::data::lemma_lex_trans(raw, rsv[p].0.0, middle);
                } else {
                    assert(tgt[i] == rsv[i - 1]);
                }
            }
            lemma_last_le_at(tgt, raw, m);
            assert(post.route(raw) == rsv[m].1);
        } else {
            assert(tgt[m + 1] == rsv[m]);
            assert forall|i: int| m + 1 < i < tgt.len() implies Key::lt_view(
                (raw, 0u64),
                #[trigger] tgt[i].0,
            ) by {
                assert(tgt[i] == rsv[i - 1]);
            }
            lemma_last_le_at(tgt, raw, m + 1);
            assert(post.route(raw) == rsv[m].1);
        }
        assert(post.leaf_entries(rsv[m].1.id) == pre.leaf_entries(rsv[m].1.id)) by {
            assert(pre.root_entries()[m].1.id != pid);
        }
    }
}



/// Inserting a separator strictly between its neighbours, after refreshing
/// one child's version, keeps the root's separator array strictly sorted.
proof fn lemma_target_sorted(
    rsv: Seq<((Seq<u8>, u64), Index)>,
    target: Seq<((Seq<u8>, u64), Index)>,
    p: int,
    middle: Seq<u8>,
    newidx: Index,
    nv: int,
)
    requires
        crate::iter::sorted_lt::<Key, Index>(rsv),
        forall|i: int| 0 <= i < rsv.len() ==> (#[trigger] rsv[i]).0.1 == 0,
        0 <= p < rsv.len(),
        crate::data::lex_lt(rsv[p].0.0, middle),
        p + 1 < rsv.len() ==> crate::data::lex_lt(middle, rsv[p + 1].0.0),
        target == rsv.update(p, (rsv[p].0, Index { id: rsv[p].1.id, ver: nv as u64 })).insert(
            p + 1,
            ((middle, 0u64), newidx),
        ),
    ensures
        crate::iter::sorted_lt::<Key, Index>(target),
{
    assert forall|a: int, b: int| 0 <= a < b < target.len() implies Key::lt_view(
        (#[trigger] target[a]).0,
        (#[trigger] target[b]).0,
    ) by {
        let ka = if a <= p {
            a
        } else {
            a - 1
        };
        let kb = if b <= p {
            b
        } else {
            b - 1
        };
        if a != p + 1 && b != p + 1 {
            assert(target[a].0 == rsv[ka].0 && target[b].0 == rsv[kb].0);
            assert(Key::lt_view(rsv[ka].0, rsv[kb].0));
        } else if a == p + 1 {
            assert(target[a].0 == (middle, 0u64));
            assert(target[b].0 == rsv[kb].0);
            assert(kb >= p + 1);
            assert(rsv[kb].0.1 == 0);
            if kb == p + 1 {
                assert(crate::data::lex_lt(middle, rsv[kb].0.0));
            } else {
                assert(Key::lt_view(rsv[p + 1].0, rsv[kb].0));
                assert(crate::data::lex_lt(middle, rsv[p + 1].0.0));
                assert(crate::data::lex_lt(rsv[p + 1].0.0, rsv[kb].0.0) || rsv[p + 1].0.0
                    == rsv[kb].0.0);
                crate::data::lemma_lex_trans(middle, rsv[p + 1].0.0, rsv[kb].0.0);
            }
        } else {
            assert(b == p + 1);
            assert(target[b].0 == (middle, 0u64));
            assert(target[a].0 == rsv[ka].0);
            assert(ka <= p);
            assert(rsv[ka].0.1 == 0);
            if ka == p {
                assert(crate::data::lex_lt(rsv[p].0.0, middle));
            } else {
                assert(Key::lt_view(rsv[ka].0, rsv[p].0));
                assert(crate::data::lex_lt(rsv[ka].0.0, rsv[p].0.0) || rsv[ka].0.0 == rsv[p].0.0);
                assert(crate::data::lex_lt(rsv[p].0.0, middle));
                crate::data::lemma_lex_trans(rsv[ka].0.0, rsv[p].0.0, middle);
            }
        }
    }
}



impl BTree {
    /// The child a key routes to is one of the root's entries, so every
    /// per-entry fact of the other contracts applies to it.
    pub proof fn lemma_route_is_entry(self, raw: Seq<u8>)
        requires
            self.wf(),
        ensures
            exists|i: int|
                0 <= i < self.root_entries().len() && (#[trigger] self.root_entries()[i]).1
                    == self.route(raw),
    {
        let rsv = self.root_entries();
        lemma_last_le_char(rsv, raw);
        if last_le(rsv, raw) is None {
            assert(Key::lt_view((raw, 0u64), rsv[0].0));
            assert(!crate::data::lex_lt(raw, Seq::<u8>::empty()));
            assert(false);
        }
        let m = choose|m: int|
            0 <= m < rsv.len() && (#[trigger] rsv[m]).1 == last_le(rsv, raw)->Some_0
                && !Key::lt_view((raw, 0u64), rsv[m].0) && (forall|i: int|
                m < i < rsv.len() ==> Key::lt_view((raw, 0u64), #[trigger] rsv[i].0));
        assert(rsv[m].1 == self.route(raw));
    }

    /// A leaf's entries carry pairwise distinct (user bytes, LSN) keys, so
    /// the visible entry for any key and LSN is unique.
    pub proof fn lemma_leaf_entries_distinct(self, pid: u64)
        requires
            self.wf(),
            (exists|i: int|
                0 <= i < self.root_entries().len() && (#[trigger] self.root_entries()[i]).1.id
                    == pid),
        ensures
            forall|i: int, j: int|
                0 <= i < j < self.leaf_entries(pid).len() ==> (#[trigger] self.leaf_entries(
                    pid,
                )[i]).0 != (#[trigger] self.leaf_entries(pid)[j]).0,
    {
        let i0 = choose|i: int|
            0 <= i < self.root_entries().len() && (#[trigger] self.root_entries()[i]).1.id == pid;
        assert(self.leaf_ok(self.root_entries()[i0].1));
        lemma_chain_keys_distinct(self.cache, self.raw_slot(pid), self.leaf_fuel(pid));
    }
}



impl BTree {
    /// With routing unchanged and every routed leaf's multiset unchanged,
    /// every key keeps its freshness.
    proof fn lemma_fresh_all(pre: BTree, post: BTree)
        requires
            pre.wf(),
            (forall|raw: Seq<u8>| #[trigger] post.route(raw) == pre.route(raw)),
            (forall|i: int|
                0 <= i < pre.root_entries().len() ==> post.leaf_entries(
                    (#[trigger] pre.root_entries()[i]).1.id,
                ).to_multiset() == pre.leaf_entries(pre.root_entries()[i].1.id).to_multiset()),
        ensures
            forall|raw2: Seq<u8>, lsn2: u64|
                pre.lsn_fresh(raw2, lsn2) ==> #[trigger] post.lsn_fresh(raw2, lsn2),
            forall|raw2: Seq<u8>|
                post.leaf_entries(post.route(raw2).id).to_multiset() == (#[trigger] pre.leaf_entries(
                    pre.route(raw2).id,
                )).to_multiset(),
    {
        assert forall|raw2: Seq<u8>|
            post.leaf_entries(post.route(raw2).id).to_multiset() == (#[trigger] pre.leaf_entries(
                pre.route(raw2).id,
            )).to_multiset() by {
            pre.lemma_route_is_entry(raw2);
            let i2 = choose|i: int|
                0 <= i < pre.root_entries().len() && (#[trigger] pre.root_entries()[i]).1
                    == pre.route(raw2);
            assert(post.leaf_entries(pre.root_entries()[i2].1.id).to_multiset()
                == pre.leaf_entries(pre.root_entries()[i2].1.id).to_multiset());
        }
        assert forall|raw2: Seq<u8>, lsn2: u64|
            pre.lsn_fresh(raw2, lsn2) implies #[trigger] post.lsn_fresh(raw2, lsn2) by {
            post.lemma_fresh_carries(pre, raw2, lsn2);
        }
    }

    /// Inserting a strictly fresher entry for one key keeps every key fresh
    /// at LSNs beyond it.
    proof fn lemma_fresh_after_insert(
        pre: BTree,
        post: BTree,
        keyraw: Seq<u8>,
        lsn: u64,
        val: Option<Seq<u8>>,
    )
        requires
            pre.wf(),
            (forall|raw: Seq<u8>| #[trigger] post.route(raw) == pre.route(raw)),
            post.leaf_entries(pre.route(keyraw).id).to_multiset() == pre.leaf_entries(
                pre.route(keyraw).id,
            ).to_multiset().insert(((keyraw, lsn), val)),
            (forall|i: int|
                0 <= i < pre.root_entries().len() && (#[trigger] pre.root_entries()[i]).1.id
                    != pre.route(keyraw).id ==> post.leaf_entries(pre.root_entries()[i].1.id)
                    == pre.leaf_entries(pre.root_entries()[i].1.id)),
        ensures
            forall|raw2: Seq<u8>, lsn2: u64|
                pre.lsn_fresh(raw2, lsn2) && (raw2 != keyraw || lsn2 > lsn)
                    ==> #[trigger] post.lsn_fresh(raw2, lsn2),
    {
        broadcast use vstd::seq_lib::group_to_multiset_ensures;

        let p = pre.route(keyraw).id;
        let e = ((keyraw, lsn), val);
        assert forall|raw2: Seq<u8>, lsn2: u64|
            pre.lsn_fresh(raw2, lsn2) && (raw2 != keyraw || lsn2 > lsn) implies #[trigger] post.lsn_fresh(
            raw2,
            lsn2,
        ) by {
            let p2 = pre.route(raw2).id;
            if p2 == p {
                let s = post.leaf_entries(p2);
                let s0 = pre.leaf_entries(p2);
                assert forall|i: int|
                    0 <= i < s.len() && (#[trigger] s[i]).0.0 == raw2 implies s[i].0.1 < lsn2 by {
                    assert(s.contains(s[i]));
                    assert(s.to_multiset().count(s[i]) > 0);
                    if s[i] == e {
                        assert(raw2 == keyraw);
                    } else {
                        assert(s0.to_multiset().count(s[i]) > 0) by {
                            assert(s.to_multiset() == s0.to_multiset().insert(e));
                        }
                        assert(s0.contains(s[i]));
                        let j = choose|j: int| 0 <= j < s0.len() && s0[j] == s[i];
                        assert(s0[j].0.1 < lsn2);
                    }
                }
            } else {
                pre.lemma_route_is_entry(raw2);
                let i2 = choose|i: int|
                    0 <= i < pre.root_entries().len() && (#[trigger] pre.root_entries()[i]).1
                        == pre.route(raw2);
                assert(post.leaf_entries(p2) == pre.leaf_entries(p2));
            }
        }
    }
}



/// Cutting a sorted base between two distinct user keys leaves both halves
/// sorted, the lower strictly under the separator and the upper at or
/// above it.
proof fn lemma_split_halves(
    bsv: Seq<((Seq<u8>, u64), Option<Seq<u8>>)>,
    cut: int,
    middle: Seq<u8>,
    lsv: Seq<((Seq<u8>, u64), Option<Seq<u8>>)>,
    usv: Seq<((Seq<u8>, u64), Option<Seq<u8>>)>,
)
    requires
        sorted_lt::<Key, Value>(bsv),
        1 <= cut < bsv.len(),
        middle == bsv[cut].0.0,
        bsv[cut].0.0 != bsv[cut - 1].0.0,
        lsv == bsv.subrange(0, cut),
        usv == bsv.subrange(cut, bsv.len() as int),
    ensures
        forall|i: int| 0 <= i < lsv.len() ==> crate::data::lex_lt((#[trigger] lsv[i]).0.0, middle),
        forall|i: int|
            0 <= i < usv.len() ==> !crate::data::lex_lt((#[trigger] usv[i]).0.0, middle),
        sorted_lt::<Key, Value>(lsv),
        sorted_lt::<Key, Value>(usv),
{
    assert forall|i: int| 0 <= i < lsv.len() implies crate::data::lex_lt(
        (#[trigger] lsv[i]).0.0,
        middle,
    ) by {
        assert(lsv[i] == bsv[i]);
        if i < cut - 1 {
            assert(Key::lt_view(bsv[i].0, bsv[cut - 1].0));
            assert(Key::lt_view(bsv[cut - 1].0, bsv[cut].0));
            if bsv[i].0.0 == bsv[cut - 1].0.0 {
                assert(crate::data::lex_lt(bsv[cut - 1].0.0, middle));
            } else {
                assert(crate::data::lex_lt(bsv[i].0.0, bsv[cut - 1].0.0));
                assert(crate::data::lex_lt(bsv[cut - 1].0.0, middle));
                crate::data::lemma_lex_trans(bsv[i].0.0, bsv[cut - 1].0.0, middle);
            }
        } else {
            assert(i == cut - 1);
            assert(Key::lt_view(bsv[cut - 1].0, bsv[cut].0));
        }
    }
    assert forall|i: int| 0 <= i < usv.len() implies !crate::data::lex_lt(
        (#[trigger] usv[i]).0.0,
        middle,
    ) by {
        assert(usv[i] == bsv[cut + i]);
        crate::data::lemma_lex_asym(middle, middle);
        if i > 0 {
            assert(Key::lt_view(bsv[cut].0, bsv[cut + i].0));
            if crate::data::lex_lt(bsv[cut + i].0.0, middle) {
                crate::data::lemma_lex_asym(middle, bsv[cut + i].0.0);
                crate::data::lemma_lex_trans(bsv[cut + i].0.0, middle, bsv[cut + i].0.0);
            }
        }
    }
    assert forall|a: int, b: int| 0 <= a < b < lsv.len() implies Key::lt_view(
        (#[trigger] lsv[a]).0,
        (#[trigger] lsv[b]).0,
    ) by {
        assert(lsv[a] == bsv[a] && lsv[b] == bsv[b]);
    }
    assert forall|a: int, b: int| 0 <= a < b < usv.len() implies Key::lt_view(
        (#[trigger] usv[a]).0,
        (#[trigger] usv[b]).0,
    ) by {
        assert(usv[a] == bsv[cut + a] && usv[b] == bsv[cut + b]);
    }
}



impl BTree {
    /// Publishes a split the caller has fully prepared: the sibling under a
    /// fresh id, the left half one version later, and the root's new
    /// separator, each page installed before any slot moves. `pre` is the
    /// state whose reads the shape is stated against.
    #[verifier::rlimit(100)]
    #[verifier::spinoff_prover]
    fn publish_split(
        &mut self,
        pid: u64,
        p: usize,
        middle: Vec<u8>,
        lower: Vec<(Key, Value)>,
        upper: Vec<(Key, Value)>,
        head_addr: u64,
        old_ver: crate::base::PageVer,
        Ghost(pre): Ghost<BTree>,
        Ghost(cut): Ghost<int>,
    ) -> (r: Result<(), Error>)
        requires
            old(self).wf(),
            pre.wf(),
            pre.root_entries() == old(self).root_entries(),
            (exists|i: int|
                0 <= i < pre.root_entries().len() && (#[trigger] pre.root_entries()[i]).1.id
                    == pid),
            (forall|i: int|
                0 <= i < pre.root_entries().len() ==> old(self).leaf_entries(
                    (#[trigger] pre.root_entries()[i]).1.id,
                ).to_multiset() == pre.leaf_entries(pre.root_entries()[i].1.id).to_multiset()),
            (forall|i: int|
                0 <= i < pre.root_entries().len() && (#[trigger] pre.root_entries()[i]).1.id != pid
                    ==> old(self).leaf_entries(pre.root_entries()[i].1.id) == pre.leaf_entries(
                    pre.root_entries()[i].1.id,
                )),
            (p as int) < old(self).root_entries().len(),
            old(self).root_entries()[p as int].1.id == pid,
            head_addr == old(self).raw_slot(pid),
            old(self).leaf_fuel(pid) == 1,
            old_ver.value() == old(self).cache.node_at(head_addr).hdr.ver_spec(),
            old_ver.value() < crate::base::PAGE_VERSION_MAX - 1,
            1 <= cut < old(self).leaf_entries(pid).len(),
            seq_view(lower@) == old(self).leaf_entries(pid).subrange(0, cut),
            seq_view(upper@) == old(self).leaf_entries(pid).subrange(
                cut,
                old(self).leaf_entries(pid).len() as int,
            ),
            middle@ == old(self).leaf_entries(pid)[cut].0.0,
            old(self).leaf_entries(pid)[cut].0.0 != old(self).leaf_entries(pid)[cut - 1].0.0,
            crate::data::lex_lt(old(self).root_entries()[p as int].0.0, middle@),
            (p + 1 == old(self).root_entries().len() || crate::data::lex_lt(
                middle@,
                old(self).root_entries()[p + 1].0.0,
            )),
        ensures
            final(self).wf(),
            match r {
                Ok(()) => exists|rid: u64|
                    #[trigger] split_shape(pre, *final(self), pid, p as int, rid, middle@),
                Err(e) => e is Alloc && (forall|i: int|
                    0 <= i < pre.root_entries().len() ==> final(self).leaf_entries(
                        (#[trigger] pre.root_entries()[i]).1.id,
                    ).to_multiset() == pre.leaf_entries(
                        pre.root_entries()[i].1.id,
                    ).to_multiset()),
            },
            (old(self).arena_len() + 3 < crate::pagecache::CACHE_MAX_PAGES - 1 && old(
                self,
            ).table.slots_view().len() < u64::MAX ==> r is Ok),
    {
        broadcast use vstd::seq_lib::group_to_multiset_ensures;

        let ghost state1 = *old(self);
        let ghost base_entries = old(self).leaf_entries(pid);
        proof {
            let i9 = choose|i: int|
                0 <= i < pre.root_entries().len() && (#[trigger] pre.root_entries()[i]).1.id
                    == pid;
            assert(self.leaf_ok(self.root_entries()[p as int].1));
        }
        proof {
            assert(old_ver.value() < crate::base::PAGE_VERSION_MAX);
            assert(seq_view(self.root_node().content->Branch_0@) == self.root_entries());
            assert((p as int) < self.root_entries().len());
        }
        // Claim a fresh page id for the sibling.
        let rid = match self.table.alloc_pid() {
            Some(fresh) => fresh,
            None => {
                proof {
                    assert forall|i: int|
                        0 <= i < pre.root_entries().len() implies self.leaf_entries(
                        (#[trigger] pre.root_entries()[i]).1.id,
                    ).to_multiset() == pre.leaf_entries(
                        pre.root_entries()[i].1.id,
                    ).to_multiset() by {}
                    if old(self).arena_len() + 3 < crate::pagecache::CACHE_MAX_PAGES - 1 && old(
                        self,
                    ).table.slots_view().len() < u64::MAX {
                        assert(false);
                    }
                }
                return Err(Error::Alloc);
            },
        };
        let ghost state2 = *self;
        proof {
            state1.lemma_slot_grow_frame(*self);
        }
        // Build all three replacement pages before touching any slot, so a
        // refused allocation leaves the tree untouched.
        let mut right_hdr = PagePtr::new();
        right_hdr.set_len(1);
        let right_node = PageNode { hdr: right_hdr, content: NodeContent::Data(upper) };
        let addr_r = match self.cache.install(right_node) {
            Ok(a) => a,
            Err(e) => {
                proof {
                    state2.lemma_extension_frame(*self);
                    assert forall|i: int|
                        0 <= i < pre.root_entries().len() implies self.leaf_entries(
                        (#[trigger] pre.root_entries()[i]).1.id,
                    ).to_multiset() == pre.leaf_entries(
                        pre.root_entries()[i].1.id,
                    ).to_multiset() by {}
                    if old(self).arena_len() + 3 < crate::pagecache::CACHE_MAX_PAGES - 1 && old(
                        self,
                    ).table.slots_view().len() < u64::MAX {
                        assert(false);
                    }
                }
                return Err(e);
            },
        };
        let mut left_hdr = PagePtr::new();
        left_hdr.set_len(1);
        left_hdr.set_ver(old_ver.next());
        let left_node = PageNode { hdr: left_hdr, content: NodeContent::Data(lower) };
        let addr_l = match self.cache.install(left_node) {
            Ok(a) => a,
            Err(e) => {
                proof {
                    state2.lemma_extension_frame(*self);
                    assert forall|i: int|
                        0 <= i < pre.root_entries().len() implies self.leaf_entries(
                        (#[trigger] pre.root_entries()[i]).1.id,
                    ).to_multiset() == pre.leaf_entries(
                        pre.root_entries()[i].1.id,
                    ).to_multiset() by {}
                    if old(self).arena_len() + 3 < crate::pagecache::CACHE_MAX_PAGES - 1 && old(
                        self,
                    ).table.slots_view().len() < u64::MAX {
                        assert(false);
                    }
                }
                return Err(e);
            },
        };
        let ghost state4 = *self;
        proof {
            state2.lemma_extension_frame(*self);
        }
        let old_root_addr = self.table.get(ROOT_ID);
        let ghost rsv = self.root_entries();
        let ghost nv = old_ver.value() + 1;
        let ghost target = rsv.update(
            p as int,
            (rsv[p as int].0, Index { id: pid, ver: nv as u64 }),
        ).insert(p + 1, ((middle@, 0u64), Index { id: rid, ver: 0 }));
        let new_children = {
            let root = self.cache.node(old_root_addr);
            match &root.content {
                NodeContent::Branch(rs) => {
                    proof {
                        assert(seq_view(rs@) == rsv);
                    }
                    let mut nc: Vec<(Key, Index)> = Vec::new();
                    let mut j: usize = 0;
                    while j < rs.len()
                        invariant
                            0 <= j <= rs@.len(),
                            0 <= p < rs@.len(),
                            seq_view(rs@) == rsv,
                            rsv == state4.root_entries(),
                            state4.wf(),
                            pid == state4.root_entries()[p as int].1.id,
                            old_ver.value() < crate::base::PAGE_VERSION_MAX - 1,
                            nv == old_ver.value() + 1,
                            target == rsv.update(
                                p as int,
                                (rsv[p as int].0, Index { id: pid, ver: nv as u64 }),
                            ).insert(p + 1, ((middle@, 0u64), Index { id: rid, ver: 0 })),
                            target.len() == rsv.len() + 1,
                            j <= p ==> seq_view(nc@) =~= target.subrange(0, j as int),
                            j > p ==> seq_view(nc@) =~= target.subrange(0, j + 1),
                        decreases rs@.len() - j,
                    {
                        let ghost nc_pre = seq_view(nc@);
                        proof {
                            if j != p {
                                assert(rsv[j as int].1.id != pid) by {
                                    if j < p {
                                        assert(state4.root_entries()[j as int].1.id
                                            != state4.root_entries()[p as int].1.id);
                                    } else {
                                        assert(state4.root_entries()[p as int].1.id
                                            != state4.root_entries()[j as int].1.id);
                                    }
                                }
                            }
                        }
                        let e = &rs[j];
                        let kdup = e.0.duplicate();
                        if e.1.id == pid {
                            nc.push((kdup, Index { id: pid, ver: old_ver.next().into_u64() }));
                        } else {
                            nc.push((kdup, e.1));
                        }
                        proof {
                            assert(seq_view(nc@) =~= nc_pre.push(
                                if rsv[j as int].1.id == pid {
                                    (rsv[j as int].0, Index { id: pid, ver: nv as u64 })
                                } else {
                                    rsv[j as int]
                                },
                            ));
                            if j < p {
                                assert(target[j as int] == rsv[j as int]);
                                assert(seq_view(nc@) =~= target.subrange(0, j + 1));
                            } else if j == p {
                                assert(target[j as int] == (
                                    rsv[p as int].0,
                                    Index { id: pid, ver: nv as u64 },
                                ));
                            } else {
                                assert(target[j + 1] == rsv[j as int]);
                            }
                        }
                        if j == p {
                            nc.push((Key::new(dup_bytes(&middle), 0), Index { id: rid, ver: 0 }));
                            proof {
                                assert(target[p + 1] == ((middle@, 0u64), Index {
                                    id: rid,
                                    ver: 0,
                                }));
                                assert(seq_view(nc@) =~= target.subrange(0, p + 2));
                            }
                        }
                        j = j + 1;
                        proof {
                            if j > p {
                                assert(seq_view(nc@) =~= target.subrange(0, j + 1));
                            }
                        }
                    }
                    proof {
                        assert(seq_view(nc@) =~= target);
                    }
                    nc
                },
                _ => {
                    proof {
                        assert(false);
                    }
                    Vec::new()
                },
            }
        };
        let mut root_hdr = PagePtr::new();
        root_hdr.set_len(1);
        root_hdr.set_index(true);
        let new_root = PageNode { hdr: root_hdr, content: NodeContent::Branch(new_children) };
        let addr_root = match self.cache.install(new_root) {
            Ok(a) => a,
            Err(e) => {
                proof {
                    state2.lemma_extension_frame(*self);
                    assert forall|i: int|
                        0 <= i < pre.root_entries().len() implies self.leaf_entries(
                        (#[trigger] pre.root_entries()[i]).1.id,
                    ).to_multiset() == pre.leaf_entries(
                        pre.root_entries()[i].1.id,
                    ).to_multiset() by {}
                    if old(self).arena_len() + 3 < crate::pagecache::CACHE_MAX_PAGES - 1 && old(
                        self,
                    ).table.slots_view().len() < u64::MAX {
                        assert(false);
                    }
                }
                return Err(e);
            },
        };
        // Swing the three slots; nothing can fail from here on.
        self.table.set(rid, addr_r);
        match self.table.cas(pid, head_addr, addr_l) {
            Ok(()) => {},
            Err(_) => {
                proof {
                    assert(false);
                }
                return Err(Error::Alloc);
            },
        }
        match self.table.cas(ROOT_ID, old_root_addr, addr_root) {
            Ok(()) => {},
            Err(_) => {
                proof {
                    assert(false);
                }
                return Err(Error::Alloc);
            },
        }
        self.epochs.defer_chain(head_addr);
        self.epochs.defer_chain(old_root_addr);
        proof {
            broadcast use vstd::seq_lib::group_to_multiset_ensures;

            let f = *self;
            let base_page = state1.cache.node_at(head_addr);
            assert(pre.root_entries()[p as int].1.id == pid);
            assert(state1.leaf_entries(pid).to_multiset() == pre.leaf_entries(pid).to_multiset());
            let bsv = page_entries(base_page);
            // The consolidated leaf was a single base page, so its chain
            // entries are its page entries.
            assert(state1.leaf_fuel(pid) == 1);
            assert(chain_entries(state1.cache, 0, 0) =~= Seq::<
                ((Seq<u8>, u64), Option<Seq<u8>>),
            >::empty());
            assert(base_entries =~= bsv);
            assert(crate::iter::sorted_lt::<Key, Value>(bsv));
            let lsv = seq_view(lower@);
            let usv = seq_view(upper@);
            assert(lsv =~= bsv.subrange(0, cut as int));
            assert(usv =~= bsv.subrange(cut as int, bsv.len() as int));
            assert(middle@ == bsv[cut as int].0.0);
            assert(!(bsv[cut as int].0.0 == bsv[cut - 1].0.0));
            lemma_split_halves(bsv, cut as int, middle@, lsv, usv);
            // The final slots: the sibling, the republished left half, and
            // the new root.
            assert(f.cache == self.cache);
            assert(f.raw_slot(rid) == addr_r);
            assert(f.raw_slot(pid) == addr_l);
            assert(f.raw_slot(ROOT_ID) == addr_root);
            assert(f.root_node() == self.cache.node_at(addr_root));
            assert(f.root_entries() =~= target);
            assert(rsv == state1.root_entries());
            assert(pre.root_entries() == rsv);
            // Fresh id: above every id the old root carries.
            assert(rid == state1.table.slots_view().len());
            assert(rid >= 2) by {
                assert(state1.leaf_ok(state1.root_entries()[p as int].1));
            }
            assert forall|i: int| 0 <= i < rsv.len() implies (#[trigger] rsv[i]).1.id != rid by {
                assert(state1.leaf_ok(state1.root_entries()[i].1));
            }
            // Root separators keep their strict order with the new one
            // between its neighbours.
            assert(crate::iter::sorted_lt::<Key, Index>(rsv));
            assert forall|i: int| 0 <= i < rsv.len() implies (#[trigger] rsv[i]).0.1 == 0 by {}
            lemma_target_sorted(rsv, target, p as int, middle@, Index { id: rid, ver: 0 }, nv);
            assert(crate::iter::sorted_lt::<Key, Index>(target));
            // The new leaves are well-formed single-page chains.
            assert(chain_ok(f.cache, 0, 0) && leaf_chain_wf(f.cache, 0, 0));
            assert(chain_entries(f.cache, 0, 0) =~= Seq::<
                ((Seq<u8>, u64), Option<Seq<u8>>),
            >::empty());
            assert(f.cache.node_at(addr_l).hdr.len_spec() == 1);
            assert(chain_ok(f.cache, addr_l, 1) && chain_ok(f.cache, addr_r, 1));
            assert(page_entries(f.cache.node_at(addr_l)) == lsv);
            assert(page_entries(f.cache.node_at(addr_r)) == usv);
            assert(dominates(lsv, Seq::empty()) && dominates(usv, Seq::empty()));
            assert(leaf_chain_wf(f.cache, addr_l, 1) && leaf_chain_wf(f.cache, addr_r, 1));
            assert(chain_entries(f.cache, addr_l, 1) =~= lsv);
            assert(chain_entries(f.cache, addr_r, 1) =~= usv);
            assert(f.leaf_entries(pid) == lsv && f.leaf_fuel(pid) == 1);
            assert(f.leaf_entries(rid) == usv && f.leaf_fuel(rid) == 1);
            // Well-formedness of the whole tree.
            assert(target[0].0.0 == rsv[0].0.0);
            assert forall|i: int| 0 <= i < target.len() implies (#[trigger] target[i]).0.1
                == 0 by {
                if i < p + 1 {
                    assert(target[i].0 == rsv[i].0);
                } else if i > p + 1 {
                    assert(target[i].0 == rsv[i - 1].0);
                }
            }
            assert forall|i: int, j: int|
                0 <= i < j < target.len() implies (#[trigger] target[i]).1.id != (
            #[trigger] target[j]).1.id by {
                let ki = if i <= p {
                    i
                } else {
                    i - 1
                };
                let kj = if j <= p {
                    j
                } else {
                    j - 1
                };
                if i != p + 1 && j != p + 1 {
                    assert(target[i].1.id == rsv[ki].1.id && target[j].1.id == rsv[kj].1.id);
                } else if i == p + 1 {
                    assert(target[i].1.id == rid && target[j].1.id == rsv[kj].1.id);
                } else {
                    assert(target[j].1.id == rid && target[i].1.id == rsv[ki].1.id);
                }
            }
            assert forall|i: int| 0 <= i < target.len() implies f.leaf_ok(
                (#[trigger] target[i]).1,
            ) by {
                if i == p + 1 {
                    assert(target[i].1 == Index { id: rid, ver: 0 });
                    assert(f.cache.node_at(addr_r).hdr.ver_spec() == 0);
                    assert(f.leaf_ok(Index { id: rid, ver: 0 }));
                } else {
                    let ki = if i <= p {
                        i
                    } else {
                        i - 1
                    };
                    if ki == p {
                        assert(target[i].1 == Index { id: pid, ver: nv as u64 });
                        assert(f.cache.node_at(addr_l).hdr.ver_spec() == nv);
                        assert(f.leaf_ok(Index { id: pid, ver: nv as u64 }));
                    } else {
                        assert(target[i].1 == rsv[ki].1);
                        let idx = rsv[ki].1;
                        assert(state1.leaf_ok(idx));
                        assert(idx.id != pid) by {
                            if ki < p {
                                assert(state1.root_entries()[ki].1.id
                                    != state1.root_entries()[p as int].1.id);
                            } else {
                                assert(state1.root_entries()[p as int].1.id
                                    != state1.root_entries()[ki].1.id);
                            }
                        }
                        assert(idx.id != rid && idx.id != 0);
                        assert(f.raw_slot(idx.id) == state1.raw_slot(idx.id));
                        lemma_chain_frame(
                            state1.cache,
                            f.cache,
                            state1.raw_slot(idx.id),
                            state1.cache.node_at(state1.raw_slot(idx.id)).hdr.len_spec() as nat,
                        );
                        assert(f.leaf_ok(idx));
                    }
                }
            }
            assert(f.wf());
            // The split's shape against the state the caller handed in.
            assert(nv == rsv[p as int].1.ver + 1) by {
                assert(state1.leaf_ok(state1.root_entries()[p as int].1));
            }
            assert((f.leaf_entries(pid) + f.leaf_entries(rid)).to_multiset() == pre.leaf_entries(
                pid,
            ).to_multiset()) by {
                assert(lsv + usv =~= bsv);
                assert(state1.leaf_entries(pid) == base_entries);
                assert(state1.leaf_entries(pid).to_multiset() == pre.leaf_entries(
                    pid,
                ).to_multiset());
            }
            assert forall|i: int|
                0 <= i < pre.root_entries().len() && (#[trigger] pre.root_entries()[i]).1.id
                    != pid implies f.leaf_entries(pre.root_entries()[i].1.id) == pre.leaf_entries(
                pre.root_entries()[i].1.id,
            ) by {
                let idx = pre.root_entries()[i].1;
                assert(state1.leaf_ok(idx));
                assert(state1.leaf_entries(idx.id) == pre.leaf_entries(idx.id));
                assert(idx.id != rid && idx.id != 0 && idx.id != pid);
                assert(f.raw_slot(idx.id) == state1.raw_slot(idx.id));
                lemma_chain_frame(
                    state1.cache,
                    f.cache,
                    state1.raw_slot(idx.id),
                    state1.cache.node_at(state1.raw_slot(idx.id)).hdr.len_spec() as nat,
                );
            }
            assert(f.root_entries() =~= pre.root_entries().update(
                p as int,
                (
                    pre.root_entries()[p as int].0,
                    Index { id: pid, ver: (pre.root_entries()[p as int].1.ver + 1) as u64 },
                ),
            ).insert(p + 1, ((middle@, 0u64), Index { id: rid, ver: 0 })));
            reveal(split_shape);
            assert(split_shape(pre, f, pid, p as int, rid, middle@));
        }
        Ok(())
    }

}

} // verus!
