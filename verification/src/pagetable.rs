//! The mapping table: a dense array of 64-bit slots indexed by logical page
//! id, with compare-and-swap as the only publication primitive the tree
//! protocol uses.

use vstd::prelude::*;

verus! {

/// The mapping table. Slot index is the page id; a slot holds a page
/// address, or zero when unused.
pub struct PageTable {
    slots: Vec<u64>,
    free: Vec<u64>,
}

impl PageTable {
    /// The slots as a sequence.
    pub closed spec fn slots_view(self) -> Seq<u64> {
        self.slots@
    }

    /// The ids waiting for reuse.
    pub closed spec fn free_view(self) -> Seq<u64> {
        self.free@
    }

    pub closed spec fn wf(self) -> bool {
        forall|i: int|
            0 <= i < self.free@.len() ==> (#[trigger] self.free@[i]) < self.slots@.len()
    }

    pub fn new() -> (r: PageTable)
        ensures
            r.wf(),
            r.slots_view() =~= Seq::<u64>::empty(),
            r.free_view() =~= Seq::<u64>::empty(),
    {
        PageTable { slots: Vec::new(), free: Vec::new() }
    }

    /// Claims a page id: one from the free list, else a fresh slot. The
    /// claimed slot holds zero.
    pub fn alloc_pid(&mut self) -> (r: Option<u64>)
        requires
            old(self).wf(),
        ensures
            final(self).wf(),
            match r {
                Some(pid) => pid < final(self).slots_view().len() && final(self).slots_view()[pid as int]
                    == 0 && (forall|i: int|
                    0 <= i < old(self).slots_view().len() && i != pid
                        ==> final(self).slots_view()[i] == old(self).slots_view()[i])
                    && old(self).slots_view().len() <= final(self).slots_view().len()
                    && (old(self).free_view().len() == 0 ==> pid == old(self).slots_view().len()
                    && final(self).slots_view().len() == old(self).slots_view().len() + 1
                    && final(self).free_view() == old(self).free_view()),
                None => old(self).slots_view().len() == u64::MAX && final(self).slots_view()
                    == old(self).slots_view() && final(self).free_view() == old(self).free_view(),
            },
    {
        match self.free.pop() {
            Some(pid) => {
                let n = self.slots.len();
                self.slots.set(pid as usize, 0);
                Some(pid)
            },
            None => {
                if self.slots.len() as u64 == u64::MAX {
                    return None;
                }
                let pid = self.slots.len() as u64;
                self.slots.push(0);
                Some(pid)
            },
        }
    }

    /// The number of slots.
    pub fn len(&self) -> (r: usize)
        ensures
            r == self.slots_view().len(),
    {
        self.slots.len()
    }

    /// Reads a slot.
    pub fn get(&self, pid: u64) -> (r: u64)
        requires
            pid < self.slots_view().len(),
        ensures
            r == self.slots_view()[pid as int],
    {
        let n = self.slots.len();
        self.slots[pid as usize]
    }

    /// Publishes an address unconditionally.
    pub fn set(&mut self, pid: u64, addr: u64)
        requires
            pid < old(self).slots_view().len(),
            old(self).wf(),
        ensures
            final(self).wf(),
            final(self).slots_view() == old(self).slots_view().update(pid as int, addr),
            final(self).free_view() == old(self).free_view(),
    {
        let n = self.slots.len();
        self.slots.set(pid as usize, addr);
    }

    /// Publishes `new` only if the slot still holds `expected`; otherwise
    /// reports what the slot holds.
    pub fn cas(&mut self, pid: u64, expected: u64, new: u64) -> (r: Result<(), u64>)
        requires
            pid < old(self).slots_view().len(),
            old(self).wf(),
        ensures
            final(self).wf(),
            final(self).free_view() == old(self).free_view(),
            match r {
                Ok(()) => old(self).slots_view()[pid as int] == expected && final(self).slots_view()
                    == old(self).slots_view().update(pid as int, new),
                Err(observed) => old(self).slots_view()[pid as int] != expected && observed == old(
                    self,
                ).slots_view()[pid as int] && final(self).slots_view() == old(self).slots_view(),
            },
    {
        let n = self.slots.len();
        let cur = self.slots[pid as usize];
        if cur == expected {
            self.slots.set(pid as usize, new);
            Ok(())
        } else {
            proof {
                assert(self.slots@ =~= old(self).slots@);
            }
            Err(cur)
        }
    }

    /// Returns a page id to the free list after its release.
    pub fn dealloc(&mut self, pid: u64)
        requires
            pid < old(self).slots_view().len(),
            old(self).wf(),
        ensures
            final(self).wf(),
            final(self).slots_view() == old(self).slots_view().update(pid as int, 0),
            final(self).free_view() == old(self).free_view().push(pid),
    {
        let n = self.slots.len();
        self.slots.set(pid as usize, 0);
        self.free.push(pid);
    }
}

} // verus!
