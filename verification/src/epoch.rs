//! Epoch-based reclamation: readers pin the current epoch, unlinked chains
//! are deferred against it, and a deferred chain is handed back for freeing
//! only when no pin from its epoch or earlier remains.

use vstd::prelude::*;

verus! {

/// A deferred chain head that was unlinked in an epoch no active pin is at
/// or below, so no reader can still observe it.
pub open spec fn unpinned_head(deferred: Seq<(u64, u64)>, pins: Seq<u64>, head: u64) -> bool {
    exists|m: int|
        0 <= m < deferred.len() && (#[trigger] deferred[m]).1 == head && !(exists|p: int|
            0 <= p < pins.len() && #[trigger] pins[p] <= deferred[m].0)
}

/// A pin on an epoch, scoped to one request.
pub struct EpochGuard {
    epoch: u64,
}

impl EpochGuard {
    /// The pinned epoch.
    pub closed spec fn epoch_spec(self) -> u64 {
        self.epoch
    }

    pub fn epoch(&self) -> (r: u64)
        ensures
            r == self.epoch_spec(),
    {
        self.epoch
    }
}

/// The registry of pins and deferred chains.
pub struct EpochRegistry {
    epoch: u64,
    pins: Vec<u64>,
    deferred: Vec<(u64, u64)>,
}

impl EpochRegistry {
    /// The current global epoch.
    pub closed spec fn epoch_spec(self) -> u64 {
        self.epoch
    }

    /// The epochs of the active pins.
    pub closed spec fn pins_view(self) -> Seq<u64> {
        self.pins@
    }

    /// The deferred chains: the epoch each was unlinked in, and its head
    /// address.
    pub closed spec fn deferred_view(self) -> Seq<(u64, u64)> {
        self.deferred@
    }

    pub fn new() -> (r: EpochRegistry)
        ensures
            r.epoch_spec() == 0,
            r.pins_view() =~= Seq::<u64>::empty(),
            r.deferred_view() =~= Seq::<(u64, u64)>::empty(),
    {
        EpochRegistry { epoch: 0, pins: Vec::new(), deferred: Vec::new() }
    }

    /// Pins the current epoch.
    pub fn pin(&mut self) -> (r: EpochGuard)
        ensures
            r.epoch_spec() == old(self).epoch_spec(),
            final(self).epoch_spec() == old(self).epoch_spec(),
            final(self).pins_view() == old(self).pins_view().push(old(self).epoch_spec()),
            final(self).deferred_view() == old(self).deferred_view(),
    {
        self.pins.push(self.epoch);
        EpochGuard { epoch: self.epoch }
    }

    /// Releases a pin and advances the global epoch.
    pub fn unpin(&mut self, guard: EpochGuard)
        ensures
            final(self).epoch_spec() == if old(self).epoch_spec() < u64::MAX {
                old(self).epoch_spec() + 1
            } else {
                old(self).epoch_spec() as int
            },
            final(self).deferred_view() == old(self).deferred_view(),
            (old(self).pins_view().contains(guard.epoch_spec())
                ==> final(self).pins_view().to_multiset()
                == old(self).pins_view().to_multiset().remove(guard.epoch_spec())),
            (!old(self).pins_view().contains(guard.epoch_spec())
                ==> final(self).pins_view() == old(self).pins_view()),
    {
        broadcast use vstd::seq_lib::group_seq_properties;

        let e = guard.epoch;
        let n = self.pins.len();
        let mut i: usize = 0;
        while i < n && self.pins[i] != e
            invariant
                0 <= i <= n,
                n == self.pins@.len(),
                self.epoch == old(self).epoch_spec(),
                self.pins@ == old(self).pins_view(),
                self.deferred@ == old(self).deferred_view(),
                forall|k: int| 0 <= k < i ==> old(self).pins_view()[k] != e,
            decreases n - i,
        {
            i = i + 1;
        }
        if i < self.pins.len() {
            let ghost pins0 = self.pins@;
            let _ = self.pins.remove(i);
            proof {
                broadcast use vstd::seq_lib::group_to_multiset_ensures;

                assert(pins0.remove(i as int).to_multiset() =~= pins0.to_multiset().remove(
                    pins0[i as int],
                ));
                assert(pins0.contains(e)) by {
                    assert(pins0[i as int] == e);
                }
            }
        } else {
            proof {
                if old(self).pins_view().contains(e) {
                    let k = choose|k: int|
                        0 <= k < old(self).pins_view().len() && old(self).pins_view()[k] == e;
                    assert(false);
                }
            }
        }
        if self.epoch < u64::MAX {
            self.epoch = self.epoch + 1;
        }
    }

    /// Defers a chain unlinked in the current epoch.
    pub fn defer_chain(&mut self, head: u64)
        ensures
            final(self).epoch_spec() == old(self).epoch_spec(),
            final(self).pins_view() == old(self).pins_view(),
            final(self).deferred_view() == old(self).deferred_view().push(
                (old(self).epoch_spec(), head),
            ),
    {
        let e = self.epoch;
        self.deferred.push((e, head));
    }

    /// True when some active pin is at or below the given epoch, so a chain
    /// deferred then may still be observed.
    pub fn pinned_at_or_before(&self, epoch: u64) -> (r: bool)
        ensures
            r <==> exists|k: int|
                0 <= k < self.pins_view().len() && #[trigger] self.pins_view()[k] <= epoch,
    {
        let n = self.pins.len();
        let mut i: usize = 0;
        while i < n
            invariant
                0 <= i <= n,
                n == self.pins_view().len(),
                forall|k: int| 0 <= k < i ==> #[trigger] self.pins_view()[k] > epoch,
            decreases n - i,
        {
            if self.pins[i] <= epoch {
                return true;
            }
            i = i + 1;
        }
        false
    }

    /// Hands back exactly the chains that no pin can still observe, in
    /// order; the chains some pin may still see stay deferred, in order.
    pub fn collect(&mut self) -> (r: Vec<u64>)
        ensures
            final(self).epoch_spec() == old(self).epoch_spec(),
            final(self).pins_view() == old(self).pins_view(),
            final(self).deferred_view() == old(self).deferred_view().filter(
                |e: (u64, u64)|
                    exists|p: int|
                        0 <= p < old(self).pins_view().len() && #[trigger] old(self).pins_view()[p]
                            <= e.0,
            ),
            r@ == old(self).deferred_view().filter(
                |e: (u64, u64)|
                    !(exists|p: int|
                        0 <= p < old(self).pins_view().len() && #[trigger] old(self).pins_view()[p]
                            <= e.0),
            ).map_values(|e: (u64, u64)| e.1),
            forall|k: int|
                0 <= k < r@.len() ==> unpinned_head(
                    old(self).deferred_view(),
                    old(self).pins_view(),
                    #[trigger] r@[k],
                ),
    {
        let ghost keep_pred = |e: (u64, u64)|
            exists|p: int|
                0 <= p < old(self).pins_view().len() && #[trigger] old(self).pins_view()[p] <= e.0;
        let ghost drop_pred = |e: (u64, u64)|
            !(exists|p: int|
                0 <= p < old(self).pins_view().len() && #[trigger] old(self).pins_view()[p]
                    <= e.0);
        let n = self.deferred.len();
        let mut keep: Vec<(u64, u64)> = Vec::new();
        let mut out: Vec<u64> = Vec::new();
        let mut i: usize = 0;
        proof {
            assert(old(self).deferred_view().subrange(0, 0) =~= Seq::<(u64, u64)>::empty());
            reveal(Seq::filter);
        }
        while i < n
            invariant
                0 <= i <= n,
                n == self.deferred@.len(),
                self.deferred@ == old(self).deferred_view(),
                self.pins@ == old(self).pins_view(),
                self.epoch == old(self).epoch_spec(),
                keep@ == old(self).deferred_view().subrange(0, i as int).filter(keep_pred),
                out@ == old(self).deferred_view().subrange(0, i as int).filter(
                    drop_pred,
                ).map_values(|e: (u64, u64)| e.1),
                keep_pred == (|e: (u64, u64)|
                    exists|p: int|
                        0 <= p < old(self).pins_view().len() && #[trigger] old(self).pins_view()[p]
                            <= e.0),
                drop_pred == (|e: (u64, u64)|
                    !(exists|p: int|
                        0 <= p < old(self).pins_view().len() && #[trigger] old(self).pins_view()[p]
                            <= e.0)),
                forall|k: int|
                    0 <= k < out@.len() ==> unpinned_head(
                        old(self).deferred_view(),
                        old(self).pins_view(),
                        #[trigger] out@[k],
                    ),
            decreases n - i,
        {
            let ghost prefix = old(self).deferred_view().subrange(0, i as int);
            let entry = self.deferred[i];
            proof {
                reveal(Seq::filter);
                assert(old(self).deferred_view().subrange(0, i + 1) =~= prefix.push(entry));
                assert(prefix.push(entry).drop_last() =~= prefix);
                assert(prefix.push(entry).last() == entry);
            }
            if self.pinned_at_or_before(entry.0) {
                keep.push(entry);
                proof {
                    assert(keep_pred(entry));
                    assert(prefix.push(entry).filter(keep_pred) =~= prefix.filter(keep_pred).push(
                        entry,
                    ));
                    assert(prefix.push(entry).filter(drop_pred) =~= prefix.filter(drop_pred));
                }
            } else {
                out.push(entry.1);
                proof {
                    assert(drop_pred(entry));
                    assert(prefix.push(entry).filter(drop_pred) =~= prefix.filter(drop_pred).push(
                        entry,
                    ));
                    assert(prefix.push(entry).filter(keep_pred) =~= prefix.filter(keep_pred));
                    assert(prefix.push(entry).filter(drop_pred).map_values(|e: (u64, u64)| e.1)
                        =~= prefix.filter(drop_pred).map_values(|e: (u64, u64)| e.1).push(entry.1));
                    let m = i as int;
                    assert(0 <= m < old(self).deferred_view().len() && old(
                        self,
                    ).deferred_view()[m].1 == entry.1 && !(exists|p: int|
                        0 <= p < old(self).pins_view().len() && #[trigger] old(self).pins_view()[p]
                            <= old(self).deferred_view()[m].0));
                    assert(unpinned_head(
                        old(self).deferred_view(),
                        old(self).pins_view(),
                        entry.1,
                    ));
                }
            }
            i = i + 1;
        }
        proof {
            assert(old(self).deferred_view().subrange(0, n as int) =~= old(self).deferred_view());
        }
        self.deferred = keep;
        out
    }
}

} // verus!
