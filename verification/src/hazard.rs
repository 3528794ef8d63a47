//! Hazard pointers: the guard that publishes an address before it is
//! dereferenced, and the registry that defers the destruction of retired
//! objects until no guard publishes their address.
//!
//! Nothing here knows about stacks. A structure that unlinks nodes from a
//! shared chain keeps one [`BoxedPointer`] next to its arena, gives every
//! operation a [`Holder`], reads shared pointers through
//! [`Holder::load_pointer`] and hands unlinked nodes to
//! [`BoxedPointer::retire`].
//!
//! Reclamation takes its snapshot of the published addresses and scans the
//! whole pending list in one sweep. That costs a pass over both tables per
//! sweep and in exchange frees an object in the first sweep that starts after
//! its last guard is gone.

use crate::arena::Arena;
use crate::sync::{AtomicPtr, NULL};
use vstd::prelude::*;

verus! {

/// The capability to destroy a retired object: given the arena an address
/// lives in, it runs the object's destructor and releases its storage. It
/// carries no state, so a registry can queue entries for any element type.
#[derive(Clone, Copy, Debug, PartialEq, Eq)]
pub struct Doer;

impl Doer {
    /// Destroys the object at `addr`.
    pub fn destroy<V>(&self, heap: &mut Arena<V>, addr: usize)
        requires
            old(heap).wf(),
            old(heap)@.contains_key(addr),
        ensures
            final(heap).wf(),
            final(heap)@ == old(heap)@.remove(addr),
    {
        heap.free(addr);
    }
}

/// An unlinked object waiting for destruction: its address and the
/// capability that destroys it.
#[derive(Clone, Copy, Debug, PartialEq, Eq)]
pub struct RetiredEntry {
    pub addr: usize,
    pub doer: Doer,
}

/// Proof of a completed protection: `data` is published and was still stored
/// in the cell it was loaded from when the publication was validated.
#[derive(Clone, Copy, Debug, PartialEq, Eq)]
pub struct Guard {
    pub data: usize,
}

/// How far a holder has come in protecting an address.
#[derive(Clone, Copy, Debug, PartialEq, Eq)]
pub enum Protect {
    /// No protection is in progress.
    Idle,
    /// The address was read from the cell and is not published yet.
    Seen(usize),
    /// The address is published and not validated yet.
    Published(usize),
    /// The address is published and validated.
    Holding(usize),
}

/// What one action of [`Holder::load_pointer`] achieved.
#[derive(Clone, Copy, Debug, PartialEq, Eq)]
pub enum Loaded {
    /// The protection is still in progress.
    Pending,
    /// The protection is complete: a guard for the address found, or `None`
    /// where the cell held the null address.
    Ready(Option<Guard>),
}

/// The guard of one operation. It owns slot `slot` of a registry and
/// publishes at most one address there.
#[derive(Debug, PartialEq, Eq)]
pub struct Holder {
    pub slot: usize,
    pub stage: Protect,
}

/// The registry: one slot per registered holder, each showing the address
/// that holder publishes, and the list of retired objects not yet destroyed.
pub struct BoxedPointer {
    slots: Vec<Option<usize>>,
    pending: Vec<RetiredEntry>,
}

/// The test a sweep applies to a retired address: it is kept exactly if some
/// slot of `hazards` publishes it.
pub open spec fn shield(hazards: Seq<Option<usize>>) -> spec_fn(usize) -> bool {
    |a: usize| a != NULL && hazards.contains(Some(a))
}

/// The addresses that a sweep over `pending` destroys.
pub open spec fn doomed(hazards: Seq<Option<usize>>, pending: Seq<usize>) -> Set<usize> {
    Set::new(|a: usize| pending.contains(a) && !shield(hazards)(a))
}

/// The lowest index of `hazards` that no holder owns, or its length.
pub open spec fn first_vacant(hazards: Seq<Option<usize>>, slot: int) -> bool {
    &&& 0 <= slot <= hazards.len()
    &&& slot < hazards.len() ==> hazards[slot] is None
    &&& forall|i: int| 0 <= i < slot ==> hazards[i] is Some
}

/// The slot table after a holder registered at `slot`.
pub open spec fn claimed(hazards: Seq<Option<usize>>, slot: int) -> Seq<Option<usize>> {
    if slot < hazards.len() {
        hazards.update(slot, Some(NULL))
    } else {
        hazards.push(Some(NULL))
    }
}

impl Protect {
    /// A slot that shows `shown` fits a holder at this stage. Until the
    /// holder publishes again or is cleared, the slot of one that is idle or
    /// has just read the cell may still show an address published before.
    pub open spec fn agrees(self, shown: Option<usize>) -> bool {
        match self {
            Protect::Idle => shown is Some,
            Protect::Seen(p) => p != NULL && shown is Some,
            Protect::Published(p) => p != NULL && shown == Some(p),
            Protect::Holding(p) => p != NULL && shown == Some(p),
        }
    }

    /// The stage after one action that found `current` in the cell.
    pub open spec fn next(self, current: usize) -> Protect {
        match self {
            Protect::Idle => if current == NULL {
                Protect::Idle
            } else {
                Protect::Seen(current)
            },
            Protect::Seen(p) => Protect::Published(p),
            Protect::Published(p) => if current == p {
                Protect::Holding(p)
            } else if current == NULL {
                Protect::Idle
            } else {
                Protect::Seen(current)
            },
            Protect::Holding(p) => Protect::Holding(p),
        }
    }

    /// What the holder's slot shows after that action, given that it showed
    /// `shown` before: only the action that follows a read writes the slot.
    pub open spec fn publishes(self, shown: Option<usize>) -> Option<usize> {
        match self {
            Protect::Seen(p) => Some(p),
            _ => shown,
        }
    }

    /// What that action reports.
    pub open spec fn reports(self, current: usize) -> Loaded {
        match self {
            Protect::Idle => if current == NULL {
                Loaded::Ready(None)
            } else {
                Loaded::Pending
            },
            Protect::Seen(_) => Loaded::Pending,
            Protect::Published(p) => if current == p {
                Loaded::Ready(Some(Guard { data: p }))
            } else if current == NULL {
                Loaded::Ready(None)
            } else {
                Loaded::Pending
            },
            Protect::Holding(p) => Loaded::Ready(Some(Guard { data: p })),
        }
    }
}

impl Holder {
    /// The holder owns a slot of `hazards`, and the slot shows what the
    /// holder's stage says it publishes.
    pub open spec fn bound(&self, hazards: Seq<Option<usize>>) -> bool {
        &&& self.slot < hazards.len()
        &&& self.stage.agrees(hazards[self.slot as int])
    }

    /// The address under a completed protection, or null.
    pub open spec fn address(&self) -> usize {
        match self.stage {
            Protect::Holding(p) => p,
            _ => NULL,
        }
    }

    /// While a guard is in place no sweep destroys what it guards: the
    /// holder's slot publishes the address, and a sweep keeps every retired
    /// address that some slot publishes.
    pub proof fn lemma_guard_shields(&self, hazards: Seq<Option<usize>>, pending: Seq<usize>)
        requires
            self.bound(hazards),
            self.stage is Holding,
        ensures
            shield(hazards)(self.address()),
            !doomed(hazards, pending).contains(self.address()),
            pending.contains(self.address()) ==> pending.filter(shield(hazards)).contains(
                self.address(),
            ),
    {
        assert(hazards[self.slot as int] == Some(self.address()));
        if pending.contains(self.address()) {
            let k = choose|k: int| 0 <= k < pending.len() && pending[k] == self.address();
            pending.lemma_filter_contains(shield(hazards), k);
        }
    }

    /// The address under a completed protection, or null.
    pub fn guarded(&self) -> (addr: usize)
        ensures
            addr == self.address(),
    {
        match self.stage {
            Protect::Holding(p) => p,
            _ => NULL,
        }
    }

    /// Performs the next action of the protect-then-validate protocol on
    /// `atomic`, which is one access to shared state: read the cell, publish
    /// what was read, or read the cell again and compare. A re-read that
    /// finds another address starts over with that address; a read that
    /// finds null ends the protocol without a guard.
    ///
    /// Called again and again it ends with `Ready`, unless the cell changes
    /// between each publication and its validation. From then on the address
    /// in the guard stays published until the holder is cleared, released or
    /// publishes another address, and no sweep destroys a published address.
    pub fn load_pointer(&mut self, atomic: &AtomicPtr, registry: &mut BoxedPointer) -> (r: Loaded)
        requires
            old(self).bound(old(registry).hazards()),
        ensures
            final(self).slot == old(self).slot,
            final(self).stage == old(self).stage.next(atomic@),
            r == old(self).stage.reports(atomic@),
            final(registry).hazards() == old(registry).hazards().update(
                old(self).slot as int,
                old(self).stage.publishes(old(registry).hazards()[old(self).slot as int]),
            ),
            final(registry).pending() == old(registry).pending(),
            final(self).bound(final(registry).hazards()),
    {
        proof {
            assert(registry.hazards() =~= registry.hazards().update(
                self.slot as int,
                registry.hazards()[self.slot as int],
            ));
        }
        match self.stage {
            Protect::Idle => {
                let current = atomic.load();
                if current == NULL {
                    Loaded::Ready(None)
                } else {
                    self.stage = Protect::Seen(current);
                    Loaded::Pending
                }
            },
            Protect::Seen(p) => {
                registry.publish(self.slot, p);
                self.stage = Protect::Published(p);
                Loaded::Pending
            },
            Protect::Published(p) => {
                let current = atomic.load();
                if current == p {
                    self.stage = Protect::Holding(p);
                    Loaded::Ready(Some(Guard { data: p }))
                } else if current == NULL {
                    self.stage = Protect::Idle;
                    Loaded::Ready(None)
                } else {
                    self.stage = Protect::Seen(current);
                    Loaded::Pending
                }
            },
            Protect::Holding(p) => Loaded::Ready(Some(Guard { data: p })),
        }
    }

    /// Protects the address stored in `atomic`, a cell that nobody else can
    /// change during the call, and wraps it for [`BoxedPointer::retire`].
    /// Returns `None` where the cell holds null.
    ///
    /// A holder that already publishes that address never stops publishing
    /// it during the call.
    pub fn get_wrapper(&mut self, atomic: &AtomicPtr, registry: &mut BoxedPointer) -> (r: Option<
        RetiredEntry,
    >)
        requires
            old(self).bound(old(registry).hazards()),
        ensures
            final(self).slot == old(self).slot,
            final(self).stage == if atomic@ == NULL {
                Protect::Idle
            } else {
                Protect::Holding(atomic@)
            },
            r == if atomic@ == NULL {
                None
            } else {
                Some(RetiredEntry { addr: atomic@, doer: Doer })
            },
            final(registry).hazards() == old(registry).hazards().update(
                old(self).slot as int,
                Some(atomic@),
            ),
            final(registry).pending() == old(registry).pending(),
            final(self).bound(final(registry).hazards()),
    {
        let current = atomic.load();
        if current == NULL {
            registry.publish(self.slot, NULL);
            self.stage = Protect::Idle;
            None
        } else {
            self.stage = Protect::Seen(current);
            let _ = self.load_pointer(atomic, registry);
            match self.load_pointer(atomic, registry) {
                Loaded::Ready(Some(guard)) => Some(RetiredEntry { addr: guard.data, doer: Doer }),
                _ => None,
            }
        }
    }

    /// Withdraws whatever the holder publishes and makes it ready for
    /// another protection.
    pub fn clear(&mut self, registry: &mut BoxedPointer)
        requires
            old(self).bound(old(registry).hazards()),
        ensures
            final(self).slot == old(self).slot,
            final(self).stage == Protect::Idle,
            final(registry).hazards() == old(registry).hazards().update(
                old(self).slot as int,
                Some(NULL),
            ),
            final(registry).pending() == old(registry).pending(),
            final(self).bound(final(registry).hazards()),
    {
        registry.publish(self.slot, NULL);
        self.stage = Protect::Idle;
    }

    /// Ends the holder's scope: withdraws whatever it publishes and gives
    /// its slot back to the registry.
    pub fn release(self, registry: &mut BoxedPointer)
        requires
            self.bound(old(registry).hazards()),
        ensures
            final(registry).hazards() == old(registry).hazards().update(self.slot as int, None),
            final(registry).pending() == old(registry).pending(),
    {
        registry.vacate(self.slot);
    }
}

impl BoxedPointer {
    /// What each slot publishes: `None` for a slot without holder.
    pub closed spec fn hazards(&self) -> Seq<Option<usize>> {
        self.slots@
    }

    /// The addresses of the retired objects, oldest first.
    pub closed spec fn pending(&self) -> Seq<usize> {
        self.pending@.map_values(|e: RetiredEntry| e.addr)
    }

    /// No address is queued twice, and null is never queued.
    pub open spec fn wf(&self) -> bool {
        &&& self.pending().no_duplicates()
        &&& !self.pending().contains(NULL)
    }

    /// Some holder publishes `addr`.
    pub open spec fn protects(&self, addr: usize) -> bool {
        shield(self.hazards())(addr)
    }

    /// A registry without holders and without retired objects.
    pub fn new() -> (registry: Self)
        ensures
            registry.wf(),
            registry.hazards() == Seq::<Option<usize>>::empty(),
            registry.pending() == Seq::<usize>::empty(),
    {
        let registry = BoxedPointer { slots: Vec::new(), pending: Vec::new() };
        assert(registry.pending() =~= Seq::<usize>::empty());
        registry
    }

    /// Begins a holder's scope on the lowest slot that has no holder; the
    /// table grows by one slot where every slot has one.
    pub fn register(&mut self) -> (holder: Holder)
        ensures
            first_vacant(old(self).hazards(), holder.slot as int),
            holder.stage == Protect::Idle,
            final(self).hazards() == claimed(old(self).hazards(), holder.slot as int),
            final(self).pending() == old(self).pending(),
            holder.bound(final(self).hazards()),
    {
        let mut i: usize = 0;
        while i < self.slots.len()
            invariant
                i <= self.slots@.len(),
                self.slots@ == old(self).slots@,
                self.pending@ == old(self).pending@,
                forall|k: int| 0 <= k < i ==> self.slots@[k] is Some,
            decreases self.slots@.len() - i,
        {
            if self.slots[i].is_none() {
                self.slots.set(i, Some(NULL));
                return Holder { slot: i, stage: Protect::Idle };
            }
            i = i + 1;
        }
        self.slots.push(Some(NULL));
        Holder { slot: i, stage: Protect::Idle }
    }

    /// Shows `addr` in slot `slot`.
    fn publish(&mut self, slot: usize, addr: usize)
        requires
            slot < old(self).hazards().len(),
        ensures
            final(self).hazards() == old(self).hazards().update(slot as int, Some(addr)),
            final(self).pending() == old(self).pending(),
    {
        self.slots.set(slot, Some(addr));
    }

    /// Marks slot `slot` as having no holder.
    fn vacate(&mut self, slot: usize)
        requires
            slot < old(self).hazards().len(),
        ensures
            final(self).hazards() == old(self).hazards().update(slot as int, None),
            final(self).pending() == old(self).pending(),
    {
        self.slots.set(slot, None);
    }

    /// Tells whether some holder publishes `addr`.
    pub fn is_protected(&self, addr: usize) -> (protected: bool)
        ensures
            protected == self.protects(addr),
    {
        if addr == NULL {
            return false;
        }
        let mut i: usize = 0;
        while i < self.slots.len()
            invariant
                i <= self.slots@.len(),
                addr != NULL,
                forall|k: int| 0 <= k < i ==> self.slots@[k] != Some(addr),
            decreases self.slots@.len() - i,
        {
            match self.slots[i] {
                Some(shown) => {
                    if shown == addr {
                        return true;
                    }
                },
                None => {},
            }
            i = i + 1;
        }
        false
    }

    /// The number of retired objects not yet destroyed.
    pub fn pending_len(&self) -> (n: usize)
        ensures
            n == self.pending().len(),
    {
        self.pending.len()
    }

    /// Queues an unlinked object for destruction. Nothing is destroyed here.
    pub fn retire(&mut self, entry: RetiredEntry)
        requires
            old(self).wf(),
            entry.addr != NULL,
            !old(self).pending().contains(entry.addr),
        ensures
            final(self).wf(),
            final(self).pending() == old(self).pending().push(entry.addr),
            final(self).hazards() == old(self).hazards(),
    {
        self.pending.push(entry);
        proof {
            let before = old(self).pending();
            let after = self.pending();
            assert(after =~= before.push(entry.addr));
            assert forall|i: int, j: int| 0 <= i < j < after.len() implies after[i] != after[j] by {
                if j == before.len() {
                    assert(before.contains(before[i]));
                }
            }
            assert forall|i: int| 0 <= i < after.len() implies after[i] != NULL by {
                if i < before.len() {
                    assert(before.contains(before[i]));
                }
            }
        }
    }

    /// Sweeps the pending list once: every retired object whose address no
    /// slot publishes is destroyed through its [`Doer`] and leaves the list;
    /// the others stay, in their order, for a later sweep.
    pub fn try_reclaim<V>(&mut self, heap: &mut Arena<V>)
        requires
            old(self).wf(),
            old(heap).wf(),
            forall|a: usize| old(self).pending().contains(a) ==> old(heap)@.contains_key(a),
        ensures
            final(self).wf(),
            final(heap).wf(),
            final(self).hazards() == old(self).hazards(),
            final(self).pending() == old(self).pending().filter(shield(old(self).hazards())),
            final(heap)@ == old(heap)@.remove_keys(
                doomed(old(self).hazards(), old(self).pending()),
            ),
    {
        let ghost hazards = self.hazards();
        let ghost before = self.pending();
        let mut kept: Vec<RetiredEntry> = Vec::new();
        let mut i: usize = 0;
        proof {
            assert(before.take(0) =~= Seq::<usize>::empty());
            reveal(Seq::filter);
            assert(heap@ =~= heap@.remove_keys(doomed(hazards, before.take(0))));
        }
        while i < self.pending.len()
            invariant
                i <= self.pending@.len(),
                self.slots@ == hazards,
                self.pending() == before,
                before.no_duplicates(),
                !before.contains(NULL),
                heap.wf(),
                forall|a: usize| before.contains(a) ==> old(heap)@.contains_key(a),
                kept@.map_values(|e: RetiredEntry| e.addr) == before.take(i as int).filter(
                    shield(hazards),
                ),
                heap@ == old(heap)@.remove_keys(doomed(hazards, before.take(i as int))),
            decreases self.pending@.len() - i,
        {
            let entry = self.pending[i];
            let ghost seen = before.take(i as int);
            proof {
                assert(entry.addr == before[i as int]);
                assert(before.take(i + 1) =~= seen.push(entry.addr));
                Seq::lemma_filter_push(seen, entry.addr, shield(hazards));
                assert(before.contains(entry.addr));
                assert(!seen.contains(entry.addr));
            }
            if self.is_protected(entry.addr) {
                kept.push(entry);
                proof {
                    assert(kept@.map_values(|e: RetiredEntry| e.addr) =~= seen.filter(
                        shield(hazards),
                    ).push(entry.addr));
                    assert(doomed(hazards, seen.push(entry.addr)) =~= doomed(hazards, seen)) by {
                        assert forall|a: usize|
                            seen.push(entry.addr).contains(a) && !shield(hazards)(a) implies seen.contains(
                            a,
                        ) by {
                            let k = choose|k: int|
                                0 <= k < seen.push(entry.addr).len() && seen.push(entry.addr)[k]
                                    == a;
                            assert(seen[k] == a);
                        }
                        assert forall|a: usize| seen.contains(a) implies seen.push(
                            entry.addr,
                        ).contains(a) by {
                            let k = choose|k: int| 0 <= k < seen.len() && seen[k] == a;
                            assert(seen.push(entry.addr)[k] == a);
                        }
                    }
                }
            } else {
                entry.doer.destroy(heap, entry.addr);
                proof {
                    assert(doomed(hazards, seen.push(entry.addr)) =~= doomed(hazards, seen).insert(
                        entry.addr,
                    )) by {
                        assert(seen.push(entry.addr)[seen.len() as int] == entry.addr);
                        assert forall|a: usize| seen.push(entry.addr).contains(a) implies a
                            == entry.addr || seen.contains(a) by {
                            let k = choose|k: int|
                                0 <= k < seen.push(entry.addr).len() && seen.push(entry.addr)[k]
                                    == a;
                            if k < seen.len() {
                                assert(seen[k] == a);
                            }
                        }
                        assert forall|a: usize| seen.contains(a) implies seen.push(
                            entry.addr,
                        ).contains(a) by {
                            let k = choose|k: int| 0 <= k < seen.len() && seen[k] == a;
                            assert(seen.push(entry.addr)[k] == a);
                        }
                    }
                    assert(heap@ =~= old(heap)@.remove_keys(
                        doomed(hazards, seen.push(entry.addr)),
                    ));
                }
            }
            i = i + 1;
        }
        proof {
            assert(before.take(i as int) =~= before);
            lemma_filter_keeps_order(before, shield(hazards));
        }
        self.pending = kept;
    }
}

/// Filtering a list without duplicates and without null leaves such a list.
pub proof fn lemma_filter_keeps_order(list: Seq<usize>, keep: spec_fn(usize) -> bool)
    requires
        list.no_duplicates(),
        !list.contains(NULL),
    ensures
        list.filter(keep).no_duplicates(),
        !list.filter(keep).contains(NULL),
        forall|a: usize| list.filter(keep).contains(a) <==> list.contains(a) && keep(a),
    decreases list.len(),
{
    reveal(Seq::filter);
    if list.len() > 0 {
        let front = list.drop_last();
        let tail = list.last();
        assert(forall|i: int| 0 <= i < front.len() ==> front[i] == list[i]);
        assert(!front.contains(NULL)) by {
            if front.contains(NULL) {
                let k = choose|k: int| 0 <= k < front.len() && front[k] == NULL;
                assert(list[k] == NULL);
            }
        }
        lemma_filter_keeps_order(front, keep);
        assert(!front.contains(tail)) by {
            if front.contains(tail) {
                let k = choose|k: int| 0 <= k < front.len() && front[k] == tail;
                assert(list[k] == list[list.len() - 1]);
            }
        }
        assert(list =~= front.push(tail));
        assert forall|a: usize| list.contains(a) <==> front.contains(a) || a == tail by {
            if list.contains(a) {
                let k = choose|k: int| 0 <= k < list.len() && list[k] == a;
                if k < front.len() {
                    assert(front[k] == a);
                }
            }
            if front.contains(a) {
                let k = choose|k: int| 0 <= k < front.len() && front[k] == a;
                assert(list[k] == a);
            }
            assert(list[list.len() - 1] == tail);
        }
        let kept = front.filter(keep);
        if keep(tail) {
            assert(list.filter(keep) == kept.push(tail));
            assert forall|a: usize| kept.push(tail).contains(a) <==> kept.contains(a) || a
                == tail by {
                if kept.push(tail).contains(a) {
                    let k = choose|k: int| 0 <= k < kept.push(tail).len() && kept.push(tail)[k] == a;
                    if k < kept.len() {
                        assert(kept[k] == a);
                    }
                }
                if kept.contains(a) {
                    let k = choose|k: int| 0 <= k < kept.len() && kept[k] == a;
                    assert(kept.push(tail)[k] == a);
                }
                assert(kept.push(tail)[kept.len() as int] == tail);
            }
            assert(!kept.contains(tail));
            assert(kept.push(tail).no_duplicates()) by {
                assert forall|i: int, j: int|
                    0 <= i < kept.push(tail).len() && 0 <= j < kept.push(tail).len() && i
                        != j implies kept.push(tail)[i] != kept.push(tail)[j] by {
                    if i < kept.len() {
                        assert(kept.contains(kept[i]));
                    }
                    if j < kept.len() {
                        assert(kept.contains(kept[j]));
                    }
                }
            }
        } else {
            assert(list.filter(keep) == kept);
        }
    }
}

} // verus!
