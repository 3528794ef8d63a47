//! A slab of object slots addressed by stable indices.
//!
//! An address stays valid from the `allocate` that hands it out until the
//! `free` that takes it back, and a freed address is handed out again by a
//! later `allocate`: the arena behaves like a heap, which is what makes the
//! reclamation protocol around it worth proving.

use vstd::prelude::*;

verus! {

/// Storage for objects of type `V`, each identified by a non-null address.
pub struct Arena<V> {
    slots: Vec<Option<V>>,
    /// Every address below this one holds an object.
    floor: usize,
}

impl<V> View for Arena<V> {
    type V = Map<usize, V>;

    /// The live objects by address.
    closed spec fn view(&self) -> Map<usize, V> {
        Map::new(
            |a: usize| 0 < a < self.slots@.len() && self.slots@[a as int] is Some,
            |a: usize| self.slots@[a as int]->0,
        )
    }
}

impl<V> Arena<V> {
    /// The slot of the null address exists and stays empty, and the search
    /// for a free address starts no higher than the lowest one.
    pub closed spec fn wf(&self) -> bool {
        &&& self.slots@.len() >= 1
        &&& self.slots@[0] is None
        &&& 1 <= self.floor <= self.slots@.len()
        &&& forall|b: int| 0 < b < self.floor ==> self.slots@[b] is Some
    }

    /// `addr` is the lowest address that holds no object in `live`.
    pub open spec fn lowest_free(live: Map<usize, V>, addr: usize) -> bool {
        &&& addr != 0
        &&& !live.contains_key(addr)
        &&& forall|b: usize| 0 < b < addr ==> live.contains_key(b)
    }

    /// Well-formedness keeps the null address out of the live objects.
    pub proof fn lemma_null_is_free(&self)
        requires
            self.wf(),
        ensures
            !self@.contains_key(0),
    {
    }

    /// An arena without objects.
    pub fn new() -> (arena: Self)
        ensures
            arena.wf(),
            arena@ == Map::<usize, V>::empty(),
    {
        let mut slots: Vec<Option<V>> = Vec::new();
        slots.push(None);
        let arena = Arena { slots, floor: 1 };
        assert(arena@ =~= Map::<usize, V>::empty());
        arena
    }

    /// Stores `object` at the lowest free address and returns that address.
    pub fn allocate(&mut self, object: V) -> (addr: usize)
        requires
            old(self).wf(),
        ensures
            final(self).wf(),
            Self::lowest_free(old(self)@, addr),
            final(self)@ == old(self)@.insert(addr, object),
    {
        let mut i: usize = self.floor;
        while i < self.slots.len()
            invariant
                1 <= i <= self.slots@.len(),
                self.slots@ == old(self).slots@,
                self.slots@[0] is None,
                forall|b: int| 0 < b < i ==> self.slots@[b] is Some,
            decreases self.slots@.len() - i,
        {
            if self.slots[i].is_none() {
                self.slots.set(i, Some(object));
                self.floor = i + 1;
                assert(self@ =~= old(self)@.insert(i, object));
                return i;
            }
            i = i + 1;
        }
        self.slots.push(Some(object));
        self.floor = self.slots.len();
        assert(self@ =~= old(self)@.insert(i, object));
        i
    }

    /// Destroys the object at `addr` and makes the address available again.
    pub fn free(&mut self, addr: usize)
        requires
            old(self).wf(),
            old(self)@.contains_key(addr),
        ensures
            final(self).wf(),
            final(self)@ == old(self)@.remove(addr),
    {
        self.slots.set(addr, None);
        if addr < self.floor {
            self.floor = addr;
        }
        assert(self@ =~= old(self)@.remove(addr));
    }

    /// Borrows the object at `addr`.
    pub fn get(&self, addr: usize) -> (object: &V)
        requires
            self@.contains_key(addr),
        ensures
            *object == self@[addr],
    {
        self.slots[addr].as_ref().unwrap()
    }

    /// Tells whether an object lives at `addr`.
    pub fn is_live(&self, addr: usize) -> (live: bool)
        ensures
            live == self@.contains_key(addr),
    {
        0 < addr && addr < self.slots.len() && self.slots[addr].is_some()
    }
}

} // verus!
