//! The atomic pointer cell that the algorithms mutate.
//!
//! Addresses are indices into an arena; address zero is the null pointer.
//! Every method is one indivisible action of the model: whoever drives the
//! model decides how the actions of different operations interleave.

use vstd::prelude::*;

verus! {

/// The null address: no object ever lives there.
pub const NULL: usize = 0;

/// A pointer-sized cell read and written only as a whole.
pub struct AtomicPtr {
    addr: usize,
}

impl View for AtomicPtr {
    type V = usize;

    closed spec fn view(&self) -> usize {
        self.addr
    }
}

impl AtomicPtr {
    /// A cell holding `addr`.
    pub fn new(addr: usize) -> (cell: Self)
        ensures
            cell@ == addr,
    {
        AtomicPtr { addr }
    }

    /// Reads the address currently stored.
    pub fn load(&self) -> (addr: usize)
        ensures
            addr == self@,
    {
        self.addr
    }

    /// Overwrites the stored address.
    pub fn store(&mut self, addr: usize)
        ensures
            final(self)@ == addr,
    {
        self.addr = addr;
    }

    /// Replaces the stored address by `new` if it equals `current`.
    ///
    /// Returns `Ok` with the previous address when the exchange happened and
    /// `Err` with the address found when it did not; in the latter case the
    /// cell is left untouched.
    pub fn compare_exchange(&mut self, current: usize, new: usize) -> (r: Result<usize, usize>)
        ensures
            old(self)@ == current ==> r == Ok::<usize, usize>(current) && final(self)@ == new,
            old(self)@ != current ==> r == Err::<usize, usize>(old(self)@) && final(self)@ == old(
                self,
            )@,
    {
        if self.addr == current {
            self.addr = new;
            Ok(current)
        } else {
            Err(self.addr)
        }
    }
}

} // verus!
