//! The concurrency gate: a count of slots, of which no more are held than
//! there are.

use vstd::prelude::*;

verus! {

/// The most slots that a gate can have.
pub const MAX_SLOTS: u8 = 100;

/// A counting gate.
#[derive(Debug)]
pub struct ConcurrencyGate {
    limit: usize,
    held: usize,
}

impl ConcurrencyGate {
    /// How many slots there are.
    pub closed spec fn limit(&self) -> nat {
        self.limit as nat
    }

    /// How many slots are held.
    pub closed spec fn held(&self) -> nat {
        self.held as nat
    }

    /// No more slots are held than there are, and there is at least one.
    pub open spec fn well_formed(&self) -> bool {
        self.held() <= self.limit() && 1 <= self.limit() <= MAX_SLOTS
    }

    /// A gate of `limit` slots, none of them held.
    pub fn new(limit: u8) -> (gate: ConcurrencyGate)
        requires
            1 <= limit <= MAX_SLOTS,
        ensures
            gate.well_formed(),
            gate.limit() == limit,
            gate.held() == 0,
    {
        ConcurrencyGate { limit: limit as usize, held: 0 }
    }

    /// How many slots are held.
    pub fn in_use(&self) -> (held: usize)
        ensures
            held == self.held(),
    {
        self.held
    }

    /// Whether a slot is free.
    pub fn has_free_slot(&self) -> (free: bool)
        ensures
            free == (self.held() < self.limit()),
    {
        self.held < self.limit
    }

    /// Takes a slot if one is free, and says whether it did.
    pub fn try_acquire(&mut self) -> (acquired: bool)
        requires
            old(self).well_formed(),
        ensures
            final(self).well_formed(),
            final(self).limit() == old(self).limit(),
            acquired == (old(self).held() < old(self).limit()),
            acquired ==> final(self).held() == old(self).held() + 1,
            !acquired ==> final(self).held() == old(self).held(),
    {
        if self.held < self.limit {
            self.held = self.held + 1;
            true
        } else {
            false
        }
    }

    /// Gives a slot back. Where none is held nothing changes.
    pub fn release(&mut self)
        requires
            old(self).well_formed(),
        ensures
            final(self).well_formed(),
            final(self).limit() == old(self).limit(),
            old(self).held() > 0 ==> final(self).held() == old(self).held() - 1,
            old(self).held() == 0 ==> final(self).held() == 0,
    {
        if self.held > 0 {
            self.held = self.held - 1;
        }
    }
}

} // verus!
