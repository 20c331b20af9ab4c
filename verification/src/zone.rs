//! The clone registry's arena: a growable array of optional payloads with
//! free-list reuse. Insertion fills the lowest free slot, or appends up to an
//! explicit capacity ceiling; removal frees a slot for reuse.

use vstd::prelude::*;

verus! {

/// The registry never grows past this many slots (so every slot index fits
/// the identifier type carried by a Clone cell).
pub const ZONE_CAPACITY: usize = 32767;

/// An arena of optional payloads, indexed by small integer identifiers.
pub struct Zone<T> {
    pub contents: Vec<Option<T>>,
}

impl<T> Zone<T> {
    /// The slot sequence: `Some` is an occupied slot, `None` a free one.
    pub open spec fn slots(&self) -> Seq<Option<T>> {
        self.contents@
    }

    /// The slot count never exceeds the capacity ceiling.
    pub open spec fn wf(&self) -> bool {
        self.contents@.len() <= ZONE_CAPACITY
    }

    /// An empty registry.
    pub fn new() -> (r: Zone<T>)
        ensures
            r.wf(),
            r.slots().len() == 0,
    {
        Zone { contents: Vec::new() }
    }

    /// Stores `t` in the lowest free slot, or appends a new slot when every
    /// slot is occupied and the capacity ceiling is not yet reached, and
    /// returns the slot's identifier. Returns None (changing nothing) only
    /// when the registry is full to the ceiling.
    pub fn insert(&mut self, t: T) -> (r: Option<u16>)
        requires
            old(self).wf(),
        ensures
            final(self).wf(),
            r matches Some(id) ==> {
                let i = id as int;
                &&& forall|j: int| 0 <= j < i ==> old(self).slots()[j] is Some
                &&& if i < old(self).slots().len() {
                    &&& old(self).slots()[i] is None
                    &&& final(self).slots() == old(self).slots().update(i, Some(t))
                } else {
                    &&& i == old(self).slots().len()
                    &&& final(self).slots() == old(self).slots().push(Some(t))
                }
            },
            r is None ==> {
                &&& final(self).slots() == old(self).slots()
                &&& old(self).slots().len() == ZONE_CAPACITY
                &&& forall|j: int|
                    0 <= j < old(self).slots().len() ==> old(self).slots()[j] is Some
            },
    {
        let n = self.contents.len();
        let mut i: usize = 0;
        while i < n
            invariant
                i <= n,
                n == self.contents@.len(),
                n <= ZONE_CAPACITY,
                self.contents@ == old(self).contents@,
                forall|j: int| 0 <= j < i ==> self.contents@[j] is Some,
            decreases n - i,
        {
            if self.contents[i].is_none() {
                let slot = &mut self.contents[i];
                *slot = Some(t);
                return Some(i as u16);
            }
            i = i + 1;
        }
        if n < ZONE_CAPACITY {
            self.contents.push(Some(t));
            Some(n as u16)
        } else {
            None
        }
    }

    /// The number of slots, occupied or free.
    pub fn len(&self) -> (r: usize)
        ensures
            r == self.slots().len(),
    {
        self.contents.len()
    }

    /// Reads the slot with identifier `i`.
    pub fn get(&self, i: u16) -> (r: &Option<T>)
        requires
            (i as int) < self.slots().len(),
        ensures
            *r == self.slots()[i as int],
    {
        &self.contents[i as usize]
    }

    /// Frees the slot with identifier `i`, returning its payload.
    pub fn remove(&mut self, i: u16) -> (r: Option<T>)
        requires
            (i as int) < old(self).slots().len(),
        ensures
            final(self).wf() == old(self).wf(),
            final(self).slots() == old(self).slots().update(i as int, None),
            r == old(self).slots()[i as int],
    {
        let mut val: Option<T> = None;
        let slot = &mut self.contents[i as usize];
        core::mem::swap(&mut val, slot);
        val
    }
}

} // verus!
