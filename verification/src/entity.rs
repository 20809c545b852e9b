//! Stable external handles for bodies.
//!
//! A handle pairs a slot index with a generation counter.  The surrounding
//! entity system issues handles; this library only compares them, looks them
//! up by index, and compares generations when a slot is reused.

use vstd::prelude::*;

verus! {

/// A stable reference to a body: an index into the sparse lookup array and a
/// generation counter that distinguishes successive occupants of the index.
#[derive(Clone, Copy, Debug, PartialEq, Eq, Structural)]
pub struct EntityId {
    pub index: usize,
    pub gen: u64,
}

impl EntityId {
    pub fn new(index: usize, gen: u64) -> (r: EntityId)
        ensures
            r.index == index,
            r.gen == gen,
    {
        EntityId { index, gen }
    }

    /// A handle that never refers to a registered body: its index is the
    /// largest `usize`, under which no body can be registered.
    pub fn dead() -> (r: EntityId)
        ensures
            r.index == usize::MAX,
            r.gen == 0,
    {
        EntityId { index: usize::MAX, gen: 0 }
    }

    /// The sparse-array index of this handle.
    pub fn uindex(&self) -> (r: usize)
        ensures
            r == self.index,
    {
        self.index
    }
}

} // verus!
