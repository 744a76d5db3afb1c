//! `EntityId` and the entity directory.
//!
//! The directory owns the slot table: per slot a generation and either the
//! location of the live entity (archetype index, row index) or a free marker.
//! Freed slots go on a free stack and are reused with a bumped generation, so
//! a stale handle can never resolve again.

use vstd::prelude::*;

verus! {

/// Handle of an entity: slot index plus generation.
///
/// Two handles name the same entity only if both fields are equal; equality of
/// the slot alone is not enough, since slots are reused after despawn.
#[derive(Clone, Copy, PartialEq, Eq, Structural, Debug, Hash)]
pub struct EntityId {
    /// Index of the slot in the directory.
    pub idx: u32,
    /// Generation of the slot when this handle was made.
    pub gen_id: u32,
}

impl EntityId {
    /// Returns the handle with the given slot index and generation.
    pub fn new(idx: u32, gen_id: u32) -> (r: EntityId)
        ensures
            r == (EntityId { idx, gen_id }),
    {
        EntityId { idx, gen_id }
    }
}

/// Where a live slot's entity is stored, or the free marker.
#[derive(Clone, Copy, PartialEq, Eq, Structural, Debug)]
pub enum SlotLoc {
    /// The slot is not occupied.
    Free,
    /// The slot's entity lives at this archetype and row.
    Live {
        /// Index into the world's archetype list.
        arch: u32,
        /// Row inside that archetype.
        row: u32,
    },
}

/// One slot of the directory.
#[derive(Clone, Copy, PartialEq, Eq, Structural, Debug)]
pub struct Slot {
    /// Current generation of the slot; bumped on every despawn.
    pub gen_id: u32,
    /// Location of the live entity, or the free marker.
    pub loc: SlotLoc,
}

/// The entity directory: slot table plus free stack.
pub struct Entities {
    /// All slots ever allocated.
    pub slots: Vec<Slot>,
    /// Indices of free slots available for reuse.
    pub free: Vec<u32>,
}

impl Entities {
    /// Well-formedness: the free stack names distinct, free, reusable slots,
    /// live generations can still be bumped, and the table fits in slot space.
    pub open spec fn wf(&self) -> bool {
        &&& self.slots@.len() < u32::MAX as int
        &&& forall|i: int|
            0 <= i < self.free@.len() ==> {
                &&& (#[trigger] self.free@[i]) < self.slots@.len()
                &&& self.slots@[self.free@[i] as int].loc is Free
                &&& self.slots@[self.free@[i] as int].gen_id < u32::MAX
            }
        &&& forall|i: int, j: int|
            0 <= i < j < self.free@.len() ==> #[trigger] self.free@[i] != #[trigger] self.free@[j]
        &&& forall|s: int|
            0 <= s < self.slots@.len() && (#[trigger] self.slots@[s]).loc is Live
                ==> self.slots@[s].gen_id < u32::MAX
    }

    /// True if the handle resolves to a live entity.
    pub open spec fn spec_alive(&self, e: EntityId) -> bool {
        &&& (e.idx as int) < self.slots@.len()
        &&& self.slots@[e.idx as int].gen_id == e.gen_id
        &&& self.slots@[e.idx as int].loc is Live
    }

    /// Archetype index of a live handle.
    pub open spec fn arch_of(&self, e: EntityId) -> u32 {
        self.slots@[e.idx as int].loc->arch
    }

    /// Row index of a live handle.
    pub open spec fn row_of(&self, e: EntityId) -> u32 {
        self.slots@[e.idx as int].loc->row
    }

    /// Returns a new, empty directory.
    pub fn new() -> (r: Self)
        ensures
            r.wf(),
            r.slots@.len() == 0,
            forall|e: EntityId| !r.spec_alive(e),
    {
        Entities { slots: Vec::new(), free: Vec::new() }
    }

    /// Allocates a slot and returns the handle of the new live entity.
    ///
    /// The location starts at archetype 0, row 0; the caller stores the real
    /// location with `set_location` once the row exists.
    pub fn spawn(&mut self) -> (r: EntityId)
        requires
            old(self).wf(),
            old(self).slots@.len() + 1 < u32::MAX as int,
        ensures
            final(self).wf(),
            final(self).spec_alive(r),
            !old(self).spec_alive(r),
            final(self).arch_of(r) == 0,
            final(self).row_of(r) == 0,
            forall|e: EntityId|
                e.idx != r.idx ==> (final(self).spec_alive(e) <==> old(self).spec_alive(e)),
            forall|e: EntityId|
                e.idx != r.idx && old(self).spec_alive(e) ==> {
                    &&& final(self).arch_of(e) == old(self).arch_of(e)
                    &&& final(self).row_of(e) == old(self).row_of(e)
                },
            old(self).slots@.len() <= final(self).slots@.len() <= old(self).slots@.len() + 1,
            (r.idx as int) < final(self).slots@.len(),
            final(self).slots@[r.idx as int] == (Slot {
                gen_id: r.gen_id,
                loc: SlotLoc::Live { arch: 0, row: 0 },
            }),
            forall|s: int|
                0 <= s < final(self).slots@.len() && s != r.idx ==> s < old(self).slots@.len()
                    && final(self).slots@[s] == old(self).slots@[s],
            final(self).free@.len() <= old(self).free@.len(),
            (r.idx as int) < old(self).slots@.len() ==> old(self).slots@[r.idx as int].loc is Free,
    {
        match self.free.pop() {
            Some(idx) => {
                let gen_id = self.slots[idx as usize].gen_id;
                self.slots[idx as usize] = Slot { gen_id, loc: SlotLoc::Live { arch: 0, row: 0 } };
                EntityId { idx, gen_id }
            }
            None => {
                let idx = self.slots.len() as u32;
                self.slots.push(Slot { gen_id: 0, loc: SlotLoc::Live { arch: 0, row: 0 } });
                EntityId { idx, gen_id: 0 }
            }
        }
    }

    /// Resolves a handle to its (archetype, row) location, if it is live.
    pub fn get(&self, e: EntityId) -> (r: Option<(u32, u32)>)
        ensures
            r is Some <==> self.spec_alive(e),
            r is Some ==> r->0 == (self.arch_of(e), self.row_of(e)),
    {
        if (e.idx as usize) < self.slots.len() {
            let slot = self.slots[e.idx as usize];
            if slot.gen_id == e.gen_id {
                match slot.loc {
                    SlotLoc::Live { arch, row } => Some((arch, row)),
                    SlotLoc::Free => None,
                }
            } else {
                None
            }
        } else {
            None
        }
    }

    /// Frees a live handle's slot, bumps its generation, and returns the old
    /// location. Returns `None` if the handle does not resolve.
    pub fn despawn(&mut self, e: EntityId) -> (r: Option<(u32, u32)>)
        requires
            old(self).wf(),
        ensures
            final(self).wf(),
            r is Some <==> old(self).spec_alive(e),
            r is None ==> *final(self) == *old(self),
            r is Some ==> {
                &&& r->0 == (old(self).arch_of(e), old(self).row_of(e))
                &&& forall|e2: EntityId|
                    final(self).spec_alive(e2) <==> (old(self).spec_alive(e2) && e2.idx != e.idx)
                &&& forall|e2: EntityId|
                    e2.idx != e.idx && old(self).spec_alive(e2) ==> {
                        &&& final(self).arch_of(e2) == old(self).arch_of(e2)
                        &&& final(self).row_of(e2) == old(self).row_of(e2)
                    }
                &&& final(self).slots@.len() == old(self).slots@.len()
                &&& final(self).free@.len() >= old(self).free@.len()
                &&& forall|s: int|
                    0 <= s < final(self).slots@.len() && s != e.idx
                        ==> #[trigger] final(self).slots@[s] == old(self).slots@[s]
                &&& final(self).slots@[e.idx as int].loc is Free
            },
    {
        if (e.idx as usize) < self.slots.len() {
            let slot = self.slots[e.idx as usize];
            if slot.gen_id == e.gen_id {
                match slot.loc {
                    SlotLoc::Live { arch, row } => {
                        let new_gen: u32 = slot.gen_id + 1;
                        self.slots[e.idx as usize] = Slot { gen_id: new_gen, loc: SlotLoc::Free };
                        if new_gen < u32::MAX {
                            let ghost old_free = self.free@;
                            self.free.push(e.idx);
                            proof {
                                assert(forall|i: int|
                                    0 <= i < old_free.len() ==> old_free[i] == self.free@[i]);
                            }
                        }
                        Some((arch, row))
                    }
                    SlotLoc::Free => None,
                }
            } else {
                None
            }
        } else {
            None
        }
    }

    /// Stores the location of slot `idx`, which must be live.
    pub fn set_location(&mut self, idx: u32, arch: u32, row: u32)
        requires
            old(self).wf(),
            (idx as int) < old(self).slots@.len(),
            old(self).slots@[idx as int].loc is Live,
        ensures
            final(self).wf(),
            final(self).slots@ == old(self).slots@.update(
                idx as int,
                Slot {
                    gen_id: old(self).slots@[idx as int].gen_id,
                    loc: SlotLoc::Live { arch, row },
                },
            ),
            final(self).free@ == old(self).free@,
            forall|e: EntityId| final(self).spec_alive(e) <==> old(self).spec_alive(e),
    {
        let gen_id = self.slots[idx as usize].gen_id;
        self.slots[idx as usize] = Slot { gen_id, loc: SlotLoc::Live { arch, row } };
    }

    /// Returns the live handle occupying slot `idx`, if any.
    pub fn find_entity(&self, idx: u32) -> (r: Option<EntityId>)
        ensures
            r is Some <==> ((idx as int) < self.slots@.len()
                && self.slots@[idx as int].loc is Live),
            r is Some ==> {
                &&& r->0 == (EntityId { idx, gen_id: self.slots@[idx as int].gen_id })
                &&& self.spec_alive(r->0)
            },
    {
        if (idx as usize) < self.slots.len() {
            let slot = self.slots[idx as usize];
            match slot.loc {
                SlotLoc::Live { .. } => Some(EntityId { idx, gen_id: slot.gen_id }),
                SlotLoc::Free => None,
            }
        } else {
            None
        }
    }
}

} // verus!
