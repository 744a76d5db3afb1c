//! The world: top-level container for entities and their components.
//!
//! The world owns the entity directory, the archetype list, the transition
//! cache, the component registry and the epoch counter, and orchestrates them:
//! a mutating call resolves the entity, consults the edges for the destination
//! archetype, moves the row, updates the directory and bumps the epoch.
//!
//! Its central invariant ties the directory and the archetypes together: a
//! live slot points at exactly one archetype row whose stored id is the
//! handle, and every row points back at its live slot.

use vstd::prelude::*;

use crate::action::{Action, HookEvent};
use crate::archetype::{col_wf, lemma_comp_map_stable, Archetype};
use crate::bundle::{bundle_ids_distinct, sort_bundle};
use crate::comp::{comp_wf, spec_origin_key, spec_plain_key, spec_target_key, CompVal, CompValue, OriginCompView, OriginEntry, TargetCompView};
use crate::component::ComponentRegistry;
use crate::edges::{edges_insert, edges_wf, find_or_create_archetype, lemma_sorted_unique, Edges};
use crate::entity::{Entities, EntityId, Slot, SlotLoc};
use crate::epoch::{EpochCounter, EpochId};
use crate::builder::WorldBuilder;

verus! {

/// Error: the handle does not name a live entity.
#[derive(Clone, Copy, PartialEq, Eq, Structural, Debug, Hash)]
pub struct NoSuchEntity;

/// Error: the entity lacks the requested component.
#[derive(Clone, Copy, PartialEq, Eq, Structural, Debug, Hash)]
pub struct MissingComponents;

/// Error of entity-scoped component operations.
#[derive(Clone, Copy, PartialEq, Eq, Structural, Debug, Hash)]
pub enum EntityError {
    /// The handle does not name a live entity.
    NoSuchEntity,
    /// The entity lacks the requested component.
    MissingComponents,
}

/// Error of the single-entity query operations.
#[derive(Clone, Copy, PartialEq, Eq, Structural, Debug, Hash)]
pub enum QueryOneError {
    /// The handle does not name a live entity.
    NoSuchEntity,
    /// The query's filters reject the entity.
    NotSatisfied,
}

/// Container for entities with any sets of components.
pub struct World {
    /// The monotonic epoch counter; bumped once per mutating call.
    pub epochs: EpochCounter,
    /// The entity directory.
    pub entities: Entities,
    /// All archetypes; index 0 is the null archetype with no components.
    pub archetypes: Vec<Archetype>,
    /// The cached archetype transitions.
    pub edges: Edges,
    /// The registered plain components.
    pub registry: ComponentRegistry,
    /// Every hook invocation so far, oldest first.
    pub events: Vec<HookEvent>,
}

impl World {
    /// The current epoch.
    pub open spec fn spec_epoch(&self) -> u64 {
        self.epochs.spec_value()
    }

    /// True if the handle names a live entity.
    pub open spec fn spec_alive(&self, e: EntityId) -> bool {
        self.entities.spec_alive(e)
    }

    /// Archetype index of a live entity.
    pub open spec fn arch_of(&self, e: EntityId) -> int {
        self.entities.arch_of(e) as int
    }

    /// Row index of a live entity.
    pub open spec fn row_of(&self, e: EntityId) -> int {
        self.entities.row_of(e) as int
    }

    /// The components of a live entity, as a map from component key to value.
    pub open spec fn comps(&self, e: EntityId) -> Map<u64, CompVal> {
        self.archetypes@[self.arch_of(e)].comp_map(self.row_of(e))
    }

    /// Every live slot points at a row, in range, that stores its handle.
    pub open spec fn dir_to_arch_ok(&self) -> bool {
        forall|s: int|
            0 <= s < self.entities.slots@.len() && (#[trigger] self.entities.slots@[s]).loc
                is Live ==> {
                let arch = self.entities.slots@[s].loc->arch as int;
                let row = self.entities.slots@[s].loc->row as int;
                &&& arch < self.archetypes@.len()
                &&& row < self.archetypes@[arch].spec_len()
                &&& self.archetypes@[arch].entities@[row] == (EntityId {
                    idx: s as u32,
                    gen_id: self.entities.slots@[s].gen_id,
                })
            }
    }

    /// Every archetype row stores the handle of a live slot that points back
    /// at that row.
    pub open spec fn arch_to_dir_ok(&self) -> bool {
        forall|a: int, r: int|
            0 <= a < self.archetypes@.len() && 0 <= r < self.archetypes@[a].spec_len() ==> {
                let id = #[trigger] self.archetypes@[a].entities@[r];
                &&& (id.idx as int) < self.entities.slots@.len()
                &&& self.entities.slots@[id.idx as int].gen_id == id.gen_id
                &&& self.entities.slots@[id.idx as int].loc == (SlotLoc::Live {
                    arch: a as u32,
                    row: r as u32,
                })
            }
    }

    /// Well-formedness of the whole world.
    pub open spec fn wf(&self) -> bool {
        &&& self.entities.wf()
        &&& 1 <= self.archetypes@.len() <= u32::MAX as int
        &&& self.archetypes@[0].columns@.len() == 0
        &&& forall|a: int| 0 <= a < self.archetypes@.len() ==> (#[trigger] self.archetypes@[a]).wf()
        &&& forall|a: int|
            0 <= a < self.archetypes@.len() ==> (#[trigger] self.archetypes@[a]).epochs_le(
                self.epochs.spec_value(),
            )
        &&& self.dir_to_arch_ok()
        &&& self.arch_to_dir_ok()
        &&& edges_wf(&self.edges, self.archetypes@)
    }

    /// Returns a new builder.
    pub fn builder() -> (b: WorldBuilder)
        ensures
            forall|id: u32| !b.registry.spec_has(id),
    {
        WorldBuilder::new()
    }

    /// Returns a new world with no entities.
    pub fn new() -> (w: World)
        ensures
            w.wf(),
            w.spec_epoch() == 0,
            forall|e: EntityId| !w.spec_alive(e),
            w.events@.len() == 0,
            forall|id: u32| !w.registry.spec_has(id),
            w.entities.slots@.len() == 0,
            w.archetypes@.len() == 1,
            w.archetypes@[0].spec_len() == 0,
            w.archetypes@[0].columns@.len() == 0,
            w.edges.edges@.len() == 0,
    {
        WorldBuilder::new().build()
    }

    /// The current epoch of this world.
    pub fn epoch(&self) -> (r: u64)
        ensures
            r == self.spec_epoch(),
    {
        self.epochs.current().value
    }

    /// Checks whether the entity is still alive.
    pub fn is_alive(&self, entity: EntityId) -> (r: bool)
        ensures
            r == self.spec_alive(entity),
    {
        self.entities.get(entity).is_some()
    }

    /// Returns the live handle occupying slot `idx`, if any.
    pub fn find_entity(&self, idx: u32) -> (r: Result<EntityId, NoSuchEntity>)
        ensures
            r is Ok <==> ((idx as int) < self.entities.slots@.len()
                && self.entities.slots@[idx as int].loc is Live),
            r is Ok ==> self.spec_alive(r->Ok_0) && r->Ok_0.idx == idx,
    {
        match self.entities.find_entity(idx) {
            Some(e) => Ok(e),
            None => Err(NoSuchEntity),
        }
    }

    /// Checks whether the entity carries the plain component `comp`.
    pub fn has_component(&self, entity: EntityId, comp: u32) -> (r: Result<bool, NoSuchEntity>)
        requires
            self.wf(),
        ensures
            r is Ok <==> self.spec_alive(entity),
            r is Ok ==> r->Ok_0 == self.comps(entity).contains_key(spec_plain_key(comp)),
    {
        match self.entities.get(entity) {
            Some((arch, _row)) => {
                let has = self.archetypes[arch as usize].has_component(crate::comp::plain_key(comp));
                Ok(has)
            }
            None => Err(NoSuchEntity),
        }
    }

    /// Rows of one archetype never outnumber the directory's slots: each row
    /// is owned by a distinct live slot.
    pub proof fn lemma_arch_rows_le_slots(&self, a: int)
        requires
            self.wf(),
            0 <= a < self.archetypes@.len(),
        ensures
            self.archetypes@[a].spec_len() <= self.entities.slots@.len(),
    {
        let rows = self.archetypes@[a].entities@;
        let ids = rows.map_values(|e: EntityId| e.idx as int);
        let nslots = self.entities.slots@.len() as int;
        assert forall|i: int, j: int| 0 <= i < j < ids.len() implies ids[i] != ids[j] by {
            let e1 = rows[i];
            let e2 = rows[j];
            assert(self.entities.slots@[e1.idx as int].loc == (SlotLoc::Live {
                arch: a as u32,
                row: i as u32,
            }));
            assert(self.entities.slots@[e2.idx as int].loc == (SlotLoc::Live {
                arch: a as u32,
                row: j as u32,
            }));
            if e1.idx == e2.idx {
                assert(i as u32 == j as u32);
            }
        }
        assert(ids.no_duplicates());
        ids.unique_seq_to_set();
        let range = vstd::set_lib::set_int_range(0, nslots);
        assert forall|x: int| ids.to_set().contains(x) implies range.contains(x) by {
            let i = choose|i: int| 0 <= i < ids.len() && ids[i] == x;
            let e1 = rows[i];
            assert(self.entities.slots@[e1.idx as int].loc == (SlotLoc::Live {
                arch: a as u32,
                row: i as u32,
            }));
        }
        vstd::set_lib::lemma_int_range(0, nslots);
        vstd::set_lib::lemma_len_subset(ids.to_set(), range);
    }

    /// As above, but strict: a live entity outside archetype `a` occupies a
    /// slot that no row of `a` uses.
    pub proof fn lemma_arch_rows_lt_slots(&self, a: int, e: EntityId)
        requires
            self.wf(),
            0 <= a < self.archetypes@.len(),
            self.spec_alive(e),
            self.arch_of(e) != a,
        ensures
            self.archetypes@[a].spec_len() + 1 <= self.entities.slots@.len(),
    {
        let rows = self.archetypes@[a].entities@;
        let ids = rows.map_values(|x: EntityId| x.idx as int).push(e.idx as int);
        let nslots = self.entities.slots@.len() as int;
        assert forall|i: int, j: int| 0 <= i < j < ids.len() implies ids[i] != ids[j] by {
            if j < ids.len() - 1 {
                let e1 = rows[i];
                let e2 = rows[j];
                assert(self.entities.slots@[e1.idx as int].loc == (SlotLoc::Live {
                    arch: a as u32,
                    row: i as u32,
                }));
                assert(self.entities.slots@[e2.idx as int].loc == (SlotLoc::Live {
                    arch: a as u32,
                    row: j as u32,
                }));
                if e1.idx == e2.idx {
                    assert(i as u32 == j as u32);
                }
            } else {
                let e1 = rows[i];
                assert(self.entities.slots@[e1.idx as int].loc == (SlotLoc::Live {
                    arch: a as u32,
                    row: i as u32,
                }));
                assert(self.entities.slots@[e.idx as int].loc is Live);
                assert(self.entities.slots@[e.idx as int].loc->arch == self.entities.arch_of(e));
            }
        }
        assert(ids.no_duplicates());
        ids.unique_seq_to_set();
        let range = vstd::set_lib::set_int_range(0, nslots);
        assert forall|x: int| ids.to_set().contains(x) implies range.contains(x) by {
            let i = choose|i: int| 0 <= i < ids.len() && ids[i] == x;
            if i < ids.len() - 1 {
                let e1 = rows[i];
                assert(self.entities.slots@[e1.idx as int].loc == (SlotLoc::Live {
                    arch: a as u32,
                    row: i as u32,
                }));
            }
        }
        vstd::set_lib::lemma_int_range(0, nslots);
        vstd::set_lib::lemma_len_subset(ids.to_set(), range);
    }

    /// The row epoch stored for the column of key `k` at a live entity.
    pub open spec fn entity_epoch_of(&self, e: EntityId, k: u64) -> u64 {
        let a = self.archetypes@[self.arch_of(e)];
        a.columns@[a.col_idx(k)].entity_epochs@[self.row_of(e)].value
    }

    /// Spawns a new entity with the given bundle of plain components; the
    /// bundle's component ids are registered on the fly.
    pub fn spawn(&mut self, bundle: &Vec<(u32, u64)>) -> (e: EntityId)
        requires
            old(self).wf(),
            bundle_ids_distinct(bundle@),
            old(self).entities.slots@.len() + 1 < u32::MAX as int,
            old(self).archetypes@.len() < u32::MAX as int,
            old(self).spec_epoch() < u64::MAX,
        ensures
            final(self).wf(),
            spawn_effect(old(self), bundle@, final(self), e),
            old(self).entities.slots@.len() <= final(self).entities.slots@.len() <= old(
                self,
            ).entities.slots@.len() + 1,
            final(self).archetypes@.len() <= old(self).archetypes@.len() + 1,
            forall|x: u32|
                final(self).registry.spec_has(x) == (old(self).registry.spec_has(x) || exists|
                    i: int,
                |
                    0 <= i < bundle@.len() && (#[trigger] bundle@[i]).0 == x),
    {
        let epoch = self.epochs.next_mut();
        let ghost w1 = *self;
        proof {
            lemma_wf_epoch_monotone(old(self), &w1);
        }
        let e = self.spawn_at_impl(bundle, epoch);
        proof {
            lemma_spawn_lift(old(self), &w1, self, bundle@, e);
        }
        let n = bundle.len();
        let mut i: usize = 0;
        while i < n
            invariant
                n == bundle@.len(),
                i <= n,
                self.wf(),
                spawn_effect(old(self), bundle@, self, e),
                old(self).entities.slots@.len() <= self.entities.slots@.len() <= old(
                    self,
                ).entities.slots@.len() + 1,
                self.archetypes@.len() <= old(self).archetypes@.len() + 1,
                forall|x: u32|
                    self.registry.spec_has(x) == (old(self).registry.spec_has(x) || exists|j: int|
                        0 <= j < i && (#[trigger] bundle@[j]).0 == x),
            decreases n - i,
        {
            let ghost pre = *self;
            self.registry.register(bundle[i].0);
            proof {
                assert forall|x: u32|
                    self.registry.spec_has(x) == (old(self).registry.spec_has(x) || exists|j: int|
                        0 <= j < i + 1 && (#[trigger] bundle@[j]).0 == x) by {
                    if x == bundle@[i as int].0 {
                        assert(0 <= i < i + 1 && bundle@[i as int].0 == x);
                    }
                }
                assert(self.entities == pre.entities && self.archetypes == pre.archetypes
                    && self.epochs == pre.epochs && self.events == pre.events && self.edges
                    == pre.edges);
                assert(spawn_effect(old(self), bundle@, self, e)) by {
                    lemma_spawn_effect_congruent(old(self), &pre, self, bundle@, e);
                }
                assert(self.wf()) by {
                    lemma_wf_congruent(&pre, self);
                }
            }
            i = i + 1;
        }
        e
    }

    /// Spawns a new entity with the given bundle of plain components, all of
    /// which must have been registered beforehand.
    pub fn spawn_external(&mut self, bundle: &Vec<(u32, u64)>) -> (e: EntityId)
        requires
            old(self).wf(),
            bundle_ids_distinct(bundle@),
            forall|i: int|
                0 <= i < bundle@.len() ==> old(self).registry.spec_has((#[trigger] bundle@[i]).0),
            old(self).entities.slots@.len() + 1 < u32::MAX as int,
            old(self).archetypes@.len() < u32::MAX as int,
            old(self).spec_epoch() < u64::MAX,
        ensures
            final(self).wf(),
            spawn_effect(old(self), bundle@, final(self), e),
            old(self).entities.slots@.len() <= final(self).entities.slots@.len() <= old(
                self,
            ).entities.slots@.len() + 1,
            final(self).archetypes@.len() <= old(self).archetypes@.len() + 1,
            final(self).registry == old(self).registry,
    {
        let epoch = self.epochs.next_mut();
        let ghost w1 = *self;
        proof {
            lemma_wf_epoch_monotone(old(self), &w1);
        }
        let e = self.spawn_at_impl(bundle, epoch);
        proof {
            lemma_spawn_lift(old(self), &w1, self, bundle@, e);
        }
        e
    }

    /// Shared spawning logic: allocate the slot, find or create the
    /// archetype, append the row stamped with `epoch`, record the location.
    /// Does not move the clock; the caller owns the epoch policy.
    #[verifier::rlimit(60)]
    pub(crate) fn spawn_at_impl(&mut self, bundle: &Vec<(u32, u64)>, epoch: EpochId) -> (e:
        EntityId)
        requires
            old(self).wf(),
            bundle_ids_distinct(bundle@),
            old(self).entities.slots@.len() + 1 < u32::MAX as int,
            old(self).archetypes@.len() < u32::MAX as int,
            epoch.value <= old(self).spec_epoch(),
        ensures
            final(self).wf(),
            final(self).spec_epoch() == old(self).spec_epoch(),
            spawn_core_effect(old(self), bundle@, final(self), e, epoch.value),
            old(self).entities.slots@.len() <= final(self).entities.slots@.len() <= old(
                self,
            ).entities.slots@.len() + 1,
            final(self).archetypes@.len() <= old(self).archetypes@.len() + 1,
            final(self).registry == old(self).registry,
    {
        let sorted = sort_bundle(bundle);
        let n = sorted.len();
        let mut keys: Vec<u64> = Vec::new();
        let mut vals: Vec<CompValue> = Vec::new();
        let mut i: usize = 0;
        while i < n
            invariant
                n == sorted@.len(),
                i <= n,
                keys@.len() == i,
                vals@.len() == i,
                forall|i0: int, j0: int|
                    0 <= i0 < j0 < n ==> (#[trigger] sorted@[i0]).0 < (#[trigger] sorted@[j0]).0,
                forall|j: int|
                    0 <= j < i ==> #[trigger] keys@[j] == spec_plain_key(sorted@[j].0),
                forall|j: int|
                    0 <= j < i ==> #[trigger] vals@[j] == CompValue::Plain(sorted@[j].1),
            decreases n - i,
        {
            keys.push(crate::comp::plain_key(sorted[i].0));
            vals.push(CompValue::Plain(sorted[i].1));
            i = i + 1;
        }
        proof {
            assert forall|i0: int, j0: int| 0 <= i0 < j0 < keys@.len() implies keys@[i0]
                < keys@[j0] by {
                assert(sorted@[i0].0 < sorted@[j0].0);
            }
        }
        let dst = find_or_create_archetype(&mut self.archetypes, &keys);
        proof {
            assert forall|a: int|
                old(self).archetypes@.len() <= a < self.archetypes@.len() implies (
            #[trigger] self.archetypes@[a]).wf() && self.archetypes@[a].spec_len() == 0
                && self.archetypes@[a].epochs_le(0) by {
                assert(a == dst as int);
            }
            crate::edges::lemma_edges_wf_extend(
                &self.edges,
                old(self).archetypes@,
                self.archetypes@,
            );
            lemma_world_wf_after_arch_append(old(self), self);
            self.lemma_arch_rows_le_slots(dst as int);
        }
        let ghost mid = *self;
        let e = self.entities.spawn();
        let ghost dir1 = self.entities;
        let mut eps: Vec<EpochId> = Vec::new();
        let mut j: usize = 0;
        while j < n
            invariant
                j <= n,
                eps@.len() == j,
                forall|j0: int| 0 <= j0 < j ==> #[trigger] eps@[j0] == epoch,
            decreases n - j,
        {
            eps.push(epoch);
            j = j + 1;
        }
        proof {
            assert forall|i0: int| 0 <= i0 < vals@.len() implies comp_wf(
                self.archetypes@[dst as int].columns@[i0].comp,
                (#[trigger] vals@[i0])@,
            ) by {
                assert(self.archetypes@[dst as int].columns@[i0].comp == keys@[i0]);
                assert(keys@[i0] == spec_plain_key(sorted@[i0].0));
            }
        }
        let row = self.archetypes[dst as usize].push_row(e, vals, eps, epoch);
        self.entities.set_location(e.idx, dst, row as u32);
        proof {
            assert(slots_framed(&mid.entities, &self.entities, e.idx)) by {
                if self.entities.slots@.len() == mid.entities.slots@.len() + 1 {
                    assert((e.idx as int) == mid.entities.slots@.len()) by {
                        let s0 = mid.entities.slots@.len() as int;
                        if s0 != e.idx {
                            assert(dir1.slots@[s0] == mid.entities.slots@[s0]);
                        }
                    }
                }
                assert forall|s: int| #![trigger self.entities.slots@[s]]
                    0 <= s < self.entities.slots@.len() && s != e.idx implies self.entities.slots@[
                    s] == mid.entities.slots@[s] by {
                    assert(self.entities.slots@[s] == dir1.slots@[s]);
                    assert(dir1.slots@[s] == mid.entities.slots@[s]);
                }
            }
            assert(self.entities.slots@[e.idx as int] == (crate::entity::Slot {
                gen_id: e.gen_id,
                loc: SlotLoc::Live { arch: dst, row: row as u32 },
            }));
            lemma_spawn_establishes(
                &mid,
                self,
                e,
                dst as int,
                row as int,
                sorted@,
                keys@,
                bundle@,
                epoch.value,
            );
        }
        e
    }

    /// Attempts to insert a plain component on the entity, registering the
    /// component id on the fly. An existing value of the same component is
    /// replaced; otherwise the entity moves to the archetype with the
    /// component added.
    pub fn insert(&mut self, entity: EntityId, comp: u32, value: u64) -> (r: Result<
        (),
        NoSuchEntity,
    >)
        requires
            old(self).wf(),
            old(self).spec_epoch() < u64::MAX,
            old(self).archetypes@.len() < u32::MAX as int,
        ensures
            final(self).wf(),
            r is Ok <==> old(self).spec_alive(entity),
            r is Err ==> *final(self) == *old(self),
            r is Ok ==> insert_effect(
                old(self),
                entity,
                spec_plain_key(comp),
                CompVal::Plain(value),
                final(self),
            ),
            r is Ok ==> forall|x: u32|
                final(self).registry.spec_has(x) == (old(self).registry.spec_has(x) || x == comp),
            final(self).entities.slots@.len() == old(self).entities.slots@.len(),
            final(self).archetypes@.len() <= old(self).archetypes@.len() + 1,
    {
        if !self.is_alive(entity) {
            return Err(NoSuchEntity);
        }
        let epoch = self.epochs.next_mut();
        let ghost w1 = *self;
        self.set_key_at(entity, crate::comp::plain_key(comp), CompValue::Plain(value), epoch);
        let ghost pre = *self;
        self.registry.register(comp);
        proof {
            lemma_wf_congruent(&pre, self);
            lemma_epoch_bump_effect(old(self), &w1, &pre, entity, spec_plain_key(comp), CompVal::Plain(value));
            lemma_insert_effect_congruent(
                old(self),
                &pre,
                self,
                entity,
                spec_plain_key(comp),
                CompVal::Plain(value),
            );
        }
        Ok(())
    }

    /// Attempts to insert a plain component that was registered beforehand.
    pub fn insert_external(&mut self, entity: EntityId, comp: u32, value: u64) -> (r: Result<
        (),
        NoSuchEntity,
    >)
        requires
            old(self).wf(),
            old(self).registry.spec_has(comp),
            old(self).spec_epoch() < u64::MAX,
            old(self).archetypes@.len() < u32::MAX as int,
        ensures
            final(self).wf(),
            r is Ok <==> old(self).spec_alive(entity),
            r is Err ==> *final(self) == *old(self),
            r is Ok ==> insert_effect(
                old(self),
                entity,
                spec_plain_key(comp),
                CompVal::Plain(value),
                final(self),
            ),
            final(self).registry == old(self).registry,
            final(self).entities.slots@.len() == old(self).entities.slots@.len(),
            final(self).archetypes@.len() <= old(self).archetypes@.len() + 1,
    {
        if !self.is_alive(entity) {
            return Err(NoSuchEntity);
        }
        let epoch = self.epochs.next_mut();
        let ghost w1 = *self;
        self.set_key_at(entity, crate::comp::plain_key(comp), CompValue::Plain(value), epoch);
        proof {
            lemma_epoch_bump_effect(old(self), &w1, self, entity, spec_plain_key(comp), CompVal::Plain(value));
        }
        Ok(())
    }

    /// Puts `v` under key `k` on the live entity, stamping the write with
    /// `epoch`, the current epoch: replaces the stored value when the
    /// entity's archetype already has the column, and otherwise migrates the
    /// row to the archetype with the key added.
    pub(crate) fn set_key_at(&mut self, entity: EntityId, k: u64, v: CompValue, epoch: EpochId)
        requires
            old(self).wf(),
            old(self).spec_alive(entity),
            comp_wf(k, v@),
            epoch.value == old(self).spec_epoch(),
            old(self).archetypes@.len() < u32::MAX as int,
        ensures
            final(self).wf(),
            final(self).spec_epoch() == old(self).spec_epoch(),
            set_key_effect(old(self), entity, k, v@, final(self)),
            final(self).entity_epoch_of(entity, k) == epoch.value,
            final(self).registry == old(self).registry,
            final(self).entities.slots@.len() == old(self).entities.slots@.len(),
            old(self).archetypes@.len() <= final(self).archetypes@.len() <= old(
                self,
            ).archetypes@.len() + 1,
    {
        let (src, row) = match self.entities.get(entity) {
            Some(l) => l,
            None => {
                proof {
                    assert(false);
                }
                (0, 0)
            }
        };
        proof {
            assert(self.entities.slots@[entity.idx as int].loc is Live);
            assert(self.archetypes@[src as int].wf());
        }
        let found = self.archetypes[src as usize].find_col(k);
        match found {
            Some(ci) => {
                proof {
                    assert(old(self).archetypes@[src as int].epochs_le(old(self).spec_epoch()));
                    assert(old(self).archetypes@[src as int].columns@[ci as int].arch_epoch.value
                        <= old(self).spec_epoch());
                }
                self.archetypes[src as usize].set_value(ci, row as usize, v, epoch);
                proof {
                    lemma_set_value_establishes(
                        old(self),
                        self,
                        entity,
                        src as int,
                        row as int,
                        ci as int,
                        k,
                        v,
                    );
                }
            }
            None => {
                let dst = edges_insert(&mut self.edges, &mut self.archetypes, src, k);
                proof {
                    assert forall|a: int|
                        old(self).archetypes@.len() <= a < self.archetypes@.len() implies (
                    #[trigger] self.archetypes@[a]).wf() && self.archetypes@[a].spec_len() == 0
                        && self.archetypes@[a].epochs_le(0) by {
                        assert(a == dst as int);
                    }
                    lemma_world_wf_after_arch_append(old(self), self);
                    self.lemma_arch_rows_lt_slots(dst as int, entity);
                }
                let ghost w1 = *self;
                let pos = match self.archetypes[dst as usize].find_col(k) {
                    Some(p) => p,
                    None => {
                        proof {
                            assert(false);
                        }
                        0
                    }
                };
                proof {
                    lemma_add_alignment(
                        &w1.archetypes@[src as int],
                        &w1.archetypes@[dst as int],
                        k,
                        pos as int,
                    );
                }
                let out = self.archetypes[src as usize].take_row(row as usize);
                let mut vals = out.0;
                let mut eps = out.1;
                let moved = out.2;
                vals.insert(pos, v);
                eps.insert(pos, epoch);
                let ghost src_pre = w1.archetypes@[src as int];
                let ghost dst_pre = w1.archetypes@[dst as int];
                proof {
                    assert(vals@.len() == dst_pre.columns@.len());
                    assert forall|i: int| 0 <= i < vals@.len() implies comp_wf(
                        dst_pre.columns@[i].comp,
                        (#[trigger] vals@[i])@,
                    ) by {
                        if i < pos {
                            assert(vals@[i] == out.0@[i]);
                            assert(out.0@[i] == src_pre.columns@[i].values@[row as int]);
                            assert(col_wf(src_pre.columns@[i], src_pre.spec_len()));
                            assert(dst_pre.columns@[i].comp == src_pre.columns@[i].comp);
                        } else if i == pos {
                            assert(vals@[i] == v);
                        } else {
                            assert(vals@[i] == out.0@[i - 1]);
                            assert(out.0@[i - 1] == src_pre.columns@[i - 1].values@[row as int]);
                            assert(col_wf(src_pre.columns@[i - 1], src_pre.spec_len()));
                            assert(dst_pre.columns@[i].comp == src_pre.columns@[i - 1].comp);
                        }
                    }
                    assert forall|i: int| 0 <= i < eps@.len() implies (#[trigger] eps@[i]).value
                        <= epoch.value by {
                        if i < pos {
                            assert(eps@[i] == out.1@[i]);
                            assert(out.1@[i] == src_pre.columns@[i].entity_epochs@[row as int]);
                            assert(col_wf(src_pre.columns@[i], src_pre.spec_len()));
                            crate::archetype::lemma_chunk_of_bound(row as int, src_pre.spec_len());
                            assert(src_pre.epochs_le(w1.spec_epoch()));
                        } else if i > pos {
                            assert(eps@[i] == out.1@[i - 1]);
                            assert(out.1@[i - 1] == src_pre.columns@[i
                                - 1].entity_epochs@[row as int]);
                            assert(col_wf(src_pre.columns@[i - 1], src_pre.spec_len()));
                            crate::archetype::lemma_chunk_of_bound(row as int, src_pre.spec_len());
                            assert(src_pre.epochs_le(w1.spec_epoch()));
                        }
                    }
                    assert(self.archetypes@[dst as int].spec_len() + 1 < u32::MAX as int);
                }
                let ghost gvals = vals@;
                let dst_row = self.archetypes[dst as usize].push_row(entity, vals, eps, epoch);
                proof {
                    assert forall|i: int|
                        0 <= i < self.archetypes@[dst as int].columns@.len() implies (
                    #[trigger] self.archetypes@[dst as int].columns@[i]).values@.drop_last()
                        == dst_pre.columns@[i].values@ by {
                        assert(self.archetypes@[dst as int].columns@[i].values@
                            == dst_pre.columns@[i].values@.push(gvals[i]));
                        assert(dst_pre.columns@[i].values@.push(gvals[i]).drop_last()
                            =~= dst_pre.columns@[i].values@);
                    }
                }
                self.entities.set_location(entity.idx, dst, dst_row as u32);
                let ghost dir_a = self.entities;
                match moved {
                    Some(m) => {
                        proof {
                            assert(w1.archetypes@[src as int].entities@[src_pre.spec_len() - 1]
                                == m);
                            assert(w1.entities.slots@[m.idx as int].loc == (SlotLoc::Live {
                                arch: src,
                                row: (src_pre.spec_len() - 1) as u32,
                            }));
                            assert(m.idx != entity.idx);
                            assert(self.entities.slots@[m.idx as int]
                                == w1.entities.slots@[m.idx as int]);
                        }
                        self.entities.set_location(m.idx, src, row);
                    }
                    None => {}
                }
                proof {
                    assert(slots_framed2(
                        &w1.entities,
                        &self.entities,
                        entity.idx,
                        match moved {
                            Some(m) => m.idx,
                            None => entity.idx,
                        },
                    )) by {
                        assert forall|s: int| #![trigger self.entities.slots@[s]]
                            0 <= s < self.entities.slots@.len() && s != entity.idx && s != (
                        match moved {
                            Some(m) => m.idx,
                            None => entity.idx,
                        }) implies self.entities.slots@[s] == w1.entities.slots@[s] by {
                            assert(self.entities.slots@[s] == dir_a.slots@[s]);
                        }
                    }
                    lemma_migrate_establishes(
                        &w1,
                        self,
                        entity,
                        src as int,
                        row as int,
                        dst as int,
                        dst_row as int,
                        moved,
                    );
                    lemma_insert_comps_content(
                        &w1,
                        self,
                        entity,
                        src as int,
                        row as int,
                        dst as int,
                        dst_row as int,
                        k,
                        v@,
                        pos as int,
                    );
                    assert(set_key_effect(old(self), entity, k, v@, self));
                }
            }
        }
    }

    /// Borrows the stored value under key `k` of the entity, if the entity
    /// is alive and has the component.
    pub fn get_comp(&self, entity: EntityId, k: u64) -> (r: Option<&CompValue>)
        requires
            self.wf(),
        ensures
            r is Some <==> self.spec_alive(entity) && self.comps(entity).contains_key(k),
            r is Some ==> (r->0)@ == self.comps(entity)[k],
    {
        let (arch, row) = match self.entities.get(entity) {
            Some(l) => l,
            None => {
                return None;
            }
        };
        proof {
            assert(self.entities.slots@[entity.idx as int].loc is Live);
            assert(self.archetypes@[arch as int].wf());
        }
        match self.archetypes[arch as usize].find_col(k) {
            Some(ci) => {
                let v = self.archetypes[arch as usize].value_at(ci, row as usize);
                proof {
                    self.archetypes@[arch as int].lemma_col_idx(k);
                }
                Some(v)
            }
            None => None,
        }
    }

    /// Reads a plain component's value from the entity.
    pub fn get(&self, entity: EntityId, comp: u32) -> (r: Result<u64, EntityError>)
        requires
            self.wf(),
        ensures
            r is Ok <==> self.spec_alive(entity) && self.comps(entity).contains_key(
                spec_plain_key(comp),
            ),
            r == Err::<u64, EntityError>(EntityError::NoSuchEntity) <==> !self.spec_alive(entity),
            r is Ok ==> self.comps(entity)[spec_plain_key(comp)] == CompVal::Plain(r->Ok_0),
    {
        if !self.is_alive(entity) {
            return Err(EntityError::NoSuchEntity);
        }
        match self.get_comp(entity, crate::comp::plain_key(comp)) {
            Some(v) => match v {
                CompValue::Plain(x) => Ok(*x),
                _ => {
                    proof {
                        assert(comp_wf(
                            spec_plain_key(comp),
                            self.comps(entity)[spec_plain_key(comp)],
                        )) by {
                            let a0 = self.archetypes@[self.arch_of(entity)];
                            assert(self.entities.slots@[entity.idx as int].loc is Live);
                            assert(a0.wf());
                            a0.lemma_col_idx(spec_plain_key(comp));
                            assert(col_wf(
                                a0.columns@[a0.col_idx(spec_plain_key(comp))],
                                a0.spec_len(),
                            ));
                        }
                        assert(false);
                    }
                    Ok(0)
                }
            },
            None => Err(EntityError::MissingComponents),
        }
    }

    /// Copies the origin container of relation `rel` on the entity, if any.
    pub fn read_origins(&self, entity: EntityId, rel: u32) -> (r: Option<(bool, bool, Vec<
        OriginEntry,
    >)>)
        requires
            self.wf(),
        ensures
            r is Some <==> self.spec_alive(entity) && self.comps(entity).contains_key(
                spec_origin_key(rel),
            ),
            r is Some ==> self.comps(entity)[spec_origin_key(rel)] == CompVal::Origins(
                OriginCompView {
                    exclusive: (r->0).0,
                    symmetric: (r->0).1,
                    entries: (r->0).2@,
                },
            ),
    {
        match self.get_comp(entity, crate::comp::origin_key(rel)) {
            Some(v) => match v {
                CompValue::Origins(o) => {
                    let mut entries: Vec<OriginEntry> = Vec::new();
                    let n = o.entries.len();
                    let mut i: usize = 0;
                    while i < n
                        invariant
                            n == o.entries@.len(),
                            i <= n,
                            entries@ == o.entries@.subrange(0, i as int),
                        decreases n - i,
                    {
                        entries.push(o.entries[i]);
                        proof {
                            assert(entries@ =~= o.entries@.subrange(0, i + 1));
                        }
                        i = i + 1;
                    }
                    proof {
                        assert(entries@ =~= o.entries@);
                    }
                    Some((o.exclusive, o.symmetric, entries))
                }
                _ => {
                    proof {
                        lemma_comp_shape(self, entity, spec_origin_key(rel));
                        assert(false);
                    }
                    None
                }
            },
            None => None,
        }
    }

    /// Copies the target container of relation `rel` on the entity, if any.
    pub fn read_targets(&self, entity: EntityId, rel: u32) -> (r: Option<(bool, Vec<EntityId>)>)
        requires
            self.wf(),
        ensures
            r is Some <==> self.spec_alive(entity) && self.comps(entity).contains_key(
                spec_target_key(rel),
            ),
            r is Some ==> self.comps(entity)[spec_target_key(rel)] == CompVal::Targets(
                TargetCompView { exclusive: (r->0).0, origins: (r->0).1@ },
            ),
    {
        match self.get_comp(entity, crate::comp::target_key(rel)) {
            Some(v) => match v {
                CompValue::Targets(t) => {
                    let mut origins: Vec<EntityId> = Vec::new();
                    let n = t.origins.len();
                    let mut i: usize = 0;
                    while i < n
                        invariant
                            n == t.origins@.len(),
                            i <= n,
                            origins@ == t.origins@.subrange(0, i as int),
                        decreases n - i,
                    {
                        origins.push(t.origins[i]);
                        proof {
                            assert(origins@ =~= t.origins@.subrange(0, i + 1));
                        }
                        i = i + 1;
                    }
                    proof {
                        assert(origins@ =~= t.origins@);
                    }
                    Some((t.exclusive, origins))
                }
                _ => {
                    proof {
                        lemma_comp_shape(self, entity, spec_target_key(rel));
                        assert(false);
                    }
                    None
                }
            },
            None => None,
        }
    }

    /// Despawns the entity: its row leaves its archetype, its slot is freed
    /// with a bumped generation, and every relation it took part in is
    /// cleaned from the other side, firing the drop hooks.
    pub fn despawn(&mut self, entity: EntityId) -> (r: Result<(), NoSuchEntity>)
        requires
            old(self).wf(),
            old(self).spec_epoch() < u64::MAX,
            old(self).archetypes@.len() < u32::MAX as int,
        ensures
            final(self).wf(),
            r is Ok <==> old(self).spec_alive(entity),
            r is Err ==> *final(self) == *old(self),
            r is Ok ==> {
                &&& final(self).spec_epoch() == old(self).spec_epoch() + 1
                &&& forall|e2: EntityId|
                    final(self).spec_alive(e2) <==> (old(self).spec_alive(e2) && e2.idx
                        != entity.idx)
                &&& crate::relation::plain_frame_except(old(self), final(self), entity)
                &&& forall|rel: u32, t: EntityId|
                    #![trigger crate::relation::has_origin_entry(old(self).comps(entity), rel, t)]
                    crate::relation::has_origin_entry(old(self).comps(entity), rel, t) ==> {
                        &&& final(self).events@.contains(
                            HookEvent::RelationDrop { rel, origin: entity, target: t },
                        )
                        &&& (old(self).comps(entity)[spec_origin_key(rel)]->Origins_0.symmetric
                            ==> final(self).events@.contains(
                            HookEvent::RelationTargetDrop { rel, origin: t, target: entity },
                        ))
                    }
                &&& forall|rel: u32, o2: EntityId|
                    #![trigger crate::relation::has_target_entry(old(self).comps(entity), rel, o2)]
                    crate::relation::has_target_entry(old(self).comps(entity), rel, o2)
                        ==> final(self).events@.contains(
                        HookEvent::RelationTargetDrop { rel, origin: o2, target: entity },
                    )
                &&& (final(self).archetypes@.len() + 1 < u32::MAX as int ==> {
                    &&& forall|rel: u32, t: EntityId|
                        #![trigger crate::relation::has_origin_entry(
                            old(self).comps(entity),
                            rel,
                            t,
                        )]
                        crate::relation::has_origin_entry(old(self).comps(entity), rel, t) && t
                            != entity && old(self).spec_alive(t) ==> {
                            &&& (old(self).comps(entity)[spec_origin_key(
                                rel,
                            )]->Origins_0.symmetric ==> !crate::relation::has_origin_entry(
                                final(self).comps(t),
                                rel,
                                entity,
                            ))
                            &&& (!old(self).comps(entity)[spec_origin_key(
                                rel,
                            )]->Origins_0.symmetric ==> !crate::relation::has_target_entry(
                                final(self).comps(t),
                                rel,
                                entity,
                            ))
                        }
                    &&& forall|rel: u32, o2: EntityId|
                        #![trigger crate::relation::has_target_entry(
                            old(self).comps(entity),
                            rel,
                            o2,
                        )]
                        crate::relation::has_target_entry(old(self).comps(entity), rel, o2) && o2
                            != entity && old(self).spec_alive(o2)
                            ==> !crate::relation::has_origin_entry(
                            final(self).comps(o2),
                            rel,
                            entity,
                        )
                })
            },
            final(self).entities.slots@.len() == old(self).entities.slots@.len(),
            final(self).archetypes@.len() < u32::MAX as int,
    {
        let (src, row) = match self.entities.get(entity) {
            Some(l) => l,
            None => {
                return Err(NoSuchEntity);
            }
        };
        proof {
            assert(self.entities.slots@[entity.idx as int].loc is Live);
            assert(self.archetypes@[src as int].wf());
        }
        let epoch = self.epochs.next_mut();
        let ghost w1 = *self;
        proof {
            lemma_wf_epoch_monotone(old(self), &w1);
        }
        let ghost big_c = old(self).comps(entity);
        let ghost arch0 = old(self).archetypes@[src as int];
        let tasks = self.gather_relation_tasks(entity, src, row);
        let ghost w2pre = *self;
        proof {
            lemma_wf_congruent(&w1, &w2pre);
            assert(w2pre.comps(entity) == w1.comps(entity));
            assert(w1.comps(entity) == big_c);
            assert(w1.archetypes@[src as int] == arch0);
            assert(gather_covered(
                big_c,
                entity,
                arch0,
                arch0.columns@.len() as int,
                w2pre.events@,
                tasks@,
            ));
        }
        let out = self.archetypes[src as usize].take_row(row as usize);
        let moved = out.2;
        let _ = self.entities.despawn(entity);
        let ghost dir_a = self.entities;
        match moved {
            Some(m) => {
                proof {
                    assert(w2pre.archetypes@[src as int].entities@[w2pre.archetypes@[src
                        as int].spec_len() - 1] == m);
                    assert(w2pre.entities.slots@[m.idx as int].loc == (SlotLoc::Live {
                        arch: src,
                        row: (w2pre.archetypes@[src as int].spec_len() - 1) as u32,
                    }));
                    assert(m.idx != entity.idx);
                    assert(self.entities.slots@[m.idx as int]
                        == w2pre.entities.slots@[m.idx as int]);
                }
                self.entities.set_location(m.idx, src, row);
            }
            None => {}
        }
        proof {
            assert(slots_framed2(
                &w2pre.entities,
                &self.entities,
                entity.idx,
                match moved {
                    Some(m) => m.idx,
                    None => entity.idx,
                },
            )) by {
                assert forall|s: int| #![trigger self.entities.slots@[s]]
                    0 <= s < self.entities.slots@.len() && s != entity.idx && s != (
                match moved {
                    Some(m) => m.idx,
                    None => entity.idx,
                }) implies self.entities.slots@[s] == w2pre.entities.slots@[s] by {
                    assert(self.entities.slots@[s] == dir_a.slots@[s]);
                }
            }
            lemma_despawn_establishes(&w2pre, self, entity, src as int, row as int, moved);
        }
        let ghost w2 = *self;
        proof {
            assert(crate::relation::plain_preserved(&w2, self));
        }
        proof {
            assert(w2.entities.slots@.len() == old(self).entities.slots@.len());
            assert(w2.archetypes@.len() < u32::MAX as int);
            assert(w2.events@ == w2pre.events@);
        }
        let nt = tasks.len();
        let mut ti: usize = 0;
        while ti < nt
            invariant
                self.wf(),
                self.spec_epoch() == w2.spec_epoch(),
                epoch.value == self.spec_epoch(),
                forall|e2: EntityId| self.spec_alive(e2) == w2.spec_alive(e2),
                crate::relation::plain_preserved(&w2, self),
                self.entities.slots@.len() == w2.entities.slots@.len(),
                self.archetypes@.len() < u32::MAX as int,
                w2.archetypes@.len() <= self.archetypes@.len(),
                w2.events@.is_prefix_of(self.events@),
                nt == tasks@.len(),
                ti <= nt,
                self.archetypes@.len() + 1 < u32::MAX as int ==> forall|x: int|
                    0 <= x < ti ==> task_done(#[trigger] tasks@[x], entity, self),
            decreases nt - ti,
        {
            let t = tasks[ti];
            if self.archetypes.len() < (u32::MAX - 1) as usize {
                let ghost cur = *self;
                let found: bool;
                if t.0 {
                    found = self.clean_origin_entry(t.1, entity, t.2, epoch);
                } else {
                    found = self.clean_target_entry(t.1, entity, t.2, epoch);
                }
                proof {
                    // the freshly cleaned counterpart no longer records the entity,
                    // and counterparts cleaned earlier stay clean
                    if t.0 {
                        if cur.spec_alive(t.1) {
                            if crate::relation::has_origin_entry(cur.comps(t.1), t.2, entity) {
                                lemma_comp_shape(&cur, t.1, spec_origin_key(t.2));
                            }
                            crate::relation::lemma_origin_cleaned(cur.comps(t.1), t.2, entity);
                        }
                    } else {
                        if cur.spec_alive(t.1) {
                            if crate::relation::has_target_entry(cur.comps(t.1), t.2, entity) {
                                lemma_comp_shape(&cur, t.1, spec_target_key(t.2));
                            }
                            crate::relation::lemma_target_record_cleaned(cur.comps(t.1), t.2, entity);
                        }
                    }
                    assert(task_done(tasks@[ti as int], entity, self));
                    if self.archetypes@.len() + 1 < u32::MAX as int {
                        assert forall|x: int|
                            0 <= x < ti + 1 implies task_done(
                            #[trigger] tasks@[x],
                            entity,
                            self,
                        ) by {
                            if x < ti {
                                let tx = tasks@[x];
                                assert(task_done(tx, entity, &cur));
                                if self.spec_alive(tx.1) {
                                    assert(cur.spec_alive(tx.1));
                                    if tx.1 == t.1 {
                                        if t.0 {
                                            if crate::relation::has_origin_entry(
                                                cur.comps(t.1),
                                                t.2,
                                                entity,
                                            ) {
                                                lemma_comp_shape(
                                                    &cur,
                                                    t.1,
                                                    spec_origin_key(t.2),
                                                );
                                            }
                                            crate::relation::lemma_cleaned_origin_mono(
                                                cur.comps(t.1),
                                                t.2,
                                                entity,
                                            );
                                        } else {
                                            if crate::relation::has_target_entry(
                                                cur.comps(t.1),
                                                t.2,
                                                entity,
                                            ) {
                                                lemma_comp_shape(
                                                    &cur,
                                                    t.1,
                                                    spec_target_key(t.2),
                                                );
                                            }
                                            crate::relation::lemma_cleaned_target_mono(
                                                cur.comps(t.1),
                                                t.2,
                                                entity,
                                            );
                                        }
                                    } else {
                                        assert(self.comps(tx.1) == cur.comps(tx.1));
                                    }
                                }
                            }
                        }
                    }
                    assert(crate::relation::plain_preserved(&cur, self)) by {
                        assert forall|e2: EntityId, k: u64|
                            cur.spec_alive(e2) && crate::comp::is_plain_key(k) implies (self.comps(
                            e2,
                        ).contains_key(k) == cur.comps(e2).contains_key(k) && (cur.comps(
                            e2,
                        ).contains_key(k) ==> self.comps(e2)[k] == cur.comps(e2)[k])) by {
                            if e2 == t.1 {
                                if t.0 {
                                    assert(self.comps(e2) == crate::relation::cleaned_origin_map(
                                        cur.comps(e2),
                                        t.2,
                                        entity,
                                    ));
                                    crate::relation::lemma_cleaned_origin_frame(
                                        cur.comps(e2),
                                        t.2,
                                        entity,
                                    );
                                    assert(k != crate::comp::spec_origin_key(t.2));
                                } else {
                                    assert(self.comps(e2) == crate::relation::cleaned_target_map(
                                        cur.comps(e2),
                                        t.2,
                                        entity,
                                    ));
                                    crate::relation::lemma_cleaned_target_frame(
                                        cur.comps(e2),
                                        t.2,
                                        entity,
                                    );
                                    assert(k != crate::comp::spec_target_key(t.2));
                                }
                                assert(self.comps(e2).contains_key(k) == cur.comps(
                                    e2,
                                ).contains_key(k));
                                if cur.comps(e2).contains_key(k) {
                                    assert(self.comps(e2)[k] == cur.comps(e2)[k]);
                                }
                            } else {
                                assert(self.comps(e2) == cur.comps(e2));
                            }
                        }
                    }
                    crate::relation::lemma_plain_preserved_trans(&w2, &cur, self);
                }
            }
            ti = ti + 1;
        }
        proof {
            assert forall|e2: EntityId|
                self.spec_alive(e2) <==> (old(self).spec_alive(e2) && e2.idx != entity.idx) by {
                assert(self.spec_alive(e2) == w2.spec_alive(e2));
                assert(w2.spec_alive(e2) <==> (w2pre.spec_alive(e2) && e2.idx != entity.idx));
                assert(w2pre.spec_alive(e2) == old(self).spec_alive(e2));
            }
            assert(crate::relation::plain_frame_except(old(self), self, entity)) by {
                assert forall|e2: EntityId, k: u64|
                    #![trigger self.comps(e2).contains_key(k)]
                    e2 != entity && old(self).spec_alive(e2) && crate::comp::is_plain_key(
                        k,
                    ) implies (self.comps(e2).contains_key(k) == old(self).comps(
                    e2,
                ).contains_key(k) && (old(self).comps(e2).contains_key(k) ==> self.comps(e2)[k]
                    == old(self).comps(e2)[k])) by {
                    assert(w1.comps(e2) == old(self).comps(e2));
                    assert(w2pre.comps(e2) == w1.comps(e2));
                    assert(e2.idx != entity.idx) by {
                        if e2.idx == entity.idx {
                            assert(old(self).entities.slots@[entity.idx as int].gen_id
                                == entity.gen_id);
                        }
                    }
                    assert(w2.comps(e2) == w2pre.comps(e2));
                    assert(w2.spec_alive(e2));
                    assert(self.comps(e2).contains_key(k) == w2.comps(e2).contains_key(k));
                    if w2.comps(e2).contains_key(k) {
                        assert(self.comps(e2)[k] == w2.comps(e2)[k]);
                    }
                }
            }
            // the drop hooks' events are on record
            assert forall|rel: u32, t: EntityId|
                crate::relation::has_origin_entry(big_c, rel, t) implies {
                &&& self.events@.contains(
                    HookEvent::RelationDrop { rel, origin: entity, target: t },
                )
                &&& (big_c[spec_origin_key(rel)]->Origins_0.symmetric ==> self.events@.contains(
                    HookEvent::RelationTargetDrop { rel, origin: t, target: entity },
                ))
            } by {
                let ok = spec_origin_key(rel);
                assert(old(self).archetypes@[src as int].wf());
                assert(arch0.has_comp(ok));
                arch0.lemma_col_idx(ok);
                assert(w2pre.events@.contains(
                    HookEvent::RelationDrop { rel, origin: entity, target: t },
                ));
                crate::relation::lemma_contains_prefix(
                    w2pre.events@,
                    self.events@,
                    HookEvent::RelationDrop { rel, origin: entity, target: t },
                );
                if big_c[ok]->Origins_0.symmetric {
                    crate::relation::lemma_contains_prefix(
                        w2pre.events@,
                        self.events@,
                        HookEvent::RelationTargetDrop { rel, origin: t, target: entity },
                    );
                }
            }
            assert forall|rel: u32, o2: EntityId|
                crate::relation::has_target_entry(big_c, rel, o2) implies self.events@.contains(
                HookEvent::RelationTargetDrop { rel, origin: o2, target: entity },
            ) by {
                let tks = spec_target_key(rel);
                assert(old(self).archetypes@[src as int].wf());
                assert(arch0.has_comp(tks));
                arch0.lemma_col_idx(tks);
                crate::relation::lemma_contains_prefix(
                    w2pre.events@,
                    self.events@,
                    HookEvent::RelationTargetDrop { rel, origin: o2, target: entity },
                );
            }
            // with room in the archetype table, every counterpart was cleaned
            if self.archetypes@.len() + 1 < u32::MAX as int {
                assert forall|rel: u32, t: EntityId|
                    crate::relation::has_origin_entry(big_c, rel, t) && t != entity && old(
                    self,
                ).spec_alive(t) implies {
                    &&& (big_c[spec_origin_key(rel)]->Origins_0.symmetric
                        ==> !crate::relation::has_origin_entry(self.comps(t), rel, entity))
                    &&& (!big_c[spec_origin_key(rel)]->Origins_0.symmetric
                        ==> !crate::relation::has_target_entry(self.comps(t), rel, entity))
                } by {
                    let ok = spec_origin_key(rel);
                    assert(old(self).archetypes@[src as int].wf());
                    assert(arch0.has_comp(ok));
                    arch0.lemma_col_idx(ok);
                    let symv = big_c[ok]->Origins_0.symmetric;
                    assert(tasks@.contains((symv, t, rel)));
                    let x = choose|x: int| 0 <= x < tasks@.len() && tasks@[x] == (symv, t, rel);
                    assert(task_done(tasks@[x], entity, self));
                    assert(t.idx != entity.idx) by {
                        if t.idx == entity.idx {
                            assert(old(self).entities.slots@[t.idx as int].gen_id == t.gen_id);
                            assert(old(self).entities.slots@[entity.idx as int].gen_id
                                == entity.gen_id);
                        }
                    }
                    assert(self.spec_alive(t));
                }
                assert forall|rel: u32, o2: EntityId|
                    crate::relation::has_target_entry(big_c, rel, o2) && o2 != entity && old(
                    self,
                ).spec_alive(o2) implies !crate::relation::has_origin_entry(
                    self.comps(o2),
                    rel,
                    entity,
                ) by {
                    let tks = spec_target_key(rel);
                    assert(old(self).archetypes@[src as int].wf());
                    assert(arch0.has_comp(tks));
                    arch0.lemma_col_idx(tks);
                    assert(tasks@.contains((true, o2, rel)));
                    let x = choose|x: int| 0 <= x < tasks@.len() && tasks@[x] == (true, o2, rel);
                    assert(task_done(tasks@[x], entity, self));
                    assert(o2.idx != entity.idx) by {
                        if o2.idx == entity.idx {
                            assert(old(self).entities.slots@[o2.idx as int].gen_id == o2.gen_id);
                            assert(old(self).entities.slots@[entity.idx as int].gen_id
                                == entity.gen_id);
                        }
                    }
                    assert(self.spec_alive(o2));
                }
            }
        }
        Ok(())
    }

    /// Reads the dying row's relation containers: records the drop hooks'
    /// events and returns one cleaning task per counterpart that must lose
    /// its paired record. The task holds whether the counterpart's origin
    /// container (rather than its target container) is to be cleaned, the
    /// counterpart, and the relation.
    fn gather_relation_tasks(&mut self, entity: EntityId, src: u32, row: u32) -> (tasks: Vec<
        (bool, EntityId, u32),
    >)
        requires
            old(self).wf(),
            old(self).spec_alive(entity),
            old(self).arch_of(entity) == src as int,
            old(self).row_of(entity) == row as int,
        ensures
            final(self).entities == old(self).entities,
            final(self).archetypes == old(self).archetypes,
            final(self).epochs == old(self).epochs,
            final(self).edges == old(self).edges,
            final(self).registry == old(self).registry,
            old(self).events@.is_prefix_of(final(self).events@),
            gather_covered(
                old(self).comps(entity),
                entity,
                old(self).archetypes@[src as int],
                old(self).archetypes@[src as int].columns@.len() as int,
                final(self).events@,
                tasks@,
            ),
    {
        let ghost big_c = old(self).comps(entity);
        let ghost arch = old(self).archetypes@[src as int];
        let keys = self.archetypes[src as usize].comp_keys();
        let ncols = keys.len();
        let mut tasks: Vec<(bool, EntityId, u32)> = Vec::new();
        let mut ci: usize = 0;
        while ci < ncols
            invariant
                self.entities == old(self).entities,
                self.archetypes == old(self).archetypes,
                self.epochs == old(self).epochs,
                self.edges == old(self).edges,
                self.registry == old(self).registry,
                old(self).wf(),
                old(self).spec_alive(entity),
                old(self).arch_of(entity) == src as int,
                old(self).row_of(entity) == row as int,
                big_c == old(self).comps(entity),
                arch == old(self).archetypes@[src as int],
                ncols == keys@.len(),
                (src as int) < self.archetypes@.len(),
                keys@.len() == arch.columns@.len(),
                forall|j: int| 0 <= j < ncols ==> keys@[j] == (#[trigger] arch.columns@[j]).comp,
                ci <= ncols,
                old(self).events@.is_prefix_of(self.events@),
                gather_covered(big_c, entity, arch, ci as int, self.events@, tasks@),
            decreases ncols - ci,
        {
            let key = keys[ci];
            proof {
                lemma_wf_congruent(old(self), self);
                assert(self.wf());
                assert(self.comps(entity).contains_key(key)) by {
                    assert(arch.columns@[ci as int].comp == key);
                    assert(arch.has_comp(key));
                    assert(self.entities.slots@[entity.idx as int].loc is Live);
                }
                assert(self.comps(entity) == big_c);
                arch.lemma_col_idx(key);
                assert(arch.col_idx(key) == ci);
            }
            let ghost ev0 = self.events@;
            let ghost tk0 = tasks@;
            if key >= crate::comp::ORIGIN_TAG && key < crate::comp::TARGET_TAG {
                let rel0 = (key - crate::comp::ORIGIN_TAG) as u32;
                proof {
                    assert(crate::comp::spec_origin_key(rel0) == key);
                }
                match self.read_origins(entity, rel0) {
                    Some(got) => {
                        let (_excl, sym, entries) = got;
                        proof {
                            assert(big_c[key]->Origins_0.entries == entries@);
                            assert(big_c[key]->Origins_0.symmetric == sym);
                        }
                        let m = entries.len();
                        let mut j: usize = 0;
                        while j < m
                            invariant
                                self.entities == old(self).entities,
                                self.archetypes == old(self).archetypes,
                                self.epochs == old(self).epochs,
                                self.edges == old(self).edges,
                                self.registry == old(self).registry,
                                m == entries@.len(),
                                j <= m,
                                ev0.is_prefix_of(self.events@),
                                forall|x: int|
                                    0 <= x < tk0.len() ==> tasks@.len() > x && tasks@[x] == tk0[x],
                                tk0.len() <= tasks@.len(),
                                forall|j2: int|
                                    0 <= j2 < j ==> {
                                        let ent2 = #[trigger] entries@[j2];
                                        &&& self.events@.contains(
                                            HookEvent::RelationDrop {
                                                rel: rel0,
                                                origin: entity,
                                                target: ent2.target,
                                            },
                                        )
                                        &&& (sym ==> self.events@.contains(
                                            HookEvent::RelationTargetDrop {
                                                rel: rel0,
                                                origin: ent2.target,
                                                target: entity,
                                            },
                                        ))
                                        &&& (ent2.target != entity ==> tasks@.contains(
                                            (sym, ent2.target, rel0),
                                        ))
                                    },
                            decreases m - j,
                        {
                            let ghost evi = self.events@;
                            let ghost tki = tasks@;
                            let ent = entries[j];
                            self.events.push(
                                HookEvent::RelationDrop {
                                    rel: rel0,
                                    origin: entity,
                                    target: ent.target,
                                },
                            );
                            if sym {
                                self.events.push(
                                    HookEvent::RelationTargetDrop {
                                        rel: rel0,
                                        origin: ent.target,
                                        target: entity,
                                    },
                                );
                            }
                            if ent.target != entity {
                                tasks.push((sym, ent.target, rel0));
                            }
                            proof {
                                assert(self.events@[evi.len() as int]
                                    == (HookEvent::RelationDrop {
                                    rel: rel0,
                                    origin: entity,
                                    target: ent.target,
                                }));
                                if sym {
                                    assert(self.events@[evi.len() as int + 1]
                                        == (HookEvent::RelationTargetDrop {
                                        rel: rel0,
                                        origin: ent.target,
                                        target: entity,
                                    }));
                                }
                                if ent.target != entity {
                                    assert(tasks@[tki.len() as int] == (sym, ent.target, rel0));
                                }
                                assert forall|j2: int|
                                    0 <= j2 < j + 1 implies {
                                    let ent2 = #[trigger] entries@[j2];
                                    &&& self.events@.contains(
                                        HookEvent::RelationDrop {
                                            rel: rel0,
                                            origin: entity,
                                            target: ent2.target,
                                        },
                                    )
                                    &&& (sym ==> self.events@.contains(
                                        HookEvent::RelationTargetDrop {
                                            rel: rel0,
                                            origin: ent2.target,
                                            target: entity,
                                        },
                                    ))
                                    &&& (ent2.target != entity ==> tasks@.contains(
                                        (sym, ent2.target, rel0),
                                    ))
                                } by {
                                    if j2 < j {
                                        let ent2 = entries@[j2];
                                        crate::relation::lemma_contains_prefix(
                                            evi,
                                            self.events@,
                                            HookEvent::RelationDrop {
                                                rel: rel0,
                                                origin: entity,
                                                target: ent2.target,
                                            },
                                        );
                                        if sym {
                                            crate::relation::lemma_contains_prefix(
                                                evi,
                                                self.events@,
                                                HookEvent::RelationTargetDrop {
                                                    rel: rel0,
                                                    origin: ent2.target,
                                                    target: entity,
                                                },
                                            );
                                        }
                                        if ent2.target != entity {
                                            let xi = choose|xi: int|
                                                0 <= xi < tki.len() && tki[xi] == (
                                                sym,
                                                ent2.target,
                                                rel0,
                                            );
                                            assert(tasks@[xi] == (sym, ent2.target, rel0));
                                        }
                                    }
                                }
                            }
                            j = j + 1;
                        }
                    }
                    None => {
                        proof {
                            assert(false);
                        }
                    }
                }
            } else if key >= crate::comp::TARGET_TAG {
                let rel_wide = key - crate::comp::TARGET_TAG;
                proof {
                    crate::world::lemma_comp_shape(self, entity, key);
                    assert(rel_wide < 0x1_0000_0000) by {
                        assert(comp_wf(key, self.comps(entity)[key]));
                    }
                }
                let rel0 = rel_wide as u32;
                proof {
                    assert(crate::comp::spec_target_key(rel0) == key);
                }
                match self.read_targets(entity, rel0) {
                    Some(got) => {
                        let (_excl, origins) = got;
                        proof {
                            assert(big_c[key]->Targets_0.origins == origins@);
                        }
                        let m = origins.len();
                        let mut j: usize = 0;
                        while j < m
                            invariant
                                self.entities == old(self).entities,
                                self.archetypes == old(self).archetypes,
                                self.epochs == old(self).epochs,
                                self.edges == old(self).edges,
                                self.registry == old(self).registry,
                                m == origins@.len(),
                                j <= m,
                                ev0.is_prefix_of(self.events@),
                                forall|x: int|
                                    0 <= x < tk0.len() ==> tasks@.len() > x && tasks@[x] == tk0[x],
                                tk0.len() <= tasks@.len(),
                                forall|j2: int|
                                    0 <= j2 < j ==> {
                                        let o2 = #[trigger] origins@[j2];
                                        &&& self.events@.contains(
                                            HookEvent::RelationTargetDrop {
                                                rel: rel0,
                                                origin: o2,
                                                target: entity,
                                            },
                                        )
                                        &&& tasks@.contains((true, o2, rel0))
                                    },
                            decreases m - j,
                        {
                            let ghost evi = self.events@;
                            let ghost tki = tasks@;
                            let o2 = origins[j];
                            self.events.push(
                                HookEvent::RelationTargetDrop {
                                    rel: rel0,
                                    origin: o2,
                                    target: entity,
                                },
                            );
                            tasks.push((true, o2, rel0));
                            proof {
                                assert(self.events@[evi.len() as int]
                                    == (HookEvent::RelationTargetDrop {
                                    rel: rel0,
                                    origin: o2,
                                    target: entity,
                                }));
                                assert(tasks@[tki.len() as int] == (true, o2, rel0));
                                assert forall|j2: int|
                                    0 <= j2 < j + 1 implies {
                                    let o3 = #[trigger] origins@[j2];
                                    &&& self.events@.contains(
                                        HookEvent::RelationTargetDrop {
                                            rel: rel0,
                                            origin: o3,
                                            target: entity,
                                        },
                                    )
                                    &&& tasks@.contains((true, o3, rel0))
                                } by {
                                    if j2 < j {
                                        let o3 = origins@[j2];
                                        crate::relation::lemma_contains_prefix(
                                            evi,
                                            self.events@,
                                            HookEvent::RelationTargetDrop {
                                                rel: rel0,
                                                origin: o3,
                                                target: entity,
                                            },
                                        );
                                        let xi = choose|xi: int|
                                            0 <= xi < tki.len() && tki[xi] == (true, o3, rel0);
                                        assert(tasks@[xi] == (true, o3, rel0));
                                    }
                                }
                            }
                            j = j + 1;
                        }
                    }
                    None => {
                        proof {
                            assert(false);
                        }
                    }
                }
            }
            proof {
                lemma_gather_covered_step(
                    big_c,
                    entity,
                    arch,
                    ci as int,
                    ev0,
                    tk0,
                    self.events@,
                    tasks@,
                );
            }
            ci = ci + 1;
        }
        tasks
    }

    /// Returns a view for an immutable query over all entities.
    pub fn query(&self, q: crate::query::QueryKind) -> (r: crate::view::QueryRef)
        ensures
            r.query == q,
            r.filter == crate::query::QueryKind::Unit,
    {
        crate::view::QueryRef { query: q, filter: crate::query::QueryKind::Unit }
    }

    /// Returns a view for an immutable query with a filter.
    pub fn make_query(&self, q: crate::query::QueryKind, f: crate::query::QueryKind) -> (r:
        crate::view::QueryRef)
        ensures
            r.query == q,
            r.filter == f,
    {
        crate::view::QueryRef { query: q, filter: f }
    }

    /// Returns a view for a query that may write.
    pub fn query_mut(&mut self, q: crate::query::QueryKind) -> (r: crate::view::QueryMut)
        ensures
            *final(self) == *old(self),
            r.query == q,
            r.filter == crate::query::QueryKind::Unit,
    {
        crate::view::QueryMut { query: q, filter: crate::query::QueryKind::Unit }
    }

    /// Returns a view for a query that may write, with a filter.
    pub fn make_query_mut(&mut self, q: crate::query::QueryKind, f: crate::query::QueryKind) -> (r:
        crate::view::QueryMut)
        ensures
            *final(self) == *old(self),
            r.query == q,
            r.filter == f,
    {
        crate::view::QueryMut { query: q, filter: f }
    }

    /// Starts building an immutable view; the query and filter match
    /// everything.
    pub fn build_query(&self) -> (r: crate::view::QueryRef)
        ensures
            r.query == crate::query::QueryKind::Unit,
            r.filter == crate::query::QueryKind::Unit,
    {
        crate::view::QueryRef {
            query: crate::query::QueryKind::Unit,
            filter: crate::query::QueryKind::Unit,
        }
    }

    /// Starts building a view that may write; the query and filter match
    /// everything.
    pub fn build_query_mut(&mut self) -> (r: crate::view::QueryMut)
        ensures
            *final(self) == *old(self),
            r.query == crate::query::QueryKind::Unit,
            r.filter == crate::query::QueryKind::Unit,
    {
        crate::view::QueryMut {
            query: crate::query::QueryKind::Unit,
            filter: crate::query::QueryKind::Unit,
        }
    }

    /// Runs an immutable query against one entity.
    pub fn query_one(&self, entity: EntityId, q: &crate::query::QueryKind) -> (r: Result<
        crate::query::QueryItem,
        QueryOneError,
    >)
        requires
            self.wf(),
        ensures
            r == Err::<crate::query::QueryItem, QueryOneError>(QueryOneError::NoSuchEntity)
                <==> !self.spec_alive(entity),
            self.spec_alive(entity) ==> {
                let a = self.archetypes@[self.arch_of(entity)];
                let row = self.row_of(entity);
                &&& (r is Ok <==> q.visits_arch(&a) && q.visits_chunk(
                    &a,
                    crate::archetype::spec_chunk_of(row),
                ) && q.visits_row(&a, row))
                &&& (r is Ok ==> r->Ok_0 == q.item_at(
                    &a,
                    self.entities.arch_of(entity),
                    row,
                    EpochId { value: self.spec_epoch() },
                ))
            },
    {
        let (arch, row) = match self.entities.get(entity) {
            Some(l) => l,
            None => {
                return Err(QueryOneError::NoSuchEntity);
            }
        };
        proof {
            assert(self.entities.slots@[entity.idx as int].loc is Live);
            assert(self.archetypes@[arch as int].wf());
        }
        let a = &self.archetypes[arch as usize];
        if !q.check_arch(a) {
            return Err(QueryOneError::NotSatisfied);
        }
        let c = crate::archetype::chunk_idx(row as usize);
        proof {
            crate::archetype::lemma_chunk_of_bound(row as int, a.spec_len());
        }
        if !q.check_chunk(a, c) {
            return Err(QueryOneError::NotSatisfied);
        }
        if !q.check_row(a, row as usize) {
            return Err(QueryOneError::NotSatisfied);
        }
        let epoch = self.epochs.current();
        Ok(q.make_item(a, arch, row as usize, epoch))
    }

    /// Runs a query against one entity, bumping the epoch; a write query
    /// stamps the entity's three epoch levels.
    pub fn query_one_mut(&mut self, entity: EntityId, q: &crate::query::QueryKind) -> (r: Result<
        crate::query::QueryItem,
        QueryOneError,
    >)
        requires
            old(self).wf(),
            old(self).spec_epoch() < u64::MAX,
        ensures
            final(self).wf(),
            final(self).spec_epoch() == old(self).spec_epoch() + 1,
            forall|e2: EntityId| final(self).spec_alive(e2) == old(self).spec_alive(e2),
            forall|e2: EntityId|
                old(self).spec_alive(e2) ==> #[trigger] final(self).comps(e2) == old(self).comps(
                    e2,
                ),
            r == Err::<crate::query::QueryItem, QueryOneError>(QueryOneError::NoSuchEntity)
                <==> !old(self).spec_alive(entity),
            final(self).entities.slots@.len() == old(self).entities.slots@.len(),
            final(self).archetypes@.len() == old(self).archetypes@.len(),
            old(self).spec_alive(entity) ==> {
                let a = old(self).archetypes@[old(self).arch_of(entity)];
                let row = old(self).row_of(entity);
                &&& (r is Ok <==> q.visits_arch(&a) && q.visits_chunk(
                    &a,
                    crate::archetype::spec_chunk_of(row),
                ) && q.visits_row(&a, row))
                &&& (r is Ok ==> r->Ok_0 == q.item_at(
                    &a,
                    old(self).entities.arch_of(entity),
                    row,
                    EpochId { value: (old(self).spec_epoch() + 1) as u64 },
                ))
            },
    {
        let epoch = self.epochs.next_mut();
        let ghost w1 = *self;
        proof {
            lemma_wf_epoch_monotone(old(self), &w1);
        }
        let (arch, row) = match self.entities.get(entity) {
            Some(l) => l,
            None => {
                return Err(QueryOneError::NoSuchEntity);
            }
        };
        proof {
            assert(self.entities.slots@[entity.idx as int].loc is Live);
            assert(self.archetypes@[arch as int].wf());
        }
        let ok: bool;
        {
            let a = &self.archetypes[arch as usize];
            let c = crate::archetype::chunk_idx(row as usize);
            proof {
                crate::archetype::lemma_chunk_of_bound(row as int, a.spec_len());
            }
            ok = q.check_arch(a) && q.check_chunk(a, c) && q.check_row(a, row as usize);
        }
        if !ok {
            return Err(QueryOneError::NotSatisfied);
        }
        let item = {
            let a = &self.archetypes[arch as usize];
            q.make_item(a, arch, row as usize, epoch)
        };
        if q.is_mutable() {
            let key = q.key_of();
            let ghost cur = *self;
            self.stamp_hit(arch, row, key, epoch);
            proof {
                crate::view::lemma_stamp_frame_comps(&cur, self);
                assert forall|e2: EntityId|
                    old(self).spec_alive(e2) implies #[trigger] self.comps(e2) == old(self).comps(
                    e2,
                ) by {
                    assert(cur.spec_alive(e2));
                    assert(self.comps(e2) == cur.comps(e2));
                    assert(cur.comps(e2) == old(self).comps(e2));
                }
            }
        }
        Ok(item)
    }

    /// Drops the component with key `key` from the entity, running the
    /// hooks of a relation container: paired records on the other side are
    /// cleaned, firing their hooks.
    pub fn drop_erased(&mut self, entity: EntityId, key: u64) -> (r: Result<(), EntityError>)
        requires
            old(self).wf(),
            old(self).spec_epoch() < u64::MAX,
            old(self).archetypes@.len() + 1 < u32::MAX as int,
        ensures
            final(self).wf(),
            r is Ok <==> old(self).spec_alive(entity) && old(self).comps(entity).contains_key(key),
            r == Err::<(), EntityError>(EntityError::NoSuchEntity) <==> !old(self).spec_alive(
                entity,
            ),
            !old(self).spec_alive(entity) ==> *final(self) == *old(self),
            r is Ok ==> {
                &&& final(self).spec_epoch() == old(self).spec_epoch() + 1
                &&& forall|e2: EntityId| final(self).spec_alive(e2) == old(self).spec_alive(e2)
                &&& (crate::comp::is_plain_key(key) ==> remove_effect(
                    old(self),
                    entity,
                    key,
                    final(self),
                ))
                &&& (!crate::comp::is_plain_key(key) ==> crate::relation::plain_preserved(
                    old(self),
                    final(self),
                ))
            },
            final(self).entities.slots@.len() == old(self).entities.slots@.len(),
            final(self).archetypes@.len() < u32::MAX as int,
    {
        if !self.is_alive(entity) {
            return Err(EntityError::NoSuchEntity);
        }
        let epoch = self.epochs.next_mut();
        let ghost w1 = *self;
        proof {
            lemma_wf_epoch_monotone(old(self), &w1);
            lemma_epoch_only_congruence_w(old(self), &w1);
        }
        let (arch0, _row0) = match self.entities.get(entity) {
            Some(l) => l,
            None => {
                proof {
                    assert(false);
                }
                (0, 0)
            }
        };
        proof {
            assert(self.entities.slots@[entity.idx as int].loc is Live);
            assert(self.archetypes@[arch0 as int].wf());
        }
        let present = self.archetypes[arch0 as usize].has_component(key);
        if !present {
            return Err(EntityError::MissingComponents);
        }
        let found = self.drop_key_hooked(entity, key, epoch);
        proof {
            assert(found);
            if !crate::comp::is_plain_key(key) {
                assert(crate::relation::plain_preserved(old(self), self)) by {
                    crate::relation::lemma_plain_preserved_trans(old(self), &w1, self);
                }
            } else {
                assert(remove_effect(old(self), entity, key, self));
            }
        }
        Ok(())
    }

    /// Drops the component with key `k` at the current epoch, running the
    /// hooks of relation containers. Returns whether the entity had it.
    pub(crate) fn drop_key_hooked(&mut self, entity: EntityId, k: u64, epoch: EpochId) -> (found:
        bool)
        requires
            old(self).wf(),
            old(self).spec_alive(entity),
            epoch.value == old(self).spec_epoch(),
            old(self).archetypes@.len() + 1 < u32::MAX as int,
        ensures
            final(self).wf(),
            final(self).spec_epoch() == old(self).spec_epoch(),
            final(self).entities.slots@.len() == old(self).entities.slots@.len(),
            final(self).archetypes@.len() < u32::MAX as int,
            found == old(self).comps(entity).contains_key(k),
            !found ==> *final(self) == *old(self),
            forall|e2: EntityId| final(self).spec_alive(e2) == old(self).spec_alive(e2),
            found && crate::comp::is_plain_key(k) ==> remove_key_effect(
                old(self),
                entity,
                k,
                final(self),
            ),
            !crate::comp::is_plain_key(k) ==> crate::relation::plain_preserved(
                old(self),
                final(self),
            ),
    {
        let mut tasks: Vec<(bool, EntityId, u32)> = Vec::new();
        if k >= crate::comp::ORIGIN_TAG && k < crate::comp::TARGET_TAG {
            let rel = (k - crate::comp::ORIGIN_TAG) as u32;
            proof {
                assert(crate::comp::spec_origin_key(rel) == k);
            }
            match self.read_origins(entity, rel) {
                Some(got) => {
                    let (_excl, sym, entries) = got;
                    let m = entries.len();
                    let mut j: usize = 0;
                    while j < m
                        invariant
                            self.entities == old(self).entities,
                            self.archetypes == old(self).archetypes,
                            self.epochs == old(self).epochs,
                            self.edges == old(self).edges,
                            self.registry == old(self).registry,
                            m == entries@.len(),
                            j <= m,
                        decreases m - j,
                    {
                        let ent = entries[j];
                        self.events.push(
                            HookEvent::RelationDrop { rel, origin: entity, target: ent.target },
                        );
                        if sym {
                            self.events.push(
                                HookEvent::RelationTargetDrop {
                                    rel,
                                    origin: ent.target,
                                    target: entity,
                                },
                            );
                        }
                        if ent.target != entity {
                            tasks.push((sym, ent.target, rel));
                        }
                        j = j + 1;
                    }
                }
                None => {
                    return false;
                }
            }
        } else if k >= crate::comp::TARGET_TAG {
            let (arch0, _row0) = match self.entities.get(entity) {
                Some(l) => l,
                None => {
                    proof {
                        assert(false);
                    }
                    (0, 0)
                }
            };
            proof {
                assert(self.entities.slots@[entity.idx as int].loc is Live);
                assert(self.archetypes@[arch0 as int].wf());
            }
            let present = self.archetypes[arch0 as usize].has_component(k);
            if !present {
                return false;
            }
            proof {
                lemma_comp_shape(self, entity, k);
            }
            let rel = (k - crate::comp::TARGET_TAG) as u32;
            proof {
                assert(crate::comp::spec_target_key(rel) == k);
            }
            match self.read_targets(entity, rel) {
                Some(got) => {
                    let (_excl, origins) = got;
                    let m = origins.len();
                    let mut j: usize = 0;
                    while j < m
                        invariant
                            self.entities == old(self).entities,
                            self.archetypes == old(self).archetypes,
                            self.epochs == old(self).epochs,
                            self.edges == old(self).edges,
                            self.registry == old(self).registry,
                            m == origins@.len(),
                            j <= m,
                            k >= crate::comp::TARGET_TAG,
                            forall|x: int|
                                0 <= x < tasks@.len() ==> (#[trigger] tasks@[x]).0
                                    && spec_origin_key(tasks@[x].2) != k,
                        decreases m - j,
                    {
                        let o2 = origins[j];
                        self.events.push(
                            HookEvent::RelationTargetDrop { rel, origin: o2, target: entity },
                        );
                        tasks.push((true, o2, rel));
                        proof {
                            assert(spec_origin_key(rel) < crate::comp::TARGET_TAG);
                            assert(spec_origin_key(rel) != k);
                        }
                        j = j + 1;
                    }
                }
                None => {
                    proof {
                        assert(false);
                    }
                    return false;
                }
            }
        } else {
            let (arch0, _row0) = match self.entities.get(entity) {
                Some(l) => l,
                None => {
                    proof {
                        assert(false);
                    }
                    (0, 0)
                }
            };
            proof {
                assert(self.entities.slots@[entity.idx as int].loc is Live);
                assert(self.archetypes@[arch0 as int].wf());
            }
            let present = self.archetypes[arch0 as usize].has_component(k);
            if !present {
                return false;
            }
            let _ = self.remove_key_at(entity, k, epoch);
            return true;
        }
        let ghost w2pre = *self;
        proof {
            lemma_wf_congruent(old(self), &w2pre);
            assert(w2pre.comps(entity) == old(self).comps(entity));
            lemma_epoch_only_congruence_w(old(self), &w2pre);
        }
        let _ = self.remove_key_at(entity, k, epoch);
        let ghost w2 = *self;
        proof {
            assert(crate::relation::plain_preserved(&w2, self));
            assert(crate::relation::plain_preserved(old(self), &w2)) by {
                assert forall|e2: EntityId, k2: u64|
                    #![trigger w2.comps(e2).contains_key(k2)]
                    old(self).spec_alive(e2) && crate::comp::is_plain_key(k2) implies (w2.comps(
                    e2,
                ).contains_key(k2) == old(self).comps(e2).contains_key(k2) && (old(self).comps(
                    e2,
                ).contains_key(k2) ==> w2.comps(e2)[k2] == old(self).comps(e2)[k2])) by {
                    assert(w2pre.comps(e2) == old(self).comps(e2));
                    assert(w2pre.spec_alive(e2));
                    if e2 == entity {
                        assert(w2.comps(e2) == w2pre.comps(e2).remove(k));
                        assert(k2 != k);
                    } else {
                        assert(w2.comps(e2) == w2pre.comps(e2));
                    }
                }
            }
        }
        proof {
            assert(w2.entities.slots@.len() == old(self).entities.slots@.len());
            assert(w2.archetypes@.len() < u32::MAX as int);
        }
        let nt = tasks.len();
        let mut ti: usize = 0;
        while ti < nt
            invariant
                self.wf(),
                self.spec_epoch() == w2.spec_epoch(),
                epoch.value == self.spec_epoch(),
                forall|e2: EntityId| self.spec_alive(e2) == w2.spec_alive(e2),
                crate::relation::plain_preserved(&w2, self),
                self.entities.slots@.len() == w2.entities.slots@.len(),
                self.archetypes@.len() < u32::MAX as int,
                nt == tasks@.len(),
                ti <= nt,
            decreases nt - ti,
        {
            let t = tasks[ti];
            if self.archetypes.len() < (u32::MAX - 1) as usize {
                let ghost cur = *self;
                let f2: bool;
                if t.0 {
                    f2 = self.clean_origin_entry(t.1, entity, t.2, epoch);
                } else {
                    f2 = self.clean_target_entry(t.1, entity, t.2, epoch);
                }
                proof {
                    assert(crate::relation::plain_preserved(&cur, self)) by {
                        assert forall|e2: EntityId, k2: u64|
                            #![trigger self.comps(e2).contains_key(k2)]
                            cur.spec_alive(e2) && crate::comp::is_plain_key(k2) implies (self.comps(
                            e2,
                        ).contains_key(k2) == cur.comps(e2).contains_key(k2) && (cur.comps(
                            e2,
                        ).contains_key(k2) ==> self.comps(e2)[k2] == cur.comps(e2)[k2])) by {
                            if e2 == t.1 {
                                if t.0 {
                                    assert(self.comps(e2) == crate::relation::cleaned_origin_map(
                                        cur.comps(e2),
                                        t.2,
                                        entity,
                                    ));
                                    crate::relation::lemma_cleaned_origin_frame(
                                        cur.comps(e2),
                                        t.2,
                                        entity,
                                    );
                                    assert(k2 != crate::comp::spec_origin_key(t.2));
                                } else {
                                    assert(self.comps(e2) == crate::relation::cleaned_target_map(
                                        cur.comps(e2),
                                        t.2,
                                        entity,
                                    ));
                                    crate::relation::lemma_cleaned_target_frame(
                                        cur.comps(e2),
                                        t.2,
                                        entity,
                                    );
                                    assert(k2 != crate::comp::spec_target_key(t.2));
                                }
                                assert(self.comps(e2).contains_key(k2) == cur.comps(
                                    e2,
                                ).contains_key(k2));
                                if cur.comps(e2).contains_key(k2) {
                                    assert(self.comps(e2)[k2] == cur.comps(e2)[k2]);
                                }
                            } else {
                                assert(self.comps(e2) == cur.comps(e2));
                            }
                        }
                    }
                    crate::relation::lemma_plain_preserved_trans(&w2, &cur, self);
                }
            }
            ti = ti + 1;
        }
        proof {
            crate::relation::lemma_plain_preserved_trans(old(self), &w2, self);
        }
        true
    }

    /// Attempts to remove the plain component `comp` from the entity and
    /// return its value. The entity moves to the archetype with the
    /// component taken away.
    pub fn remove(&mut self, entity: EntityId, comp: u32) -> (r: Result<u64, EntityError>)
        requires
            old(self).wf(),
            old(self).spec_epoch() < u64::MAX,
            old(self).archetypes@.len() < u32::MAX as int,
        ensures
            final(self).wf(),
            r is Ok <==> old(self).spec_alive(entity) && old(self).comps(entity).contains_key(
                spec_plain_key(comp),
            ),
            r == Err::<u64, EntityError>(EntityError::NoSuchEntity) <==> !old(self).spec_alive(
                entity,
            ),
            r is Err ==> final(self).entities == old(self).entities
                && final(self).archetypes == old(self).archetypes && final(self).events == old(
                self,
            ).events,
            !old(self).spec_alive(entity) ==> *final(self) == *old(self),
            old(self).spec_alive(entity) ==> final(self).spec_epoch() == old(self).spec_epoch()
                + 1,
            r is Ok ==> {
                &&& old(self).comps(entity)[spec_plain_key(comp)] == CompVal::Plain(r->Ok_0)
                &&& remove_effect(old(self), entity, spec_plain_key(comp), final(self))
            },
            final(self).registry == old(self).registry,
            final(self).entities.slots@.len() == old(self).entities.slots@.len(),
            final(self).archetypes@.len() <= old(self).archetypes@.len() + 1,
    {
        if !self.is_alive(entity) {
            return Err(EntityError::NoSuchEntity);
        }
        let k = crate::comp::plain_key(comp);
        let epoch = self.epochs.next_mut();
        let ghost w1 = *self;
        let (src, _row) = match self.entities.get(entity) {
            Some(l) => l,
            None => {
                proof {
                    assert(false);
                }
                (0, 0)
            }
        };
        proof {
            assert(self.entities.slots@[entity.idx as int].loc is Live);
            assert(self.archetypes@[src as int].wf());
        }
        if !self.archetypes[src as usize].has_component(k) {
            return Err(EntityError::MissingComponents);
        }
        let v = self.remove_key_at(entity, k, epoch);
        proof {
            lemma_epoch_bump_remove_effect(old(self), &w1, self, entity, k);
        }
        match v {
            CompValue::Plain(x) => Ok(x),
            _ => {
                proof {
                    assert(comp_wf(
                        spec_plain_key(comp),
                        old(self).comps(entity)[spec_plain_key(comp)],
                    )) by {
                        let a0 = old(self).archetypes@[old(self).arch_of(entity)];
                        a0.lemma_col_idx(spec_plain_key(comp));
                        assert(col_wf(
                            a0.columns@[a0.col_idx(spec_plain_key(comp))],
                            a0.spec_len(),
                        ));
                    }
                    assert(false);
                }
                Ok(0)
            }
        }
    }

    /// Attempts to drop the plain component `comp` from the entity. A plain
    /// component has no hooks, so this is removal with the value discarded.
    pub fn drop(&mut self, entity: EntityId, comp: u32) -> (r: Result<(), EntityError>)
        requires
            old(self).wf(),
            old(self).spec_epoch() < u64::MAX,
            old(self).archetypes@.len() < u32::MAX as int,
        ensures
            final(self).wf(),
            r is Ok <==> old(self).spec_alive(entity) && old(self).comps(entity).contains_key(
                spec_plain_key(comp),
            ),
            r == Err::<(), EntityError>(EntityError::NoSuchEntity) <==> !old(self).spec_alive(
                entity,
            ),
            !old(self).spec_alive(entity) ==> *final(self) == *old(self),
            r is Ok ==> remove_effect(old(self), entity, spec_plain_key(comp), final(self)),
            final(self).registry == old(self).registry,
            final(self).entities.slots@.len() == old(self).entities.slots@.len(),
            final(self).archetypes@.len() <= old(self).archetypes@.len() + 1,
    {
        match self.remove(entity, comp) {
            Ok(_) => Ok(()),
            Err(e) => Err(e),
        }
    }

    /// Takes the component with key `k` off the live entity and returns the
    /// stored value, migrating the row to the archetype without the key and
    /// stamping the surviving columns against `epoch`, the current epoch.
    /// Runs no hooks.
    pub(crate) fn remove_key_at(&mut self, entity: EntityId, k: u64, epoch: EpochId) -> (r:
        CompValue)
        requires
            old(self).wf(),
            old(self).spec_alive(entity),
            old(self).comps(entity).contains_key(k),
            epoch.value == old(self).spec_epoch(),
            old(self).archetypes@.len() < u32::MAX as int,
        ensures
            final(self).wf(),
            final(self).spec_epoch() == old(self).spec_epoch(),
            r@ == old(self).comps(entity)[k],
            remove_key_effect(old(self), entity, k, final(self)),
            final(self).registry == old(self).registry,
            final(self).entities.slots@.len() == old(self).entities.slots@.len(),
            old(self).archetypes@.len() <= final(self).archetypes@.len() <= old(
                self,
            ).archetypes@.len() + 1,
    {
        let (src, row) = match self.entities.get(entity) {
            Some(l) => l,
            None => {
                proof {
                    assert(false);
                }
                (0, 0)
            }
        };
        proof {
            assert(self.entities.slots@[entity.idx as int].loc is Live);
            assert(self.archetypes@[src as int].wf());
        }
        let ci = match self.archetypes[src as usize].find_col(k) {
            Some(ci) => ci,
            None => {
                proof {
                    assert(false);
                }
                0
            }
        };
        let dst = crate::edges::edges_remove(&mut self.edges, &mut self.archetypes, src, k);
        proof {
            assert forall|a: int|
                old(self).archetypes@.len() <= a < self.archetypes@.len() implies (
            #[trigger] self.archetypes@[a]).wf() && self.archetypes@[a].spec_len() == 0
                && self.archetypes@[a].epochs_le(0) by {
                assert(a == dst as int);
            }
        }
        let ghost w1 = *self;
        proof {
            lemma_world_wf_after_arch_append(old(self), &w1);
            w1.lemma_arch_rows_lt_slots(dst as int, entity);
            assert(self.archetypes@[dst as int].spec_len() + 1 < u32::MAX as int);
        }
        let out = self.archetypes[src as usize].take_row(row as usize);
        let mut vals = out.0;
        let mut eps = out.1;
        let moved = out.2;
        let removed = vals.remove(ci);
        let _removed_epoch = eps.remove(ci);
        let ghost src_pre = w1.archetypes@[src as int];
        let ghost dst_pre = w1.archetypes@[dst as int];
        proof {
            lemma_remove_alignment(&src_pre, &dst_pre, k, ci as int);
            assert(vals@.len() == dst_pre.columns@.len());
            assert forall|i: int| 0 <= i < vals@.len() implies comp_wf(
                dst_pre.columns@[i].comp,
                (#[trigger] vals@[i])@,
            ) by {
                if i < ci {
                    assert(vals@[i] == out.0@[i]);
                    assert(out.0@[i] == src_pre.columns@[i].values@[row as int]);
                    assert(col_wf(src_pre.columns@[i], src_pre.spec_len()));
                    assert(dst_pre.columns@[i].comp == src_pre.columns@[i].comp);
                } else {
                    assert(vals@[i] == out.0@[i + 1]);
                    assert(out.0@[i + 1] == src_pre.columns@[i + 1].values@[row as int]);
                    assert(col_wf(src_pre.columns@[i + 1], src_pre.spec_len()));
                    assert(dst_pre.columns@[i].comp == src_pre.columns@[i + 1].comp);
                }
            }
            assert forall|i: int| 0 <= i < eps@.len() implies (#[trigger] eps@[i]).value
                <= epoch.value by {
                assert(src_pre.epochs_le(w1.spec_epoch()));
                if i < ci {
                    assert(eps@[i] == out.1@[i]);
                    assert(out.1@[i] == src_pre.columns@[i].entity_epochs@[row as int]);
                    assert(col_wf(src_pre.columns@[i], src_pre.spec_len()));
                    crate::archetype::lemma_chunk_of_bound(row as int, src_pre.spec_len());
                } else {
                    assert(eps@[i] == out.1@[i + 1]);
                    assert(out.1@[i + 1] == src_pre.columns@[i + 1].entity_epochs@[row as int]);
                    assert(col_wf(src_pre.columns@[i + 1], src_pre.spec_len()));
                    crate::archetype::lemma_chunk_of_bound(row as int, src_pre.spec_len());
                }
            }
        }
        let ghost gvals = vals@;
        let dst_row = self.archetypes[dst as usize].push_row(entity, vals, eps, epoch);
        proof {
            assert forall|i: int|
                0 <= i < self.archetypes@[dst as int].columns@.len() implies (
            #[trigger] self.archetypes@[dst as int].columns@[i]).values@.drop_last()
                == dst_pre.columns@[i].values@ by {
                assert(self.archetypes@[dst as int].columns@[i].values@
                    == dst_pre.columns@[i].values@.push(gvals[i]));
                assert(dst_pre.columns@[i].values@.push(gvals[i]).drop_last()
                    =~= dst_pre.columns@[i].values@);
            }
        }
        self.entities.set_location(entity.idx, dst, dst_row as u32);
        let ghost dir_a = self.entities;
        match moved {
            Some(m) => {
                proof {
                    assert(w1.archetypes@[src as int].entities@[src_pre.spec_len() - 1] == m);
                    assert(w1.entities.slots@[m.idx as int].loc == (SlotLoc::Live {
                        arch: src,
                        row: (src_pre.spec_len() - 1) as u32,
                    }));
                    assert(m.idx != entity.idx);
                    assert(self.entities.slots@[m.idx as int] == w1.entities.slots@[m.idx as int]);
                }
                self.entities.set_location(m.idx, src, row);
            }
            None => {}
        }
        proof {
            assert(slots_framed2(
                &w1.entities,
                &self.entities,
                entity.idx,
                match moved {
                    Some(m) => m.idx,
                    None => entity.idx,
                },
            )) by {
                assert forall|s: int| #![trigger self.entities.slots@[s]]
                    0 <= s < self.entities.slots@.len() && s != entity.idx && s != (
                match moved {
                    Some(m) => m.idx,
                    None => entity.idx,
                }) implies self.entities.slots@[s] == w1.entities.slots@[s] by {
                    assert(self.entities.slots@[s] == dir_a.slots@[s]);
                }
            }
            lemma_migrate_establishes(
                &w1,
                self,
                entity,
                src as int,
                row as int,
                dst as int,
                dst_row as int,
                moved,
            );
            lemma_remove_comps_content(
                &w1,
                self,
                entity,
                src as int,
                row as int,
                dst as int,
                dst_row as int,
                k,
                ci as int,
            );
            assert(removed@ == old(self).comps(entity)[k]) by {
                src_pre.lemma_col_idx(k);
                assert(src_pre.col_idx(k) == ci);
                assert(removed == src_pre.columns@[ci as int].values@[row as int]);
            }
            assert(remove_key_effect(old(self), entity, k, self));
        }
        removed
    }
}

/// All slots other than `eidx` are carried over unchanged from `mid` to
/// `post`, and the only slot `post` may have gained is `eidx` itself.
pub open spec fn slots_framed(mid: &Entities, post: &Entities, eidx: u32) -> bool {
    &&& (post.slots@.len() == mid.slots@.len() || (post.slots@.len() == mid.slots@.len() + 1
        && eidx as int == mid.slots@.len()))
    &&& forall|s: int| #![trigger post.slots@[s]]
        0 <= s < post.slots@.len() && s != eidx ==> post.slots@[s] == mid.slots@[s]
}

/// What spawning at a given stamp changes, apart from the clock: the
/// returned handle is fresh and alive, holds exactly the bundle's
/// components with every epoch stamp of the new row equal to `stamp`, and
/// every other entity is untouched.
pub open spec fn spawn_core_effect(
    pre: &World,
    bundle: Seq<(u32, u64)>,
    post: &World,
    e: EntityId,
    stamp: u64,
) -> bool {
    &&& post.spec_alive(e)
    &&& !pre.spec_alive(e)
    &&& forall|e2: EntityId|
        e2.idx != e.idx ==> (post.spec_alive(e2) <==> pre.spec_alive(e2))
    &&& forall|e2: EntityId|
        e2.idx != e.idx && pre.spec_alive(e2) ==> post.comps(e2) == pre.comps(e2)
    &&& forall|i: int|
        0 <= i < bundle.len() ==> {
            &&& post.comps(e).contains_key(spec_plain_key((#[trigger] bundle[i]).0))
            &&& post.comps(e)[spec_plain_key(bundle[i].0)] == CompVal::Plain(bundle[i].1)
            &&& post.entity_epoch_of(e, spec_plain_key(bundle[i].0)) == stamp
        }
    &&& forall|k: u64|
        post.comps(e).contains_key(k) ==> exists|i: int|
            0 <= i < bundle.len() && spec_plain_key((#[trigger] bundle[i]).0) == k
    &&& post.events@ == pre.events@
}

/// What spawning under a fresh epoch changes: the clock moved by one, and
/// the new row's epoch stamps all carry the new epoch.
pub open spec fn spawn_effect(pre: &World, bundle: Seq<(u32, u64)>, post: &World, e: EntityId) -> bool {
    &&& post.spec_epoch() == pre.spec_epoch() + 1
    &&& spawn_core_effect(pre, bundle, post, e, post.spec_epoch())
}

/// Appending fresh, empty archetypes keeps the world well formed.
proof fn lemma_world_wf_after_arch_append(pre: &World, post: &World)
    requires
        pre.wf(),
        post.entities == pre.entities,
        post.epochs == pre.epochs,
        edges_wf(&post.edges, post.archetypes@),
        pre.archetypes@.len() <= post.archetypes@.len() <= u32::MAX as int,
        forall|a: int| 0 <= a < pre.archetypes@.len() ==> post.archetypes@[a] == pre.archetypes@[a],
        forall|a: int|
            pre.archetypes@.len() <= a < post.archetypes@.len() ==> (
            #[trigger] post.archetypes@[a]).wf() && post.archetypes@[a].spec_len() == 0
                && post.archetypes@[a].epochs_le(0),
    ensures
        post.wf(),
{
    assert forall|a: int| 0 <= a < post.archetypes@.len() implies (
    #[trigger] post.archetypes@[a]).wf() by {
        if a < pre.archetypes@.len() {
            assert(pre.archetypes@[a].wf());
        }
    }
    assert forall|a: int| 0 <= a < post.archetypes@.len() implies (
    #[trigger] post.archetypes@[a]).epochs_le(post.epochs.spec_value()) by {
        if a < pre.archetypes@.len() {
            assert(pre.archetypes@[a].epochs_le(pre.epochs.spec_value()));
        } else {
            assert(post.archetypes@[a].epochs_le(0));
        }
    }
    assert(post.dir_to_arch_ok()) by {
        assert forall|s: int|
            0 <= s < post.entities.slots@.len() && (#[trigger] post.entities.slots@[s]).loc
                is Live implies {
            let arch = post.entities.slots@[s].loc->arch as int;
            let row = post.entities.slots@[s].loc->row as int;
            &&& arch < post.archetypes@.len()
            &&& row < post.archetypes@[arch].spec_len()
            &&& post.archetypes@[arch].entities@[row] == (EntityId {
                idx: s as u32,
                gen_id: post.entities.slots@[s].gen_id,
            })
        } by {
            assert(pre.entities.slots@[s].loc is Live);
        }
    }
    assert(post.arch_to_dir_ok()) by {
        assert forall|a: int, r: int|
            0 <= a < post.archetypes@.len() && 0 <= r < post.archetypes@[a].spec_len() implies {
            let id = #[trigger] post.archetypes@[a].entities@[r];
            &&& (id.idx as int) < post.entities.slots@.len()
            &&& post.entities.slots@[id.idx as int].gen_id == id.gen_id
            &&& post.entities.slots@[id.idx as int].loc == (SlotLoc::Live {
                arch: a as u32,
                row: r as u32,
            })
        } by {
            assert(a < pre.archetypes@.len());
            assert(pre.archetypes@[a].entities@[r] == post.archetypes@[a].entities@[r]);
        }
    }
}

/// After the row is appended and the directory updated, the world is well
/// formed again and the spawn's effect holds of the new entity.
proof fn lemma_spawn_establishes(
    mid: &World,
    post: &World,
    e: EntityId,
    dst: int,
    row: int,
    sorted: Seq<(u32, u64)>,
    keys: Seq<u64>,
    bundle: Seq<(u32, u64)>,
    stampv: u64,
)
    requires
        mid.wf(),
        stampv <= mid.spec_epoch(),
        0 <= dst < mid.archetypes@.len(),
        mid.archetypes@.len() <= u32::MAX as int,
        // what the directory did
        mid.entities.slots@.len() + 1 < u32::MAX as int,
        post.entities.wf(),
        post.entities.spec_alive(e),
        !mid.entities.spec_alive(e),
        post.entities.arch_of(e) == dst as u32,
        post.entities.row_of(e) == row as u32,
        forall|e2: EntityId|
            e2.idx != e.idx ==> (post.entities.spec_alive(e2) <==> mid.entities.spec_alive(e2)),
        forall|e2: EntityId|
            e2.idx != e.idx && mid.entities.spec_alive(e2) ==> post.entities.arch_of(e2)
                == mid.entities.arch_of(e2) && post.entities.row_of(e2) == mid.entities.row_of(e2),
        slots_framed(&mid.entities, &post.entities, e.idx),
        (e.idx as int) < mid.entities.slots@.len() ==> mid.entities.slots@[e.idx as int].loc
            is Free,
        mid.entities.slots@.len() <= post.entities.slots@.len() <= mid.entities.slots@.len() + 1,
        (e.idx as int) < post.entities.slots@.len(),
        post.entities.slots@[e.idx as int] == (crate::entity::Slot {
            gen_id: e.gen_id,
            loc: SlotLoc::Live { arch: dst as u32, row: row as u32 },
        }),
        // what the counter did
        post.spec_epoch() == mid.spec_epoch(),
        // what the archetype did
        row == mid.archetypes@[dst].spec_len(),
        post.archetypes@.len() == mid.archetypes@.len(),
        forall|a: int| 0 <= a < mid.archetypes@.len() && a != dst ==> post.archetypes@[a]
            == mid.archetypes@[a],
        post.archetypes@[dst].wf(),
        post.archetypes@[dst].spec_len() == row + 1,
        post.archetypes@[dst].entities@ == mid.archetypes@[dst].entities@.push(e),
        post.archetypes@[dst].columns@.len() == mid.archetypes@[dst].columns@.len(),
        forall|i: int|
            0 <= i < post.archetypes@[dst].columns@.len() ==> {
                &&& (#[trigger] post.archetypes@[dst].columns@[i]).comp
                    == mid.archetypes@[dst].columns@[i].comp
                &&& post.archetypes@[dst].columns@[i].values@
                    == mid.archetypes@[dst].columns@[i].values@.push(
                    CompValue::Plain(sorted[i].1),
                )
                &&& post.archetypes@[dst].columns@[i].entity_epochs@
                    == mid.archetypes@[dst].columns@[i].entity_epochs@.push(
                    EpochId { value: stampv },
                )
                &&& post.archetypes@[dst].columns@[i].arch_epoch.value <= post.spec_epoch()
            },
        // what the bundle looked like
        sorted.len() == keys.len(),
        mid.archetypes@[dst].columns@.len() == keys.len(),
        forall|i: int|
            0 <= i < keys.len() ==> (#[trigger] mid.archetypes@[dst].columns@[i]).comp == keys[i],
        forall|i: int| 0 <= i < sorted.len() ==> #[trigger] keys[i] == spec_plain_key(sorted[i].0),
        forall|i: int, j: int|
            0 <= i < j < sorted.len() ==> (#[trigger] sorted[i]).0 < (#[trigger] sorted[j]).0,
        forall|i: int| 0 <= i < sorted.len() ==> bundle.contains(#[trigger] sorted[i]),
        forall|j: int| 0 <= j < bundle.len() ==> sorted.contains(#[trigger] bundle[j]),
        // the rest of the world
        post.edges == mid.edges,
        post.events == mid.events,
        forall|a: int|
            0 <= a < mid.archetypes@.len() ==> (#[trigger] mid.archetypes@[a]).epochs_le(
                mid.spec_epoch(),
            ),
    ensures
        post.wf(),
        spawn_core_effect(mid, bundle, post, e, stampv),
        post.comps(e) == post.archetypes@[dst].comp_map(row),
{
    let pre_arch = mid.archetypes@[dst];
    let arch = post.archetypes@[dst];
    // well-formedness of each archetype and epoch bounds
    assert forall|a: int| 0 <= a < post.archetypes@.len() implies (
    #[trigger] post.archetypes@[a]).wf() by {
        if a != dst {
            assert(mid.archetypes@[a].wf());
        }
    }
    assert forall|a: int| 0 <= a < post.archetypes@.len() implies (
    #[trigger] post.archetypes@[a]).epochs_le(post.spec_epoch()) by {
        assert(mid.archetypes@[a].epochs_le(mid.spec_epoch()));
        if a != dst {
            assert(post.archetypes@[a] == mid.archetypes@[a]);
        }
    }
    // directory to archetype
    assert(post.dir_to_arch_ok()) by {
        assert forall|s: int|
            0 <= s < post.entities.slots@.len() && (#[trigger] post.entities.slots@[s]).loc
                is Live implies {
            let arch_i = post.entities.slots@[s].loc->arch as int;
            let row_i = post.entities.slots@[s].loc->row as int;
            &&& arch_i < post.archetypes@.len()
            &&& row_i < post.archetypes@[arch_i].spec_len()
            &&& post.archetypes@[arch_i].entities@[row_i] == (EntityId {
                idx: s as u32,
                gen_id: post.entities.slots@[s].gen_id,
            })
        } by {
            if s == e.idx {
                assert(post.archetypes@[dst].entities@[row] == e);
            } else {
                assert(post.entities.slots@[s] == mid.entities.slots@[s]);
                assert(mid.entities.slots@[s].loc is Live);
                let arch_i = mid.entities.slots@[s].loc->arch as int;
                let row_i = mid.entities.slots@[s].loc->row as int;
                if arch_i == dst {
                    assert(post.archetypes@[dst].entities@[row_i]
                        == mid.archetypes@[dst].entities@[row_i]);
                }
            }
        }
    }
    // archetype to directory
    assert(post.arch_to_dir_ok()) by {
        assert forall|a: int, r: int|
            0 <= a < post.archetypes@.len() && 0 <= r < post.archetypes@[a].spec_len() implies {
            let id = #[trigger] post.archetypes@[a].entities@[r];
            &&& (id.idx as int) < post.entities.slots@.len()
            &&& post.entities.slots@[id.idx as int].gen_id == id.gen_id
            &&& post.entities.slots@[id.idx as int].loc == (SlotLoc::Live {
                arch: a as u32,
                row: r as u32,
            })
        } by {
            if a == dst && r == row {
                assert(post.archetypes@[a].entities@[r] == e);
            } else {
                let id = if a == dst {
                    mid.archetypes@[dst].entities@[r]
                } else {
                    mid.archetypes@[a].entities@[r]
                };
                assert(post.archetypes@[a].entities@[r] == id);
                assert(mid.entities.slots@[id.idx as int].loc == (SlotLoc::Live {
                    arch: a as u32,
                    row: r as u32,
                }));
                // the slot of a pre-existing row cannot be the fresh slot
                assert(id.idx != e.idx) by {
                    if id.idx == e.idx {
                        assert(mid.entities.slots@[id.idx as int].loc is Live);
                        assert(mid.entities.slots@[e.idx as int].loc is Free);
                    }
                }
                assert(post.entities.slots@[id.idx as int] == mid.entities.slots@[id.idx as int]);
            }
        }
    }
    // edges stay valid: component sets unchanged
    assert(edges_wf(&post.edges, post.archetypes@)) by {
        crate::archetype::lemma_has_comp_eq(&pre_arch, &arch);
        assert forall|i: int| 0 <= i < post.edges.edges@.len() implies {
            let ed = #[trigger] post.edges.edges@[i];
            &&& (ed.src as int) < post.archetypes@.len()
            &&& (ed.dst as int) < post.archetypes@.len()
            &&& (ed.adds ==> !post.archetypes@[ed.src as int].has_comp(ed.comp) && forall|k: u64|
                #[trigger] post.archetypes@[ed.dst as int].has_comp(k) == (post.archetypes@[ed.src
                    as int].has_comp(k) || k == ed.comp))
            &&& (!ed.adds ==> post.archetypes@[ed.src as int].has_comp(ed.comp) && forall|k: u64|
                #[trigger] post.archetypes@[ed.dst as int].has_comp(k) == (post.archetypes@[ed.src
                    as int].has_comp(k) && k != ed.comp))
        } by {
            let ed = post.edges.edges@[i];
            assert(mid.edges.edges@[i] == ed);
            assert(forall|k: u64| post.archetypes@[ed.src as int].has_comp(k)
                == mid.archetypes@[ed.src as int].has_comp(k));
            assert(forall|k: u64| post.archetypes@[ed.dst as int].has_comp(k)
                == mid.archetypes@[ed.dst as int].has_comp(k));
        }
    }
    // other live entities keep their components
    assert forall|e2: EntityId|
        e2.idx != e.idx && mid.spec_alive(e2) implies post.comps(e2) == mid.comps(e2) by {
        let a2 = mid.arch_of(e2);
        let r2 = mid.row_of(e2);
        assert(mid.entities.slots@[e2.idx as int].loc is Live);
        if a2 == dst {
            assert forall|j: int| 0 <= j < pre_arch.columns@.len() implies (
            #[trigger] arch.columns@[j]).values@[r2] == pre_arch.columns@[j].values@[r2] by {
                assert(arch.columns@[j].values@ == pre_arch.columns@[j].values@.push(
                    CompValue::Plain(sorted[j].1),
                ));
            }
            lemma_comp_map_stable(&pre_arch, &arch, r2, r2);
        } else {
            assert(post.archetypes@[a2] == mid.archetypes@[a2]);
        }
    }
    // the new entity's components are the bundle
    assert(post.arch_of(e) == dst && post.row_of(e) == row);
    assert forall|i: int| 0 <= i < bundle.len() implies {
        &&& post.comps(e).contains_key(spec_plain_key((#[trigger] bundle[i]).0))
        &&& post.comps(e)[spec_plain_key(bundle[i].0)] == CompVal::Plain(bundle[i].1)
        &&& post.entity_epoch_of(e, spec_plain_key(bundle[i].0)) == stampv
    } by {
        let j = choose|j: int| 0 <= j < sorted.len() && sorted[j] == bundle[i];
        assert(arch.columns@[j].comp == spec_plain_key(sorted[j].0));
        assert(arch.has_comp(spec_plain_key(sorted[j].0)));
        arch.lemma_col_idx(spec_plain_key(sorted[j].0));
        assert(arch.col_idx(spec_plain_key(sorted[j].0)) == j);
        assert(arch.columns@[j].values@[row] == CompValue::Plain(sorted[j].1));
        assert(arch.columns@[j].entity_epochs@[row] == (EpochId { value: stampv }));
    }
    assert forall|k: u64| post.comps(e).contains_key(k) implies exists|i: int|
        0 <= i < bundle.len() && spec_plain_key((#[trigger] bundle[i]).0) == k by {
        assert(arch.has_comp(k));
        let j = choose|j: int| 0 <= j < arch.columns@.len() && (#[trigger] arch.columns@[j]).comp == k;
        assert(keys[j] == k);
        assert(spec_plain_key(sorted[j].0) == k);
        assert(bundle.contains(sorted[j]));
        let i = choose|i: int| 0 <= i < bundle.len() && bundle[i] == sorted[j];
        assert(spec_plain_key(bundle[i].0) == k);
    }
}

/// A spawn whose stamps equal the post-bump clock is, against the pre-bump
/// world, a spawn under a fresh epoch.
proof fn lemma_spawn_lift(
    pre: &World,
    w1: &World,
    post: &World,
    bundle: Seq<(u32, u64)>,
    e: EntityId,
)
    requires
        w1.entities == pre.entities,
        w1.archetypes == pre.archetypes,
        w1.events == pre.events,
        w1.spec_epoch() == pre.spec_epoch() + 1,
        post.spec_epoch() == w1.spec_epoch(),
        spawn_core_effect(w1, bundle, post, e, w1.spec_epoch()),
    ensures
        spawn_effect(pre, bundle, post, e),
{
    assert forall|e2: EntityId|
        e2.idx != e.idx implies (post.spec_alive(e2) <==> pre.spec_alive(e2)) by {
        assert(post.spec_alive(e2) <==> w1.spec_alive(e2));
    }
    assert forall|e2: EntityId|
        e2.idx != e.idx && pre.spec_alive(e2) implies post.comps(e2) == pre.comps(e2) by {
        assert(w1.spec_alive(e2));
        assert(post.comps(e2) == w1.comps(e2));
        assert(w1.comps(e2) == pre.comps(e2));
    }
}

/// Two worlds that differ at most in their registry agree on liveness,
/// components, epoch and events, so a spawn's effect carries over.
proof fn lemma_spawn_effect_congruent(
    pre: &World,
    post1: &World,
    post2: &World,
    bundle: Seq<(u32, u64)>,
    e: EntityId,
)
    requires
        spawn_effect(pre, bundle, post1, e),
        post2.entities == post1.entities,
        post2.archetypes == post1.archetypes,
        post2.epochs == post1.epochs,
        post2.events == post1.events,
    ensures
        spawn_effect(pre, bundle, post2, e),
{
    assert(post2.comps(e) == post1.comps(e));
    assert forall|e2: EntityId|
        e2.idx != e.idx && pre.spec_alive(e2) implies post2.comps(e2) == pre.comps(e2) by {
        assert(post1.comps(e2) == pre.comps(e2));
    }
}

/// A world stays well formed when only its epoch counter moves forward.
pub proof fn lemma_wf_epoch_monotone(w1: &World, w2: &World)
    requires
        w1.wf(),
        w2.entities == w1.entities,
        w2.archetypes == w1.archetypes,
        w2.edges == w1.edges,
        w1.spec_epoch() <= w2.spec_epoch(),
    ensures
        w2.wf(),
{
    assert forall|a: int| 0 <= a < w2.archetypes@.len() implies (
    #[trigger] w2.archetypes@[a]).epochs_le(w2.epochs.spec_value()) by {
        assert(w1.archetypes@[a].epochs_le(w1.epochs.spec_value()));
        assert forall|i: int|
            0 <= i < w2.archetypes@[a].columns@.len() implies (
        #[trigger] w2.archetypes@[a].columns@[i]).arch_epoch.value <= w2.epochs.spec_value() by {
            assert(w1.archetypes@[a].columns@[i].arch_epoch.value <= w1.epochs.spec_value());
        }
    }
}

/// Well-formedness does not depend on the registry.
pub proof fn lemma_wf_congruent(w1: &World, w2: &World)
    requires
        w1.wf(),
        w2.entities == w1.entities,
        w2.archetypes == w1.archetypes,
        w2.epochs == w1.epochs,
        w2.edges == w1.edges,
    ensures
        w2.wf(),
{
}

/// All slots other than `i1` and `i2` are unchanged from `mid` to `post`,
/// and no slots were added or removed.
pub open spec fn slots_framed2(mid: &Entities, post: &Entities, i1: u32, i2: u32) -> bool {
    &&& post.slots@.len() == mid.slots@.len()
    &&& forall|s: int| #![trigger post.slots@[s]]
        0 <= s < post.slots@.len() && s != i1 && s != i2 ==> post.slots@[s] == mid.slots@[s]
}

/// What writing one component changes, apart from the clock: no entity is
/// spawned or despawned, the entity's components gain (or replace) exactly
/// the given key, and everything else keeps its components.
pub open spec fn set_key_effect(pre: &World, e: EntityId, k: u64, v: CompVal, post: &World) -> bool {
    &&& forall|e2: EntityId| post.spec_alive(e2) == pre.spec_alive(e2)
    &&& post.comps(e) == pre.comps(e).insert(k, v)
    &&& forall|e2: EntityId| e2 != e && pre.spec_alive(e2) ==> post.comps(e2) == pre.comps(e2)
    &&& post.events@ == pre.events@
}

/// What taking one component away changes, apart from the clock: no entity
/// is spawned or despawned, the entity's components lose exactly the given
/// key, and everything else keeps its components.
pub open spec fn remove_key_effect(pre: &World, e: EntityId, k: u64, post: &World) -> bool {
    &&& forall|e2: EntityId| post.spec_alive(e2) == pre.spec_alive(e2)
    &&& post.comps(e) == pre.comps(e).remove(k)
    &&& forall|e2: EntityId| e2 != e && pre.spec_alive(e2) ==> post.comps(e2) == pre.comps(e2)
    &&& post.events@ == pre.events@
}

/// What inserting one component changes: the epoch advances by one, no
/// entity is spawned or despawned, the entity's components gain (or replace)
/// exactly the given key, everything else keeps its components, and the new
/// value's row epoch is the new epoch.
pub open spec fn insert_effect(pre: &World, e: EntityId, k: u64, v: CompVal, post: &World) -> bool {
    &&& post.spec_epoch() == pre.spec_epoch() + 1
    &&& forall|e2: EntityId| post.spec_alive(e2) == pre.spec_alive(e2)
    &&& post.comps(e) == pre.comps(e).insert(k, v)
    &&& forall|e2: EntityId| e2 != e && pre.spec_alive(e2) ==> post.comps(e2) == pre.comps(e2)
    &&& post.entity_epoch_of(e, k) == post.spec_epoch()
    &&& post.events@ == pre.events@
}

/// Two worlds that differ at most in their registry show the same insert
/// effect.
proof fn lemma_insert_effect_congruent(
    pre: &World,
    post1: &World,
    post2: &World,
    e: EntityId,
    k: u64,
    v: CompVal,
)
    requires
        insert_effect(pre, e, k, v, post1),
        post2.entities == post1.entities,
        post2.archetypes == post1.archetypes,
        post2.epochs == post1.epochs,
        post2.events == post1.events,
    ensures
        insert_effect(pre, e, k, v, post2),
{
    assert(post2.comps(e) == post1.comps(e));
    assert forall|e2: EntityId|
        e2 != e && pre.spec_alive(e2) implies post2.comps(e2) == pre.comps(e2) by {
        assert(post1.comps(e2) == pre.comps(e2));
    }
}

/// When a component is added to a set, the destination archetype's columns
/// are the source's with the new key spliced in at its sorted position.
proof fn lemma_add_alignment(src: &Archetype, dst: &Archetype, k: u64, pos: int)
    requires
        src.wf(),
        dst.wf(),
        !src.has_comp(k),
        forall|k2: u64| #[trigger] dst.has_comp(k2) == (src.has_comp(k2) || k2 == k),
        0 <= pos < dst.columns@.len(),
        dst.columns@[pos].comp == k,
    ensures
        dst.columns@.len() == src.columns@.len() + 1,
        forall|i: int|
            0 <= i < pos ==> (#[trigger] dst.columns@[i]).comp == src.columns@[i].comp,
        forall|i: int|
            pos < i < dst.columns@.len() ==> (#[trigger] dst.columns@[i]).comp == src.columns@[i
                - 1].comp,
{
    let ds = dst.comp_seq();
    let ss = src.comp_seq();
    assert(forall|i: int| 0 <= i < ds.len() ==> ds[i] == (#[trigger] dst.columns@[i]).comp);
    assert(forall|i: int| 0 <= i < ss.len() ==> ss[i] == (#[trigger] src.columns@[i]).comp);
    let dr = ds.remove(pos);
    ds.remove_ensures(pos);
    assert forall|x: u64| dr.contains(x) == ss.contains(x) by {
        if dr.contains(x) {
            let i = choose|i: int| 0 <= i < dr.len() && dr[i] == x;
            if i < pos {
                assert(ds[i] == x);
                assert(dst.columns@[i].comp == x);
                assert(x != k);
                assert(dst.has_comp(x));
            } else {
                assert(ds[i + 1] == x);
                assert(dst.columns@[i + 1].comp == x);
                assert(x != k);
                assert(dst.has_comp(x));
            }
            assert(src.has_comp(x));
            let j = choose|j: int|
                0 <= j < src.columns@.len() && (#[trigger] src.columns@[j]).comp == x;
            assert(ss[j] == x);
        }
        if ss.contains(x) {
            let j = choose|j: int| 0 <= j < ss.len() && ss[j] == x;
            assert(src.columns@[j].comp == x);
            assert(src.has_comp(x));
            assert(x != k);
            assert(dst.has_comp(x));
            let i = choose|i: int|
                0 <= i < dst.columns@.len() && (#[trigger] dst.columns@[i]).comp == x;
            assert(ds[i] == x);
            assert(i != pos);
            if i < pos {
                assert(dr[i] == x);
            } else {
                assert(dr[i - 1] == x);
            }
        }
    }
    assert forall|i: int, j: int| 0 <= i < j < dr.len() implies dr[i] < dr[j] by {
        if j < pos {
            assert(dr[i] == ds[i] && dr[j] == ds[j]);
        } else if i >= pos {
            assert(dr[i] == ds[i + 1] && dr[j] == ds[j + 1]);
        } else {
            assert(dr[i] == ds[i] && dr[j] == ds[j + 1]);
        }
    }
    assert forall|i: int, j: int| 0 <= i < j < ss.len() implies ss[i] < ss[j] by {
        assert(src.columns@[i].comp < src.columns@[j].comp);
    }
    lemma_sorted_unique(dr, ss);
    assert forall|i: int| 0 <= i < pos implies (#[trigger] dst.columns@[i]).comp
        == src.columns@[i].comp by {
        assert(dr[i] == ds[i]);
        assert(ss[i] == src.columns@[i].comp);
    }
    assert forall|i: int|
        pos < i < dst.columns@.len() implies (#[trigger] dst.columns@[i]).comp == src.columns@[i
        - 1].comp by {
        assert(dr[i - 1] == ds[i]);
        assert(ss[i - 1] == src.columns@[i - 1].comp);
    }
}

/// After an in-place component write, the world is well formed again and the
/// write shows as an insert of that key.
proof fn lemma_set_value_establishes(
    pre: &World,
    post: &World,
    e: EntityId,
    a: int,
    row: int,
    ci: int,
    k: u64,
    vv: CompValue,
)
    requires
        pre.wf(),
        post.spec_epoch() == pre.spec_epoch(),
        post.entities == pre.entities,
        post.edges == pre.edges,
        post.events == pre.events,
        pre.spec_alive(e),
        pre.arch_of(e) == a,
        pre.row_of(e) == row,
        0 <= a < pre.archetypes@.len(),
        0 <= ci < pre.archetypes@[a].columns@.len(),
        pre.archetypes@[a].columns@[ci].comp == k,
        0 <= row < pre.archetypes@[a].spec_len(),
        post.archetypes@.len() == pre.archetypes@.len(),
        forall|a2: int|
            0 <= a2 < pre.archetypes@.len() && a2 != a ==> post.archetypes@[a2]
                == pre.archetypes@[a2],
        post.archetypes@[a].wf(),
        post.archetypes@[a].spec_len() == pre.archetypes@[a].spec_len(),
        post.archetypes@[a].entities@ == pre.archetypes@[a].entities@,
        post.archetypes@[a].columns@.len() == pre.archetypes@[a].columns@.len(),
        forall|j: int|
            0 <= j < pre.archetypes@[a].columns@.len() && j != ci ==> post.archetypes@[a].columns@[
                j] == pre.archetypes@[a].columns@[j],
        post.archetypes@[a].columns@[ci].comp == k,
        post.archetypes@[a].columns@[ci].values@ == pre.archetypes@[a].columns@[ci].values@.update(
            row,
            vv,
        ),
        post.archetypes@[a].columns@[ci].entity_epochs@ == pre.archetypes@[a].columns@[
            ci].entity_epochs@.update(row, EpochId { value: post.spec_epoch() }),
        post.archetypes@[a].columns@[ci].arch_epoch.value == post.spec_epoch(),
    ensures
        post.wf(),
        set_key_effect(pre, e, k, vv@, post),
        post.entity_epoch_of(e, k) == post.spec_epoch(),
{
    let a0 = pre.archetypes@[a];
    let a1 = post.archetypes@[a];
    assert forall|a2: int| 0 <= a2 < post.archetypes@.len() implies (
    #[trigger] post.archetypes@[a2]).wf() by {
        if a2 != a {
            assert(pre.archetypes@[a2].wf());
        }
    }
    assert forall|a2: int| 0 <= a2 < post.archetypes@.len() implies (
    #[trigger] post.archetypes@[a2]).epochs_le(post.spec_epoch()) by {
        assert(pre.archetypes@[a2].epochs_le(pre.spec_epoch()));
        assert forall|j: int|
            0 <= j < post.archetypes@[a2].columns@.len() implies (
        #[trigger] post.archetypes@[a2].columns@[j]).arch_epoch.value <= post.spec_epoch() by {
            if a2 != a {
                assert(post.archetypes@[a2].columns@[j] == pre.archetypes@[a2].columns@[j]);
                assert(pre.archetypes@[a2].columns@[j].arch_epoch.value <= pre.spec_epoch());
            } else if j != ci {
                assert(post.archetypes@[a].columns@[j] == pre.archetypes@[a].columns@[j]);
                assert(pre.archetypes@[a].columns@[j].arch_epoch.value <= pre.spec_epoch());
            }
        }
    }
    assert(post.dir_to_arch_ok()) by {
        assert forall|s: int|
            0 <= s < post.entities.slots@.len() && (#[trigger] post.entities.slots@[s]).loc
                is Live implies {
            let arch = post.entities.slots@[s].loc->arch as int;
            let rw = post.entities.slots@[s].loc->row as int;
            &&& arch < post.archetypes@.len()
            &&& rw < post.archetypes@[arch].spec_len()
            &&& post.archetypes@[arch].entities@[rw] == (EntityId {
                idx: s as u32,
                gen_id: post.entities.slots@[s].gen_id,
            })
        } by {
            let arch = pre.entities.slots@[s].loc->arch as int;
            let rw = pre.entities.slots@[s].loc->row as int;
            if arch == a {
                assert(post.archetypes@[a].entities@[rw] == pre.archetypes@[a].entities@[rw]);
            } else {
                assert(post.archetypes@[arch] == pre.archetypes@[arch]);
            }
        }
    }
    assert(post.arch_to_dir_ok()) by {
        assert forall|a2: int, r2: int|
            0 <= a2 < post.archetypes@.len() && 0 <= r2 < post.archetypes@[a2].spec_len() implies {
            let id = #[trigger] post.archetypes@[a2].entities@[r2];
            &&& (id.idx as int) < post.entities.slots@.len()
            &&& post.entities.slots@[id.idx as int].gen_id == id.gen_id
            &&& post.entities.slots@[id.idx as int].loc == (SlotLoc::Live {
                arch: a2 as u32,
                row: r2 as u32,
            })
        } by {
            if a2 == a {
                assert(post.archetypes@[a2].entities@[r2] == pre.archetypes@[a2].entities@[r2]);
            } else {
                assert(post.archetypes@[a2] == pre.archetypes@[a2]);
            }
        }
    }
    assert(edges_wf(&post.edges, post.archetypes@)) by {
        crate::archetype::lemma_has_comp_eq(&a0, &a1);
        assert forall|i: int| 0 <= i < post.edges.edges@.len() implies {
            let ed = #[trigger] post.edges.edges@[i];
            &&& (ed.src as int) < post.archetypes@.len()
            &&& (ed.dst as int) < post.archetypes@.len()
            &&& (ed.adds ==> !post.archetypes@[ed.src as int].has_comp(ed.comp) && forall|k2: u64|
                #[trigger] post.archetypes@[ed.dst as int].has_comp(k2) == (post.archetypes@[ed.src
                    as int].has_comp(k2) || k2 == ed.comp))
            &&& (!ed.adds ==> post.archetypes@[ed.src as int].has_comp(ed.comp) && forall|k2: u64|
                #[trigger] post.archetypes@[ed.dst as int].has_comp(k2) == (post.archetypes@[ed.src
                    as int].has_comp(k2) && k2 != ed.comp))
        } by {
            let ed = post.edges.edges@[i];
            assert(pre.edges.edges@[i] == ed);
            assert(forall|k2: u64| post.archetypes@[ed.src as int].has_comp(k2)
                == pre.archetypes@[ed.src as int].has_comp(k2));
            assert(forall|k2: u64| post.archetypes@[ed.dst as int].has_comp(k2)
                == pre.archetypes@[ed.dst as int].has_comp(k2));
        }
    }
    // the entity's new component map
    crate::archetype::lemma_has_comp_eq(&a0, &a1);
    a0.lemma_col_idx(k);
    a1.lemma_col_idx(k);
    assert(a0.col_idx(k) == ci);
    assert(a1.col_idx(k) == ci);
    assert forall|x: u64| a0.has_comp(x) && x != k implies a1.comp_map(row)[x] == a0.comp_map(
        row,
    )[x] by {
        a0.lemma_col_idx(x);
        let j = a0.col_idx(x);
        assert(a1.columns@[j].comp == x);
        a1.lemma_col_idx(x);
        assert(a1.col_idx(x) == j);
        assert(j != ci);
        assert(a1.columns@[j] == a0.columns@[j]);
    }
    assert(a1.comp_map(row)[k] == vv@);
    assert(post.comps(e) =~= pre.comps(e).insert(k, vv@));
    // other entities keep their components
    assert forall|e2: EntityId|
        e2 != e && pre.spec_alive(e2) implies post.comps(e2) == pre.comps(e2) by {
        let a2 = pre.arch_of(e2);
        let r2 = pre.row_of(e2);
        assert(pre.entities.slots@[e2.idx as int].loc is Live);
        if a2 == a {
            assert(r2 != row) by {
                if r2 == row {
                    assert(pre.archetypes@[a].entities@[row] == (EntityId {
                        idx: e2.idx,
                        gen_id: pre.entities.slots@[e2.idx as int].gen_id,
                    }));
                    assert(pre.archetypes@[a].entities@[row] == (EntityId {
                        idx: e.idx,
                        gen_id: pre.entities.slots@[e.idx as int].gen_id,
                    }));
                }
            }
            assert forall|j: int| 0 <= j < a0.columns@.len() implies (
            #[trigger] a1.columns@[j]).values@[r2] == a0.columns@[j].values@[r2] by {
                if j != ci {
                    assert(a1.columns@[j] == a0.columns@[j]);
                }
            }
            lemma_comp_map_stable(&a0, &a1, r2, r2);
        } else {
            assert(post.archetypes@[a2] == pre.archetypes@[a2]);
        }
    }
    assert(post.entity_epoch_of(e, k) == post.spec_epoch());
}

/// After one row has migrated from `src` to `dst` and the directory has been
/// repointed, the world is well formed again; liveness and all other
/// entities' components are untouched.
proof fn lemma_migrate_establishes(
    mid: &World,
    post: &World,
    e: EntityId,
    src: int,
    row: int,
    dst: int,
    dst_row: int,
    moved: Option<EntityId>,
)
    requires
        mid.wf(),
        post.spec_epoch() == mid.spec_epoch(),
        0 <= src < mid.archetypes@.len(),
        0 <= dst < mid.archetypes@.len(),
        src != dst,
        mid.spec_alive(e),
        mid.arch_of(e) == src,
        mid.row_of(e) == row,
        ({
            let pre_src = mid.archetypes@[src];
            let post_src = post.archetypes@[src];
            &&& post_src.wf()
            &&& post_src.spec_len() == pre_src.spec_len() - 1
            &&& post_src.columns@.len() == pre_src.columns@.len()
            &&& post_src.entities@ == pre_src.entities@.update(
                row,
                pre_src.entities@.last(),
            ).drop_last()
            &&& forall|i: int|
                0 <= i < post_src.columns@.len() ==> {
                    &&& (#[trigger] post_src.columns@[i]).comp == pre_src.columns@[i].comp
                    &&& post_src.columns@[i].values@ == pre_src.columns@[i].values@.update(
                        row,
                        pre_src.columns@[i].values@.last(),
                    ).drop_last()
                    &&& post_src.columns@[i].arch_epoch == pre_src.columns@[i].arch_epoch
                }
        }),
        moved == if row + 1 == mid.archetypes@[src].spec_len() {
            None::<EntityId>
        } else {
            Some(mid.archetypes@[src].entities@.last())
        },
        ({
            let pre_dst = mid.archetypes@[dst];
            let post_dst = post.archetypes@[dst];
            &&& post_dst.wf()
            &&& dst_row == pre_dst.spec_len()
            &&& post_dst.spec_len() == dst_row + 1
            &&& post_dst.entities@ == pre_dst.entities@.push(e)
            &&& post_dst.columns@.len() == pre_dst.columns@.len()
            &&& forall|i: int|
                0 <= i < post_dst.columns@.len() ==> {
                    &&& (#[trigger] post_dst.columns@[i]).comp == pre_dst.columns@[i].comp
                    &&& post_dst.columns@[i].values@.len() == pre_dst.columns@[i].values@.len() + 1
                    &&& post_dst.columns@[i].values@.drop_last() == pre_dst.columns@[i].values@
                    &&& post_dst.columns@[i].arch_epoch.value <= post.spec_epoch()
                }
        }),
        post.archetypes@.len() == mid.archetypes@.len(),
        forall|a: int|
            0 <= a < mid.archetypes@.len() && a != src && a != dst ==> post.archetypes@[a]
                == mid.archetypes@[a],
        post.entities.wf(),
        (e.idx as int) < post.entities.slots@.len(),
        post.entities.slots@[e.idx as int] == (Slot {
            gen_id: e.gen_id,
            loc: SlotLoc::Live { arch: dst as u32, row: dst_row as u32 },
        }),
        moved is Some ==> {
            let m = moved->0;
            &&& m.idx != e.idx
            &&& (m.idx as int) < post.entities.slots@.len()
            &&& post.entities.slots@[m.idx as int] == (Slot {
                gen_id: m.gen_id,
                loc: SlotLoc::Live { arch: src as u32, row: row as u32 },
            })
        },
        slots_framed2(
            &mid.entities,
            &post.entities,
            e.idx,
            match moved {
                Some(m) => m.idx,
                None => e.idx,
            },
        ),
        post.edges == mid.edges,
        post.events == mid.events,
    ensures
        post.wf(),
        forall|e2: EntityId| post.spec_alive(e2) == mid.spec_alive(e2),
        forall|e2: EntityId|
            e2 != e && mid.spec_alive(e2) ==> post.comps(e2) == mid.comps(e2),
        post.arch_of(e) == dst,
        post.row_of(e) == dst_row,
        post.spec_alive(e),
        post.events@ == mid.events@,
{
    let pre_src = mid.archetypes@[src];
    let post_src = post.archetypes@[src];
    let pre_dst = mid.archetypes@[dst];
    let post_dst = post.archetypes@[dst];
    let old_last = pre_src.spec_len() - 1;
    let midx: int = match moved {
        Some(m) => m.idx as int,
        None => e.idx as int,
    };
    // liveness is untouched
    assert forall|e2: EntityId| post.spec_alive(e2) == mid.spec_alive(e2) by {
        if e2.idx == e.idx {
            assert(mid.entities.slots@[e.idx as int].gen_id == e.gen_id);
        } else if e2.idx as int == midx {
        } else {
            if (e2.idx as int) < post.entities.slots@.len() {
                assert(post.entities.slots@[e2.idx as int] == mid.entities.slots@[e2.idx as int]);
            }
        }
    }
    // each archetype is well formed with bounded epochs
    assert forall|a: int| 0 <= a < post.archetypes@.len() implies (
    #[trigger] post.archetypes@[a]).wf() by {
        if a != src && a != dst {
            assert(post.archetypes@[a] == mid.archetypes@[a]);
            assert(mid.archetypes@[a].wf());
        }
    }
    assert forall|a: int| 0 <= a < post.archetypes@.len() implies (
    #[trigger] post.archetypes@[a]).epochs_le(post.spec_epoch()) by {
        assert(mid.archetypes@[a].epochs_le(mid.spec_epoch()));
        assert forall|j: int|
            0 <= j < post.archetypes@[a].columns@.len() implies (
        #[trigger] post.archetypes@[a].columns@[j]).arch_epoch.value <= post.spec_epoch() by {
            if a == src {
                assert(post_src.columns@[j].arch_epoch == pre_src.columns@[j].arch_epoch);
                assert(pre_src.columns@[j].arch_epoch.value <= mid.spec_epoch());
            } else if a == dst {
            } else {
                assert(post.archetypes@[a] == mid.archetypes@[a]);
                assert(mid.archetypes@[a].columns@[j].arch_epoch.value <= mid.spec_epoch());
            }
        }
    }
    // directory to archetype
    assert(post.dir_to_arch_ok()) by {
        assert forall|s: int|
            0 <= s < post.entities.slots@.len() && (#[trigger] post.entities.slots@[s]).loc
                is Live implies {
            let arch = post.entities.slots@[s].loc->arch as int;
            let rw = post.entities.slots@[s].loc->row as int;
            &&& arch < post.archetypes@.len()
            &&& rw < post.archetypes@[arch].spec_len()
            &&& post.archetypes@[arch].entities@[rw] == (EntityId {
                idx: s as u32,
                gen_id: post.entities.slots@[s].gen_id,
            })
        } by {
            if s == e.idx {
                assert(post_dst.entities@[dst_row] == e);
            } else if s == midx {
                let m = moved->0;
                assert(post_src.entities@[row] == pre_src.entities@.last());
            } else {
                assert(post.entities.slots@[s] == mid.entities.slots@[s]);
                assert(mid.entities.slots@[s].loc is Live);
                let arch = mid.entities.slots@[s].loc->arch as int;
                let rw = mid.entities.slots@[s].loc->row as int;
                let id = (EntityId { idx: s as u32, gen_id: mid.entities.slots@[s].gen_id });
                assert(mid.archetypes@[arch].entities@[rw] == id);
                if arch == src {
                    // this slot's row is neither the vacated row nor the old
                    // last row, so it survives the swap untouched
                    assert(rw != row) by {
                        if rw == row {
                            assert(mid.archetypes@[src].entities@[row] == (EntityId {
                                idx: e.idx,
                                gen_id: mid.entities.slots@[e.idx as int].gen_id,
                            }));
                        }
                    }
                    assert(rw != old_last) by {
                        if rw == old_last {
                            if moved is Some {
                                let m = moved->0;
                                assert(mid.archetypes@[src].entities@[old_last] == m);
                                assert(s == m.idx);
                            } else {
                                assert(old_last == row);
                            }
                        }
                    }
                    assert(post_src.entities@[rw] == pre_src.entities@[rw]);
                } else if arch == dst {
                    assert(post_dst.entities@[rw] == pre_dst.entities@[rw]);
                } else {
                    assert(post.archetypes@[arch] == mid.archetypes@[arch]);
                }
            }
        }
    }
    // archetype to directory
    assert(post.arch_to_dir_ok()) by {
        assert forall|a: int, r: int|
            0 <= a < post.archetypes@.len() && 0 <= r < post.archetypes@[a].spec_len() implies {
            let id = #[trigger] post.archetypes@[a].entities@[r];
            &&& (id.idx as int) < post.entities.slots@.len()
            &&& post.entities.slots@[id.idx as int].gen_id == id.gen_id
            &&& post.entities.slots@[id.idx as int].loc == (SlotLoc::Live {
                arch: a as u32,
                row: r as u32,
            })
        } by {
            if a == dst && r == dst_row {
                assert(post.archetypes@[a].entities@[r] == e);
            } else if a == src && r == row && moved is Some {
                let m = moved->0;
                assert(post.archetypes@[a].entities@[r] == m);
                assert(mid.archetypes@[src].entities@[old_last] == m);
            } else {
                let id = if a == src {
                    pre_src.entities@[r]
                } else if a == dst {
                    pre_dst.entities@[r]
                } else {
                    mid.archetypes@[a].entities@[r]
                };
                assert(post.archetypes@[a].entities@[r] == id);
                assert(mid.archetypes@[a].entities@[r] == id);
                assert(mid.entities.slots@[id.idx as int].loc == (SlotLoc::Live {
                    arch: a as u32,
                    row: r as u32,
                }));
                assert(id.idx != e.idx) by {
                    if id.idx == e.idx {
                        assert(mid.entities.slots@[e.idx as int].loc == (SlotLoc::Live {
                            arch: src as u32,
                            row: row as u32,
                        }));
                    }
                }
                assert(moved is Some ==> id.idx != moved->0.idx) by {
                    if moved is Some && id.idx == moved->0.idx {
                        let m = moved->0;
                        assert(mid.archetypes@[src].entities@[old_last] == m);
                        assert(mid.entities.slots@[m.idx as int].loc == (SlotLoc::Live {
                            arch: src as u32,
                            row: old_last as u32,
                        }));
                    }
                }
                assert(post.entities.slots@[id.idx as int] == mid.entities.slots@[id.idx as int]);
            }
        }
    }
    // the edge cache stays valid: component sets are unchanged
    assert(edges_wf(&post.edges, post.archetypes@)) by {
        crate::archetype::lemma_has_comp_eq(&pre_src, &post_src);
        crate::archetype::lemma_has_comp_eq(&pre_dst, &post_dst);
        assert forall|i: int| 0 <= i < post.edges.edges@.len() implies {
            let ed = #[trigger] post.edges.edges@[i];
            &&& (ed.src as int) < post.archetypes@.len()
            &&& (ed.dst as int) < post.archetypes@.len()
            &&& (ed.adds ==> !post.archetypes@[ed.src as int].has_comp(ed.comp) && forall|k2: u64|
                #[trigger] post.archetypes@[ed.dst as int].has_comp(k2) == (post.archetypes@[ed.src
                    as int].has_comp(k2) || k2 == ed.comp))
            &&& (!ed.adds ==> post.archetypes@[ed.src as int].has_comp(ed.comp) && forall|k2: u64|
                #[trigger] post.archetypes@[ed.dst as int].has_comp(k2) == (post.archetypes@[ed.src
                    as int].has_comp(k2) && k2 != ed.comp))
        } by {
            let ed = post.edges.edges@[i];
            assert(mid.edges.edges@[i] == ed);
            assert(forall|k2: u64| post.archetypes@[ed.src as int].has_comp(k2)
                == mid.archetypes@[ed.src as int].has_comp(k2));
            assert(forall|k2: u64| post.archetypes@[ed.dst as int].has_comp(k2)
                == mid.archetypes@[ed.dst as int].has_comp(k2));
        }
    }
    // other entities keep their components
    assert forall|e2: EntityId|
        e2 != e && mid.spec_alive(e2) implies post.comps(e2) == mid.comps(e2) by {
        assert(e2.idx != e.idx) by {
            if e2.idx == e.idx {
                assert(mid.entities.slots@[e.idx as int].gen_id == e.gen_id);
            }
        }
        if moved is Some && e2 == moved->0 {
            let m = moved->0;
            assert(mid.entities.slots@[m.idx as int].loc == (SlotLoc::Live {
                arch: src as u32,
                row: old_last as u32,
            })) by {
                assert(mid.archetypes@[src].entities@[old_last] == m);
            }
            assert(post.arch_of(e2) == src && post.row_of(e2) == row);
            assert forall|j: int| 0 <= j < pre_src.columns@.len() implies (
            #[trigger] post_src.columns@[j]).values@[row] == pre_src.columns@[j].values@[
            old_last] by {
                assert(col_wf(pre_src.columns@[j], pre_src.spec_len()));
            }
            lemma_comp_map_stable(&pre_src, &post_src, old_last, row);
        } else {
            assert(e2.idx as int != midx) by {
                if moved is Some && e2.idx == moved->0.idx {
                    let m = moved->0;
                    assert(mid.archetypes@[src].entities@[old_last] == m);
                    assert(mid.entities.slots@[m.idx as int].gen_id == m.gen_id);
                }
            }
            assert(post.entities.slots@[e2.idx as int] == mid.entities.slots@[e2.idx as int]);
            let a2 = mid.arch_of(e2);
            let r2 = mid.row_of(e2);
            assert(mid.entities.slots@[e2.idx as int].loc is Live);
            if a2 == src {
                assert(r2 != row) by {
                    if r2 == row {
                        assert(mid.archetypes@[src].entities@[row] == (EntityId {
                            idx: e2.idx,
                            gen_id: mid.entities.slots@[e2.idx as int].gen_id,
                        }));
                        assert(mid.archetypes@[src].entities@[row] == (EntityId {
                            idx: e.idx,
                            gen_id: mid.entities.slots@[e.idx as int].gen_id,
                        }));
                    }
                }
                assert(r2 != old_last) by {
                    if r2 == old_last && moved is Some {
                        assert(mid.archetypes@[src].entities@[old_last] == (EntityId {
                            idx: e2.idx,
                            gen_id: mid.entities.slots@[e2.idx as int].gen_id,
                        }));
                        assert(mid.archetypes@[src].entities@[old_last] == moved->0);
                    }
                }
                assert forall|j: int| 0 <= j < pre_src.columns@.len() implies (
                #[trigger] post_src.columns@[j]).values@[r2] == pre_src.columns@[j].values@[
                r2] by {
                    assert(col_wf(pre_src.columns@[j], pre_src.spec_len()));
                }
                lemma_comp_map_stable(&pre_src, &post_src, r2, r2);
            } else if a2 == dst {
                assert forall|j: int| 0 <= j < pre_dst.columns@.len() implies (
                #[trigger] post_dst.columns@[j]).values@[r2] == pre_dst.columns@[j].values@[
                r2] by {
                    assert(post_dst.columns@[j].values@.drop_last() == pre_dst.columns@[j].values@);
                    assert(post_dst.columns@[j].values@.drop_last()[r2] == post_dst.columns@[
                    j].values@[r2]);
                }
                lemma_comp_map_stable(&pre_dst, &post_dst, r2, r2);
            } else {
                assert(post.archetypes@[a2] == mid.archetypes@[a2]);
            }
        }
    }
}

/// After migrating the row and splicing the new value in at `pos`, the moved
/// entity's component map is its old map with `k` bound to `v`.
proof fn lemma_insert_comps_content(
    mid: &World,
    post: &World,
    e: EntityId,
    src: int,
    row: int,
    dst: int,
    dst_row: int,
    k: u64,
    v: CompVal,
    pos: int,
)
    requires
        mid.wf(),
        0 <= src < mid.archetypes@.len(),
        0 <= dst < mid.archetypes@.len(),
        src != dst,
        mid.spec_alive(e),
        mid.arch_of(e) == src,
        mid.row_of(e) == row,
        post.arch_of(e) == dst,
        post.row_of(e) == dst_row,
        post.archetypes@.len() == mid.archetypes@.len(),
        post.archetypes@[dst].wf(),
        0 <= dst_row < post.archetypes@[dst].spec_len(),
        // alignment of the destination columns
        post.archetypes@[dst].columns@.len() == mid.archetypes@[src].columns@.len() + 1,
        0 <= pos < post.archetypes@[dst].columns@.len(),
        post.archetypes@[dst].columns@[pos].comp == k,
        forall|i: int|
            0 <= i < pos ==> (#[trigger] post.archetypes@[dst].columns@[i]).comp
                == mid.archetypes@[src].columns@[i].comp,
        forall|i: int|
            pos < i < post.archetypes@[dst].columns@.len() ==> (
            #[trigger] post.archetypes@[dst].columns@[i]).comp == mid.archetypes@[src].columns@[i
                - 1].comp,
        // the stored values of the new row
        post.archetypes@[dst].columns@[pos].values@[dst_row]@ == v,
        forall|i: int|
            0 <= i < pos ==> (#[trigger] post.archetypes@[dst].columns@[i]).values@[dst_row]
                == mid.archetypes@[src].columns@[i].values@[row],
        forall|i: int|
            pos < i < post.archetypes@[dst].columns@.len() ==> (
            #[trigger] post.archetypes@[dst].columns@[i]).values@[dst_row]
                == mid.archetypes@[src].columns@[i - 1].values@[row],
        post.archetypes@[dst].columns@[pos].entity_epochs@[dst_row].value == post.spec_epoch(),
    ensures
        post.comps(e) == mid.comps(e).insert(k, v),
        post.entity_epoch_of(e, k) == post.spec_epoch(),
{
    let a0 = mid.archetypes@[src];
    let a1 = post.archetypes@[dst];
    assert(!a0.has_comp(k)) by {
        if a0.has_comp(k) {
            let j = choose|j: int|
                0 <= j < a0.columns@.len() && (#[trigger] a0.columns@[j]).comp == k;
            if j < pos {
                assert(a1.columns@[j].comp == k);
                assert(a1.columns@[j].comp < a1.columns@[pos].comp);
            } else {
                assert(a1.columns@[j + 1].comp == k);
                assert(a1.columns@[pos].comp < a1.columns@[j + 1].comp);
            }
        }
    }
    assert forall|x: u64| a1.has_comp(x) == (a0.has_comp(x) || x == k) by {
        if a1.has_comp(x) {
            let i = choose|i: int|
                0 <= i < a1.columns@.len() && (#[trigger] a1.columns@[i]).comp == x;
            if i < pos {
                assert(a0.columns@[i].comp == x);
            } else if i > pos {
                assert(a0.columns@[i - 1].comp == x);
            }
        }
        if a0.has_comp(x) {
            let j = choose|j: int|
                0 <= j < a0.columns@.len() && (#[trigger] a0.columns@[j]).comp == x;
            if j < pos {
                assert(a1.columns@[j].comp == x);
            } else {
                assert(a1.columns@[j + 1].comp == x);
            }
        }
        if x == k {
            assert(a1.columns@[pos].comp == x);
        }
    }
    a1.lemma_col_idx(k);
    assert(a1.col_idx(k) == pos);
    assert(post.comps(e)[k] == v);
    assert forall|x: u64| a0.has_comp(x) && x != k implies post.comps(e)[x] == mid.comps(e)[x] by {
        a0.lemma_col_idx(x);
        let j = a0.col_idx(x);
        let j1: int = if j < pos {
            j
        } else {
            j + 1
        };
        assert(a1.columns@[j1].comp == x);
        a1.lemma_col_idx(x);
        assert(a1.col_idx(x) == j1);
        assert(a1.columns@[j1].values@[dst_row] == a0.columns@[j].values@[row]);
    }
    assert(post.comps(e) =~= mid.comps(e).insert(k, v));
    assert(post.entity_epoch_of(e, k) == post.spec_epoch());
}

/// What removing one component changes: the epoch advances by one, no
/// entity is spawned or despawned, the entity's components lose exactly the
/// given key, and everything else keeps its components.
pub open spec fn remove_effect(pre: &World, e: EntityId, k: u64, post: &World) -> bool {
    &&& post.spec_epoch() == pre.spec_epoch() + 1
    &&& forall|e2: EntityId| post.spec_alive(e2) == pre.spec_alive(e2)
    &&& post.comps(e) == pre.comps(e).remove(k)
    &&& forall|e2: EntityId| e2 != e && pre.spec_alive(e2) ==> post.comps(e2) == pre.comps(e2)
    &&& post.events@ == pre.events@
}

/// When a component is removed from a set, the destination archetype's
/// columns are the source's with the key's column spliced out.
proof fn lemma_remove_alignment(src: &Archetype, dst: &Archetype, k: u64, ci: int)
    requires
        src.wf(),
        dst.wf(),
        0 <= ci < src.columns@.len(),
        src.columns@[ci].comp == k,
        forall|k2: u64| #[trigger] dst.has_comp(k2) == (src.has_comp(k2) && k2 != k),
    ensures
        dst.columns@.len() == src.columns@.len() - 1,
        forall|i: int|
            0 <= i < ci ==> (#[trigger] dst.columns@[i]).comp == src.columns@[i].comp,
        forall|i: int|
            ci <= i < dst.columns@.len() ==> (#[trigger] dst.columns@[i]).comp == src.columns@[i
                + 1].comp,
{
    let ds = dst.comp_seq();
    let ss = src.comp_seq();
    assert(forall|i: int| 0 <= i < ds.len() ==> ds[i] == (#[trigger] dst.columns@[i]).comp);
    assert(forall|i: int| 0 <= i < ss.len() ==> ss[i] == (#[trigger] src.columns@[i]).comp);
    let sr = ss.remove(ci);
    ss.remove_ensures(ci);
    assert forall|x: u64| sr.contains(x) == ds.contains(x) by {
        if sr.contains(x) {
            let i = choose|i: int| 0 <= i < sr.len() && sr[i] == x;
            if i < ci {
                assert(ss[i] == x);
                assert(src.columns@[i].comp == x);
                assert(x != k);
            } else {
                assert(ss[i + 1] == x);
                assert(src.columns@[i + 1].comp == x);
                assert(x != k);
            }
            assert(src.has_comp(x));
            assert(dst.has_comp(x));
            let j = choose|j: int|
                0 <= j < dst.columns@.len() && (#[trigger] dst.columns@[j]).comp == x;
            assert(ds[j] == x);
        }
        if ds.contains(x) {
            let j = choose|j: int| 0 <= j < ds.len() && ds[j] == x;
            assert(dst.columns@[j].comp == x);
            assert(dst.has_comp(x));
            assert(src.has_comp(x) && x != k);
            let i = choose|i: int|
                0 <= i < src.columns@.len() && (#[trigger] src.columns@[i]).comp == x;
            assert(ss[i] == x);
            assert(i != ci);
            if i < ci {
                assert(sr[i] == x);
            } else {
                assert(sr[i - 1] == x);
            }
        }
    }
    assert forall|i: int, j: int| 0 <= i < j < sr.len() implies sr[i] < sr[j] by {
        if j < ci {
            assert(sr[i] == ss[i] && sr[j] == ss[j]);
        } else if i >= ci {
            assert(sr[i] == ss[i + 1] && sr[j] == ss[j + 1]);
        } else {
            assert(sr[i] == ss[i] && sr[j] == ss[j + 1]);
        }
    }
    assert forall|i: int, j: int| 0 <= i < j < ds.len() implies ds[i] < ds[j] by {
        assert(dst.columns@[i].comp < dst.columns@[j].comp);
    }
    lemma_sorted_unique(sr, ds);
    assert forall|i: int| 0 <= i < ci implies (#[trigger] dst.columns@[i]).comp
        == src.columns@[i].comp by {
        assert(ds[i] == sr[i]);
        assert(sr[i] == ss[i]);
    }
    assert forall|i: int|
        ci <= i < dst.columns@.len() implies (#[trigger] dst.columns@[i]).comp == src.columns@[i
        + 1].comp by {
        assert(ds[i] == sr[i]);
        assert(sr[i] == ss[i + 1]);
    }
}

/// After migrating the row with the key's column spliced out, the moved
/// entity's component map is its old map without `k`.
proof fn lemma_remove_comps_content(
    mid: &World,
    post: &World,
    e: EntityId,
    src: int,
    row: int,
    dst: int,
    dst_row: int,
    k: u64,
    ci: int,
)
    requires
        mid.wf(),
        0 <= src < mid.archetypes@.len(),
        0 <= dst < mid.archetypes@.len(),
        src != dst,
        mid.spec_alive(e),
        mid.arch_of(e) == src,
        mid.row_of(e) == row,
        post.arch_of(e) == dst,
        post.row_of(e) == dst_row,
        post.archetypes@.len() == mid.archetypes@.len(),
        post.archetypes@[dst].wf(),
        0 <= dst_row < post.archetypes@[dst].spec_len(),
        0 <= ci < mid.archetypes@[src].columns@.len(),
        mid.archetypes@[src].columns@[ci].comp == k,
        post.archetypes@[dst].columns@.len() == mid.archetypes@[src].columns@.len() - 1,
        forall|i: int|
            0 <= i < ci ==> (#[trigger] post.archetypes@[dst].columns@[i]).comp
                == mid.archetypes@[src].columns@[i].comp,
        forall|i: int|
            ci <= i < post.archetypes@[dst].columns@.len() ==> (
            #[trigger] post.archetypes@[dst].columns@[i]).comp == mid.archetypes@[src].columns@[i
                + 1].comp,
        forall|i: int|
            0 <= i < ci ==> (#[trigger] post.archetypes@[dst].columns@[i]).values@[dst_row]
                == mid.archetypes@[src].columns@[i].values@[row],
        forall|i: int|
            ci <= i < post.archetypes@[dst].columns@.len() ==> (
            #[trigger] post.archetypes@[dst].columns@[i]).values@[dst_row]
                == mid.archetypes@[src].columns@[i + 1].values@[row],
    ensures
        post.comps(e) == mid.comps(e).remove(k),
{
    let a0 = mid.archetypes@[src];
    let a1 = post.archetypes@[dst];
    assert forall|x: u64| a1.has_comp(x) == (a0.has_comp(x) && x != k) by {
        if a1.has_comp(x) {
            let i = choose|i: int|
                0 <= i < a1.columns@.len() && (#[trigger] a1.columns@[i]).comp == x;
            if i < ci {
                assert(a0.columns@[i].comp == x);
                assert(a0.columns@[i].comp < a0.columns@[ci].comp);
            } else {
                assert(a0.columns@[i + 1].comp == x);
                assert(a0.columns@[ci].comp < a0.columns@[i + 1].comp);
            }
        }
        if a0.has_comp(x) && x != k {
            let j = choose|j: int|
                0 <= j < a0.columns@.len() && (#[trigger] a0.columns@[j]).comp == x;
            assert(j != ci);
            if j < ci {
                assert(a1.columns@[j].comp == x);
            } else {
                assert(a1.columns@[j - 1].comp == x);
            }
        }
    }
    assert forall|x: u64| a1.has_comp(x) implies post.comps(e)[x] == mid.comps(e)[x] by {
        a0.lemma_col_idx(x);
        let j = a0.col_idx(x);
        assert(j != ci);
        let j1: int = if j < ci {
            j
        } else {
            j - 1
        };
        assert(a1.columns@[j1].comp == x);
        a1.lemma_col_idx(x);
        assert(a1.col_idx(x) == j1);
        assert(a1.columns@[j1].values@[dst_row] == a0.columns@[j].values@[row]);
    }
    assert(post.comps(e) =~= mid.comps(e).remove(k));
}

/// A bump of the epoch counter alone changes neither liveness nor any
/// component map, so a key write after the bump is an insert against the
/// pre-bump world.
proof fn lemma_epoch_bump_effect(
    pre: &World,
    w1: &World,
    post: &World,
    e: EntityId,
    k: u64,
    v: CompVal,
)
    requires
        w1.entities == pre.entities,
        w1.archetypes == pre.archetypes,
        w1.events == pre.events,
        w1.spec_epoch() == pre.spec_epoch() + 1,
        post.spec_epoch() == w1.spec_epoch(),
        set_key_effect(w1, e, k, v, post),
        post.entity_epoch_of(e, k) == post.spec_epoch(),
    ensures
        insert_effect(pre, e, k, v, post),
{
    assert forall|e2: EntityId| post.spec_alive(e2) == pre.spec_alive(e2) by {
        assert(post.spec_alive(e2) == w1.spec_alive(e2));
    }
    assert(w1.comps(e) == pre.comps(e));
    assert forall|e2: EntityId|
        e2 != e && pre.spec_alive(e2) implies post.comps(e2) == pre.comps(e2) by {
        assert(w1.spec_alive(e2));
        assert(post.comps(e2) == w1.comps(e2));
        assert(w1.comps(e2) == pre.comps(e2));
    }
}

/// As above, for taking a key away.
proof fn lemma_epoch_bump_remove_effect(pre: &World, w1: &World, post: &World, e: EntityId, k: u64)
    requires
        w1.entities == pre.entities,
        w1.archetypes == pre.archetypes,
        w1.events == pre.events,
        w1.spec_epoch() == pre.spec_epoch() + 1,
        post.spec_epoch() == w1.spec_epoch(),
        remove_key_effect(w1, e, k, post),
    ensures
        remove_effect(pre, e, k, post),
{
    assert forall|e2: EntityId| post.spec_alive(e2) == pre.spec_alive(e2) by {
        assert(post.spec_alive(e2) == w1.spec_alive(e2));
    }
    assert(w1.comps(e) == pre.comps(e));
    assert forall|e2: EntityId|
        e2 != e && pre.spec_alive(e2) implies post.comps(e2) == pre.comps(e2) by {
        assert(w1.spec_alive(e2));
        assert(post.comps(e2) == w1.comps(e2));
        assert(w1.comps(e2) == pre.comps(e2));
    }
}

/// The stored value of a live entity's component has the shape its key
/// demands.
pub proof fn lemma_comp_shape(w: &World, e: EntityId, k: u64)
    requires
        w.wf(),
        w.spec_alive(e),
        w.comps(e).contains_key(k),
    ensures
        comp_wf(k, w.comps(e)[k]),
{
    let a0 = w.archetypes@[w.arch_of(e)];
    assert(w.entities.slots@[e.idx as int].loc is Live);
    assert(a0.wf());
    a0.lemma_col_idx(k);
    assert(col_wf(a0.columns@[a0.col_idx(k)], a0.spec_len()));
}

/// After the dying entity's row is removed and the directory is updated, the
/// world is well formed again; everyone else stays alive with their
/// components.
pub proof fn lemma_despawn_establishes(
    mid: &World,
    post: &World,
    e: EntityId,
    src: int,
    row: int,
    moved: Option<EntityId>,
)
    requires
        mid.wf(),
        post.spec_epoch() == mid.spec_epoch(),
        0 <= src < mid.archetypes@.len(),
        mid.spec_alive(e),
        mid.arch_of(e) == src,
        mid.row_of(e) == row,
        ({
            let pre_src = mid.archetypes@[src];
            let post_src = post.archetypes@[src];
            &&& post_src.wf()
            &&& post_src.spec_len() == pre_src.spec_len() - 1
            &&& post_src.columns@.len() == pre_src.columns@.len()
            &&& post_src.entities@ == pre_src.entities@.update(
                row,
                pre_src.entities@.last(),
            ).drop_last()
            &&& forall|i: int|
                0 <= i < post_src.columns@.len() ==> {
                    &&& (#[trigger] post_src.columns@[i]).comp == pre_src.columns@[i].comp
                    &&& post_src.columns@[i].values@ == pre_src.columns@[i].values@.update(
                        row,
                        pre_src.columns@[i].values@.last(),
                    ).drop_last()
                    &&& post_src.columns@[i].arch_epoch == pre_src.columns@[i].arch_epoch
                }
        }),
        moved == if row + 1 == mid.archetypes@[src].spec_len() {
            None::<EntityId>
        } else {
            Some(mid.archetypes@[src].entities@.last())
        },
        post.archetypes@.len() == mid.archetypes@.len(),
        forall|a: int|
            0 <= a < mid.archetypes@.len() && a != src ==> post.archetypes@[a]
                == mid.archetypes@[a],
        post.entities.wf(),
        post.entities.slots@.len() == mid.entities.slots@.len(),
        (e.idx as int) < post.entities.slots@.len(),
        post.entities.slots@[e.idx as int].loc is Free,
        moved is Some ==> {
            let m = moved->0;
            &&& m.idx != e.idx
            &&& (m.idx as int) < post.entities.slots@.len()
            &&& post.entities.slots@[m.idx as int] == (Slot {
                gen_id: m.gen_id,
                loc: SlotLoc::Live { arch: src as u32, row: row as u32 },
            })
        },
        slots_framed2(
            &mid.entities,
            &post.entities,
            e.idx,
            match moved {
                Some(m) => m.idx,
                None => e.idx,
            },
        ),
        post.edges == mid.edges,
    ensures
        post.wf(),
        forall|e2: EntityId|
            post.spec_alive(e2) <==> (mid.spec_alive(e2) && e2.idx != e.idx),
        forall|e2: EntityId|
            e2.idx != e.idx && mid.spec_alive(e2) ==> post.comps(e2) == mid.comps(e2),
{
    let pre_src = mid.archetypes@[src];
    let post_src = post.archetypes@[src];
    let old_last = pre_src.spec_len() - 1;
    let midx: int = match moved {
        Some(m) => m.idx as int,
        None => e.idx as int,
    };
    assert forall|e2: EntityId|
        post.spec_alive(e2) <==> (mid.spec_alive(e2) && e2.idx != e.idx) by {
        if e2.idx == e.idx {
            assert(!post.spec_alive(e2));
        } else if e2.idx as int == midx {
        } else {
            if (e2.idx as int) < post.entities.slots@.len() {
                assert(post.entities.slots@[e2.idx as int] == mid.entities.slots@[e2.idx as int]);
            }
        }
    }
    assert forall|a: int| 0 <= a < post.archetypes@.len() implies (
    #[trigger] post.archetypes@[a]).wf() by {
        if a != src {
            assert(post.archetypes@[a] == mid.archetypes@[a]);
            assert(mid.archetypes@[a].wf());
        }
    }
    assert forall|a: int| 0 <= a < post.archetypes@.len() implies (
    #[trigger] post.archetypes@[a]).epochs_le(post.spec_epoch()) by {
        assert(mid.archetypes@[a].epochs_le(mid.spec_epoch()));
        assert forall|j: int|
            0 <= j < post.archetypes@[a].columns@.len() implies (
        #[trigger] post.archetypes@[a].columns@[j]).arch_epoch.value <= post.spec_epoch() by {
            if a == src {
                assert(post_src.columns@[j].arch_epoch == pre_src.columns@[j].arch_epoch);
                assert(pre_src.columns@[j].arch_epoch.value <= mid.spec_epoch());
            } else {
                assert(post.archetypes@[a] == mid.archetypes@[a]);
                assert(mid.archetypes@[a].columns@[j].arch_epoch.value <= mid.spec_epoch());
            }
        }
    }
    assert(post.dir_to_arch_ok()) by {
        assert forall|s: int|
            0 <= s < post.entities.slots@.len() && (#[trigger] post.entities.slots@[s]).loc
                is Live implies {
            let arch = post.entities.slots@[s].loc->arch as int;
            let rw = post.entities.slots@[s].loc->row as int;
            &&& arch < post.archetypes@.len()
            &&& rw < post.archetypes@[arch].spec_len()
            &&& post.archetypes@[arch].entities@[rw] == (EntityId {
                idx: s as u32,
                gen_id: post.entities.slots@[s].gen_id,
            })
        } by {
            if s == e.idx {
            } else if s == midx {
                assert(post_src.entities@[row] == pre_src.entities@.last());
            } else {
                assert(post.entities.slots@[s] == mid.entities.slots@[s]);
                assert(mid.entities.slots@[s].loc is Live);
                let arch = mid.entities.slots@[s].loc->arch as int;
                let rw = mid.entities.slots@[s].loc->row as int;
                let id = (EntityId { idx: s as u32, gen_id: mid.entities.slots@[s].gen_id });
                assert(mid.archetypes@[arch].entities@[rw] == id);
                if arch == src {
                    assert(rw != row) by {
                        if rw == row {
                            assert(mid.archetypes@[src].entities@[row] == (EntityId {
                                idx: e.idx,
                                gen_id: mid.entities.slots@[e.idx as int].gen_id,
                            }));
                        }
                    }
                    assert(rw != old_last) by {
                        if rw == old_last {
                            if moved is Some {
                                let m = moved->0;
                                assert(mid.archetypes@[src].entities@[old_last] == m);
                                assert(s == m.idx);
                            } else {
                                assert(old_last == row);
                            }
                        }
                    }
                    assert(post_src.entities@[rw] == pre_src.entities@[rw]);
                } else {
                    assert(post.archetypes@[arch] == mid.archetypes@[arch]);
                }
            }
        }
    }
    assert(post.arch_to_dir_ok()) by {
        assert forall|a: int, r: int|
            0 <= a < post.archetypes@.len() && 0 <= r < post.archetypes@[a].spec_len() implies {
            let id = #[trigger] post.archetypes@[a].entities@[r];
            &&& (id.idx as int) < post.entities.slots@.len()
            &&& post.entities.slots@[id.idx as int].gen_id == id.gen_id
            &&& post.entities.slots@[id.idx as int].loc == (SlotLoc::Live {
                arch: a as u32,
                row: r as u32,
            })
        } by {
            if a == src && r == row && moved is Some {
                let m = moved->0;
                assert(post.archetypes@[a].entities@[r] == m);
                assert(mid.archetypes@[src].entities@[old_last] == m);
            } else {
                let id = if a == src {
                    pre_src.entities@[r]
                } else {
                    mid.archetypes@[a].entities@[r]
                };
                assert(post.archetypes@[a].entities@[r] == id);
                assert(mid.archetypes@[a].entities@[r] == id);
                assert(mid.entities.slots@[id.idx as int].loc == (SlotLoc::Live {
                    arch: a as u32,
                    row: r as u32,
                }));
                assert(id.idx != e.idx) by {
                    if id.idx == e.idx {
                        assert(mid.entities.slots@[e.idx as int].loc == (SlotLoc::Live {
                            arch: src as u32,
                            row: row as u32,
                        }));
                    }
                }
                assert(moved is Some ==> id.idx != moved->0.idx) by {
                    if moved is Some && id.idx == moved->0.idx {
                        let m = moved->0;
                        assert(mid.archetypes@[src].entities@[old_last] == m);
                        assert(mid.entities.slots@[m.idx as int].loc == (SlotLoc::Live {
                            arch: src as u32,
                            row: old_last as u32,
                        }));
                    }
                }
                assert(post.entities.slots@[id.idx as int] == mid.entities.slots@[id.idx as int]);
            }
        }
    }
    assert(edges_wf(&post.edges, post.archetypes@)) by {
        crate::archetype::lemma_has_comp_eq(&pre_src, &post_src);
        assert forall|i: int| 0 <= i < post.edges.edges@.len() implies {
            let ed = #[trigger] post.edges.edges@[i];
            &&& (ed.src as int) < post.archetypes@.len()
            &&& (ed.dst as int) < post.archetypes@.len()
            &&& (ed.adds ==> !post.archetypes@[ed.src as int].has_comp(ed.comp) && forall|k2: u64|
                #[trigger] post.archetypes@[ed.dst as int].has_comp(k2) == (post.archetypes@[ed.src
                    as int].has_comp(k2) || k2 == ed.comp))
            &&& (!ed.adds ==> post.archetypes@[ed.src as int].has_comp(ed.comp) && forall|k2: u64|
                #[trigger] post.archetypes@[ed.dst as int].has_comp(k2) == (post.archetypes@[ed.src
                    as int].has_comp(k2) && k2 != ed.comp))
        } by {
            let ed = post.edges.edges@[i];
            assert(mid.edges.edges@[i] == ed);
            assert(forall|k2: u64| post.archetypes@[ed.src as int].has_comp(k2)
                == mid.archetypes@[ed.src as int].has_comp(k2));
            assert(forall|k2: u64| post.archetypes@[ed.dst as int].has_comp(k2)
                == mid.archetypes@[ed.dst as int].has_comp(k2));
        }
    }
    assert forall|e2: EntityId|
        e2.idx != e.idx && mid.spec_alive(e2) implies post.comps(e2) == mid.comps(e2) by {
        if moved is Some && e2 == moved->0 {
            let m = moved->0;
            assert(mid.entities.slots@[m.idx as int].loc == (SlotLoc::Live {
                arch: src as u32,
                row: old_last as u32,
            })) by {
                assert(mid.archetypes@[src].entities@[old_last] == m);
            }
            assert(post.arch_of(e2) == src && post.row_of(e2) == row);
            assert forall|j: int| 0 <= j < pre_src.columns@.len() implies (
            #[trigger] post_src.columns@[j]).values@[row] == pre_src.columns@[j].values@[
            old_last] by {
                assert(col_wf(pre_src.columns@[j], pre_src.spec_len()));
            }
            lemma_comp_map_stable(&pre_src, &post_src, old_last, row);
        } else {
            assert(e2.idx as int != midx) by {
                if moved is Some && e2.idx == moved->0.idx {
                    let m = moved->0;
                    assert(mid.archetypes@[src].entities@[old_last] == m);
                    assert(mid.entities.slots@[m.idx as int].gen_id == m.gen_id);
                }
            }
            assert(post.entities.slots@[e2.idx as int] == mid.entities.slots@[e2.idx as int]);
            let a2 = mid.arch_of(e2);
            let r2 = mid.row_of(e2);
            assert(mid.entities.slots@[e2.idx as int].loc is Live);
            if a2 == src {
                assert(r2 != row) by {
                    if r2 == row {
                        assert(mid.archetypes@[src].entities@[row] == (EntityId {
                            idx: e2.idx,
                            gen_id: mid.entities.slots@[e2.idx as int].gen_id,
                        }));
                        assert(mid.archetypes@[src].entities@[row] == (EntityId {
                            idx: e.idx,
                            gen_id: mid.entities.slots@[e.idx as int].gen_id,
                        }));
                    }
                }
                assert(r2 != old_last) by {
                    if r2 == old_last && moved is Some {
                        assert(mid.archetypes@[src].entities@[old_last] == (EntityId {
                            idx: e2.idx,
                            gen_id: mid.entities.slots@[e2.idx as int].gen_id,
                        }));
                        assert(mid.archetypes@[src].entities@[old_last] == moved->0);
                    }
                }
                assert forall|j: int| 0 <= j < pre_src.columns@.len() implies (
                #[trigger] post_src.columns@[j]).values@[r2] == pre_src.columns@[j].values@[
                r2] by {
                    assert(col_wf(pre_src.columns@[j], pre_src.spec_len()));
                }
                lemma_comp_map_stable(&pre_src, &post_src, r2, r2);
            } else {
                assert(post.archetypes@[a2] == mid.archetypes@[a2]);
            }
        }
    }
}

/// Worlds equal but for the epoch counter agree on liveness and components.
pub proof fn lemma_epoch_only_congruence_w(pre: &World, w1: &World)
    requires
        w1.entities == pre.entities,
        w1.archetypes == pre.archetypes,
    ensures
        forall|e2: EntityId| w1.spec_alive(e2) == pre.spec_alive(e2),
        forall|e2: EntityId| #[trigger] w1.comps(e2) == pre.comps(e2),
        crate::relation::plain_preserved(pre, w1),
        crate::relation::plain_preserved(w1, pre),
{
    assert forall|e2: EntityId| #[trigger] w1.comps(e2) == pre.comps(e2) by {
        assert(w1.arch_of(e2) == pre.arch_of(e2));
    }
}

/// What executing one deferred action does to the world at a fixed epoch: a
/// dead entity, an absent component or record, or an archetype table out of
/// index room makes it a no-op.
pub open spec fn action_applied(pre: World, a: Action, post: World) -> bool {
    match a {
        Action::RemoveComponent { entity, comp } => {
            if pre.spec_alive(entity) && pre.archetypes@.len() + 1 < u32::MAX as int {
                if pre.comps(entity).contains_key(comp) {
                    &&& post.spec_epoch() == pre.spec_epoch()
                    &&& forall|e2: EntityId| post.spec_alive(e2) == pre.spec_alive(e2)
                    &&& (crate::comp::is_plain_key(comp) ==> remove_key_effect(
                        &pre,
                        entity,
                        comp,
                        &post,
                    ))
                    &&& (!crate::comp::is_plain_key(comp)
                        ==> crate::relation::plain_preserved(&pre, &post))
                    &&& post.entities.slots@.len() == pre.entities.slots@.len()
                } else {
                    post == pre
                }
            } else {
                post == pre
            }
        },
        Action::CleanOrigin { who, other, rel } => {
            if pre.archetypes@.len() + 1 < u32::MAX as int {
                &&& post.spec_epoch() == pre.spec_epoch()
                &&& forall|e2: EntityId| post.spec_alive(e2) == pre.spec_alive(e2)
                &&& (pre.spec_alive(who) ==> post.comps(who)
                    == crate::relation::cleaned_origin_map(pre.comps(who), rel, other))
                &&& forall|e2: EntityId|
                    e2 != who && pre.spec_alive(e2) ==> post.comps(e2) == pre.comps(e2)
                &&& post.entities.slots@.len() == pre.entities.slots@.len()
            } else {
                post == pre
            }
        },
        Action::CleanTarget { who, origin, rel } => {
            if pre.archetypes@.len() + 1 < u32::MAX as int {
                &&& post.spec_epoch() == pre.spec_epoch()
                &&& forall|e2: EntityId| post.spec_alive(e2) == pre.spec_alive(e2)
                &&& (pre.spec_alive(who) ==> post.comps(who)
                    == crate::relation::cleaned_target_map(pre.comps(who), rel, origin))
                &&& forall|e2: EntityId|
                    e2 != who && pre.spec_alive(e2) ==> post.comps(e2) == pre.comps(e2)
                &&& post.entities.slots@.len() == pre.entities.slots@.len()
            } else {
                post == pre
            }
        },
    }
}

/// The actions were applied to the world one after another, oldest first.
pub open spec fn actions_applied(pre: World, actions: Seq<Action>, post: World) -> bool
    decreases actions.len(),
{
    if actions.len() <= 0 {
        post == pre
    } else {
        exists|mid: World|
            #![auto]
            action_applied(pre, actions[0], mid) && actions_applied(
                mid,
                actions.skip(1),
                post,
            )
    }
}

/// Applying one more action extends an applied sequence.
proof fn lemma_actions_applied_snoc(
    pre: World,
    acts: Seq<Action>,
    mid: World,
    a: Action,
    post: World,
)
    requires
        actions_applied(pre, acts, mid),
        action_applied(mid, a, post),
    ensures
        actions_applied(pre, acts.push(a), post),
    decreases acts.len(),
{
    if acts.len() == 0 {
        assert(mid == pre);
        assert(acts.push(a)[0] == a);
        assert(acts.push(a).skip(1) =~= Seq::<Action>::empty());
        assert(action_applied(pre, acts.push(a)[0], post) && actions_applied(
            post,
            acts.push(a).skip(1),
            post,
        ));
    } else {
        let m1 = choose|m1: World|
            #![auto]
            action_applied(pre, acts[0], m1) && actions_applied(m1, acts.skip(1), mid);
        lemma_actions_applied_snoc(m1, acts.skip(1), mid, a, post);
        assert(acts.push(a)[0] == acts[0]);
        assert(acts.push(a).skip(1) =~= acts.skip(1).push(a));
        assert(action_applied(pre, acts.push(a)[0], m1) && actions_applied(
            m1,
            acts.push(a).skip(1),
            post,
        ));
    }
}

impl crate::action::ActionBuffer {
    /// Executes the buffered actions against the world, oldest first, under
    /// one fresh epoch; carried hook events are appended to the world's
    /// record before the actions run. Returns true if at least one action
    /// was buffered. An empty buffer leaves the world unchanged but for the
    /// appended events.
    pub fn execute(&mut self, world: &mut World) -> (r: bool)
        requires
            old(world).wf(),
            old(world).spec_epoch() < u64::MAX,
        ensures
            final(world).wf(),
            final(self).actions@.len() == 0,
            final(self).events@.len() == 0,
            r == (old(self).actions@.len() > 0),
            forall|e2: EntityId| final(world).spec_alive(e2) == old(world).spec_alive(e2),
            final(world).entities.slots@.len() == old(world).entities.slots@.len(),
            old(world).spec_epoch() <= final(world).spec_epoch() <= old(world).spec_epoch() + 1,
            old(self).actions@.len() == 0 ==> {
                &&& final(world).entities == old(world).entities
                &&& final(world).archetypes == old(world).archetypes
                &&& final(world).edges == old(world).edges
                &&& final(world).registry == old(world).registry
                &&& final(world).epochs == old(world).epochs
                &&& final(world).events@ == old(world).events@ + old(self).events@
            },
            old(self).actions@.len() > 0 ==> exists|w1: World|
                #![auto]
                ({
                    &&& w1.entities == old(world).entities
                    &&& w1.archetypes == old(world).archetypes
                    &&& w1.edges == old(world).edges
                    &&& w1.registry == old(world).registry
                    &&& w1.events@ == old(world).events@ + old(self).events@
                    &&& w1.spec_epoch() == old(world).spec_epoch() + 1
                    &&& actions_applied(w1, old(self).actions@, *final(world))
                }),
    {
        let mut evs: Vec<crate::action::HookEvent> = Vec::new();
        core::mem::swap(&mut evs, &mut self.events);
        world.events.append(&mut evs);
        if self.actions.len() == 0 {
            return false;
        }
        let epoch = world.epochs.next_mut();
        let ghost w1 = *world;
        proof {
            lemma_wf_epoch_monotone(old(world), &w1);
            assert(old(self).actions@.take(0) =~= Seq::<Action>::empty());
        }
        let n = self.actions.len();
        let mut i: usize = 0;
        while i < n
            invariant
                world.wf(),
                epoch.value == world.spec_epoch(),
                n == self.actions@.len(),
                self.actions@ == old(self).actions@,
                i <= n,
                forall|e2: EntityId| world.spec_alive(e2) == w1.spec_alive(e2),
                world.entities.slots@.len() == w1.entities.slots@.len(),
                actions_applied(w1, old(self).actions@.take(i as int), *world),
            decreases n - i,
        {
            let act = self.actions[i];
            let ghost cur = *world;
            match act {
                crate::action::Action::RemoveComponent { entity, comp } => {
                    if world.is_alive(entity) && world.archetypes.len() < (u32::MAX - 1) as usize {
                        let _ = world.drop_key_hooked(entity, comp, epoch);
                    }
                },
                crate::action::Action::CleanOrigin { who, other, rel } => {
                    if world.archetypes.len() < (u32::MAX - 1) as usize {
                        let _ = world.clean_origin_entry(who, other, rel, epoch);
                    }
                },
                crate::action::Action::CleanTarget { who, origin, rel } => {
                    if world.archetypes.len() < (u32::MAX - 1) as usize {
                        let _ = world.clean_target_entry(who, origin, rel, epoch);
                    }
                },
            }
            proof {
                assert(action_applied(cur, act, *world));
                lemma_actions_applied_snoc(
                    w1,
                    old(self).actions@.take(i as int),
                    cur,
                    act,
                    *world,
                );
                assert(old(self).actions@.take(i + 1) =~= old(self).actions@.take(
                    i as int,
                ).push(act));
            }
            i = i + 1;
        }
        proof {
            assert(old(self).actions@.take(n as int) =~= old(self).actions@);
            assert forall|e2: EntityId| world.spec_alive(e2) == old(world).spec_alive(e2) by {
                assert(world.spec_alive(e2) == w1.spec_alive(e2));
            }
        }
        self.actions = Vec::new();
        true
    }
}

impl crate::action::ActionBufferSliceExt for Vec<crate::action::ActionBuffer> {
    open spec fn buffered(&self) -> Seq<Seq<Action>> {
        self@.map_values(|b: crate::action::ActionBuffer| b.actions@)
    }

    /// Executes every buffer in order; true if any buffer held actions.
    fn execute_all(&mut self, world: &mut World) -> (r: bool) {
        let n = self.len();
        let mut any = false;
        let mut i: usize = 0;
        while i < n
            invariant
                world.wf(),
                n == self@.len(),
                i <= n,
                forall|e2: EntityId| world.spec_alive(e2) == old(world).spec_alive(e2),
                world.entities.slots@.len() == old(world).entities.slots@.len(),
                forall|j: int| i <= j < n ==> self@[j] == old(self)@[j],
                old(world).spec_epoch() + n <= u64::MAX ==> {
                    &&& world.spec_epoch() <= old(world).spec_epoch() + i
                    &&& any == (exists|j: int|
                        0 <= j < i && (#[trigger] old(self)@[j]).actions@.len() > 0)
                    &&& forall|j: int| 0 <= j < i ==> (#[trigger] self@[j]).actions@.len() == 0
                },
            decreases n - i,
        {
            let ghost pre_any = any;
            if world.epoch() < u64::MAX {
                let ran = self[i].execute(world);
                any = any || ran;
                proof {
                    if old(world).spec_epoch() + n <= u64::MAX {
                        assert(any == (pre_any || old(self)@[i as int].actions@.len() > 0));
                        assert(any == (exists|j: int|
                            0 <= j < i + 1 && (#[trigger] old(self)@[j]).actions@.len() > 0)) by {
                            if any {
                                if pre_any {
                                    let jw = choose|j2: int|
                                        0 <= j2 < i && (#[trigger] old(self)@[j2]).actions@.len()
                                            > 0;
                                    assert(0 <= jw < i + 1 && old(self)@[jw].actions@.len() > 0);
                                } else {
                                    assert(old(self)@[i as int].actions@.len() > 0);
                                }
                            } else {
                                if exists|j: int|
                                    0 <= j < i + 1 && (#[trigger] old(self)@[j]).actions@.len()
                                        > 0 {
                                    let jw = choose|j2: int|
                                        0 <= j2 < i + 1 && (
                                        #[trigger] old(self)@[j2]).actions@.len() > 0;
                                    if jw < i {
                                        assert(pre_any);
                                    } else {
                                        assert(old(self)@[i as int].actions@.len() > 0);
                                    }
                                }
                            }
                        }
                        assert forall|j: int|
                            0 <= j < i + 1 implies (#[trigger] self@[j]).actions@.len() == 0 by {}
                    }
                }
            } else {
                proof {
                    if old(world).spec_epoch() + n <= u64::MAX {
                        assert(world.spec_epoch() < u64::MAX);
                        assert(false);
                    }
                }
            }
            i = i + 1;
        }
        proof {
            if old(world).spec_epoch() + n <= u64::MAX {
                assert(self.buffered().len() == old(self).buffered().len());
                assert forall|j: int|
                    0 <= j < self.buffered().len() implies (#[trigger] self.buffered()[j]).len()
                    == 0 by {
                    assert(self@[j].actions@.len() == 0);
                }
                assert(any == (exists|j: int|
                    0 <= j < old(self).buffered().len() && (#[trigger] old(self).buffered()[
                        j]).len() > 0)) by {
                    if any {
                        let jw = choose|j2: int|
                            0 <= j2 < n && (#[trigger] old(self)@[j2]).actions@.len() > 0;
                        assert(old(self).buffered()[jw].len() > 0);
                    } else {
                        if exists|j: int|
                            0 <= j < old(self).buffered().len() && (#[trigger] old(self).buffered()[
                                j]).len() > 0 {
                            let jw = choose|j2: int|
                                0 <= j2 < old(self).buffered().len() && (
                                #[trigger] old(self).buffered()[j2]).len() > 0;
                            assert(old(self)@[jw].actions@.len() > 0);
                        }
                    }
                }
            }
        }
        any
    }
}

impl World {
    /// Inserts every component of the bundle on the entity under one epoch;
    /// existing values are replaced.
    pub fn insert_bundle(&mut self, entity: EntityId, bundle: &Vec<(u32, u64)>) -> (r: Result<
        (),
        NoSuchEntity,
    >)
        requires
            old(self).wf(),
            bundle_ids_distinct(bundle@),
            old(self).spec_epoch() < u64::MAX,
            old(self).archetypes@.len() + bundle@.len() < u32::MAX as int,
        ensures
            final(self).wf(),
            r is Ok <==> old(self).spec_alive(entity),
            r is Err ==> *final(self) == *old(self),
            final(self).registry == old(self).registry,
            final(self).entities.slots@.len() == old(self).entities.slots@.len(),
            final(self).archetypes@.len() <= old(self).archetypes@.len() + bundle@.len(),
            r is Ok ==> {
                &&& final(self).spec_epoch() == old(self).spec_epoch() + 1
                &&& forall|e2: EntityId| final(self).spec_alive(e2) == old(self).spec_alive(e2)
                &&& forall|i: int|
                    0 <= i < bundle@.len() ==> {
                        &&& final(self).comps(entity).contains_key(
                            spec_plain_key((#[trigger] bundle@[i]).0),
                        )
                        &&& final(self).comps(entity)[spec_plain_key(bundle@[i].0)]
                            == CompVal::Plain(bundle@[i].1)
                    }
                &&& forall|k: u64|
                    !(exists|i: int|
                        0 <= i < bundle@.len() && spec_plain_key((#[trigger] bundle@[i]).0)
                            == k) ==> ((#[trigger] final(self).comps(entity).contains_key(k))
                        == old(self).comps(entity).contains_key(k) && (old(self).comps(
                        entity,
                    ).contains_key(k) ==> final(self).comps(entity)[k] == old(self).comps(
                        entity,
                    )[k]))
                &&& forall|e2: EntityId|
                    e2 != entity && old(self).spec_alive(e2) ==> final(self).comps(e2) == old(
                        self,
                    ).comps(e2)
            },
            final(self).entities.slots@.len() == old(self).entities.slots@.len(),
            final(self).archetypes@.len() <= old(self).archetypes@.len() + bundle@.len(),
    {
        if !self.is_alive(entity) {
            return Err(NoSuchEntity);
        }
        let epoch = self.epochs.next_mut();
        let ghost w1 = *self;
        proof {
            lemma_wf_epoch_monotone(old(self), &w1);
            lemma_epoch_only_congruence_w(old(self), &w1);
        }
        let n = bundle.len();
        let mut i: usize = 0;
        while i < n
            invariant
                self.wf(),
                epoch.value == self.spec_epoch(),
                self.spec_epoch() == w1.spec_epoch(),
                n == bundle@.len(),
                i <= n,
                bundle_ids_distinct(bundle@),
                w1.spec_alive(entity),
                self.spec_alive(entity),
                self.entities.slots@.len() == w1.entities.slots@.len(),
                self.archetypes@.len() <= w1.archetypes@.len() + i,
                w1.archetypes@.len() + bundle@.len() < u32::MAX as int,
                forall|e2: EntityId| self.spec_alive(e2) == w1.spec_alive(e2),
                self.events@ == w1.events@,
                self.registry == w1.registry,
                forall|j: int|
                    0 <= j < i ==> {
                        &&& self.comps(entity).contains_key(
                            spec_plain_key((#[trigger] bundle@[j]).0),
                        )
                        &&& self.comps(entity)[spec_plain_key(bundle@[j].0)] == CompVal::Plain(
                            bundle@[j].1,
                        )
                    },
                forall|k: u64|
                    !(exists|j: int|
                        0 <= j < i && spec_plain_key((#[trigger] bundle@[j]).0) == k) ==> ((
                    #[trigger] self.comps(entity).contains_key(k)) == w1.comps(
                        entity,
                    ).contains_key(k) && (w1.comps(entity).contains_key(k) ==> self.comps(
                        entity,
                    )[k] == w1.comps(entity)[k])),
                forall|e2: EntityId|
                    e2 != entity && w1.spec_alive(e2) ==> self.comps(e2) == w1.comps(e2),
            decreases n - i,
        {
            let (cid, v) = bundle[i];
            let ghost cur = *self;
            self.set_key_at(entity, crate::comp::plain_key(cid), CompValue::Plain(v), epoch);
            proof {
                assert(self.comps(entity) == cur.comps(entity).insert(
                    spec_plain_key(cid),
                    CompVal::Plain(v),
                ));
                assert forall|j: int|
                    0 <= j < i + 1 implies {
                    &&& self.comps(entity).contains_key(spec_plain_key((#[trigger] bundle@[j]).0))
                    &&& self.comps(entity)[spec_plain_key(bundle@[j].0)] == CompVal::Plain(
                        bundle@[j].1,
                    )
                } by {
                    if j < i {
                        assert(bundle@[j].0 != bundle@[i as int].0);
                        assert(spec_plain_key(bundle@[j].0) != spec_plain_key(cid));
                    }
                }
            }
            i = i + 1;
        }
        Ok(())
    }

    /// Inserts every component of the bundle, all of which must be
    /// registered.
    pub fn insert_external_bundle(&mut self, entity: EntityId, bundle: &Vec<(u32, u64)>) -> (r:
        Result<(), NoSuchEntity>)
        requires
            old(self).wf(),
            bundle_ids_distinct(bundle@),
            forall|i: int|
                0 <= i < bundle@.len() ==> old(self).registry.spec_has((#[trigger] bundle@[i]).0),
            old(self).spec_epoch() < u64::MAX,
            old(self).archetypes@.len() + bundle@.len() < u32::MAX as int,
        ensures
            final(self).wf(),
            r is Ok <==> old(self).spec_alive(entity),
            r is Err ==> *final(self) == *old(self),
            final(self).registry == old(self).registry,
            final(self).entities.slots@.len() == old(self).entities.slots@.len(),
            final(self).archetypes@.len() <= old(self).archetypes@.len() + bundle@.len(),
            r is Ok ==> {
                &&& final(self).spec_epoch() == old(self).spec_epoch() + 1
                &&& forall|e2: EntityId| final(self).spec_alive(e2) == old(self).spec_alive(e2)
                &&& forall|i: int|
                    0 <= i < bundle@.len() ==> {
                        &&& final(self).comps(entity).contains_key(
                            spec_plain_key((#[trigger] bundle@[i]).0),
                        )
                        &&& final(self).comps(entity)[spec_plain_key(bundle@[i].0)]
                            == CompVal::Plain(bundle@[i].1)
                    }
                &&& forall|k: u64|
                    !(exists|i: int|
                        0 <= i < bundle@.len() && spec_plain_key((#[trigger] bundle@[i]).0)
                            == k) ==> ((#[trigger] final(self).comps(entity).contains_key(k))
                        == old(self).comps(entity).contains_key(k) && (old(self).comps(
                        entity,
                    ).contains_key(k) ==> final(self).comps(entity)[k] == old(self).comps(
                        entity,
                    )[k]))
                &&& forall|e2: EntityId|
                    e2 != entity && old(self).spec_alive(e2) ==> final(self).comps(e2) == old(
                        self,
                    ).comps(e2)
            },
    {
        self.insert_bundle(entity, bundle)
    }

    /// Drops every component of the bundle the entity has, under one epoch.
    pub fn drop_bundle(&mut self, entity: EntityId, ids: &Vec<u32>) -> (r: Result<
        (),
        NoSuchEntity,
    >)
        requires
            old(self).wf(),
            old(self).spec_epoch() < u64::MAX,
            old(self).archetypes@.len() + ids@.len() < u32::MAX as int,
        ensures
            final(self).wf(),
            r is Ok <==> old(self).spec_alive(entity),
            r is Err ==> *final(self) == *old(self),
            r is Ok ==> {
                &&& final(self).spec_epoch() == old(self).spec_epoch() + 1
                &&& forall|e2: EntityId| final(self).spec_alive(e2) == old(self).spec_alive(e2)
                &&& forall|i: int|
                    0 <= i < ids@.len() ==> !final(self).comps(entity).contains_key(
                        spec_plain_key(#[trigger] ids@[i]),
                    )
                &&& forall|e2: EntityId|
                    e2 != entity && old(self).spec_alive(e2) ==> final(self).comps(e2) == old(
                        self,
                    ).comps(e2)
            },
            final(self).entities.slots@.len() == old(self).entities.slots@.len(),
            final(self).archetypes@.len() <= old(self).archetypes@.len() + ids@.len(),
    {
        if !self.is_alive(entity) {
            return Err(NoSuchEntity);
        }
        let epoch = self.epochs.next_mut();
        let ghost w1 = *self;
        proof {
            lemma_wf_epoch_monotone(old(self), &w1);
            lemma_epoch_only_congruence_w(old(self), &w1);
        }
        let n = ids.len();
        let mut i: usize = 0;
        while i < n
            invariant
                self.wf(),
                epoch.value == self.spec_epoch(),
                self.spec_epoch() == w1.spec_epoch(),
                n == ids@.len(),
                i <= n,
                self.spec_alive(entity),
                self.entities.slots@.len() == w1.entities.slots@.len(),
                self.archetypes@.len() <= w1.archetypes@.len() + i,
                w1.archetypes@.len() + ids@.len() < u32::MAX as int,
                forall|e2: EntityId| self.spec_alive(e2) == w1.spec_alive(e2),
                forall|j: int|
                    0 <= j < i ==> !self.comps(entity).contains_key(
                        spec_plain_key(#[trigger] ids@[j]),
                    ),
                forall|e2: EntityId|
                    e2 != entity && w1.spec_alive(e2) ==> self.comps(e2) == w1.comps(e2),
            decreases n - i,
        {
            let cid = ids[i];
            let k = crate::comp::plain_key(cid);
            let ghost cur = *self;
            let (arch0, _row0) = match self.entities.get(entity) {
                Some(l) => l,
                None => {
                    proof {
                        assert(false);
                    }
                    (0, 0)
                }
            };
            proof {
                assert(self.entities.slots@[entity.idx as int].loc is Live);
                assert(self.archetypes@[arch0 as int].wf());
            }
            if self.archetypes[arch0 as usize].has_component(k) {
                let _ = self.remove_key_at(entity, k, epoch);
                proof {
                    assert(self.comps(entity) == cur.comps(entity).remove(k));
                    assert forall|j: int|
                        0 <= j < i + 1 implies !self.comps(entity).contains_key(
                        spec_plain_key(#[trigger] ids@[j]),
                    ) by {
                        if j < i {
                            assert(!cur.comps(entity).contains_key(spec_plain_key(ids@[j])));
                        }
                    }
                }
            } else {
                proof {
                    assert(!self.comps(entity).contains_key(k));
                    assert forall|j: int|
                        0 <= j < i + 1 implies !self.comps(entity).contains_key(
                        spec_plain_key(#[trigger] ids@[j]),
                    ) by {}
                }
            }
            i = i + 1;
        }
        Ok(())
    }

    /// Starts a batch: bumps the epoch once and registers every component
    /// id the bundles name. Every entity the batch spawns is stamped with
    /// that one epoch; nothing is spawned until the batch is driven.
    pub fn spawn_batch(&mut self, bundles: Vec<Vec<(u32, u64)>>) -> (r: SpawnBatch)
        requires
            old(self).wf(),
            old(self).spec_epoch() < u64::MAX,
        ensures
            final(self).wf(),
            final(self).spec_epoch() == old(self).spec_epoch() + 1,
            final(self).entities == old(self).entities,
            final(self).archetypes == old(self).archetypes,
            final(self).edges == old(self).edges,
            final(self).events == old(self).events,
            forall|x: u32| old(self).registry.spec_has(x) ==> final(self).registry.spec_has(x),
            r.bundles == bundles,
            r.pos == 0,
            r.epoch.value == final(self).spec_epoch(),
    {
        let epoch = self.epochs.next_mut();
        proof {
            lemma_wf_epoch_monotone(old(self), self);
        }
        let nb = bundles.len();
        let mut j: usize = 0;
        while j < nb
            invariant
                nb == bundles@.len(),
                j <= nb,
                self.wf(),
                self.spec_epoch() == old(self).spec_epoch() + 1,
                self.entities == old(self).entities,
                self.archetypes == old(self).archetypes,
                self.edges == old(self).edges,
                self.events == old(self).events,
                epoch.value == self.spec_epoch(),
                forall|x: u32| old(self).registry.spec_has(x) ==> self.registry.spec_has(x),
            decreases nb - j,
        {
            let m = bundles[j].len();
            let mut i: usize = 0;
            while i < m
                invariant
                    nb == bundles@.len(),
                    j < nb,
                    m == bundles@[j as int]@.len(),
                    i <= m,
                    self.wf(),
                    self.spec_epoch() == old(self).spec_epoch() + 1,
                    self.entities == old(self).entities,
                    self.archetypes == old(self).archetypes,
                    self.edges == old(self).edges,
                    self.events == old(self).events,
                    epoch.value == self.spec_epoch(),
                    forall|x: u32| old(self).registry.spec_has(x) ==> self.registry.spec_has(x),
                decreases m - i,
            {
                let ghost pre = *self;
                self.registry.register(bundles[j][i].0);
                proof {
                    lemma_wf_congruent(&pre, self);
                }
                i = i + 1;
            }
            j = j + 1;
        }
        SpawnBatch { bundles, pos: 0, epoch }
    }

    /// Starts a batch whose bundles' component ids must all have been
    /// registered beforehand; driving the batch registers nothing.
    pub fn spawn_batch_external(&mut self, bundles: Vec<Vec<(u32, u64)>>) -> (r: SpawnBatch)
        requires
            old(self).wf(),
            old(self).spec_epoch() < u64::MAX,
            forall|j: int, i: int|
                #![trigger bundles@[j]@[i]]
                0 <= j < bundles@.len() && 0 <= i < bundles@[j]@.len() ==> old(
                    self,
                ).registry.spec_has(bundles@[j]@[i].0),
        ensures
            final(self).wf(),
            final(self).spec_epoch() == old(self).spec_epoch() + 1,
            final(self).entities == old(self).entities,
            final(self).archetypes == old(self).archetypes,
            final(self).edges == old(self).edges,
            final(self).events == old(self).events,
            final(self).registry == old(self).registry,
            r.bundles == bundles,
            r.pos == 0,
            r.epoch.value == final(self).spec_epoch(),
    {
        let epoch = self.epochs.next_mut();
        proof {
            lemma_wf_epoch_monotone(old(self), self);
        }
        SpawnBatch { bundles, pos: 0, epoch }
    }
}

/// A lazy spawning batch: each step spawns the next bundle at the batch's
/// one epoch. Skipped or leftover bundles are never spawned.
pub struct SpawnBatch {
    /// The bundles still to spawn, in order.
    pub bundles: Vec<Vec<(u32, u64)>>,
    /// How many have been spawned.
    pub pos: usize,
    /// The epoch stamped on every row the batch spawns, bumped once when
    /// the batch was made.
    pub epoch: EpochId,
}

/// The bundles `from..upto` were each spawned onto one fresh entity, in
/// order, every row stamped with `stamp`; nothing else happened.
pub open spec fn batch_spawned_range(
    pre: World,
    bundles: Seq<Vec<(u32, u64)>>,
    from: int,
    upto: int,
    post: World,
    stamp: u64,
) -> bool
    decreases upto - from,
{
    if from >= upto {
        post == pre
    } else {
        exists|mid: World, e: EntityId|
            #![auto]
            spawn_core_effect(&pre, bundles[from]@, &mid, e, stamp) && batch_spawned_range(
                mid,
                bundles,
                from + 1,
                upto,
                post,
                stamp,
            )
    }
}

/// Extending a spawned range by one more spawn keeps it a spawned range.
proof fn lemma_batch_range_extend(
    pre: World,
    bundles: Seq<Vec<(u32, u64)>>,
    from: int,
    upto: int,
    mid: World,
    post: World,
    e: EntityId,
    stamp: u64,
)
    requires
        from <= upto,
        batch_spawned_range(pre, bundles, from, upto, mid, stamp),
        spawn_core_effect(&mid, bundles[upto]@, &post, e, stamp),
    ensures
        batch_spawned_range(pre, bundles, from, upto + 1, post, stamp),
    decreases upto - from,
{
    if from >= upto {
        assert(mid == pre);
        assert(spawn_core_effect(&pre, bundles[from]@, &post, e, stamp));
        assert(batch_spawned_range(post, bundles, from + 1, upto + 1, post, stamp));
    } else {
        let (m1, e1) = choose|m1: World, e1: EntityId|
            #![auto]
            spawn_core_effect(&pre, bundles[from]@, &m1, e1, stamp) && batch_spawned_range(
                m1,
                bundles,
                from + 1,
                upto,
                mid,
                stamp,
            );
        lemma_batch_range_extend(m1, bundles, from + 1, upto, mid, post, e, stamp);
        assert(batch_spawned_range(pre, bundles, from, upto + 1, post, stamp)) by {
            assert(spawn_core_effect(&pre, bundles[from]@, &m1, e1, stamp) && batch_spawned_range(
                m1,
                bundles,
                from + 1,
                upto + 1,
                post,
                stamp,
            ));
        }
    }
}

impl SpawnBatch {
    /// Every bundle has pairwise distinct component ids.
    pub open spec fn wf(&self) -> bool {
        forall|j: int|
            0 <= j < self.bundles@.len() ==> bundle_ids_distinct((#[trigger] self.bundles@[j])@)
    }

    /// Spawns the next bundle at the batch's epoch, if one is left. The
    /// world's clock does not move.
    pub fn next(&mut self, w: &mut World) -> (r: Option<EntityId>)
        requires
            old(self).wf(),
            old(w).wf(),
            old(self).epoch.value <= old(w).spec_epoch(),
            old(w).entities.slots@.len() + 1 < u32::MAX as int,
            old(w).archetypes@.len() < u32::MAX as int,
        ensures
            final(self).wf(),
            final(w).wf(),
            final(self).bundles == old(self).bundles,
            final(self).epoch == old(self).epoch,
            final(w).spec_epoch() == old(w).spec_epoch(),
            final(w).registry == old(w).registry,
            old(w).entities.slots@.len() <= final(w).entities.slots@.len() <= old(
                w,
            ).entities.slots@.len() + 1,
            final(w).archetypes@.len() <= old(w).archetypes@.len() + 1,
            r is Some <==> (old(self).pos as int) < old(self).bundles@.len(),
            r is Some ==> {
                &&& final(self).pos == old(self).pos + 1
                &&& spawn_core_effect(
                    old(w),
                    (old(self).bundles@[old(self).pos as int])@,
                    final(w),
                    r->0,
                    old(self).epoch.value,
                )
            },
            r is None ==> *final(w) == *old(w) && final(self).pos == old(self).pos,
    {
        if self.pos >= self.bundles.len() {
            return None;
        }
        let b = &self.bundles[self.pos];
        let e = w.spawn_at_impl(b, self.epoch);
        self.pos = self.pos + 1;
        Some(e)
    }

    /// Spawns all remaining bundles at the batch's epoch, dropping their
    /// ids: one fresh entity per bundle, in order, all stamped alike.
    pub fn spawn_all(self, w: &mut World)
        requires
            self.wf(),
            old(w).wf(),
            self.epoch.value <= old(w).spec_epoch(),
            old(w).entities.slots@.len() + self.bundles@.len() + 1 < u32::MAX as int,
            old(w).archetypes@.len() + self.bundles@.len() < u32::MAX as int,
        ensures
            final(w).wf(),
            final(w).spec_epoch() == old(w).spec_epoch(),
            final(w).registry == old(w).registry,
            batch_spawned_range(
                *old(w),
                self.bundles@,
                self.pos as int,
                self.bundles@.len() as int,
                *final(w),
                self.epoch.value,
            ),
    {
        let n = self.bundles.len();
        let ghost start_slots = w.entities.slots@.len();
        let ghost start_arch = w.archetypes@.len();
        let mut sb = self;
        if sb.pos >= n {
            return ;
        }
        let ghost start_pos = sb.pos;
        let mut i: usize = sb.pos;
        while i < n
            invariant
                sb.wf(),
                w.wf(),
                n == sb.bundles@.len(),
                sb.bundles == self.bundles,
                sb.epoch == self.epoch,
                sb.pos == i,
                start_pos == self.pos,
                start_pos <= i <= n,
                sb.epoch.value <= w.spec_epoch(),
                w.spec_epoch() == old(w).spec_epoch(),
                w.registry == old(w).registry,
                w.entities.slots@.len() <= start_slots + (i - start_pos),
                w.archetypes@.len() <= start_arch + (i - start_pos),
                start_slots + n + 1 < u32::MAX as int,
                start_arch + n < u32::MAX as int,
                batch_spawned_range(
                    *old(w),
                    self.bundles@,
                    start_pos as int,
                    i as int,
                    *w,
                    self.epoch.value,
                ),
            decreases n - i,
        {
            proof {
                assert(w.entities.slots@.len() + 1 < u32::MAX as int);
                assert(w.archetypes@.len() < u32::MAX as int);
            }
            let ghost mid = *w;
            let got = sb.next(w);
            proof {
                let e = got->0;
                lemma_batch_range_extend(
                    *old(w),
                    self.bundles@,
                    start_pos as int,
                    i as int,
                    mid,
                    *w,
                    e,
                    self.epoch.value,
                );
            }
            i = i + 1;
        }
    }
}

/// The counterpart named by a cleaning task no longer records the dead
/// entity, on whichever side the task points at.
pub open spec fn task_done(task: (bool, EntityId, u32), entity: EntityId, w: &World) -> bool {
    w.spec_alive(task.1) ==> if task.0 {
        !crate::relation::has_origin_entry(w.comps(task.1), task.2, entity)
    } else {
        !crate::relation::has_target_entry(w.comps(task.1), task.2, entity)
    }
}

/// For every relation the dying entity took part in, up to column `upto` of
/// its archetype: the drop hooks' events are recorded and a cleaning task
/// exists for each living counterpart.
pub open spec fn gather_covered(
    c: Map<u64, CompVal>,
    entity: EntityId,
    arch: Archetype,
    upto: int,
    events: Seq<HookEvent>,
    tasks: Seq<(bool, EntityId, u32)>,
) -> bool {
    &&& forall|rel: u32, t: EntityId|
        #![trigger crate::relation::has_origin_entry(c, rel, t)]
        crate::relation::has_origin_entry(c, rel, t) && arch.col_idx(spec_origin_key(rel))
            < upto ==> {
            let o = c[spec_origin_key(rel)]->Origins_0;
            &&& events.contains(HookEvent::RelationDrop { rel, origin: entity, target: t })
            &&& (o.symmetric ==> events.contains(
                HookEvent::RelationTargetDrop { rel, origin: t, target: entity },
            ))
            &&& (t != entity ==> tasks.contains((o.symmetric, t, rel)))
        }
    &&& forall|rel: u32, o2: EntityId|
        #![trigger crate::relation::has_target_entry(c, rel, o2)]
        crate::relation::has_target_entry(c, rel, o2) && arch.col_idx(spec_target_key(rel))
            < upto ==> {
            &&& events.contains(
                HookEvent::RelationTargetDrop { rel, origin: o2, target: entity },
            )
            &&& tasks.contains((true, o2, rel))
        }
}

/// Coverage extends by one column once that column's container has been
/// walked: recorded facts survive appends, and the walked column supplies
/// the rest.
proof fn lemma_gather_covered_step(
    c: Map<u64, CompVal>,
    entity: EntityId,
    arch: Archetype,
    ci: int,
    ev0: Seq<HookEvent>,
    tk0: Seq<(bool, EntityId, u32)>,
    ev1: Seq<HookEvent>,
    tk1: Seq<(bool, EntityId, u32)>,
)
    requires
        arch.wf(),
        0 <= ci < arch.columns@.len(),
        forall|k: u64| c.contains_key(k) ==> arch.has_comp(k),
        gather_covered(c, entity, arch, ci, ev0, tk0),
        ev0.is_prefix_of(ev1),
        forall|x: int| 0 <= x < tk0.len() ==> tk1.len() > x && #[trigger] tk1[x] == tk0[x],
        ({
            let k = arch.columns@[ci].comp;
            crate::comp::ORIGIN_TAG <= k < crate::comp::TARGET_TAG && c.contains_key(k) && c[k]
                is Origins ==> {
                let o = c[k]->Origins_0;
                let rel = (k - crate::comp::ORIGIN_TAG) as u32;
                forall|j2: int|
                    0 <= j2 < o.entries.len() ==> {
                        let ent = #[trigger] o.entries[j2];
                        &&& ev1.contains(
                            HookEvent::RelationDrop { rel, origin: entity, target: ent.target },
                        )
                        &&& (o.symmetric ==> ev1.contains(
                            HookEvent::RelationTargetDrop {
                                rel,
                                origin: ent.target,
                                target: entity,
                            },
                        ))
                        &&& (ent.target != entity ==> tk1.contains((o.symmetric, ent.target, rel)))
                    }
            }
        }),
        ({
            let k = arch.columns@[ci].comp;
            crate::comp::TARGET_TAG <= k && c.contains_key(k) && c[k] is Targets ==> {
                let tgt = c[k]->Targets_0;
                let rel = (k - crate::comp::TARGET_TAG) as u32;
                forall|j2: int|
                    0 <= j2 < tgt.origins.len() ==> {
                        let o2 = #[trigger] tgt.origins[j2];
                        &&& ev1.contains(
                            HookEvent::RelationTargetDrop { rel, origin: o2, target: entity },
                        )
                        &&& tk1.contains((true, o2, rel))
                    }
            }
        }),
    ensures
        gather_covered(c, entity, arch, ci + 1, ev1, tk1),
{
    let k = arch.columns@[ci].comp;
    assert forall|rel: u32, t: EntityId|
        crate::relation::has_origin_entry(c, rel, t) && arch.col_idx(spec_origin_key(rel)) < ci
            + 1 implies {
        let o = c[spec_origin_key(rel)]->Origins_0;
        &&& ev1.contains(HookEvent::RelationDrop { rel, origin: entity, target: t })
        &&& (o.symmetric ==> ev1.contains(
            HookEvent::RelationTargetDrop { rel, origin: t, target: entity },
        ))
        &&& (t != entity ==> tk1.contains((o.symmetric, t, rel)))
    } by {
        let ok = spec_origin_key(rel);
        assert(arch.has_comp(ok));
        arch.lemma_col_idx(ok);
        let o = c[ok]->Origins_0;
        if arch.col_idx(ok) < ci {
            assert(ev0.contains(HookEvent::RelationDrop { rel, origin: entity, target: t }));
            crate::relation::lemma_contains_prefix(
                ev0,
                ev1,
                HookEvent::RelationDrop { rel, origin: entity, target: t },
            );
            if o.symmetric {
                crate::relation::lemma_contains_prefix(
                    ev0,
                    ev1,
                    HookEvent::RelationTargetDrop { rel, origin: t, target: entity },
                );
            }
            if t != entity {
                let xi = choose|xi: int| 0 <= xi < tk0.len() && tk0[xi] == (o.symmetric, t, rel);
                assert(tk1[xi] == (o.symmetric, t, rel));
            }
        } else {
            assert(arch.col_idx(ok) == ci);
            assert(arch.columns@[ci].comp == ok);
            assert(rel == (k - crate::comp::ORIGIN_TAG) as u32);
            let j2 = choose|j2: int| 0 <= j2 < o.entries.len() && (#[trigger] o.entries[j2]).target == t;
            assert(o.entries[j2].target == t);
        }
    }
    assert forall|rel: u32, o2: EntityId|
        crate::relation::has_target_entry(c, rel, o2) && arch.col_idx(spec_target_key(rel)) < ci
            + 1 implies {
        &&& ev1.contains(HookEvent::RelationTargetDrop { rel, origin: o2, target: entity })
        &&& tk1.contains((true, o2, rel))
    } by {
        let tk = spec_target_key(rel);
        assert(arch.has_comp(tk));
        arch.lemma_col_idx(tk);
        if arch.col_idx(tk) < ci {
            crate::relation::lemma_contains_prefix(
                ev0,
                ev1,
                HookEvent::RelationTargetDrop { rel, origin: o2, target: entity },
            );
            let xi = choose|xi: int| 0 <= xi < tk0.len() && tk0[xi] == (true, o2, rel);
            assert(tk1[xi] == (true, o2, rel));
        } else {
            assert(arch.col_idx(tk) == ci);
            assert(arch.columns@[ci].comp == tk);
            assert(rel == (k - crate::comp::TARGET_TAG) as u32);
            let tgt = c[tk]->Targets_0;
            let j2 = choose|j2: int| 0 <= j2 < tgt.origins.len() && tgt.origins[j2] == o2;
            assert(tgt.origins[j2] == o2);
        }
    }
}

} // verus!
