//! Builder for [`World`](crate::world::World) values.

use vstd::prelude::*;

use crate::action::HookEvent;
use crate::archetype::Archetype;
use crate::component::{ComponentInfo, ComponentRegistry};
use crate::edges::{edges_wf, Edges};
use crate::entity::Entities;
use crate::epoch::EpochCounter;
use crate::world::World;

verus! {

/// Performs setup, such as registering component types up front, before the
/// world is built.
pub struct WorldBuilder {
    /// Components registered so far.
    pub registry: ComponentRegistry,
}

impl WorldBuilder {
    /// Returns a new builder with nothing registered.
    pub fn new() -> (r: WorldBuilder)
        ensures
            forall|id: u32| !r.registry.spec_has(id),
    {
        WorldBuilder { registry: ComponentRegistry::new() }
    }

    /// Registers a component from its metadata.
    pub fn register_raw(&mut self, info: ComponentInfo)
        ensures
            forall|x: u32|
                final(self).registry.spec_has(x) == (old(self).registry.spec_has(x) || x
                    == info.id),
    {
        self.registry.register(info.id);
    }

    /// Registers the component with id `id`.
    pub fn register_component(&mut self, id: u32)
        ensures
            forall|x: u32|
                final(self).registry.spec_has(x) == (old(self).registry.spec_has(x) || x == id),
    {
        self.registry.register(id);
    }

    /// Registers a component whose values the engine does not own; such
    /// components must be registered before the `external` entry points will
    /// accept them.
    pub fn register_external(&mut self, id: u32)
        ensures
            forall|x: u32|
                final(self).registry.spec_has(x) == (old(self).registry.spec_has(x) || x == id),
    {
        self.registry.register(id);
    }

    /// Builds the world: no entities, the null archetype, epoch zero, and the
    /// registrations made on this builder.
    pub fn build(self) -> (w: World)
        ensures
            w.wf(),
            w.spec_epoch() == 0,
            forall|e: crate::entity::EntityId| !w.spec_alive(e),
            w.events@.len() == 0,
            forall|id: u32| w.registry.spec_has(id) == self.registry.spec_has(id),
            w.entities.slots@.len() == 0,
            w.archetypes@.len() == 1,
            w.archetypes@[0].spec_len() == 0,
            w.archetypes@[0].columns@.len() == 0,
            w.edges.edges@.len() == 0,
    {
        let mut archetypes: Vec<Archetype> = Vec::new();
        archetypes.push(Archetype::new_empty());
        let w = World {
            epochs: EpochCounter::new(),
            entities: Entities::new(),
            archetypes,
            edges: Edges::new(),
            registry: self.registry,
            events: Vec::<HookEvent>::new(),
        };
        proof {
            assert(w.dir_to_arch_ok());
            assert(w.arch_to_dir_ok());
            assert(edges_wf(&w.edges, w.archetypes@));
        }
        w
    }
}

} // verus!
