//! Deferred actions and hook events.
//!
//! Component and relation hooks never receive the world; they record actions
//! into an encoder, and the buffered actions run against the world only after
//! the mutating call that triggered them has finished with its own changes.
//! Hook invocations themselves are recorded as events, so a caller can
//! observe which hooks fired and with which entities.

use vstd::prelude::*;

use crate::entity::EntityId;

verus! {

/// A record of one hook invocation.
#[derive(Clone, Copy, PartialEq, Eq, Structural, Debug)]
pub enum HookEvent {
    /// A relation instance was dropped from its origin.
    RelationDrop {
        /// The relation.
        rel: u32,
        /// The origin entity.
        origin: EntityId,
        /// The target entity.
        target: EntityId,
    },
    /// An exclusive relation instance was replaced on its origin.
    RelationSet {
        /// The relation.
        rel: u32,
        /// The origin entity.
        origin: EntityId,
        /// The target before the replacement.
        old_target: EntityId,
        /// The target after the replacement.
        new_target: EntityId,
    },
    /// A relation lost its target entity.
    RelationTargetDrop {
        /// The relation.
        rel: u32,
        /// The origin entity.
        origin: EntityId,
        /// The target entity.
        target: EntityId,
    },
}

/// One deferred action.
#[derive(Clone, Copy, PartialEq, Eq, Structural, Debug)]
pub enum Action {
    /// Drop the component with key `comp` from `entity`, running its hooks.
    RemoveComponent {
        /// The entity to strip.
        entity: EntityId,
        /// Key of the component to drop.
        comp: u64,
    },
    /// Remove the entry targeting `other` from the origin container of
    /// relation `rel` on `who`, because the other side went away.
    CleanOrigin {
        /// Holder of the origin container.
        who: EntityId,
        /// The vanished counterpart.
        other: EntityId,
        /// The relation.
        rel: u32,
    },
    /// Remove `origin` from the target container of relation `rel` on `who`,
    /// because the origin side went away.
    CleanTarget {
        /// Holder of the target container.
        who: EntityId,
        /// The vanished origin.
        origin: EntityId,
        /// The relation.
        rel: u32,
    },
}

/// Records deferred actions and hook events during one mutating call.
pub struct ActionEncoder {
    /// The recorded actions, oldest first.
    pub actions: Vec<Action>,
    /// The recorded hook events, oldest first.
    pub events: Vec<HookEvent>,
}

impl ActionEncoder {
    /// Returns an empty encoder.
    pub fn new() -> (r: Self)
        ensures
            r.actions@.len() == 0,
            r.events@.len() == 0,
    {
        ActionEncoder { actions: Vec::new(), events: Vec::new() }
    }

    /// Defers dropping the component with key `comp` from `entity`.
    pub fn remove_component(&mut self, entity: EntityId, comp: u64)
        ensures
            final(self).actions@ == old(self).actions@.push(
                Action::RemoveComponent { entity, comp },
            ),
            final(self).events@ == old(self).events@,
    {
        self.actions.push(Action::RemoveComponent { entity, comp });
    }

    /// Records a deferred action.
    pub fn push_action(&mut self, a: Action)
        ensures
            final(self).actions@ == old(self).actions@.push(a),
            final(self).events@ == old(self).events@,
    {
        self.actions.push(a);
    }

    /// Records a hook event.
    pub fn log(&mut self, ev: HookEvent)
        ensures
            final(self).events@ == old(self).events@.push(ev),
            final(self).actions@ == old(self).actions@,
    {
        self.events.push(ev);
    }
}

/// Buffer of deferred actions recorded by an [`ActionEncoder`].
pub struct ActionBuffer {
    /// The buffered actions, oldest first.
    pub actions: Vec<Action>,
    /// Hook events carried over from absorbed encoders.
    pub events: Vec<HookEvent>,
}

impl ActionBuffer {
    /// Returns a new, empty action buffer.
    pub fn new() -> (r: Self)
        ensures
            r.actions@.len() == 0,
            r.events@.len() == 0,
    {
        ActionBuffer { actions: Vec::new(), events: Vec::new() }
    }

    /// Returns an encoder whose recordings this buffer can later absorb.
    pub fn encoder(&self) -> (r: ActionEncoder)
        ensures
            r.actions@.len() == 0,
            r.events@.len() == 0,
    {
        ActionEncoder::new()
    }

    /// Appends an encoder's recordings to this buffer.
    pub fn absorb(&mut self, enc: ActionEncoder)
        ensures
            final(self).actions@ == old(self).actions@ + enc.actions@,
            final(self).events@ == old(self).events@ + enc.events@,
    {
        let mut enc = enc;
        let ghost pre_a = self.actions@;
        let ghost pre_e = self.events@;
        self.actions.append(&mut enc.actions);
        self.events.append(&mut enc.events);
    }
}

/// Extension for collections of action buffers: run them all.
pub trait ActionBufferSliceExt {
    /// The buffered action queues, in order.
    spec fn buffered(&self) -> Seq<Seq<Action>>;

    /// Executes every buffer against the world, in order; true if any buffer
    /// held actions. Given clock headroom for one bump per buffer, every
    /// buffer is drained.
    fn execute_all(&mut self, world: &mut crate::world::World) -> (r: bool)
        requires
            old(world).wf(),
        ensures
            final(world).wf(),
            forall|e2: crate::entity::EntityId|
                final(world).spec_alive(e2) == old(world).spec_alive(e2),
            final(world).entities.slots@.len() == old(world).entities.slots@.len(),
            final(self).buffered().len() == old(self).buffered().len(),
            old(world).spec_epoch() + old(self).buffered().len() <= u64::MAX ==> {
                &&& r == (exists|j: int|
                    0 <= j < old(self).buffered().len() && (#[trigger] old(self).buffered()[
                        j]).len() > 0)
                &&& forall|j: int|
                    0 <= j < final(self).buffered().len() ==> (#[trigger] final(self).buffered()[
                        j]).len() == 0
            },
    ;
}

} // verus!
