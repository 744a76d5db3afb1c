//! An entity-component data engine with verified storage and query core.
//!
//! Entities are opaque handles (slot and generation). Each live entity owns a
//! set of components; entities with the same component set share an archetype,
//! a columnar table chunked for change tracking. A monotonic epoch counter
//! stamps every mutation at three granularities (archetype, chunk, entity) so
//! that queries can visit only what changed after a given epoch. A relation
//! subsystem links pairs of entities with paired origin/target components, and
//! a deferred-action buffer keeps hook-driven cleanup out of the mutating call.

pub mod action;
pub mod archetype;
pub mod builder;
pub mod bundle;
pub mod comp;
pub mod component;
pub mod edges;
pub mod entity;
pub mod epoch;
pub mod laws;
pub mod query;
pub mod relation;
pub mod view;
pub mod world;

pub use builder::WorldBuilder;
pub use entity::EntityId;
pub use epoch::{EpochCounter, EpochId};
pub use world::World;
