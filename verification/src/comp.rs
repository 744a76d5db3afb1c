//! Component keys and component values.
//!
//! The engine is dynamically typed: a component is a key plus a value. Plain
//! user components carry one 64-bit payload. The relation subsystem stores two
//! further component shapes: the origin container (the relation entries held
//! by an origin entity) and the target container (the origins recorded on a
//! target entity of a non-symmetric relation). Keys for the three shapes live
//! in disjoint ranges, so user-facing calls that take a plain component id can
//! never touch a relation container.

use vstd::prelude::*;

use crate::entity::EntityId;

verus! {

/// First key of the origin-container range.
pub const ORIGIN_TAG: u64 = 0x1_0000_0000;

/// First key of the target-container range.
pub const TARGET_TAG: u64 = 0x2_0000_0000;

/// Key of the plain component with id `c`.
pub open spec fn spec_plain_key(c: u32) -> u64 {
    c as u64
}

/// Key of the origin container of relation `rel`.
pub open spec fn spec_origin_key(rel: u32) -> u64 {
    (ORIGIN_TAG + rel) as u64
}

/// Key of the target container of relation `rel`.
pub open spec fn spec_target_key(rel: u32) -> u64 {
    (TARGET_TAG + rel) as u64
}

/// Key of the plain component with id `c`.
#[verifier::when_used_as_spec(spec_plain_key)]
pub fn plain_key(c: u32) -> (r: u64)
    ensures
        r == spec_plain_key(c),
{
    c as u64
}

/// Key of the origin container of relation `rel`.
#[verifier::when_used_as_spec(spec_origin_key)]
pub fn origin_key(rel: u32) -> (r: u64)
    ensures
        r == spec_origin_key(rel),
{
    ORIGIN_TAG + rel as u64
}

/// Key of the target container of relation `rel`.
#[verifier::when_used_as_spec(spec_target_key)]
pub fn target_key(rel: u32) -> (r: u64)
    ensures
        r == spec_target_key(rel),
{
    TARGET_TAG + rel as u64
}

/// True if `k` is the key of a plain component.
pub open spec fn is_plain_key(k: u64) -> bool {
    k < ORIGIN_TAG
}

/// One relation entry held by an origin entity: the target and the payload.
#[derive(Clone, Copy, PartialEq, Eq, Structural, Debug)]
pub struct OriginEntry {
    /// The entity on the far side of the relation.
    pub target: EntityId,
    /// The relation payload.
    pub value: u64,
}

/// The origin container: relation entries held by an origin entity.
pub struct OriginComponent {
    /// True if the relation admits at most one entry per origin.
    pub exclusive: bool,
    /// True if the relation is stored on both sides as origins.
    pub symmetric: bool,
    /// The entries; targets are pairwise distinct.
    pub entries: Vec<OriginEntry>,
}

/// Mathematical shape of an origin container.
pub struct OriginCompView {
    /// True if the relation admits at most one entry per origin.
    pub exclusive: bool,
    /// True if the relation is stored on both sides as origins.
    pub symmetric: bool,
    /// The entries in storage order.
    pub entries: Seq<OriginEntry>,
}

impl View for OriginComponent {
    type V = OriginCompView;

    open spec fn view(&self) -> OriginCompView {
        OriginCompView {
            exclusive: self.exclusive,
            symmetric: self.symmetric,
            entries: self.entries@,
        }
    }
}

impl OriginComponent {
    /// The entries of this container.
    pub fn origins(&self) -> (r: &Vec<OriginEntry>)
        ensures
            r@ == self@.entries,
    {
        &self.entries
    }
}

/// The target container: origins recorded on the target entity of a
/// non-symmetric relation.
pub struct TargetComponent {
    /// True if the relation admits at most one entry per origin.
    pub exclusive: bool,
    /// The origin entities; pairwise distinct.
    pub origins: Vec<EntityId>,
}

/// Mathematical shape of a target container.
pub struct TargetCompView {
    /// True if the relation admits at most one entry per origin.
    pub exclusive: bool,
    /// The origin entities in storage order.
    pub origins: Seq<EntityId>,
}

impl View for TargetComponent {
    type V = TargetCompView;

    open spec fn view(&self) -> TargetCompView {
        TargetCompView { exclusive: self.exclusive, origins: self.origins@ }
    }
}

impl TargetComponent {
    /// The origins recorded in this container.
    pub fn origins(&self) -> (r: &Vec<EntityId>)
        ensures
            r@ == self@.origins,
    {
        &self.origins
    }
}

/// A stored component value, one of the three shapes.
pub enum CompValue {
    /// A plain user component.
    Plain(u64),
    /// An origin container of the relation subsystem.
    Origins(OriginComponent),
    /// A target container of the relation subsystem.
    Targets(TargetComponent),
}

/// Mathematical shape of a stored component value.
pub enum CompVal {
    /// A plain user component.
    Plain(u64),
    /// An origin container.
    Origins(OriginCompView),
    /// A target container.
    Targets(TargetCompView),
}

impl View for CompValue {
    type V = CompVal;

    open spec fn view(&self) -> CompVal {
        match self {
            CompValue::Plain(v) => CompVal::Plain(*v),
            CompValue::Origins(o) => CompVal::Origins(o@),
            CompValue::Targets(t) => CompVal::Targets(t@),
        }
    }
}

/// True if the value stored under key `k` has the shape that the key's range
/// prescribes and its own entries are well formed.
pub open spec fn comp_wf(k: u64, v: CompVal) -> bool {
    match v {
        CompVal::Plain(_) => k < ORIGIN_TAG,
        CompVal::Origins(o) => {
            &&& ORIGIN_TAG <= k < TARGET_TAG
            &&& (o.exclusive ==> o.entries.len() <= 1)
            &&& forall|i: int, j: int|
                0 <= i < j < o.entries.len()
                    ==> (#[trigger] o.entries[i]).target != (#[trigger] o.entries[j]).target
        },
        CompVal::Targets(t) => {
            &&& TARGET_TAG <= k < 0x3_0000_0000
            &&& forall|i: int, j: int|
                0 <= i < j < t.origins.len() ==> #[trigger] t.origins[i] != #[trigger] t.origins[j]
        },
    }
}

} // verus!
