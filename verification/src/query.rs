//! Queries: declarative read/write patterns over archetypes.
//!
//! A query names what it reads or writes per component and which archetypes,
//! chunks and rows it visits. Change-detecting queries carry an `after`
//! epoch and visit an archetype only if the column epoch exceeds it, a chunk
//! only if its chunk epoch does, and a row only if its row epoch does.

use vstd::prelude::*;

use crate::archetype::{spec_chunk_of, spec_n_chunks, Archetype};
use crate::comp::{spec_origin_key, spec_plain_key, CompVal, CompValue};
use crate::entity::EntityId;
use crate::epoch::EpochId;

verus! {

/// One query or filter, ready to run.
#[derive(Clone, Copy, PartialEq, Eq, Structural, Debug)]
pub enum QueryKind {
    /// Read the plain component: yields its value.
    Read(u32),
    /// Write the plain component: yields its value and stamps all three
    /// epoch levels with the current epoch.
    Write(u32),
    /// Lazy write: yields a wrapper that stamps the epochs only when the
    /// caller writes through it.
    Alt(u32),
    /// Read the plain component by copy.
    Copied(u32),
    /// Filter: the archetype must contain the component.
    With(u32),
    /// Filter: the archetype must not contain the component.
    Without(u32),
    /// Read the plain component if present; absent columns yield a marker.
    OptRead(u32),
    /// Read, visiting only what changed strictly after `after`.
    Modified {
        /// The component read.
        comp: u32,
        /// The low epoch watermark.
        after: u64,
    },
    /// Write, visiting only what changed strictly after `after`.
    ModifiedWrite {
        /// The component written.
        comp: u32,
        /// The low epoch watermark.
        after: u64,
    },
    /// Lazy write, visiting only what changed strictly after `after`.
    ModifiedAlt {
        /// The component written through the wrapper.
        comp: u32,
        /// The low epoch watermark.
        after: u64,
    },
    /// Filter on presence, visiting only what changed strictly after
    /// `after`.
    ModifiedWith {
        /// The component watched.
        comp: u32,
        /// The low epoch watermark.
        after: u64,
    },
    /// Filter: the entity is the target of the relation.
    Related(u32),
    /// Read the single entry of an exclusive relation: yields the payload
    /// and the target.
    RelatesExclusiveRead(u32),
    /// Write the single entry of an exclusive relation: yields the payload
    /// and the target, stamping the epochs.
    RelatesExclusiveWrite(u32),
    /// Matches every archetype and yields nothing; the default filter.
    Unit,
}

/// A wrapper for a lazy write: dereferencing reads freely, and writing
/// through [`RefMut::write`] stamps the component's three epoch levels.
#[derive(Clone, Copy, PartialEq, Eq, Structural, Debug)]
pub struct RefMut {
    /// Archetype of the wrapped component.
    pub arch: u32,
    /// Row of the wrapped component.
    pub row: u32,
    /// Key of the wrapped component.
    pub comp: u64,
    /// The epoch a write will stamp.
    pub epoch: EpochId,
}

/// One yielded item.
#[derive(Clone, Copy, PartialEq, Eq, Structural, Debug)]
pub enum QueryItem {
    /// A filter matched; there is no data.
    Unit,
    /// An optional column was absent.
    Missing,
    /// A plain component's value.
    Val(u64),
    /// A lazy-write wrapper.
    Alt(RefMut),
    /// An exclusive relation's payload and target.
    Rel(u64, EntityId),
}

/// Returns the query that reads component `comp`.
pub fn read(comp: u32) -> (q: QueryKind)
    ensures
        q == QueryKind::Read(comp),
{
    QueryKind::Read(comp)
}

/// Returns the query that copies component `comp`.
pub fn copied(comp: u32) -> (q: QueryKind)
    ensures
        q == QueryKind::Copied(comp),
{
    QueryKind::Copied(comp)
}

/// Returns the filter that keeps targets of relation `rel`.
pub fn related(rel: u32) -> (q: QueryKind)
    ensures
        q == QueryKind::Related(rel),
{
    QueryKind::Related(rel)
}

/// The lazy-write query.
pub struct Alt;

impl Alt {
    /// Returns the lazy-write query on component `comp`.
    pub fn query(comp: u32) -> (q: QueryKind)
        ensures
            q == QueryKind::Alt(comp),
    {
        QueryKind::Alt(comp)
    }
}

/// The by-copy read query.
pub struct Copied;

impl Copied {
    /// Returns the by-copy read query on component `comp`.
    pub fn query(comp: u32) -> (q: QueryKind)
        ensures
            q == QueryKind::Copied(comp),
    {
        QueryKind::Copied(comp)
    }
}

/// The filter that keeps targets of a relation.
pub struct FilterRelated;

impl FilterRelated {
    /// Returns the filter that keeps targets of relation `rel`.
    pub fn query(rel: u32) -> (q: QueryKind)
        ensures
            q == QueryKind::Related(rel),
    {
        QueryKind::Related(rel)
    }
}

/// The exclusive-relation queries.
pub struct RelatesExclusive;

impl RelatesExclusive {
    /// Returns the read query on the exclusive relation `rel`.
    pub fn query(rel: u32) -> (q: QueryKind)
        ensures
            q == QueryKind::RelatesExclusiveRead(rel),
    {
        QueryKind::RelatesExclusiveRead(rel)
    }

    /// Returns the write query on the exclusive relation `rel`.
    pub fn query_mut(rel: u32) -> (q: QueryKind)
        ensures
            q == QueryKind::RelatesExclusiveWrite(rel),
    {
        QueryKind::RelatesExclusiveWrite(rel)
    }
}

impl QueryKind {
    /// The component key this query touches, if any.
    pub open spec fn spec_key(self) -> u64 {
        match self {
            QueryKind::Read(c) => spec_plain_key(c),
            QueryKind::Write(c) => spec_plain_key(c),
            QueryKind::Alt(c) => spec_plain_key(c),
            QueryKind::Copied(c) => spec_plain_key(c),
            QueryKind::With(c) => spec_plain_key(c),
            QueryKind::Without(c) => spec_plain_key(c),
            QueryKind::OptRead(c) => spec_plain_key(c),
            QueryKind::Modified { comp, .. } => spec_plain_key(comp),
            QueryKind::ModifiedWrite { comp, .. } => spec_plain_key(comp),
            QueryKind::ModifiedAlt { comp, .. } => spec_plain_key(comp),
            QueryKind::ModifiedWith { comp, .. } => spec_plain_key(comp),
            QueryKind::Related(r) => crate::comp::spec_target_key(r),
            QueryKind::RelatesExclusiveRead(r) => spec_origin_key(r),
            QueryKind::RelatesExclusiveWrite(r) => spec_origin_key(r),
            QueryKind::Unit => 0,
        }
    }

    /// True if running this query stamps epochs eagerly.
    pub open spec fn spec_mutable(self) -> bool {
        match self {
            QueryKind::Write(_) => true,
            QueryKind::ModifiedWrite { .. } => true,
            QueryKind::RelatesExclusiveWrite(_) => true,
            _ => false,
        }
    }

    /// The change watermark, for the change-detecting kinds.
    pub open spec fn spec_after(self) -> u64 {
        match self {
            QueryKind::Modified { after, .. } => after,
            QueryKind::ModifiedWrite { after, .. } => after,
            QueryKind::ModifiedAlt { after, .. } => after,
            QueryKind::ModifiedWith { after, .. } => after,
            _ => 0,
        }
    }

    /// True for the change-detecting kinds.
    pub open spec fn spec_is_modified(self) -> bool {
        match self {
            QueryKind::Modified { .. } => true,
            QueryKind::ModifiedWrite { .. } => true,
            QueryKind::ModifiedAlt { .. } => true,
            QueryKind::ModifiedWith { .. } => true,
            _ => false,
        }
    }

    /// Whether the archetype is visited at all.
    pub open spec fn visits_arch(self, a: &Archetype) -> bool {
        match self {
            QueryKind::Without(c) => !a.has_comp(spec_plain_key(c)),
            QueryKind::OptRead(_) => true,
            QueryKind::Unit => true,
            QueryKind::Modified { comp, after } => a.has_comp(spec_plain_key(comp))
                && a.columns@[a.col_idx(spec_plain_key(comp))].arch_epoch.value > after,
            QueryKind::ModifiedWrite { comp, after } => a.has_comp(spec_plain_key(comp))
                && a.columns@[a.col_idx(spec_plain_key(comp))].arch_epoch.value > after,
            QueryKind::ModifiedAlt { comp, after } => a.has_comp(spec_plain_key(comp))
                && a.columns@[a.col_idx(spec_plain_key(comp))].arch_epoch.value > after,
            QueryKind::ModifiedWith { comp, after } => a.has_comp(spec_plain_key(comp))
                && a.columns@[a.col_idx(spec_plain_key(comp))].arch_epoch.value > after,
            _ => a.has_comp(self.spec_key()),
        }
    }

    /// Whether rows of the chunk can be visited.
    pub open spec fn visits_chunk(self, a: &Archetype, chunk: int) -> bool {
        if self.spec_is_modified() {
            a.columns@[a.col_idx(self.spec_key())].chunk_epochs@[chunk].value > self.spec_after()
        } else {
            true
        }
    }

    /// Whether the row itself is visited.
    pub open spec fn visits_row(self, a: &Archetype, row: int) -> bool {
        match self {
            QueryKind::RelatesExclusiveRead(r) => a.columns@[a.col_idx(
                spec_origin_key(r),
            )].values@[row]@ is Origins && a.columns@[a.col_idx(
                spec_origin_key(r),
            )].values@[row]@->Origins_0.entries.len() > 0,
            QueryKind::RelatesExclusiveWrite(r) => a.columns@[a.col_idx(
                spec_origin_key(r),
            )].values@[row]@ is Origins && a.columns@[a.col_idx(
                spec_origin_key(r),
            )].values@[row]@->Origins_0.entries.len() > 0,
            _ => {
                if self.spec_is_modified() {
                    a.columns@[a.col_idx(self.spec_key())].entity_epochs@[row].value
                        > self.spec_after()
                } else {
                    true
                }
            },
        }
    }

    /// The value stored at the query's plain column.
    pub open spec fn plain_at(self, a: &Archetype, row: int) -> u64 {
        a.columns@[a.col_idx(self.spec_key())].values@[row]@->Plain_0
    }

    /// The item this query yields for a visited row.
    pub open spec fn item_at(self, a: &Archetype, arch_idx: u32, row: int, epoch: EpochId) -> QueryItem {
        match self {
            QueryKind::Read(_) => QueryItem::Val(self.plain_at(a, row)),
            QueryKind::Write(_) => QueryItem::Val(self.plain_at(a, row)),
            QueryKind::Copied(_) => QueryItem::Val(self.plain_at(a, row)),
            QueryKind::Modified { .. } => QueryItem::Val(self.plain_at(a, row)),
            QueryKind::ModifiedWrite { .. } => QueryItem::Val(self.plain_at(a, row)),
            QueryKind::Alt(_) => QueryItem::Alt(
                RefMut { arch: arch_idx, row: row as u32, comp: self.spec_key(), epoch },
            ),
            QueryKind::ModifiedAlt { .. } => QueryItem::Alt(
                RefMut { arch: arch_idx, row: row as u32, comp: self.spec_key(), epoch },
            ),
            QueryKind::OptRead(_) => if a.has_comp(self.spec_key()) {
                QueryItem::Val(self.plain_at(a, row))
            } else {
                QueryItem::Missing
            },
            QueryKind::RelatesExclusiveRead(_) => QueryItem::Rel(
                a.columns@[a.col_idx(self.spec_key())].values@[row]@->Origins_0.entries[0].value,
                a.columns@[a.col_idx(self.spec_key())].values@[row]@->Origins_0.entries[0].target,
            ),
            QueryKind::RelatesExclusiveWrite(_) => QueryItem::Rel(
                a.columns@[a.col_idx(self.spec_key())].values@[row]@->Origins_0.entries[0].value,
                a.columns@[a.col_idx(self.spec_key())].values@[row]@->Origins_0.entries[0].target,
            ),
            _ => QueryItem::Unit,
        }
    }

    /// Runs the archetype filter.
    pub fn check_arch(&self, a: &Archetype) -> (r: bool)
        requires
            a.wf(),
        ensures
            r == self.visits_arch(a),
    {
        match self {
            QueryKind::Without(c) => !a.has_component(crate::comp::plain_key(*c)),
            QueryKind::OptRead(_) => true,
            QueryKind::Unit => true,
            QueryKind::Modified { comp, after } => {
                match a.find_col(crate::comp::plain_key(*comp)) {
                    Some(ci) => a.arch_epoch_at(ci).value > *after,
                    None => false,
                }
            },
            QueryKind::ModifiedWrite { comp, after } => {
                match a.find_col(crate::comp::plain_key(*comp)) {
                    Some(ci) => a.arch_epoch_at(ci).value > *after,
                    None => false,
                }
            },
            QueryKind::ModifiedAlt { comp, after } => {
                match a.find_col(crate::comp::plain_key(*comp)) {
                    Some(ci) => a.arch_epoch_at(ci).value > *after,
                    None => false,
                }
            },
            QueryKind::ModifiedWith { comp, after } => {
                match a.find_col(crate::comp::plain_key(*comp)) {
                    Some(ci) => a.arch_epoch_at(ci).value > *after,
                    None => false,
                }
            },
            QueryKind::Read(c) => a.has_component(crate::comp::plain_key(*c)),
            QueryKind::Write(c) => a.has_component(crate::comp::plain_key(*c)),
            QueryKind::Alt(c) => a.has_component(crate::comp::plain_key(*c)),
            QueryKind::Copied(c) => a.has_component(crate::comp::plain_key(*c)),
            QueryKind::With(c) => a.has_component(crate::comp::plain_key(*c)),
            QueryKind::Related(r) => a.has_component(crate::comp::target_key(*r)),
            QueryKind::RelatesExclusiveRead(r) => a.has_component(crate::comp::origin_key(*r)),
            QueryKind::RelatesExclusiveWrite(r) => a.has_component(crate::comp::origin_key(*r)),
        }
    }

    /// Runs the chunk filter.
    pub fn check_chunk(&self, a: &Archetype, chunk: usize) -> (r: bool)
        requires
            a.wf(),
            self.visits_arch(a),
            (chunk as int) < spec_n_chunks(a.spec_len()),
        ensures
            r == self.visits_chunk(a, chunk as int),
    {
        match self {
            QueryKind::Modified { comp, after } => {
                let ci = match a.find_col(crate::comp::plain_key(*comp)) {
                    Some(ci) => ci,
                    None => {
                        proof {
                            assert(false);
                        }
                        0
                    }
                };
                a.chunk_epoch_at(ci, chunk).value > *after
            },
            QueryKind::ModifiedWrite { comp, after } => {
                let ci = match a.find_col(crate::comp::plain_key(*comp)) {
                    Some(ci) => ci,
                    None => {
                        proof {
                            assert(false);
                        }
                        0
                    }
                };
                a.chunk_epoch_at(ci, chunk).value > *after
            },
            QueryKind::ModifiedAlt { comp, after } => {
                let ci = match a.find_col(crate::comp::plain_key(*comp)) {
                    Some(ci) => ci,
                    None => {
                        proof {
                            assert(false);
                        }
                        0
                    }
                };
                a.chunk_epoch_at(ci, chunk).value > *after
            },
            QueryKind::ModifiedWith { comp, after } => {
                let ci = match a.find_col(crate::comp::plain_key(*comp)) {
                    Some(ci) => ci,
                    None => {
                        proof {
                            assert(false);
                        }
                        0
                    }
                };
                a.chunk_epoch_at(ci, chunk).value > *after
            },
            _ => true,
        }
    }

    /// Runs the row filter.
    pub fn check_row(&self, a: &Archetype, row: usize) -> (r: bool)
        requires
            a.wf(),
            self.visits_arch(a),
            (row as int) < a.spec_len(),
        ensures
            r == self.visits_row(a, row as int),
    {
        match self {
            QueryKind::Modified { comp, after } => {
                let ci = match a.find_col(crate::comp::plain_key(*comp)) {
                    Some(ci) => ci,
                    None => {
                        proof {
                            assert(false);
                        }
                        0
                    }
                };
                a.entity_epoch_at(ci, row).value > *after
            },
            QueryKind::ModifiedWrite { comp, after } => {
                let ci = match a.find_col(crate::comp::plain_key(*comp)) {
                    Some(ci) => ci,
                    None => {
                        proof {
                            assert(false);
                        }
                        0
                    }
                };
                a.entity_epoch_at(ci, row).value > *after
            },
            QueryKind::ModifiedAlt { comp, after } => {
                let ci = match a.find_col(crate::comp::plain_key(*comp)) {
                    Some(ci) => ci,
                    None => {
                        proof {
                            assert(false);
                        }
                        0
                    }
                };
                a.entity_epoch_at(ci, row).value > *after
            },
            QueryKind::ModifiedWith { comp, after } => {
                let ci = match a.find_col(crate::comp::plain_key(*comp)) {
                    Some(ci) => ci,
                    None => {
                        proof {
                            assert(false);
                        }
                        0
                    }
                };
                a.entity_epoch_at(ci, row).value > *after
            },
            QueryKind::RelatesExclusiveRead(r) => {
                let ci = match a.find_col(crate::comp::origin_key(*r)) {
                    Some(ci) => ci,
                    None => {
                        proof {
                            assert(false);
                        }
                        0
                    }
                };
                match a.value_at(ci, row) {
                    CompValue::Origins(o) => o.entries.len() > 0,
                    _ => false,
                }
            },
            QueryKind::RelatesExclusiveWrite(r) => {
                let ci = match a.find_col(crate::comp::origin_key(*r)) {
                    Some(ci) => ci,
                    None => {
                        proof {
                            assert(false);
                        }
                        0
                    }
                };
                match a.value_at(ci, row) {
                    CompValue::Origins(o) => o.entries.len() > 0,
                    _ => false,
                }
            },
            _ => true,
        }
    }

    /// Builds the yielded item for a visited row.
    pub fn make_item(&self, a: &Archetype, arch_idx: u32, row: usize, epoch: EpochId) -> (r:
        QueryItem)
        requires
            a.wf(),
            self.visits_arch(a),
            self.visits_row(a, row as int),
            (row as int) < a.spec_len(),
        ensures
            r == self.item_at(a, arch_idx, row as int, epoch),
    {
        match self {
            QueryKind::Read(c) => QueryItem::Val(self.plain_value(a, *c, row)),
            QueryKind::Write(c) => QueryItem::Val(self.plain_value(a, *c, row)),
            QueryKind::Copied(c) => QueryItem::Val(self.plain_value(a, *c, row)),
            QueryKind::Modified { comp, .. } => QueryItem::Val(self.plain_value(a, *comp, row)),
            QueryKind::ModifiedWrite { comp, .. } => QueryItem::Val(
                self.plain_value(a, *comp, row),
            ),
            QueryKind::Alt(c) => QueryItem::Alt(
                RefMut {
                    arch: arch_idx,
                    row: row as u32,
                    comp: crate::comp::plain_key(*c),
                    epoch,
                },
            ),
            QueryKind::ModifiedAlt { comp, .. } => QueryItem::Alt(
                RefMut {
                    arch: arch_idx,
                    row: row as u32,
                    comp: crate::comp::plain_key(*comp),
                    epoch,
                },
            ),
            QueryKind::OptRead(c) => {
                if a.has_component(crate::comp::plain_key(*c)) {
                    QueryItem::Val(self.plain_value(a, *c, row))
                } else {
                    QueryItem::Missing
                }
            },
            QueryKind::RelatesExclusiveRead(r) => {
                let ci = match a.find_col(crate::comp::origin_key(*r)) {
                    Some(ci) => ci,
                    None => {
                        proof {
                            assert(false);
                        }
                        0
                    }
                };
                match a.value_at(ci, row) {
                    CompValue::Origins(o) => {
                        let e0 = o.entries[0];
                        QueryItem::Rel(e0.value, e0.target)
                    },
                    _ => {
                        proof {
                            assert(false);
                        }
                        QueryItem::Missing
                    },
                }
            },
            QueryKind::RelatesExclusiveWrite(r) => {
                let ci = match a.find_col(crate::comp::origin_key(*r)) {
                    Some(ci) => ci,
                    None => {
                        proof {
                            assert(false);
                        }
                        0
                    }
                };
                match a.value_at(ci, row) {
                    CompValue::Origins(o) => {
                        let e0 = o.entries[0];
                        QueryItem::Rel(e0.value, e0.target)
                    },
                    _ => {
                        proof {
                            assert(false);
                        }
                        QueryItem::Missing
                    },
                }
            },
            _ => QueryItem::Unit,
        }
    }

    /// Reads the plain value of component `c` at the row.
    fn plain_value(&self, a: &Archetype, c: u32, row: usize) -> (r: u64)
        requires
            a.wf(),
            a.has_comp(spec_plain_key(c)),
            (row as int) < a.spec_len(),
        ensures
            a.columns@[a.col_idx(spec_plain_key(c))].values@[row as int]@ == CompVal::Plain(r),
    {
        let ci = match a.find_col(crate::comp::plain_key(c)) {
            Some(ci) => ci,
            None => {
                proof {
                    assert(false);
                }
                0
            }
        };
        proof {
            assert(crate::archetype::col_wf(a.columns@[ci as int], a.spec_len()));
            assert(crate::comp::comp_wf(
                spec_plain_key(c),
                a.columns@[ci as int].values@[row as int]@,
            ));
        }
        match a.value_at(ci, row) {
            CompValue::Plain(v) => *v,
            _ => {
                proof {
                    assert(false);
                }
                0
            },
        }
    }

    /// The component key this query touches.
    pub fn key_of(&self) -> (r: u64)
        ensures
            r == self.spec_key(),
    {
        match self {
            QueryKind::Read(c) => crate::comp::plain_key(*c),
            QueryKind::Write(c) => crate::comp::plain_key(*c),
            QueryKind::Alt(c) => crate::comp::plain_key(*c),
            QueryKind::Copied(c) => crate::comp::plain_key(*c),
            QueryKind::With(c) => crate::comp::plain_key(*c),
            QueryKind::Without(c) => crate::comp::plain_key(*c),
            QueryKind::OptRead(c) => crate::comp::plain_key(*c),
            QueryKind::Modified { comp, .. } => crate::comp::plain_key(*comp),
            QueryKind::ModifiedWrite { comp, .. } => crate::comp::plain_key(*comp),
            QueryKind::ModifiedAlt { comp, .. } => crate::comp::plain_key(*comp),
            QueryKind::ModifiedWith { comp, .. } => crate::comp::plain_key(*comp),
            QueryKind::Related(r) => crate::comp::target_key(*r),
            QueryKind::RelatesExclusiveRead(r) => crate::comp::origin_key(*r),
            QueryKind::RelatesExclusiveWrite(r) => crate::comp::origin_key(*r),
            QueryKind::Unit => 0,
        }
    }

    /// True if running this query stamps epochs eagerly.
    pub fn is_mutable(&self) -> (r: bool)
        ensures
            r == self.spec_mutable(),
    {
        match self {
            QueryKind::Write(_) => true,
            QueryKind::ModifiedWrite { .. } => true,
            QueryKind::RelatesExclusiveWrite(_) => true,
            _ => false,
        }
    }

    /// Whether the query visits the archetype at all.
    pub fn visit_archetype(&self, a: &Archetype) -> (r: bool)
        requires
            a.wf(),
        ensures
            r == self.visits_arch(a),
    {
        self.check_arch(a)
    }
}

} // verus!
