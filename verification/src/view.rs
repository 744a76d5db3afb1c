//! Views: running a query and a filter over the archetype list.
//!
//! Iteration visits archetypes in registration order and rows in ascending
//! order. A row is yielded when query and filter both accept its archetype,
//! its chunk and the row itself. A write query stamps the three epoch levels
//! of every yielded row with the epoch of the iteration.

use vstd::prelude::*;

use crate::archetype::{chunk_idx, lemma_chunk_of_bound, spec_chunk_of, Archetype};
use crate::entity::EntityId;
use crate::epoch::EpochId;
use crate::query::{QueryItem, QueryKind};
use crate::edges::edges_wf;
use crate::entity::SlotLoc;
use crate::world::World;

verus! {

/// One matched row: the entity, where it sits, and the item produced.
#[derive(Clone, Copy, PartialEq, Eq, Structural, Debug)]
pub struct MatchHit {
    /// The matched entity.
    pub entity: EntityId,
    /// Archetype index of the row.
    pub arch: u32,
    /// Row index inside the archetype.
    pub row: u32,
    /// The produced item.
    pub item: QueryItem,
}

/// Query and filter both accept the row's chunk and the row itself.
pub open spec fn row_hit(q: QueryKind, f: QueryKind, a: Archetype, r: int) -> bool {
    &&& q.visits_chunk(&a, spec_chunk_of(r))
    &&& f.visits_chunk(&a, spec_chunk_of(r))
    &&& q.visits_row(&a, r)
    &&& f.visits_row(&a, r)
}

/// The archetype is non-empty and both query and filter accept it.
pub open spec fn arch_pass(q: QueryKind, f: QueryKind, a: Archetype) -> bool {
    &&& a.spec_len() > 0
    &&& q.visits_arch(&a)
    &&& f.visits_arch(&a)
}

/// The hit produced for row `r`.
pub open spec fn hit_of(q: QueryKind, a: Archetype, aidx: u32, r: int, epoch: EpochId) -> MatchHit {
    MatchHit {
        entity: a.entities@[r],
        arch: aidx,
        row: r as u32,
        item: q.item_at(&a, aidx, r, epoch),
    }
}

/// The hits of rows `0..upto` of one accepted archetype, in row order.
pub open spec fn arch_hits(
    q: QueryKind,
    f: QueryKind,
    a: Archetype,
    aidx: u32,
    epoch: EpochId,
    upto: int,
) -> Seq<MatchHit>
    decreases upto,
{
    if upto <= 0 {
        Seq::empty()
    } else {
        arch_hits(q, f, a, aidx, epoch, upto - 1) + if row_hit(q, f, a, upto - 1) {
            seq![hit_of(q, a, aidx, upto - 1, epoch)]
        } else {
            Seq::empty()
        }
    }
}

/// The hits of archetypes `0..upto`, in archetype order.
pub open spec fn world_hits(
    q: QueryKind,
    f: QueryKind,
    archs: Seq<Archetype>,
    epoch: EpochId,
    upto: int,
) -> Seq<MatchHit>
    decreases upto,
{
    if upto <= 0 {
        Seq::empty()
    } else {
        world_hits(q, f, archs, epoch, upto - 1) + if arch_pass(q, f, archs[upto - 1]) {
            arch_hits(q, f, archs[upto - 1], (upto - 1) as u32, epoch, archs[upto - 1].spec_len())
        } else {
            Seq::empty()
        }
    }
}

/// Every hit of an accepted archetype names a row of that archetype that
/// passed the row filters.
pub proof fn lemma_arch_hits_valid(
    q: QueryKind,
    f: QueryKind,
    a: Archetype,
    aidx: u32,
    epoch: EpochId,
    upto: int,
)
    requires
        0 <= upto <= a.spec_len(),
        upto <= u32::MAX as int,
    ensures
        forall|i: int|
            0 <= i < arch_hits(q, f, a, aidx, epoch, upto).len() ==> {
                let h = #[trigger] arch_hits(q, f, a, aidx, epoch, upto)[i];
                &&& h.arch == aidx
                &&& (h.row as int) < upto
                &&& row_hit(q, f, a, h.row as int)
                &&& h.entity == a.entities@[h.row as int]
                &&& h.item == q.item_at(&a, aidx, h.row as int, epoch)
            },
        arch_hits(q, f, a, aidx, epoch, upto).len() <= upto,
    decreases upto,
{
    if upto > 0 {
        lemma_arch_hits_valid(q, f, a, aidx, epoch, upto - 1);
        let s0 = arch_hits(q, f, a, aidx, epoch, upto - 1);
        let s1 = arch_hits(q, f, a, aidx, epoch, upto);
        assert forall|i: int| 0 <= i < s1.len() implies {
            let h = #[trigger] s1[i];
            &&& h.arch == aidx
            &&& (h.row as int) < upto
            &&& row_hit(q, f, a, h.row as int)
            &&& h.entity == a.entities@[h.row as int]
            &&& h.item == q.item_at(&a, aidx, h.row as int, epoch)
        } by {
            if i < s0.len() {
                assert(s1[i] == s0[i]);
            } else {
                assert(row_hit(q, f, a, upto - 1));
                assert(s1[i] == hit_of(q, a, aidx, upto - 1, epoch));
            }
        }
    }
}

/// Every hit of a scan names a row of an accepted archetype that passed the
/// row filters.
pub proof fn lemma_world_hits_valid(
    q: QueryKind,
    f: QueryKind,
    archs: Seq<Archetype>,
    epoch: EpochId,
    upto: int,
)
    requires
        0 <= upto <= archs.len(),
        archs.len() <= u32::MAX as int,
        forall|j: int| 0 <= j < archs.len() ==> (#[trigger] archs[j]).spec_len() <= u32::MAX as int,
    ensures
        forall|i: int|
            0 <= i < world_hits(q, f, archs, epoch, upto).len() ==> {
                let h = #[trigger] world_hits(q, f, archs, epoch, upto)[i];
                &&& (h.arch as int) < upto
                &&& arch_pass(q, f, archs[h.arch as int])
                &&& (h.row as int) < archs[h.arch as int].spec_len()
                &&& row_hit(q, f, archs[h.arch as int], h.row as int)
                &&& h.entity == archs[h.arch as int].entities@[h.row as int]
                &&& h.item == q.item_at(&archs[h.arch as int], h.arch, h.row as int, epoch)
            },
    decreases upto,
{
    if upto > 0 {
        lemma_world_hits_valid(q, f, archs, epoch, upto - 1);
        let s0 = world_hits(q, f, archs, epoch, upto - 1);
        let s1 = world_hits(q, f, archs, epoch, upto);
        let a = archs[upto - 1];
        if arch_pass(q, f, a) {
            lemma_arch_hits_valid(q, f, a, (upto - 1) as u32, epoch, a.spec_len());
        }
        assert forall|i: int| 0 <= i < s1.len() implies {
            let h = #[trigger] s1[i];
            &&& (h.arch as int) < upto
            &&& arch_pass(q, f, archs[h.arch as int])
            &&& (h.row as int) < archs[h.arch as int].spec_len()
            &&& row_hit(q, f, archs[h.arch as int], h.row as int)
            &&& h.entity == archs[h.arch as int].entities@[h.row as int]
            &&& h.item == q.item_at(&archs[h.arch as int], h.arch, h.row as int, epoch)
        } by {
            if i < s0.len() {
                assert(s1[i] == s0[i]);
            } else {
                let tailseq = arch_hits(q, f, a, (upto - 1) as u32, epoch, a.spec_len());
                assert(s1[i] == tailseq[i - s0.len()]);
            }
        }
    }
}

/// Scans all archetypes and collects the matched rows in order.
pub(crate) fn scan_world(w: &World, q: &QueryKind, f: &QueryKind, epoch: EpochId) -> (hits: Vec<
    MatchHit,
>)
    requires
        w.wf(),
    ensures
        hits@ == world_hits(*q, *f, w.archetypes@, epoch, w.archetypes@.len() as int),
{
    let n_arch = w.archetypes.len();
    let mut hits: Vec<MatchHit> = Vec::new();
    let mut ai: usize = 0;
    while ai < n_arch
        invariant
            w.wf(),
            n_arch == w.archetypes@.len(),
            ai <= n_arch,
            hits@ == world_hits(*q, *f, w.archetypes@, epoch, ai as int),
        decreases n_arch - ai,
    {
        let a = &w.archetypes[ai];
        proof {
            assert(a.wf());
        }
        let ghost pre_arch = hits@;
        if a.len() > 0 && q.check_arch(a) && f.check_arch(a) {
            let n = a.len();
            let mut row: usize = 0;
            while row < n
                invariant
                    w.wf(),
                    ai < n_arch,
                    n_arch == w.archetypes@.len(),
                    a == &w.archetypes@[ai as int],
                    a.wf(),
                    n == a.spec_len(),
                    row <= n,
                    q.visits_arch(a),
                    f.visits_arch(a),
                    hits@ == pre_arch + arch_hits(*q, *f, *a, ai as u32, epoch, row as int),
                decreases n - row,
            {
                let c = chunk_idx(row);
                proof {
                    lemma_chunk_of_bound(row as int, n as int);
                }
                if q.check_chunk(a, c) && f.check_chunk(a, c) && q.check_row(a, row)
                    && f.check_row(a, row) {
                    let item = q.make_item(a, ai as u32, row, epoch);
                    let h = MatchHit { entity: a.id_at(row), arch: ai as u32, row: row as u32, item };
                    hits.push(h);
                    proof {
                        assert(hits@ =~= pre_arch + arch_hits(
                            *q,
                            *f,
                            *a,
                            ai as u32,
                            epoch,
                            row + 1,
                        ));
                    }
                } else {
                    proof {
                        assert(hits@ =~= pre_arch + arch_hits(
                            *q,
                            *f,
                            *a,
                            ai as u32,
                            epoch,
                            row + 1,
                        ));
                    }
                }
                row = row + 1;
            }
            proof {
                assert(arch_pass(*q, *f, w.archetypes@[ai as int]));
                assert(hits@ =~= world_hits(*q, *f, w.archetypes@, epoch, ai + 1));
            }
        } else {
            proof {
                assert(!arch_pass(*q, *f, w.archetypes@[ai as int]));
                assert(hits@ =~= world_hits(*q, *f, w.archetypes@, epoch, ai + 1));
            }
        }
        ai = ai + 1;
    }
    hits
}

/// A view over the world for an immutable query and filter.
#[derive(Clone, Copy, PartialEq, Eq, Structural, Debug)]
pub struct QueryRef {
    /// The query.
    pub query: QueryKind,
    /// The filter.
    pub filter: QueryKind,
}

impl QueryRef {
    /// Collects the matched entities and items, in archetype and row order.
    pub fn iter(&self, w: &World) -> (r: Vec<(EntityId, QueryItem)>)
        requires
            w.wf(),
            !self.query.spec_mutable(),
            !self.filter.spec_mutable(),
        ensures
            r@ == world_hits(
                self.query,
                self.filter,
                w.archetypes@,
                EpochId { value: w.spec_epoch() },
                w.archetypes@.len() as int,
            ).map_values(|h: MatchHit| (h.entity, h.item)),
    {
        let epoch = w.epochs.current();
        let hits = scan_world(w, &self.query, &self.filter, epoch);
        hits_to_pairs(hits)
    }
}

/// A view over the world for a query that may write.
#[derive(Clone, Copy, PartialEq, Eq, Structural, Debug)]
pub struct QueryMut {
    /// The query.
    pub query: QueryKind,
    /// The filter.
    pub filter: QueryKind,
}

/// Converts hits to (entity, item) pairs.
fn hits_to_pairs(hits: Vec<MatchHit>) -> (r: Vec<(EntityId, QueryItem)>)
    ensures
        r@ == hits@.map_values(|h: MatchHit| (h.entity, h.item)),
{
    let n = hits.len();
    let mut r: Vec<(EntityId, QueryItem)> = Vec::new();
    let mut i: usize = 0;
    while i < n
        invariant
            n == hits@.len(),
            i <= n,
            r@.len() == i,
            forall|j: int| 0 <= j < i ==> r@[j] == (hits@[j].entity, hits@[j].item),
        decreases n - i,
    {
        let h = hits[i];
        r.push((h.entity, h.item));
        i = i + 1;
    }
    proof {
        assert(r@ =~= hits@.map_values(|h: MatchHit| (h.entity, h.item)));
    }
    r
}

/// A resumable cursor over the items a view yielded.
pub struct ViewValueIter {
    /// The yielded pairs, in order.
    pub items: Vec<(EntityId, QueryItem)>,
    /// How many have been handed out.
    pub pos: usize,
}

impl ViewValueIter {
    /// Wraps a yielded item list in a cursor.
    pub fn new(items: Vec<(EntityId, QueryItem)>) -> (r: ViewValueIter)
        ensures
            r.items == items,
            r.pos == 0,
    {
        ViewValueIter { items, pos: 0 }
    }

    /// Hands out the next item, advancing the cursor.
    pub fn next_item(&mut self) -> (r: Option<(EntityId, QueryItem)>)
        ensures
            final(self).items == old(self).items,
            r is Some <==> (old(self).pos as int) < old(self).items@.len(),
            r is Some ==> {
                &&& r->0 == old(self).items@[old(self).pos as int]
                &&& final(self).pos == old(self).pos + 1
            },
            r is None ==> final(self).pos == old(self).pos,
    {
        if self.pos < self.items.len() {
            let r = self.items[self.pos];
            self.pos = self.pos + 1;
            Some(r)
        } else {
            None
        }
    }
}

/// Both worlds agree on everything a component map or liveness check reads:
/// directory, row ids, column keys and stored values; they may differ in
/// epochs.
pub open spec fn stamp_frame(w1: &World, w2: &World) -> bool {
    &&& w2.entities == w1.entities
    &&& w2.edges == w1.edges
    &&& w2.registry == w1.registry
    &&& w2.events == w1.events
    &&& w2.epochs == w1.epochs
    &&& w2.archetypes@.len() == w1.archetypes@.len()
    &&& forall|a: int|
        0 <= a < w1.archetypes@.len() ==> {
            let a1 = w1.archetypes@[a];
            let a2 = #[trigger] w2.archetypes@[a];
            &&& a2.spec_len() == a1.spec_len()
            &&& a2.entities@ == a1.entities@
            &&& a2.columns@.len() == a1.columns@.len()
            &&& forall|j: int|
                0 <= j < a1.columns@.len() ==> ((#[trigger] a2.columns@[j]).comp
                    == a1.columns@[j].comp && a2.columns@[j].values@ == a1.columns@[j].values@)
        }
}

/// Under a stamp frame, liveness and every live entity's component map are
/// unchanged.
pub proof fn lemma_stamp_frame_comps(w1: &World, w2: &World)
    requires
        w1.wf(),
        w2.wf(),
        stamp_frame(w1, w2),
    ensures
        forall|e2: EntityId| w2.spec_alive(e2) == w1.spec_alive(e2),
        forall|e2: EntityId| w1.spec_alive(e2) ==> #[trigger] w2.comps(e2) == w1.comps(e2),
{
    assert forall|e2: EntityId|
        w1.spec_alive(e2) implies #[trigger] w2.comps(e2) == w1.comps(e2) by {
        let a2 = w1.arch_of(e2);
        let r2 = w1.row_of(e2);
        assert(w1.entities.slots@[e2.idx as int].loc is Live);
        let pre = w1.archetypes@[a2];
        let post = w2.archetypes@[a2];
        assert(pre.wf());
        assert(post.wf());
        assert forall|j: int| 0 <= j < pre.columns@.len() implies (
        #[trigger] post.columns@[j]).values@[r2] == pre.columns@[j].values@[r2] by {
            assert(post.columns@[j].values@ == pre.columns@[j].values@);
        }
        crate::archetype::lemma_comp_map_stable(&pre, &post, r2, r2);
    }
}

impl World {
    /// Stamps the three epoch levels of the column `key` at one row with
    /// `epoch`, the current epoch.
    pub(crate) fn stamp_hit(&mut self, arch: u32, row: u32, key: u64, epoch: EpochId)
        requires
            old(self).wf(),
            epoch.value == old(self).spec_epoch(),
            (arch as int) < old(self).archetypes@.len(),
            (row as int) < old(self).archetypes@[arch as int].spec_len(),
            old(self).archetypes@[arch as int].has_comp(key),
        ensures
            final(self).wf(),
            stamp_frame(old(self), final(self)),
            ({
                let a = final(self).archetypes@[arch as int];
                a.columns@[a.col_idx(key)].entity_epochs@[row as int].value == epoch.value
            }),
            forall|a2: int|
                0 <= a2 < old(self).archetypes@.len() && a2 != arch ==> final(self).archetypes@[
                    a2] == old(self).archetypes@[a2],
            forall|j: int|
                0 <= j < old(self).archetypes@[arch as int].columns@.len() && j != old(self).archetypes@[arch as int].col_idx(key) ==> final(self).archetypes@[arch
                    as int].columns@[j] == old(self).archetypes@[arch as int].columns@[j],
            forall|r2: int|
                0 <= r2 < old(self).archetypes@[arch as int].spec_len() && r2 != row ==> final(self).archetypes@[arch as int].columns@[old(self).archetypes@[arch as int].col_idx(
                    key,
                )].entity_epochs@[r2] == old(self).archetypes@[arch as int].columns@[old(self).archetypes@[arch as int].col_idx(key)].entity_epochs@[r2],
    {
        proof {
            assert(self.archetypes@[arch as int].wf());
        }
        let ci = match self.archetypes[arch as usize].find_col(key) {
            Some(ci) => ci,
            None => {
                proof {
                    assert(false);
                }
                0
            }
        };
        proof {
            assert(old(self).archetypes@[arch as int].epochs_le(old(self).spec_epoch()));
        }
        self.archetypes[arch as usize].bump_arch_epoch(ci, epoch);
        let c = chunk_idx(row as usize);
        proof {
            lemma_chunk_of_bound(row as int, self.archetypes@[arch as int].spec_len());
            assert(crate::archetype::col_wf(
                self.archetypes@[arch as int].columns@[ci as int],
                self.archetypes@[arch as int].spec_len(),
            ));
        }
        self.archetypes[arch as usize].bump_chunk_epoch(ci, c, epoch);
        proof {
            assert(crate::archetype::col_wf(
                self.archetypes@[arch as int].columns@[ci as int],
                self.archetypes@[arch as int].spec_len(),
            ));
        }
        self.archetypes[arch as usize].bump_entity_epoch(ci, row as usize, epoch);
        proof {
            let a0 = old(self).archetypes@[arch as int];
            let a1 = self.archetypes@[arch as int];
            a0.lemma_col_idx(key);
            a1.lemma_col_idx(key);
            assert(a1.col_idx(key) == ci);
            assert(self.wf()) by {
                assert forall|a2: int| 0 <= a2 < self.archetypes@.len() implies (
                #[trigger] self.archetypes@[a2]).wf() by {
                    if a2 != arch {
                        assert(self.archetypes@[a2] == old(self).archetypes@[a2]);
                        assert(old(self).archetypes@[a2].wf());
                    }
                }
                assert forall|a2: int| 0 <= a2 < self.archetypes@.len() implies (
                #[trigger] self.archetypes@[a2]).epochs_le(self.epochs.spec_value()) by {
                    assert(old(self).archetypes@[a2].epochs_le(old(self).spec_epoch()));
                    assert forall|j: int|
                        0 <= j < self.archetypes@[a2].columns@.len() implies (
                    #[trigger] self.archetypes@[a2].columns@[j]).arch_epoch.value
                        <= self.epochs.spec_value() by {
                        if a2 != arch {
                            assert(self.archetypes@[a2] == old(self).archetypes@[a2]);
                            assert(old(self).archetypes@[a2].columns@[j].arch_epoch.value <= old(self).spec_epoch());
                        } else if j != ci {
                            assert(self.archetypes@[arch as int].columns@[j] == old(self).archetypes@[arch as int].columns@[j]);
                            assert(old(self).archetypes@[arch as int].columns@[j].arch_epoch.value
                                <= old(self).spec_epoch());
                        }
                    }
                }
                assert(self.dir_to_arch_ok()) by {
                    assert forall|s: int|
                        0 <= s < self.entities.slots@.len() && (
                    #[trigger] self.entities.slots@[s]).loc is Live implies {
                        let arch_i = self.entities.slots@[s].loc->arch as int;
                        let row_i = self.entities.slots@[s].loc->row as int;
                        &&& arch_i < self.archetypes@.len()
                        &&& row_i < self.archetypes@[arch_i].spec_len()
                        &&& self.archetypes@[arch_i].entities@[row_i] == (EntityId {
                            idx: s as u32,
                            gen_id: self.entities.slots@[s].gen_id,
                        })
                    } by {
                        let arch_i = old(self).entities.slots@[s].loc->arch as int;
                        let row_i = old(self).entities.slots@[s].loc->row as int;
                        if arch_i == arch {
                            assert(self.archetypes@[arch_i].entities@ == old(self).archetypes@[
                                arch_i].entities@);
                        } else {
                            assert(self.archetypes@[arch_i] == old(self).archetypes@[arch_i]);
                        }
                    }
                }
                assert(self.arch_to_dir_ok()) by {
                    assert forall|a2: int, r: int|
                        0 <= a2 < self.archetypes@.len() && 0 <= r < self.archetypes@[
                        a2].spec_len() implies {
                        let id = #[trigger] self.archetypes@[a2].entities@[r];
                        &&& (id.idx as int) < self.entities.slots@.len()
                        &&& self.entities.slots@[id.idx as int].gen_id == id.gen_id
                        &&& self.entities.slots@[id.idx as int].loc == (SlotLoc::Live {
                            arch: a2 as u32,
                            row: r as u32,
                        })
                    } by {
                        if a2 == arch {
                            assert(self.archetypes@[a2].entities@[r] == old(self).archetypes@[
                                a2].entities@[r]);
                        } else {
                            assert(self.archetypes@[a2] == old(self).archetypes@[a2]);
                        }
                    }
                }
                assert(edges_wf(&self.edges, self.archetypes@)) by {
                    crate::archetype::lemma_has_comp_eq(&a0, &a1);
                    assert forall|i: int| 0 <= i < self.edges.edges@.len() implies {
                        let ed = #[trigger] self.edges.edges@[i];
                        &&& (ed.src as int) < self.archetypes@.len()
                        &&& (ed.dst as int) < self.archetypes@.len()
                        &&& (ed.adds ==> !self.archetypes@[ed.src as int].has_comp(ed.comp)
                            && forall|k2: u64|
                            #[trigger] self.archetypes@[ed.dst as int].has_comp(k2) == (
                            self.archetypes@[ed.src as int].has_comp(k2) || k2 == ed.comp))
                        &&& (!ed.adds ==> self.archetypes@[ed.src as int].has_comp(ed.comp)
                            && forall|k2: u64|
                            #[trigger] self.archetypes@[ed.dst as int].has_comp(k2) == (
                            self.archetypes@[ed.src as int].has_comp(k2) && k2 != ed.comp))
                    } by {
                        let ed = self.edges.edges@[i];
                        assert(old(self).edges.edges@[i] == ed);
                        assert(forall|k2: u64| self.archetypes@[ed.src as int].has_comp(k2) == old(self).archetypes@[ed.src as int].has_comp(k2));
                        assert(forall|k2: u64| self.archetypes@[ed.dst as int].has_comp(k2) == old(self).archetypes@[ed.dst as int].has_comp(k2));
                    }
                }
            }
        }
    }
}

impl QueryMut {
    /// Collects the matched entities and items, bumping the epoch once; a
    /// write query stamps the three epoch levels of every yielded row.
    pub fn iter_mut(&self, w: &mut World) -> (r: Vec<(EntityId, QueryItem)>)
        requires
            old(w).wf(),
            old(w).spec_epoch() < u64::MAX,
            !self.filter.spec_mutable(),
        ensures
            final(w).wf(),
            final(w).spec_epoch() == old(w).spec_epoch() + 1,
            forall|e2: EntityId| final(w).spec_alive(e2) == old(w).spec_alive(e2),
            forall|e2: EntityId|
                old(w).spec_alive(e2) ==> #[trigger] final(w).comps(e2) == old(w).comps(e2),
            r@ == world_hits(
                self.query,
                self.filter,
                old(w).archetypes@,
                EpochId { value: (old(w).spec_epoch() + 1) as u64 },
                old(w).archetypes@.len() as int,
            ).map_values(|h: MatchHit| (h.entity, h.item)),
            !self.query.spec_mutable() ==> final(w).archetypes == old(w).archetypes,
            final(w).entities.slots@.len() == old(w).entities.slots@.len(),
            final(w).archetypes@.len() == old(w).archetypes@.len(),
    {
        let epoch = w.epochs.next_mut();
        let ghost w1 = *w;
        proof {
            crate::world::lemma_wf_epoch_monotone(old(w), &w1);
        }
        let hits = scan_world(w, &self.query, &self.filter, epoch);
        proof {
            lemma_world_hits_valid(
                self.query,
                self.filter,
                w1.archetypes@,
                epoch,
                w1.archetypes@.len() as int,
            );
        }
        if self.query.is_mutable() {
            let key = self.query.key_of();
            let n = hits.len();
            let mut i: usize = 0;
            while i < n
                invariant
                    w.wf(),
                    stamp_frame(&w1, w),
                    epoch.value == w.spec_epoch(),
                    n == hits@.len(),
                    i <= n,
                    forall|j: int|
                        0 <= j < n ==> {
                            let h = #[trigger] hits@[j];
                            &&& (h.arch as int) < w1.archetypes@.len()
                            &&& (h.row as int) < w1.archetypes@[h.arch as int].spec_len()
                            &&& w1.archetypes@[h.arch as int].has_comp(key)
                        },
                decreases n - i,
            {
                let h = hits[i];
                proof {
                    assert(hits@[i as int] == h);
                    assert(w.archetypes@[h.arch as int].spec_len() == w1.archetypes@[h.arch
                        as int].spec_len());
                    crate::archetype::lemma_has_comp_eq(
                        &w1.archetypes@[h.arch as int],
                        &w.archetypes@[h.arch as int],
                    );
                }
                let ghost cur = *w;
                w.stamp_hit(h.arch, h.row, key, epoch);
                proof {
                    assert(stamp_frame(&w1, w)) by {
                        assert forall|a: int|
                            0 <= a < w1.archetypes@.len() implies {
                            let a1 = w1.archetypes@[a];
                            let a2 = #[trigger] w.archetypes@[a];
                            &&& a2.spec_len() == a1.spec_len()
                            &&& a2.entities@ == a1.entities@
                            &&& a2.columns@.len() == a1.columns@.len()
                            &&& forall|j: int|
                                0 <= j < a1.columns@.len() ==> ((#[trigger] a2.columns@[j]).comp
                                    == a1.columns@[j].comp && a2.columns@[j].values@
                                    == a1.columns@[j].values@)
                        } by {
                            assert(cur.archetypes@[a].spec_len() == w1.archetypes@[a].spec_len());
                        }
                    }
                }
                i = i + 1;
            }
        }
        proof {
            lemma_stamp_frame_comps(&w1, w);
            assert forall|e2: EntityId| w.spec_alive(e2) == old(w).spec_alive(e2) by {
                assert(w.spec_alive(e2) == w1.spec_alive(e2));
            }
            assert forall|e2: EntityId|
                old(w).spec_alive(e2) implies #[trigger] w.comps(e2) == old(w).comps(e2) by {
                assert(w1.spec_alive(e2));
                assert(w.comps(e2) == w1.comps(e2));
                assert(w1.comps(e2) == old(w).comps(e2));
            }
        }
        hits_to_pairs(hits)
    }
}

impl crate::query::RefMut {
    /// Reads the wrapped component without stamping any epoch.
    pub fn read(&self, w: &World) -> (r: u64)
        requires
            w.wf(),
            (self.arch as int) < w.archetypes@.len(),
            (self.row as int) < w.archetypes@[self.arch as int].spec_len(),
            w.archetypes@[self.arch as int].has_comp(self.comp),
            crate::comp::is_plain_key(self.comp),
        ensures
            ({
                let a = w.archetypes@[self.arch as int];
                a.columns@[a.col_idx(self.comp)].values@[self.row as int]@ == crate::comp::CompVal::Plain(r)
            }),
    {
        let a = &w.archetypes[self.arch as usize];
        proof {
            assert(a.wf());
        }
        let ci = match a.find_col(self.comp) {
            Some(ci) => ci,
            None => {
                proof {
                    assert(false);
                }
                0
            }
        };
        proof {
            assert(crate::archetype::col_wf(a.columns@[ci as int], a.spec_len()));
            assert(crate::comp::comp_wf(
                self.comp,
                a.columns@[ci as int].values@[self.row as int]@,
            ));
        }
        match a.value_at(ci, self.row as usize) {
            crate::comp::CompValue::Plain(v) => *v,
            _ => {
                proof {
                    assert(false);
                }
                0
            },
        }
    }

    /// Writes the wrapped component, stamping its three epoch levels with
    /// the wrapper's epoch; this is the only write path of a lazy-write
    /// query.
    pub fn write(&self, w: &mut World, v: u64)
        requires
            old(w).wf(),
            (self.arch as int) < old(w).archetypes@.len(),
            (self.row as int) < old(w).archetypes@[self.arch as int].spec_len(),
            old(w).archetypes@[self.arch as int].has_comp(self.comp),
            crate::comp::is_plain_key(self.comp),
            self.epoch.value == old(w).spec_epoch(),
            old(w).archetypes@.len() < u32::MAX as int,
        ensures
            final(w).wf(),
            final(w).spec_epoch() == old(w).spec_epoch(),
            ({
                let e = old(w).archetypes@[self.arch as int].entities@[self.row as int];
                &&& crate::world::set_key_effect(
                    old(w),
                    e,
                    self.comp,
                    crate::comp::CompVal::Plain(v),
                    final(w),
                )
                &&& final(w).entity_epoch_of(e, self.comp) == self.epoch.value
            }),
    {
        let e = w.archetypes[self.arch as usize].id_at(self.row as usize);
        proof {
            assert(old(w).spec_alive(e) && old(w).arch_of(e) == self.arch as int && old(w).row_of(
                e,
            ) == self.row as int) by {
                assert(old(w).archetypes@[self.arch as int].entities@[self.row as int] == e);
            }
        }
        w.set_key_at(e, self.comp, crate::comp::CompValue::Plain(v), self.epoch);
    }
}

} // verus!
