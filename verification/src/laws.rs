//! The engine's general guarantees, stated and proved once over the
//! contracts of the operations.

use vstd::prelude::*;

use crate::archetype::{col_wf, spec_chunk_of, spec_n_chunks};
use crate::comp::{comp_wf, spec_plain_key, spec_target_key, CompVal};
use crate::entity::{EntityId, SlotLoc};
use crate::query::QueryKind;
use crate::relation::{cleaned_target_map, has_target_entry};
use crate::view::{arch_hits, arch_pass, hit_of, row_hit, world_hits, MatchHit};
use crate::world::{insert_effect, spawn_effect, World};

verus! {

/// A live handle resolves to exactly the row that stores it: the id column
/// of the resolved archetype holds the handle at the resolved row.
pub proof fn lemma_live_id_resolves(w: &World, e: EntityId)
    requires
        w.wf(),
        w.spec_alive(e),
    ensures
        0 <= w.arch_of(e) < w.archetypes@.len(),
        0 <= w.row_of(e) < w.archetypes@[w.arch_of(e)].spec_len(),
        w.archetypes@[w.arch_of(e)].entities@[w.row_of(e)] == e,
{
    assert(w.entities.slots@[e.idx as int].loc is Live);
}

/// Within every column the three epoch levels are ordered: the column epoch
/// dominates every chunk epoch, and every chunk epoch dominates the row
/// epochs of its chunk.
pub proof fn lemma_epoch_levels_ordered(w: &World, a: int, i: int)
    requires
        w.wf(),
        0 <= a < w.archetypes@.len(),
        0 <= i < w.archetypes@[a].columns@.len(),
    ensures
        forall|c: int|
            0 <= c < spec_n_chunks(w.archetypes@[a].spec_len()) ==> (
            #[trigger] w.archetypes@[a].columns@[i].chunk_epochs@[c]).value
                <= w.archetypes@[a].columns@[i].arch_epoch.value,
        forall|r: int|
            0 <= r < w.archetypes@[a].spec_len() ==> (
            #[trigger] w.archetypes@[a].columns@[i].entity_epochs@[r]).value
                <= w.archetypes@[a].columns@[i].chunk_epochs@[spec_chunk_of(r)].value,
{
    assert(w.archetypes@[a].wf());
    assert(col_wf(w.archetypes@[a].columns@[i], w.archetypes@[a].spec_len()));
}

/// Two handles with the same slot but different generations never both
/// resolve: at most one of them is alive at any moment.
pub proof fn lemma_generations_exclusive(w: &World, e1: EntityId, e2: EntityId)
    requires
        e1.idx == e2.idx,
        e1.gen_id != e2.gen_id,
    ensures
        !(w.spec_alive(e1) && w.spec_alive(e2)),
{
}

/// A handle that does not resolve is carried by no archetype row.
pub proof fn lemma_no_row_for_dead(w: &World, e: EntityId)
    requires
        w.wf(),
        !w.spec_alive(e),
    ensures
        forall|a: int, r: int|
            0 <= a < w.archetypes@.len() && 0 <= r < w.archetypes@[a].spec_len() ==> (
            #[trigger] w.archetypes@[a].entities@[r]) != e,
{
    assert forall|a: int, r: int|
        0 <= a < w.archetypes@.len() && 0 <= r < w.archetypes@[a].spec_len() implies (
    #[trigger] w.archetypes@[a].entities@[r]) != e by {
        let id = w.archetypes@[a].entities@[r];
        assert(w.entities.slots@[id.idx as int].loc is Live);
    }
}

/// Inserting a component that is new to the entity puts it in a component
/// set that is the old set with exactly that key added; every other
/// component keeps its value.
pub proof fn lemma_insert_extends_set(pre: &World, post: &World, e: EntityId, k: u64, v: CompVal)
    requires
        insert_effect(pre, e, k, v, post),
    ensures
        post.comps(e).dom() == pre.comps(e).dom().insert(k),
        post.comps(e)[k] == v,
        forall|k2: u64|
            k2 != k && pre.comps(e).contains_key(k2) ==> #[trigger] post.comps(e)[k2]
                == pre.comps(e)[k2],
{
    assert(post.comps(e).dom() =~= pre.comps(e).dom().insert(k));
}

/// Round trip: after a spawn, each component of the bundle reads back as
/// the value the bundle carried.
pub proof fn lemma_spawn_round_trip(
    pre: &World,
    post: &World,
    e: EntityId,
    bundle: Seq<(u32, u64)>,
    i: int,
)
    requires
        spawn_effect(pre, bundle, post, e),
        0 <= i < bundle.len(),
    ensures
        post.comps(e).contains_key(spec_plain_key(bundle[i].0)),
        post.comps(e)[spec_plain_key(bundle[i].0)] == CompVal::Plain(bundle[i].1),
{
}

/// Inserting the same value twice leaves the component at that value, and
/// only the second write moves the component's row epoch past the first.
pub proof fn lemma_insert_idempotent(
    w0: &World,
    w1: &World,
    w2: &World,
    e: EntityId,
    k: u64,
    v: CompVal,
)
    requires
        insert_effect(w0, e, k, v, w1),
        insert_effect(w1, e, k, v, w2),
    ensures
        w2.comps(e) == w1.comps(e),
        w2.comps(e)[k] == v,
        w1.entity_epoch_of(e, k) == w0.spec_epoch() + 1,
        w2.entity_epoch_of(e, k) == w0.spec_epoch() + 2,
        w2.entity_epoch_of(e, k) > w1.entity_epoch_of(e, k),
{
    assert(w2.comps(e) =~= w1.comps(e));
}

/// A change query over one component visits a row exactly when that row's
/// epoch for the component is strictly after the watermark: the chunk and
/// column levels can only widen, never narrow, the selection.
pub proof fn lemma_modified_visits_exactly(w: &World, comp: u32, after: u64, a: int, r: int)
    requires
        w.wf(),
        0 <= a < w.archetypes@.len(),
        0 <= r < w.archetypes@[a].spec_len(),
        w.archetypes@[a].has_comp(spec_plain_key(comp)),
    ensures
        ({
            let q = QueryKind::Modified { comp, after };
            let arch = w.archetypes@[a];
            let ci = arch.col_idx(spec_plain_key(comp));
            (arch_pass(q, QueryKind::Unit, arch) && row_hit(q, QueryKind::Unit, arch, r))
                <==> arch.columns@[ci].entity_epochs@[r].value > after
        }),
{
    let q = QueryKind::Modified { comp, after };
    let arch = w.archetypes@[a];
    assert(arch.wf());
    arch.lemma_col_idx(spec_plain_key(comp));
    let ci = arch.col_idx(spec_plain_key(comp));
    assert(col_wf(arch.columns@[ci], arch.spec_len()));
    crate::archetype::lemma_chunk_of_bound(r, arch.spec_len());
    if arch.columns@[ci].entity_epochs@[r].value > after {
        assert(arch.columns@[ci].chunk_epochs@[spec_chunk_of(r)].value > after);
        assert(arch.columns@[ci].arch_epoch.value > after);
    }
}

/// Every row a change query selects appears in the scan's output, and every
/// output row was selected: membership in the yielded sequence coincides
/// with the row-level change test.
pub proof fn lemma_hits_complete(
    q: QueryKind,
    f: QueryKind,
    a: crate::archetype::Archetype,
    aidx: u32,
    epoch: crate::epoch::EpochId,
    upto: int,
    r: int,
)
    requires
        0 <= r < upto <= a.spec_len(),
        upto <= u32::MAX as int,
        row_hit(q, f, a, r),
    ensures
        exists|i: int|
            0 <= i < arch_hits(q, f, a, aidx, epoch, upto).len() && (#[trigger] arch_hits(
                q,
                f,
                a,
                aidx,
                epoch,
                upto,
            )[i]) == hit_of(q, a, aidx, r, epoch),
    decreases upto,
{
    let s1 = arch_hits(q, f, a, aidx, epoch, upto);
    if r == upto - 1 {
        let s0 = arch_hits(q, f, a, aidx, epoch, upto - 1);
        assert(s1[s0.len() as int] == hit_of(q, a, aidx, r, epoch));
    } else {
        lemma_hits_complete(q, f, a, aidx, epoch, upto - 1, r);
        let s0 = arch_hits(q, f, a, aidx, epoch, upto - 1);
        let i = choose|i: int| 0 <= i < s0.len() && (#[trigger] s0[i]) == hit_of(q, a, aidx, r, epoch);
        assert(s1[i] == hit_of(q, a, aidx, r, epoch));
    }
}

/// Removing the last recorded origin from a target container leaves no
/// record: the container's key disappears from the map.
pub proof fn lemma_target_cleaned(m: Map<u64, CompVal>, rel: u32, origin: EntityId)
    requires
        has_target_entry(m, rel, origin),
        comp_wf(spec_target_key(rel), m[spec_target_key(rel)]),
    ensures
        !has_target_entry(cleaned_target_map(m, rel, origin), rel, origin),
{
    let tk = spec_target_key(rel);
    let t = m[tk]->Targets_0;
    let idx = choose|i: int| 0 <= i < t.origins.len() && t.origins[i] == origin;
    let origins2 = t.origins.remove(idx);
    t.origins.remove_ensures(idx);
    if origins2.len() > 0 {
        let m2 = cleaned_target_map(m, rel, origin);
        assert(m2[tk]->Targets_0.origins == origins2);
        if has_target_entry(m2, rel, origin) {
            let j = choose|j: int| 0 <= j < origins2.len() && origins2[j] == origin;
            if j < idx {
                assert(t.origins[j] == origin);
                assert(t.origins[j] != t.origins[idx]);
            } else {
                assert(t.origins[j + 1] == origin);
                assert(t.origins[idx] != t.origins[j + 1]);
            }
        }
    }
}

/// A lazy-write query never stamps epochs while it is only read: it is not
/// an eagerly mutable query, so iterating it leaves every archetype, and
/// with them all three epoch levels, untouched.
pub proof fn lemma_lazy_write_reads_free(comp: u32, after: u64)
    ensures
        !(QueryKind::Alt(comp).spec_mutable()),
        !((QueryKind::ModifiedAlt { comp, after }).spec_mutable()),
{
}

/// A hit of one accepted archetype appears in the whole scan's output.
proof fn lemma_world_hits_lift(
    q: QueryKind,
    f: QueryKind,
    archs: Seq<crate::archetype::Archetype>,
    epoch: crate::epoch::EpochId,
    a: int,
    upto: int,
    x: MatchHit,
)
    requires
        0 <= a < upto <= archs.len(),
        arch_pass(q, f, archs[a]),
        exists|j: int|
            0 <= j < arch_hits(q, f, archs[a], a as u32, epoch, archs[a].spec_len()).len() && (
            #[trigger] arch_hits(q, f, archs[a], a as u32, epoch, archs[a].spec_len())[j]) == x,
    ensures
        exists|i: int|
            0 <= i < world_hits(q, f, archs, epoch, upto).len() && (#[trigger] world_hits(
                q,
                f,
                archs,
                epoch,
                upto,
            )[i]) == x,
    decreases upto,
{
    let s0 = world_hits(q, f, archs, epoch, upto - 1);
    let s1 = world_hits(q, f, archs, epoch, upto);
    if a == upto - 1 {
        let block = arch_hits(q, f, archs[a], a as u32, epoch, archs[a].spec_len());
        let j = choose|j: int| 0 <= j < block.len() && block[j] == x;
        assert(s1[s0.len() + j] == x);
    } else {
        lemma_world_hits_lift(q, f, archs, epoch, a, upto - 1, x);
        let i = choose|i: int| 0 <= i < s0.len() && (#[trigger] s0[i]) == x;
        assert(s1[i] == x);
    }
}

/// The change-detecting scan yields a live entity exactly when its row epoch
/// for the watched component is strictly after the watermark: what the
/// iterator visits is precisely what changed in the window.
pub proof fn lemma_modified_iterates_exactly(
    w: &World,
    comp: u32,
    after: u64,
    e: EntityId,
    epoch: crate::epoch::EpochId,
)
    requires
        w.wf(),
        w.spec_alive(e),
        w.comps(e).contains_key(spec_plain_key(comp)),
    ensures
        ({
            let q = QueryKind::Modified { comp, after };
            let hits = world_hits(
                q,
                QueryKind::Unit,
                w.archetypes@,
                epoch,
                w.archetypes@.len() as int,
            );
            (exists|i: int| 0 <= i < hits.len() && (#[trigger] hits[i]).entity == e)
                <==> w.entity_epoch_of(e, spec_plain_key(comp)) > after
        }),
{
    let q = QueryKind::Modified { comp, after };
    let a = w.arch_of(e);
    let r = w.row_of(e);
    assert(w.entities.slots@[e.idx as int].loc is Live);
    let arch = w.archetypes@[a];
    assert(arch.wf());
    lemma_modified_visits_exactly(w, comp, after, a, r);
    crate::view::lemma_world_hits_valid(
        q,
        QueryKind::Unit,
        w.archetypes@,
        epoch,
        w.archetypes@.len() as int,
    );
    let hits = world_hits(q, QueryKind::Unit, w.archetypes@, epoch, w.archetypes@.len() as int);
    let ci = arch.col_idx(spec_plain_key(comp));
    if arch.columns@[ci].entity_epochs@[r].value > after {
        lemma_hits_complete(q, QueryKind::Unit, arch, a as u32, epoch, arch.spec_len(), r);
        let x = hit_of(q, arch, a as u32, r, epoch);
        lemma_world_hits_lift(
            q,
            QueryKind::Unit,
            w.archetypes@,
            epoch,
            a,
            w.archetypes@.len() as int,
            x,
        );
        let i = choose|i: int| 0 <= i < hits.len() && (#[trigger] hits[i]) == x;
        assert(hits[i].entity == e);
    }
    if exists|i: int| 0 <= i < hits.len() && (#[trigger] hits[i]).entity == e {
        let i = choose|i: int| 0 <= i < hits.len() && (#[trigger] hits[i]).entity == e;
        let h = hits[i];
        assert(w.archetypes@[h.arch as int].entities@[h.row as int] == e);
        assert(w.entities.slots@[e.idx as int].loc == (SlotLoc::Live {
            arch: h.arch,
            row: h.row,
        }));
        assert(h.arch as int == a && h.row as int == r);
        assert(row_hit(q, QueryKind::Unit, arch, r));
    }
}

} // verus!
