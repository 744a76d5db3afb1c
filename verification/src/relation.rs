//! The relation subsystem: two-sided links between entities.
//!
//! A relation instance connects an origin entity to a target entity and
//! carries a payload. The origin holds an origin container with one entry per
//! target. A symmetric relation is stored as origin containers on both sides;
//! a non-symmetric relation instead records each origin in a target container
//! on the target entity. An exclusive relation admits one entry per origin,
//! and adding a second replaces the first, firing the set and drop hooks of
//! the displaced instance. Dropping either side removes the paired entry on
//! the other, and a container left empty is removed from its entity.

use vstd::prelude::*;

use crate::action::HookEvent;
use crate::comp::{
    comp_wf, spec_origin_key, spec_target_key, CompVal, CompValue, OriginCompView,
    OriginComponent, OriginEntry, TargetCompView, TargetComponent,
};
use crate::entity::EntityId;
use crate::epoch::EpochId;
use crate::world::{NoSuchEntity, World};

verus! {

/// Static description of a relation type: its id and its variant flags.
#[derive(Clone, Copy, PartialEq, Eq, Structural, Debug)]
pub struct RelationDesc {
    /// The relation id.
    pub id: u32,
    /// At most one entry per origin; adding replaces the previous instance.
    pub exclusive: bool,
    /// Stored as origin containers on both sides; no target containers.
    pub symmetric: bool,
}

/// What a user-defined relation type declares: its id and variant flags.
/// The engine works with the [`RelationDesc`] values such a type yields.
pub trait Relation {
    /// The relation id.
    fn id(&self) -> u32;

    /// True if the relation admits at most one entry per origin.
    fn exclusive(&self) -> bool;

    /// True if the relation is stored as origin containers on both sides.
    fn symmetric(&self) -> bool;

    /// The description the engine's calls take.
    fn desc(&self) -> RelationDesc;
}

impl Relation for RelationDesc {
    fn id(&self) -> (r: u32)
        ensures
            r == self.id,
    {
        self.id
    }

    fn exclusive(&self) -> (r: bool)
        ensures
            r == self.exclusive,
    {
        self.exclusive
    }

    fn symmetric(&self) -> (r: bool)
        ensures
            r == self.symmetric,
    {
        self.symmetric
    }

    fn desc(&self) -> (r: RelationDesc)
        ensures
            r == *self,
    {
        *self
    }
}

/// Read access to the origin side of a relation container.
pub trait RelationOrigin {
    /// The targets this origin is related to.
    fn targets(&self) -> Vec<EntityId>;
}

impl RelationOrigin for crate::comp::OriginComponent {
    fn targets(&self) -> (r: Vec<EntityId>) {
        let n = self.entries.len();
        let mut r: Vec<EntityId> = Vec::new();
        let mut i: usize = 0;
        while i < n
            invariant
                n == self.entries@.len(),
                i <= n,
                r@.len() == i,
            decreases n - i,
        {
            r.push(self.entries[i].target);
            i = i + 1;
        }
        r
    }
}

/// Read access to the target side of a relation.
pub trait RelationTarget {
    /// The origins related to this target.
    fn origins(&self) -> Vec<EntityId>;
}

impl RelationTarget for crate::comp::TargetComponent {
    fn origins(&self) -> (r: Vec<EntityId>) {
        let n = self.origins.len();
        let mut r: Vec<EntityId> = Vec::new();
        let mut i: usize = 0;
        while i < n
            invariant
                n == self.origins@.len(),
                i <= n,
                r@.len() == i,
            decreases n - i,
        {
            r.push(self.origins[i]);
            i = i + 1;
        }
        r
    }
}

/// Every live entity other than `skip` keeps every plain component, with its
/// value, from `pre` to `post`.
pub open spec fn plain_frame_except(pre: &World, post: &World, skip: EntityId) -> bool {
    forall|e2: EntityId, k: u64|
        #![trigger post.comps(e2).contains_key(k)]
        e2 != skip && pre.spec_alive(e2) && crate::comp::is_plain_key(k) ==> (post.comps(
            e2,
        ).contains_key(k) == pre.comps(e2).contains_key(k) && (pre.comps(e2).contains_key(k)
            ==> post.comps(e2)[k] == pre.comps(e2)[k]))
}

/// Entity `x` keeps every component other than the keys `k1` and `k2`, with
/// its value, from `pre` to `post`.
pub open spec fn keys_frame_except(pre: &World, post: &World, x: EntityId, k1: u64, k2: u64) -> bool {
    forall|k: u64|
        #![trigger post.comps(x).contains_key(k)]
        k != k1 && k != k2 ==> (post.comps(x).contains_key(k) == pre.comps(x).contains_key(k) && (
        pre.comps(x).contains_key(k) ==> post.comps(x)[k] == pre.comps(x)[k]))
}

/// Every live entity keeps every plain component, with its value, from `pre`
/// to `post`.
pub open spec fn plain_preserved(pre: &World, post: &World) -> bool {
    forall|e2: EntityId, k: u64|
        #![trigger post.comps(e2).contains_key(k)]
        pre.spec_alive(e2) && crate::comp::is_plain_key(k) ==> (post.comps(e2).contains_key(k)
            == pre.comps(e2).contains_key(k) && (pre.comps(e2).contains_key(k) ==> post.comps(
            e2,
        )[k] == pre.comps(e2)[k]))
}

/// True if `m` holds an origin container for `rel` with an entry targeting
/// `other`.
pub open spec fn has_origin_entry(m: Map<u64, CompVal>, rel: u32, other: EntityId) -> bool {
    let ok = spec_origin_key(rel);
    &&& m.contains_key(ok)
    &&& m[ok] is Origins
    &&& exists|i: int|
        0 <= i < m[ok]->Origins_0.entries.len() && (#[trigger] m[ok]->Origins_0.entries[i]).target
            == other
}

/// The component map after the origin entry targeting `other` is cleaned
/// out: the entry leaves the container, and a container left empty leaves
/// the map. Maps without such an entry are unchanged.
pub open spec fn cleaned_origin_map(m: Map<u64, CompVal>, rel: u32, other: EntityId) -> Map<
    u64,
    CompVal,
> {
    let ok = spec_origin_key(rel);
    if has_origin_entry(m, rel, other) {
        let o = m[ok]->Origins_0;
        let idx = choose|i: int| 0 <= i < o.entries.len() && (#[trigger] o.entries[i]).target == other;
        let entries2 = o.entries.remove(idx);
        if entries2.len() == 0 {
            m.remove(ok)
        } else {
            m.insert(ok, CompVal::Origins(OriginCompView { entries: entries2, ..o }))
        }
    } else {
        m
    }
}

/// True if `m` holds a target container for `rel` recording origin `origin`.
pub open spec fn has_target_entry(m: Map<u64, CompVal>, rel: u32, origin: EntityId) -> bool {
    let tk = spec_target_key(rel);
    &&& m.contains_key(tk)
    &&& m[tk] is Targets
    &&& m[tk]->Targets_0.origins.contains(origin)
}

/// The component map after origin `origin` is cleaned out of the target
/// container: the origin leaves the list, and a container left empty leaves
/// the map. Maps without the record are unchanged.
pub open spec fn cleaned_target_map(m: Map<u64, CompVal>, rel: u32, origin: EntityId) -> Map<
    u64,
    CompVal,
> {
    let tk = spec_target_key(rel);
    if has_target_entry(m, rel, origin) {
        let t = m[tk]->Targets_0;
        let idx = choose|i: int| 0 <= i < t.origins.len() && t.origins[i] == origin;
        let origins2 = t.origins.remove(idx);
        if origins2.len() == 0 {
            m.remove(tk)
        } else {
            m.insert(tk, CompVal::Targets(TargetCompView { origins: origins2, ..t }))
        }
    } else {
        m
    }
}

impl World {
    /// Removes the entry targeting `other` from the origin container of
    /// relation `rel` on `who`, firing the drop hooks; removes the container
    /// when the entry was its last. Does nothing if `who` is dead or carries
    /// no such entry. Returns whether an entry was removed.
    pub(crate) fn clean_origin_entry(
        &mut self,
        who: EntityId,
        other: EntityId,
        rel: u32,
        epoch: EpochId,
    ) -> (found: bool)
        requires
            old(self).wf(),
            epoch.value == old(self).spec_epoch(),
            old(self).archetypes@.len() + 1 < u32::MAX as int,
        ensures
            final(self).wf(),
            final(self).spec_epoch() == old(self).spec_epoch(),
            final(self).registry == old(self).registry,
            final(self).entities.slots@.len() == old(self).entities.slots@.len(),
            old(self).archetypes@.len() <= final(self).archetypes@.len() <= old(
                self,
            ).archetypes@.len() + 1,
            forall|e2: EntityId| final(self).spec_alive(e2) == old(self).spec_alive(e2),
            forall|e2: EntityId|
                e2 != who && old(self).spec_alive(e2) ==> final(self).comps(e2) == old(self).comps(e2),
            found == (old(self).spec_alive(who) && has_origin_entry(
                old(self).comps(who),
                rel,
                other,
            )),
            old(self).spec_alive(who) ==> final(self).comps(who) == cleaned_origin_map(
                old(self).comps(who),
                rel,
                other,
            ),
            !found ==> *final(self) == *old(self),
            found ==> final(self).events@ == old(self).events@ + (if old(self).comps(
                who,
            )[spec_origin_key(rel)]->Origins_0.symmetric {
                seq![
                    HookEvent::RelationTargetDrop { rel, origin: other, target: who },
                    HookEvent::RelationDrop { rel, origin: who, target: other },
                ]
            } else {
                seq![HookEvent::RelationDrop { rel, origin: who, target: other }]
            }),
    {
        let got = match self.read_origins(who, rel) {
            Some(g) => g,
            None => {
                return false;
            }
        };
        let (excl, sym, entries) = got;
        let n = entries.len();
        let mut i: usize = 0;
        let mut found: Option<usize> = None;
        while i < n && found.is_none()
            invariant
                n == entries@.len(),
                i <= n,
                match found {
                    None => forall|j: int| 0 <= j < i ==> (#[trigger] entries@[j]).target != other,
                    Some(idx) => (idx as int) < n && entries@[idx as int].target == other && forall|
                        j: int,
                    | 0 <= j < idx ==> (#[trigger] entries@[j]).target != other,
                },
            decreases n - i,
        {
            if entries[i].target == other {
                found = Some(i);
            }
            i = i + 1;
        }
        let idx = match found {
            Some(idx) => idx,
            None => {
                proof {
                    assert(!has_origin_entry(self.comps(who), rel, other));
                }
                return false;
            }
        };
        proof {
            crate::world::lemma_comp_shape(self, who, spec_origin_key(rel));
            assert(has_origin_entry(self.comps(who), rel, other)) by {
                assert(self.comps(who)[spec_origin_key(rel)]->Origins_0.entries == entries@);
                assert(self.comps(who)[spec_origin_key(rel)]->Origins_0.entries[idx as int].target
                    == other);
            }
            let widx = choose|i: int|
                0 <= i < entries@.len() && (#[trigger] entries@[i]).target == other;
            assert(widx == idx as int) by {
                if widx < idx as int {
                    assert(entries@[widx].target != other);
                } else if widx > idx as int {
                    assert(entries@[widx].target != entries@[idx as int].target);
                }
            }
        }
        if sym {
            self.events.push(HookEvent::RelationTargetDrop { rel, origin: other, target: who });
        }
        self.events.push(HookEvent::RelationDrop { rel, origin: who, target: other });
        let ghost mid = *self;
        let mut entries2 = entries;
        entries2.remove(idx);
        proof {
            assert(mid.wf()) by {
                crate::world::lemma_wf_congruent(old(self), self);
            }
            assert(mid.comps(who) == old(self).comps(who));
            assert forall|i0: int, j0: int|
                0 <= i0 < j0 < entries2@.len() implies (#[trigger] entries2@[i0]).target != (
            #[trigger] entries2@[j0]).target by {
                entries@.remove_ensures(idx as int);
            }
        }
        if entries2.len() == 0 {
            let _ = self.remove_key_at(who, crate::comp::origin_key(rel), epoch);
        } else {
            self.set_key_at(
                who,
                crate::comp::origin_key(rel),
                CompValue::Origins(
                    OriginComponent { exclusive: excl, symmetric: sym, entries: entries2 },
                ),
                epoch,
            );
        }
        proof {
            assert(self.comps(who) == cleaned_origin_map(old(self).comps(who), rel, other));
            assert forall|e2: EntityId|
                e2 != who && old(self).spec_alive(e2) implies self.comps(e2) == old(self).comps(
                e2,
            ) by {
                assert(mid.spec_alive(e2));
                assert(self.comps(e2) == mid.comps(e2));
            }
        }
        true
    }

    /// Removes origin `origin` from the target container of relation `rel`
    /// on `who`, firing the target-drop hook; removes the container when the
    /// record was its last. Does nothing if `who` is dead or carries no such
    /// record. Returns whether a record was removed.
    pub(crate) fn clean_target_entry(
        &mut self,
        who: EntityId,
        origin: EntityId,
        rel: u32,
        epoch: EpochId,
    ) -> (found: bool)
        requires
            old(self).wf(),
            epoch.value == old(self).spec_epoch(),
            old(self).archetypes@.len() + 1 < u32::MAX as int,
        ensures
            final(self).wf(),
            final(self).spec_epoch() == old(self).spec_epoch(),
            final(self).registry == old(self).registry,
            final(self).entities.slots@.len() == old(self).entities.slots@.len(),
            old(self).archetypes@.len() <= final(self).archetypes@.len() <= old(
                self,
            ).archetypes@.len() + 1,
            forall|e2: EntityId| final(self).spec_alive(e2) == old(self).spec_alive(e2),
            forall|e2: EntityId|
                e2 != who && old(self).spec_alive(e2) ==> final(self).comps(e2) == old(self).comps(e2),
            found == (old(self).spec_alive(who) && has_target_entry(
                old(self).comps(who),
                rel,
                origin,
            )),
            old(self).spec_alive(who) ==> final(self).comps(who) == cleaned_target_map(
                old(self).comps(who),
                rel,
                origin,
            ),
            !found ==> *final(self) == *old(self),
            found ==> final(self).events@ == old(self).events@ + seq![
                HookEvent::RelationTargetDrop { rel, origin, target: who },
            ],
    {
        let got = match self.read_targets(who, rel) {
            Some(g) => g,
            None => {
                return false;
            }
        };
        let (excl, origins) = got;
        let n = origins.len();
        let mut i: usize = 0;
        let mut found: Option<usize> = None;
        while i < n && found.is_none()
            invariant
                n == origins@.len(),
                i <= n,
                match found {
                    None => forall|j: int| 0 <= j < i ==> #[trigger] origins@[j] != origin,
                    Some(idx) => (idx as int) < n && origins@[idx as int] == origin && forall|
                        j: int,
                    | 0 <= j < idx ==> #[trigger] origins@[j] != origin,
                },
            decreases n - i,
        {
            if origins[i] == origin {
                found = Some(i);
            }
            i = i + 1;
        }
        let idx = match found {
            Some(idx) => idx,
            None => {
                proof {
                    assert(!has_target_entry(self.comps(who), rel, origin)) by {
                        if self.comps(who)[spec_target_key(rel)]->Targets_0.origins.contains(
                            origin,
                        ) {
                            let j = choose|j: int|
                                0 <= j < origins@.len() && origins@[j] == origin;
                            assert(origins@[j] != origin);
                        }
                    }
                }
                return false;
            }
        };
        proof {
            crate::world::lemma_comp_shape(self, who, spec_target_key(rel));
            assert(has_target_entry(self.comps(who), rel, origin)) by {
                assert(self.comps(who)[spec_target_key(rel)]->Targets_0.origins == origins@);
                assert(self.comps(who)[spec_target_key(rel)]->Targets_0.origins[idx as int]
                    == origin);
            }
            let widx = choose|i: int| 0 <= i < origins@.len() && origins@[i] == origin;
            assert(widx == idx as int) by {
                if widx < idx as int {
                    assert(origins@[widx] != origin);
                } else if widx > idx as int {
                    assert(origins@[widx] != origins@[idx as int]);
                }
            }
        }
        self.events.push(HookEvent::RelationTargetDrop { rel, origin, target: who });
        let ghost mid = *self;
        let mut origins2 = origins;
        origins2.remove(idx);
        proof {
            assert(mid.wf()) by {
                crate::world::lemma_wf_congruent(old(self), self);
            }
            assert(mid.comps(who) == old(self).comps(who));
            assert forall|i0: int, j0: int|
                0 <= i0 < j0 < origins2@.len() implies #[trigger] origins2@[i0] != (
            #[trigger] origins2@[j0]) by {
                origins@.remove_ensures(idx as int);
            }
        }
        if origins2.len() == 0 {
            let _ = self.remove_key_at(who, crate::comp::target_key(rel), epoch);
        } else {
            self.set_key_at(
                who,
                crate::comp::target_key(rel),
                CompValue::Targets(TargetComponent { exclusive: excl, origins: origins2 }),
                epoch,
            );
        }
        proof {
            assert(self.comps(who) == cleaned_target_map(old(self).comps(who), rel, origin));
            assert forall|e2: EntityId|
                e2 != who && old(self).spec_alive(e2) implies self.comps(e2) == old(self).comps(
                e2,
            ) by {
                assert(mid.spec_alive(e2));
                assert(self.comps(e2) == mid.comps(e2));
            }
        }
        true
    }
}

impl World {
    /// Makes `x`'s origin container for `rel` hold the entry `(y, value)`,
    /// creating the container, appending, updating in place, or (for an
    /// exclusive relation) replacing the previous entry with its set and drop
    /// hooks fired and the displaced target's paired record cleaned.
    #[verifier::rlimit(100)]
    fn add_origin_half(
        &mut self,
        x: EntityId,
        y: EntityId,
        rel: RelationDesc,
        value: u64,
        epoch: EpochId,
    )
        requires
            old(self).wf(),
            old(self).spec_alive(x),
            epoch.value == old(self).spec_epoch(),
            old(self).archetypes@.len() + 2 < u32::MAX as int,
        ensures
            final(self).wf(),
            final(self).spec_epoch() == old(self).spec_epoch(),
            final(self).registry == old(self).registry,
            final(self).entities.slots@.len() == old(self).entities.slots@.len(),
            final(self).archetypes@.len() <= old(self).archetypes@.len() + 2,
            forall|e2: EntityId| final(self).spec_alive(e2) == old(self).spec_alive(e2),
            ({
                let m = final(self).comps(x);
                let ok = spec_origin_key(rel.id);
                &&& m.contains_key(ok)
                &&& m[ok] is Origins
                &&& m[ok]->Origins_0.exclusive == rel.exclusive
                &&& m[ok]->Origins_0.symmetric == rel.symmetric
                &&& m[ok]->Origins_0.entries.contains(OriginEntry { target: y, value })
                &&& (rel.exclusive ==> m[ok]->Origins_0.entries == seq![
                    OriginEntry { target: y, value },
                ])
            }),
            keys_frame_except(
                old(self),
                final(self),
                x,
                spec_origin_key(rel.id),
                spec_target_key(rel.id),
            ),
            rel.symmetric ==> keys_frame_except(
                old(self),
                final(self),
                x,
                spec_origin_key(rel.id),
                spec_origin_key(rel.id),
            ),
            x != y && old(self).spec_alive(y) ==> final(self).comps(y) == old(self).comps(y),
            plain_frame_except(old(self), final(self), x),
            !rel.exclusive ==> forall|e2: EntityId|
                e2 != x && old(self).spec_alive(e2) ==> final(self).comps(e2) == old(self).comps(
                    e2,
                ),
            old(self).events@.is_prefix_of(final(self).events@),
            ({
                let ok = spec_origin_key(rel.id);
                let m = old(self).comps(x);
                rel.exclusive && m.contains_key(ok) && m[ok] is Origins
                    && m[ok]->Origins_0.entries.len() > 0 ==> {
                    let t0 = m[ok]->Origins_0.entries[0].target;
                    &&& final(self).events@.contains(
                        HookEvent::RelationSet {
                            rel: rel.id,
                            origin: x,
                            old_target: t0,
                            new_target: y,
                        },
                    )
                    &&& final(self).events@.contains(
                        HookEvent::RelationDrop { rel: rel.id, origin: x, target: t0 },
                    )
                }
            }),
    {
        let ok = crate::comp::origin_key(rel.id);
        let got = self.read_origins(x, rel.id);
        match got {
            None => {
                let mut entries: Vec<OriginEntry> = Vec::new();
                entries.push(OriginEntry { target: y, value });
                self.set_key_at(
                    x,
                    ok,
                    CompValue::Origins(
                        OriginComponent {
                            exclusive: rel.exclusive,
                            symmetric: rel.symmetric,
                            entries,
                        },
                    ),
                    epoch,
                );
                proof {
                    assert(self.comps(x)[spec_origin_key(rel.id)]->Origins_0.entries[0]
                        == (OriginEntry { target: y, value }));
                    lemma_frames_from_set(
                        old(self),
                        old(self),
                        self,
                        x,
                        spec_origin_key(rel.id),
                        self.comps(x)[spec_origin_key(rel.id)],
                        spec_origin_key(rel.id),
                        spec_target_key(rel.id),
                    );
                }
            }
            Some((_excl, _sym, entries)) => {
                if rel.exclusive {
                    if entries.len() > 0 {
                        let old_entry = entries[0];
                        self.events.push(
                            HookEvent::RelationSet {
                                rel: rel.id,
                                origin: x,
                                old_target: old_entry.target,
                                new_target: y,
                            },
                        );
                        self.events.push(
                            HookEvent::RelationDrop {
                                rel: rel.id,
                                origin: x,
                                target: old_entry.target,
                            },
                        );
                        if rel.symmetric {
                            self.events.push(
                                HookEvent::RelationTargetDrop {
                                    rel: rel.id,
                                    origin: old_entry.target,
                                    target: x,
                                },
                            );
                        }
                        let ghost mid0 = *self;
                        proof {
                            crate::world::lemma_wf_congruent(old(self), self);
                            assert(mid0.comps(x) == old(self).comps(x));
                        }
                        let mut entries2: Vec<OriginEntry> = Vec::new();
                        entries2.push(OriginEntry { target: y, value });
                        let ghost g_entries2 = entries2@;
                        self.set_key_at(
                            x,
                            ok,
                            CompValue::Origins(
                                OriginComponent {
                                    exclusive: rel.exclusive,
                                    symmetric: rel.symmetric,
                                    entries: entries2,
                                },
                            ),
                            epoch,
                        );
                        let ghost mid1 = *self;
                        if old_entry.target != y {
                            if rel.symmetric {
                                if old_entry.target != x {
                                    let _ = self.clean_origin_entry(
                                        old_entry.target,
                                        x,
                                        rel.id,
                                        epoch,
                                    );
                                }
                            } else {
                                let _ = self.clean_target_entry(old_entry.target, x, rel.id, epoch);
                            }
                        }
                        proof {
                            let oks = spec_origin_key(rel.id);
                            let tks = spec_target_key(rel.id);
                            let disp = old_entry.target;
                            assert(g_entries2 =~= seq![OriginEntry { target: y, value }]);
                            assert(mid1.comps(x) == mid0.comps(x).insert(
                                oks,
                                CompVal::Origins(
                                    OriginCompView {
                                        exclusive: rel.exclusive,
                                        symmetric: rel.symmetric,
                                        entries: g_entries2,
                                    },
                                ),
                            ));
                            let cleaned = old_entry.target != y && (rel.symmetric ==> old_entry.target != x);
                            // x keeps what the replacement wrote
                            assert(self.comps(x).contains_key(oks) && self.comps(x)[oks]
                                == mid1.comps(x)[oks] && keys_frame_except(
                                &mid1,
                                self,
                                x,
                                oks,
                                tks,
                            )) by {
                                if cleaned {
                                    if rel.symmetric {
                                        assert(x != disp);
                                        assert(self.comps(x) == mid1.comps(x));
                                    } else if disp == x {
                                        assert(mid1.spec_alive(x));
                                        assert(self.comps(x) == cleaned_target_map(
                                            mid1.comps(x),
                                            rel.id,
                                            x,
                                        ));
                                        lemma_cleaned_target_frame(mid1.comps(x), rel.id, x);
                                    } else {
                                        assert(self.comps(x) == mid1.comps(x));
                                    }
                                } else {
                                    assert(self.comps(x) == mid1.comps(x));
                                }
                            }
                            assert(self.comps(x)[oks]->Origins_0.entries[0] == (OriginEntry {
                                target: y,
                                value,
                            }));
                            // the recorded replacement hooks survive the cleanup
                            let evlen = old(self).events@.len() as int;
                            let ev_set = HookEvent::RelationSet {
                                rel: rel.id,
                                origin: x,
                                old_target: old_entry.target,
                                new_target: y,
                            };
                            let ev_drop = HookEvent::RelationDrop {
                                rel: rel.id,
                                origin: x,
                                target: old_entry.target,
                            };
                            assert(old_entry.target == old(self).comps(x)[oks]->Origins_0.entries[
                            0].target) by {
                                assert(old(self).comps(x)[oks]->Origins_0.entries == entries@);
                            }
                            assert(mid0.events@[evlen] == ev_set);
                            assert(mid0.events@[evlen + 1] == ev_drop);
                            assert(mid1.events@ == mid0.events@);
                            assert(self.events@[evlen] == ev_set && self.events@[evlen + 1]
                                == ev_drop) by {
                                assert(mid1.events@.is_prefix_of(self.events@));
                            }
                            assert(self.events@.contains(ev_set) && self.events@.contains(ev_drop));
                            // the fresh target is never the displaced one
                            assert(x != y && old(self).spec_alive(y) ==> self.comps(y) == old(self).comps(y)) by {
                                if x != y && old(self).spec_alive(y) {
                                    assert(mid0.comps(y) == old(self).comps(y));
                                    assert(mid0.spec_alive(y));
                                    assert(mid1.comps(y) == mid0.comps(y));
                                    assert(mid1.spec_alive(y));
                                    if cleaned {
                                        assert(y != disp);
                                        assert(self.comps(y) == mid1.comps(y));
                                    } else {
                                        assert(self.comps(y) == mid1.comps(y));
                                    }
                                }
                            }
                            // plain components elsewhere survive
                            assert forall|e2: EntityId, k: u64|
                                e2 != x && old(self).spec_alive(e2) && crate::comp::is_plain_key(
                                    k,
                                ) implies ((#[trigger] self.comps(e2).contains_key(k)) == old(self).comps(e2).contains_key(k) && (old(self).comps(e2).contains_key(k)
                                ==> self.comps(e2)[k] == old(self).comps(e2)[k])) by {
                                assert(mid1.comps(e2) == old(self).comps(e2));
                                if cleaned && e2 == disp {
                                    assert(mid1.spec_alive(e2));
                                    if rel.symmetric {
                                        assert(self.comps(e2) == cleaned_origin_map(
                                            mid1.comps(e2),
                                            rel.id,
                                            x,
                                        ));
                                        lemma_cleaned_origin_frame(mid1.comps(e2), rel.id, x);
                                        assert(k != oks);
                                    } else {
                                        assert(self.comps(e2) == cleaned_target_map(
                                            mid1.comps(e2),
                                            rel.id,
                                            x,
                                        ));
                                        lemma_cleaned_target_frame(mid1.comps(e2), rel.id, x);
                                        assert(k != tks);
                                    }
                                } else {
                                    assert(self.comps(e2) == mid1.comps(e2));
                                }
                            }
                            assert(plain_frame_except(old(self), self, x));
                            assert(keys_frame_except(old(self), self, x, oks, tks)) by {
                                assert forall|k: u64|
                                    k != oks && k != tks implies ((#[trigger] self.comps(
                                    x,
                                ).contains_key(k)) == old(self).comps(x).contains_key(k) && (old(self).comps(x).contains_key(k) ==> self.comps(x)[k] == old(self).comps(
                                    x,
                                )[k])) by {
                                    assert(mid1.comps(x).contains_key(k) == mid0.comps(
                                        x,
                                    ).contains_key(k) && (mid0.comps(x).contains_key(k)
                                        ==> mid1.comps(x)[k] == mid0.comps(x)[k]));
                                    assert(self.comps(x).contains_key(k) == mid1.comps(
                                        x,
                                    ).contains_key(k) && (mid1.comps(x).contains_key(k)
                                        ==> self.comps(x)[k] == mid1.comps(x)[k]));
                                }
                            }
                        }
                    } else {
                        let mut entries2: Vec<OriginEntry> = Vec::new();
                        entries2.push(OriginEntry { target: y, value });
                        self.set_key_at(
                            x,
                            ok,
                            CompValue::Origins(
                                OriginComponent {
                                    exclusive: rel.exclusive,
                                    symmetric: rel.symmetric,
                                    entries: entries2,
                                },
                            ),
                            epoch,
                        );
                        proof {
                            assert(self.comps(x)[spec_origin_key(rel.id)]->Origins_0.entries[0]
                                == (OriginEntry { target: y, value }));
                            lemma_frames_from_set(
                                old(self),
                                old(self),
                                self,
                                x,
                                spec_origin_key(rel.id),
                                self.comps(x)[spec_origin_key(rel.id)],
                                spec_origin_key(rel.id),
                                spec_target_key(rel.id),
                            );
                        }
                    }
                } else {
                    let n = entries.len();
                    let mut i: usize = 0;
                    let mut found: Option<usize> = None;
                    while i < n && found.is_none()
                        invariant
                            n == entries@.len(),
                            i <= n,
                            match found {
                                None => forall|j: int|
                                    0 <= j < i ==> (#[trigger] entries@[j]).target != y,
                                Some(idx) => (idx as int) < n && entries@[idx as int].target == y,
                            },
                        decreases n - i,
                    {
                        if entries[i].target == y {
                            found = Some(i);
                        }
                        i = i + 1;
                    }
                    proof {
                        crate::world::lemma_comp_shape(self, x, spec_origin_key(rel.id));
                    }
                    match found {
                        Some(idx) => {
                            self.events.push(
                                HookEvent::RelationSet {
                                    rel: rel.id,
                                    origin: x,
                                    old_target: y,
                                    new_target: y,
                                },
                            );
                            self.events.push(
                                HookEvent::RelationDrop { rel: rel.id, origin: x, target: y },
                            );
                            if rel.symmetric {
                                self.events.push(
                                    HookEvent::RelationTargetDrop {
                                        rel: rel.id,
                                        origin: y,
                                        target: x,
                                    },
                                );
                            }
                            proof {
                                crate::world::lemma_wf_congruent(old(self), self);
                            }
                            let ghost midx = *self;
                            let mut entries2 = entries;
                            entries2[idx] = OriginEntry { target: y, value };
                            proof {
                                let oks = spec_origin_key(rel.id);
                                assert(old(self).comps(x)[oks]->Origins_0.entries == entries@);
                                assert forall|i0: int, j0: int|
                                    0 <= i0 < j0 < entries2@.len() implies (
                                #[trigger] entries2@[i0]).target != (
                                #[trigger] entries2@[j0]).target by {
                                    assert((old(self).comps(x)[oks]->Origins_0.entries[i0]).target
                                        != (old(self).comps(
                                        x,
                                    )[oks]->Origins_0.entries[j0]).target);
                                    assert(entries2@[i0].target == entries@[i0].target);
                                    assert(entries2@[j0].target == entries@[j0].target);
                                }
                            }
                            self.set_key_at(
                                x,
                                ok,
                                CompValue::Origins(
                                    OriginComponent {
                                        exclusive: rel.exclusive,
                                        symmetric: rel.symmetric,
                                        entries: entries2,
                                    },
                                ),
                                epoch,
                            );
                            proof {
                                assert(self.comps(x)[spec_origin_key(
                                    rel.id,
                                )]->Origins_0.entries[idx as int] == (OriginEntry {
                                    target: y,
                                    value,
                                }));
                                lemma_frames_from_set(
                                    old(self),
                                    &midx,
                                    self,
                                    x,
                                    spec_origin_key(rel.id),
                                    self.comps(x)[spec_origin_key(rel.id)],
                                    spec_origin_key(rel.id),
                                    spec_target_key(rel.id),
                                );
                            }
                        }
                        None => {
                            let mut entries2 = entries;
                            entries2.push(OriginEntry { target: y, value });
                            proof {
                                let oks = spec_origin_key(rel.id);
                                assert(old(self).comps(x)[oks]->Origins_0.entries == entries@);
                                assert forall|i0: int, j0: int|
                                    0 <= i0 < j0 < entries2@.len() implies (
                                #[trigger] entries2@[i0]).target != (
                                #[trigger] entries2@[j0]).target by {
                                    if j0 < entries@.len() {
                                        assert((old(self).comps(
                                            x,
                                        )[oks]->Origins_0.entries[i0]).target != (old(self).comps(
                                            x,
                                        )[oks]->Origins_0.entries[j0]).target);
                                        assert(entries2@[i0].target == entries@[i0].target);
                                        assert(entries2@[j0].target == entries@[j0].target);
                                    } else {
                                        assert(entries2@[i0].target == entries@[i0].target);
                                        assert(entries2@[j0] == (OriginEntry { target: y, value }));
                                    }
                                }
                            }
                            self.set_key_at(
                                x,
                                ok,
                                CompValue::Origins(
                                    OriginComponent {
                                        exclusive: rel.exclusive,
                                        symmetric: rel.symmetric,
                                        entries: entries2,
                                    },
                                ),
                                epoch,
                            );
                            proof {
                                assert(self.comps(x)[spec_origin_key(
                                    rel.id,
                                )]->Origins_0.entries.last() == (OriginEntry { target: y, value }));
                                lemma_frames_from_set(
                                    old(self),
                                    old(self),
                                    self,
                                    x,
                                    spec_origin_key(rel.id),
                                    self.comps(x)[spec_origin_key(rel.id)],
                                    spec_origin_key(rel.id),
                                    spec_target_key(rel.id),
                                );
                            }
                        }
                    }
                }
            }
        }
    }

    /// Records origin `a` in the target container for `rel` on `b`, creating
    /// the container if needed; recording the same origin twice has no
    /// further effect.
    fn add_target_half(&mut self, b: EntityId, a: EntityId, rel: RelationDesc, epoch: EpochId)
        requires
            old(self).wf(),
            old(self).spec_alive(b),
            epoch.value == old(self).spec_epoch(),
            old(self).archetypes@.len() + 1 < u32::MAX as int,
        ensures
            final(self).wf(),
            final(self).spec_epoch() == old(self).spec_epoch(),
            final(self).registry == old(self).registry,
            final(self).entities.slots@.len() == old(self).entities.slots@.len(),
            final(self).archetypes@.len() <= old(self).archetypes@.len() + 1,
            forall|e2: EntityId| final(self).spec_alive(e2) == old(self).spec_alive(e2),
            has_target_entry(final(self).comps(b), rel.id, a),
            final(self).comps(b) == old(self).comps(b).insert(
                spec_target_key(rel.id),
                final(self).comps(b)[spec_target_key(rel.id)],
            ),
            keys_frame_except(
                old(self),
                final(self),
                b,
                spec_origin_key(rel.id),
                spec_target_key(rel.id),
            ),
            keys_frame_except(
                old(self),
                final(self),
                b,
                spec_target_key(rel.id),
                spec_target_key(rel.id),
            ),
            plain_frame_except(old(self), final(self), b),
            forall|e2: EntityId|
                e2 != b && old(self).spec_alive(e2) ==> final(self).comps(e2) == old(self).comps(
                    e2,
                ),
            final(self).events@ == old(self).events@,
    {
        let tk = crate::comp::target_key(rel.id);
        match self.read_targets(b, rel.id) {
            None => {
                let mut origins: Vec<EntityId> = Vec::new();
                origins.push(a);
                self.set_key_at(
                    b,
                    tk,
                    CompValue::Targets(
                        TargetComponent { exclusive: rel.exclusive, origins },
                    ),
                    epoch,
                );
                proof {
                    assert(self.comps(b)[spec_target_key(rel.id)]->Targets_0.origins[0] == a);
                    lemma_frames_from_set(
                        old(self),
                        old(self),
                        self,
                        b,
                        spec_target_key(rel.id),
                        self.comps(b)[spec_target_key(rel.id)],
                        spec_origin_key(rel.id),
                        spec_target_key(rel.id),
                    );
                    lemma_frames_from_set(
                        old(self),
                        old(self),
                        self,
                        b,
                        spec_target_key(rel.id),
                        self.comps(b)[spec_target_key(rel.id)],
                        spec_target_key(rel.id),
                        spec_target_key(rel.id),
                    );
                }
            }
            Some((excl, origins)) => {
                let n = origins.len();
                let mut i: usize = 0;
                let mut present = false;
                while i < n && !present
                    invariant
                        n == origins@.len(),
                        i <= n,
                        present ==> origins@.contains(a),
                        !present ==> forall|j: int| 0 <= j < i ==> #[trigger] origins@[j] != a,
                    decreases n - i,
                {
                    if origins[i] == a {
                        present = true;
                    }
                    i = i + 1;
                }
                if present {
                    proof {
                        assert(has_target_entry(self.comps(b), rel.id, a));
                        assert(self.comps(b) =~= self.comps(b).insert(
                            spec_target_key(rel.id),
                            self.comps(b)[spec_target_key(rel.id)],
                        ));
                        assert(keys_frame_except(
                            old(self),
                            self,
                            b,
                            spec_origin_key(rel.id),
                            spec_target_key(rel.id),
                        ));
                        assert(keys_frame_except(
                            old(self),
                            self,
                            b,
                            spec_target_key(rel.id),
                            spec_target_key(rel.id),
                        ));
                        assert(plain_frame_except(old(self), self, b));
                    }
                } else {
                    proof {
                        crate::world::lemma_comp_shape(self, b, spec_target_key(rel.id));
                    }
                    let mut origins2 = origins;
                    origins2.push(a);
                    proof {
                        let tks = spec_target_key(rel.id);
                        assert(old(self).comps(b)[tks]->Targets_0.origins == origins@);
                        assert forall|i0: int, j0: int|
                            0 <= i0 < j0 < origins2@.len() implies #[trigger] origins2@[i0] != (
                        #[trigger] origins2@[j0]) by {
                            if j0 < origins@.len() {
                                assert(old(self).comps(b)[tks]->Targets_0.origins[i0] != old(self).comps(b)[tks]->Targets_0.origins[j0]);
                                assert(origins2@[i0] == origins@[i0]);
                                assert(origins2@[j0] == origins@[j0]);
                            } else {
                                assert(origins2@[i0] == origins@[i0]);
                                assert(origins2@[j0] == a);
                                if origins@[i0] == a {
                                    assert(origins@.contains(a)) by {
                                        assert(origins@[i0] == a);
                                    }
                                }
                            }
                        }
                    }
                    self.set_key_at(
                        b,
                        tk,
                        CompValue::Targets(TargetComponent { exclusive: excl, origins: origins2 }),
                        epoch,
                    );
                    proof {
                        assert(self.comps(b)[spec_target_key(rel.id)]->Targets_0.origins.last()
                            == a);
                        lemma_frames_from_set(
                            old(self),
                            old(self),
                            self,
                            b,
                            spec_target_key(rel.id),
                            self.comps(b)[spec_target_key(rel.id)],
                            spec_origin_key(rel.id),
                            spec_target_key(rel.id),
                        );
                        lemma_frames_from_set(
                            old(self),
                            old(self),
                            self,
                            b,
                            spec_target_key(rel.id),
                            self.comps(b)[spec_target_key(rel.id)],
                            spec_target_key(rel.id),
                            spec_target_key(rel.id),
                        );
                    }
                }
            }
        }
    }

    /// Adds the relation `(entity, rel, target)` with payload `value`.
    ///
    /// For a symmetric relation the entry is mirrored on the target (stored
    /// once when origin and target coincide); otherwise the target records
    /// the origin in a target container. For an exclusive relation a previous
    /// entry is replaced, firing its set and drop hooks and cleaning the
    /// displaced pairing.
    #[verifier::rlimit(100)]
    #[verifier::spinoff_prover]
    pub fn add_relation(
        &mut self,
        entity: EntityId,
        rel: RelationDesc,
        value: u64,
        target: EntityId,
    ) -> (r: Result<(), NoSuchEntity>)
        requires
            old(self).wf(),
            old(self).spec_epoch() < u64::MAX,
            old(self).archetypes@.len() + 4 < u32::MAX as int,
        ensures
            final(self).wf(),
            r is Ok <==> old(self).spec_alive(entity) && old(self).spec_alive(target),
            r is Err ==> *final(self) == *old(self),
            r is Ok ==> {
                &&& final(self).spec_epoch() == old(self).spec_epoch() + 1
                &&& forall|e2: EntityId| final(self).spec_alive(e2) == old(self).spec_alive(e2)
                &&& ({
                    let m = final(self).comps(entity);
                    let ok = spec_origin_key(rel.id);
                    &&& m.contains_key(ok)
                    &&& m[ok] is Origins
                    &&& m[ok]->Origins_0.exclusive == rel.exclusive
                    &&& m[ok]->Origins_0.symmetric == rel.symmetric
                    &&& m[ok]->Origins_0.entries.contains(OriginEntry { target, value })
                    &&& (rel.exclusive ==> m[ok]->Origins_0.entries == seq![
                        OriginEntry { target, value },
                    ])
                })
                &&& (rel.symmetric && target != entity ==> {
                    let m = final(self).comps(target);
                    let ok = spec_origin_key(rel.id);
                    &&& m.contains_key(ok)
                    &&& m[ok] is Origins
                    &&& m[ok]->Origins_0.entries.contains(
                        OriginEntry { target: entity, value },
                    )
                })
                &&& (!rel.symmetric ==> has_target_entry(
                    final(self).comps(target),
                    rel.id,
                    entity,
                ))
                &&& plain_preserved(old(self), final(self))
                &&& (rel.symmetric ==> keys_frame_except(
                    old(self),
                    final(self),
                    entity,
                    spec_origin_key(rel.id),
                    spec_origin_key(rel.id),
                ))
                &&& (rel.symmetric && target != entity ==> keys_frame_except(
                    old(self),
                    final(self),
                    target,
                    spec_origin_key(rel.id),
                    spec_origin_key(rel.id),
                ))
                &&& (!rel.symmetric ==> keys_frame_except(
                    old(self),
                    final(self),
                    entity,
                    spec_origin_key(rel.id),
                    spec_target_key(rel.id),
                ))
                &&& (!rel.symmetric && target != entity ==> keys_frame_except(
                    old(self),
                    final(self),
                    target,
                    spec_target_key(rel.id),
                    spec_target_key(rel.id),
                ))
                &&& ({
                    let ok = spec_origin_key(rel.id);
                    let m = old(self).comps(entity);
                    rel.exclusive && m.contains_key(ok) && m[ok] is Origins
                        && m[ok]->Origins_0.entries.len() > 0 ==> {
                        let t0 = m[ok]->Origins_0.entries[0].target;
                        &&& final(self).events@.contains(
                            HookEvent::RelationSet {
                                rel: rel.id,
                                origin: entity,
                                old_target: t0,
                                new_target: target,
                            },
                        )
                        &&& final(self).events@.contains(
                            HookEvent::RelationDrop { rel: rel.id, origin: entity, target: t0 },
                        )
                    }
                })
            },
            old(self).events@.is_prefix_of(final(self).events@),
            final(self).entities.slots@.len() == old(self).entities.slots@.len(),
            final(self).archetypes@.len() <= old(self).archetypes@.len() + 4,
    {
        if !self.is_alive(entity) || !self.is_alive(target) {
            return Err(NoSuchEntity);
        }
        let epoch = self.epochs.next_mut();
        let ghost w1 = *self;
        proof {
            assert(w1.wf()) by {
                crate::world::lemma_wf_epoch_monotone(old(self), self);
            }
            lemma_epoch_only_congruence(old(self), &w1);
        }
        if rel.symmetric {
            self.add_origin_half(entity, target, rel, value, epoch);
            let ghost m1 = *self;
            if target != entity {
                self.add_origin_half(target, entity, rel, value, epoch);
            }
            proof {
                lemma_epoch_only_congruence(old(self), &w1);
                if target != entity {
                    assert(m1.spec_alive(entity));
                    assert(self.comps(entity) == m1.comps(entity));
                } else {
                    assert(keys_frame_except(
                        &m1,
                        self,
                        target,
                        spec_origin_key(rel.id),
                        spec_target_key(rel.id),
                    ));
                    assert(plain_frame_except(&m1, self, target));
                }
                lemma_add_plain_frame_compose(old(self), &w1, &m1, self, entity, target, rel);
            }
        } else {
            self.add_origin_half(entity, target, rel, value, epoch);
            let ghost m1 = *self;
            self.add_target_half(target, entity, rel, epoch);
            proof {
                lemma_epoch_only_congruence(old(self), &w1);
                let oks = spec_origin_key(rel.id);
                if target != entity {
                    assert(m1.spec_alive(entity));
                    assert(self.comps(entity) == m1.comps(entity));
                } else {
                    assert(oks != spec_target_key(rel.id));
                    assert(self.comps(entity) == m1.comps(entity).insert(
                        spec_target_key(rel.id),
                        self.comps(entity)[spec_target_key(rel.id)],
                    ));
                    assert(self.comps(entity)[oks] == m1.comps(entity)[oks]);
                }
                lemma_add_plain_frame_compose(old(self), &w1, &m1, self, entity, target, rel);
            }
        }
        Ok(())
    }

    /// Adds the relation as [`World::add_relation`] does. The encoder records
    /// nothing here: hook events are recorded on the world itself and the
    /// displaced pairing is cleaned before the call returns.
    pub fn add_relation_with_encoder(
        &mut self,
        entity: EntityId,
        rel: RelationDesc,
        value: u64,
        target: EntityId,
        encoder: &mut crate::action::ActionEncoder,
    ) -> (r: Result<(), NoSuchEntity>)
        requires
            old(self).wf(),
            old(self).spec_epoch() < u64::MAX,
            old(self).archetypes@.len() + 4 < u32::MAX as int,
        ensures
            final(self).wf(),
            *final(encoder) == *old(encoder),
            r is Ok <==> old(self).spec_alive(entity) && old(self).spec_alive(target),
            r is Err ==> *final(self) == *old(self),
            r is Ok ==> {
                &&& final(self).spec_epoch() == old(self).spec_epoch() + 1
                &&& forall|e2: EntityId| final(self).spec_alive(e2) == old(self).spec_alive(e2)
                &&& ({
                    let m = final(self).comps(entity);
                    let ok = spec_origin_key(rel.id);
                    &&& m.contains_key(ok)
                    &&& m[ok] is Origins
                    &&& m[ok]->Origins_0.exclusive == rel.exclusive
                    &&& m[ok]->Origins_0.symmetric == rel.symmetric
                    &&& m[ok]->Origins_0.entries.contains(OriginEntry { target, value })
                    &&& (rel.exclusive ==> m[ok]->Origins_0.entries == seq![
                        OriginEntry { target, value },
                    ])
                })
                &&& (rel.symmetric && target != entity ==> {
                    let m = final(self).comps(target);
                    let ok = spec_origin_key(rel.id);
                    &&& m.contains_key(ok)
                    &&& m[ok] is Origins
                    &&& m[ok]->Origins_0.entries.contains(
                        OriginEntry { target: entity, value },
                    )
                })
                &&& (!rel.symmetric ==> has_target_entry(
                    final(self).comps(target),
                    rel.id,
                    entity,
                ))
                &&& plain_preserved(old(self), final(self))
                &&& ({
                    let ok = spec_origin_key(rel.id);
                    let m = old(self).comps(entity);
                    rel.exclusive && m.contains_key(ok) && m[ok] is Origins
                        && m[ok]->Origins_0.entries.len() > 0 ==> {
                        let t0 = m[ok]->Origins_0.entries[0].target;
                        &&& final(self).events@.contains(
                            HookEvent::RelationSet {
                                rel: rel.id,
                                origin: entity,
                                old_target: t0,
                                new_target: target,
                            },
                        )
                        &&& final(self).events@.contains(
                            HookEvent::RelationDrop { rel: rel.id, origin: entity, target: t0 },
                        )
                    }
                })
            },
            old(self).events@.is_prefix_of(final(self).events@),
            final(self).entities.slots@.len() == old(self).entities.slots@.len(),
            final(self).archetypes@.len() <= old(self).archetypes@.len() + 4,
    {
        self.add_relation(entity, rel, value, target)
    }

    /// Drops the relation `(entity, rel, target)`: the entry leaves the
    /// origin container and the paired record leaves the other side, with
    /// drop hooks fired; containers left empty are removed.
    pub fn drop_relation(
        &mut self,
        entity: EntityId,
        rel: RelationDesc,
        target: EntityId,
    ) -> (r: Result<(), NoSuchEntity>)
        requires
            old(self).wf(),
            old(self).spec_epoch() < u64::MAX,
            old(self).archetypes@.len() + 2 < u32::MAX as int,
        ensures
            final(self).wf(),
            r is Ok <==> old(self).spec_alive(entity) && old(self).spec_alive(target),
            r is Err ==> *final(self) == *old(self),
            r is Ok ==> {
                &&& final(self).spec_epoch() == old(self).spec_epoch() + 1
                &&& forall|e2: EntityId| final(self).spec_alive(e2) == old(self).spec_alive(e2)
                &&& (!has_origin_entry(old(self).comps(entity), rel.id, target) ==> forall|
                    e2: EntityId,
                | old(self).spec_alive(e2) ==> final(self).comps(e2) == old(self).comps(e2))
                &&& (has_origin_entry(old(self).comps(entity), rel.id, target) ==> {
                    &&& (entity != target ==> final(self).comps(entity) == cleaned_origin_map(
                        old(self).comps(entity),
                        rel.id,
                        target,
                    ))
                    &&& (rel.symmetric && target != entity ==> final(self).comps(target)
                        == cleaned_origin_map(old(self).comps(target), rel.id, entity))
                    &&& (!rel.symmetric && target != entity ==> final(self).comps(target)
                        == cleaned_target_map(old(self).comps(target), rel.id, entity))
                    &&& (!rel.symmetric && target == entity ==> final(self).comps(entity)
                        == cleaned_target_map(
                        cleaned_origin_map(old(self).comps(entity), rel.id, target),
                        rel.id,
                        entity,
                    ))
                    &&& (rel.symmetric && target == entity ==> final(self).comps(entity)
                        == cleaned_origin_map(old(self).comps(entity), rel.id, target))
                    &&& forall|e2: EntityId|
                        e2 != entity && e2 != target && old(self).spec_alive(e2) ==> final(self).comps(e2) == old(self).comps(e2)
                })
            },
            final(self).entities.slots@.len() == old(self).entities.slots@.len(),
            final(self).archetypes@.len() <= old(self).archetypes@.len() + 2,
    {
        if !self.is_alive(entity) || !self.is_alive(target) {
            return Err(NoSuchEntity);
        }
        let epoch = self.epochs.next_mut();
        let ghost w1 = *self;
        proof {
            assert(w1.wf()) by {
                crate::world::lemma_wf_epoch_monotone(old(self), self);
            }
            lemma_epoch_only_congruence(old(self), &w1);
        }
        let found = self.clean_origin_entry(entity, target, rel.id, epoch);
        if found {
            if rel.symmetric {
                if target != entity {
                    let _ = self.clean_origin_entry(target, entity, rel.id, epoch);
                }
            } else {
                let _ = self.clean_target_entry(target, entity, rel.id, epoch);
            }
        }
        Ok(())
    }

    /// Drops the relation as [`World::drop_relation`] does; the encoder is
    /// not consulted, since the paired record is cleaned before the call
    /// returns.
    pub fn drop_relation_with_encoder(
        &mut self,
        entity: EntityId,
        rel: RelationDesc,
        target: EntityId,
        encoder: &mut crate::action::ActionEncoder,
    ) -> (r: Result<(), NoSuchEntity>)
        requires
            old(self).wf(),
            old(self).spec_epoch() < u64::MAX,
            old(self).archetypes@.len() + 2 < u32::MAX as int,
        ensures
            final(self).wf(),
            *final(encoder) == *old(encoder),
            r is Ok <==> old(self).spec_alive(entity) && old(self).spec_alive(target),
            r is Err ==> *final(self) == *old(self),
            r is Ok ==> {
                &&& final(self).spec_epoch() == old(self).spec_epoch() + 1
                &&& forall|e2: EntityId| final(self).spec_alive(e2) == old(self).spec_alive(e2)
                &&& (!has_origin_entry(old(self).comps(entity), rel.id, target) ==> forall|
                    e2: EntityId,
                | old(self).spec_alive(e2) ==> final(self).comps(e2) == old(self).comps(e2))
                &&& (has_origin_entry(old(self).comps(entity), rel.id, target) ==> {
                    &&& (entity != target ==> final(self).comps(entity) == cleaned_origin_map(
                        old(self).comps(entity),
                        rel.id,
                        target,
                    ))
                    &&& (rel.symmetric && target != entity ==> final(self).comps(target)
                        == cleaned_origin_map(old(self).comps(target), rel.id, entity))
                    &&& (!rel.symmetric && target != entity ==> final(self).comps(target)
                        == cleaned_target_map(old(self).comps(target), rel.id, entity))
                    &&& (!rel.symmetric && target == entity ==> final(self).comps(entity)
                        == cleaned_target_map(
                        cleaned_origin_map(old(self).comps(entity), rel.id, target),
                        rel.id,
                        entity,
                    ))
                    &&& (rel.symmetric && target == entity ==> final(self).comps(entity)
                        == cleaned_origin_map(old(self).comps(entity), rel.id, target))
                    &&& forall|e2: EntityId|
                        e2 != entity && e2 != target && old(self).spec_alive(e2) ==> final(self).comps(e2) == old(self).comps(e2)
                })
            },
    {
        self.drop_relation(entity, rel, target)
    }
}

/// Cleaning an origin entry changes the map only at the relation's origin
/// key.
pub proof fn lemma_cleaned_origin_frame(m: Map<u64, CompVal>, rel: u32, other: EntityId)
    ensures
        forall|k: u64|
            k != spec_origin_key(rel) ==> #[trigger] cleaned_origin_map(
                m,
                rel,
                other,
            ).contains_key(k) == m.contains_key(k),
        forall|k: u64|
            k != spec_origin_key(rel) && m.contains_key(k) ==> #[trigger] cleaned_origin_map(
                m,
                rel,
                other,
            )[k] == m[k],
{
}

/// Cleaning a target record changes the map only at the relation's target
/// key.
pub proof fn lemma_cleaned_target_frame(m: Map<u64, CompVal>, rel: u32, origin: EntityId)
    ensures
        forall|k: u64|
            k != spec_target_key(rel) ==> #[trigger] cleaned_target_map(
                m,
                rel,
                origin,
            ).contains_key(k) == m.contains_key(k),
        forall|k: u64|
            k != spec_target_key(rel) && m.contains_key(k) ==> #[trigger] cleaned_target_map(
                m,
                rel,
                origin,
            )[k] == m[k],
{
}

/// Two worlds that agree on everything but the epoch counter and the
/// registry have the same liveness and component maps.
pub proof fn lemma_epoch_only_congruence(pre: &World, w1: &World)
    requires
        w1.entities == pre.entities,
        w1.archetypes == pre.archetypes,
    ensures
        forall|e2: EntityId| w1.spec_alive(e2) == pre.spec_alive(e2),
        forall|e2: EntityId| #[trigger] w1.comps(e2) == pre.comps(e2),
{
    assert forall|e2: EntityId| #[trigger] w1.comps(e2) == pre.comps(e2) by {
        assert(w1.arch_of(e2) == pre.arch_of(e2));
    }
}

/// Chains the plain-component frames of the two halves of an `add_relation`
/// call over the initial epoch bump.
proof fn lemma_add_plain_frame_compose(
    pre: &World,
    w1: &World,
    m1: &World,
    post: &World,
    entity: EntityId,
    target: EntityId,
    rel: RelationDesc,
)
    requires
        w1.entities == pre.entities,
        w1.archetypes == pre.archetypes,
        forall|e2: EntityId| m1.spec_alive(e2) == w1.spec_alive(e2),
        keys_frame_except(w1, m1, entity, spec_origin_key(rel.id), spec_target_key(rel.id)),
        plain_frame_except(w1, m1, entity),
        keys_frame_except(m1, post, target, spec_origin_key(rel.id), spec_target_key(rel.id)),
        plain_frame_except(m1, post, target),
    ensures
        plain_preserved(pre, post),
{
    lemma_epoch_only_congruence(pre, w1);
    assert forall|e2: EntityId, k: u64|
        pre.spec_alive(e2) && crate::comp::is_plain_key(k) implies ((#[trigger] post.comps(
        e2,
    ).contains_key(k)) == pre.comps(e2).contains_key(k) && (pre.comps(e2).contains_key(k)
        ==> post.comps(e2)[k] == pre.comps(e2)[k])) by {
        assert(w1.comps(e2) == pre.comps(e2));
        assert(w1.spec_alive(e2));
        assert(k != spec_origin_key(rel.id) && k != spec_target_key(rel.id));
        assert(m1.comps(e2).contains_key(k) == w1.comps(e2).contains_key(k) && (w1.comps(
            e2,
        ).contains_key(k) ==> m1.comps(e2)[k] == w1.comps(e2)[k])) by {
            if e2 == entity {
                assert(keys_frame_except(
                    w1,
                    m1,
                    entity,
                    spec_origin_key(rel.id),
                    spec_target_key(rel.id),
                ));
            } else {
                assert(plain_frame_except(w1, m1, entity));
            }
        }
        assert(post.comps(e2).contains_key(k) == m1.comps(e2).contains_key(k) && (m1.comps(
            e2,
        ).contains_key(k) ==> post.comps(e2)[k] == m1.comps(e2)[k])) by {
            if e2 == target {
                assert(keys_frame_except(
                    m1,
                    post,
                    target,
                    spec_origin_key(rel.id),
                    spec_target_key(rel.id),
                ));
            } else {
                assert(m1.spec_alive(e2));
                assert(plain_frame_except(m1, post, target));
            }
        }
    }
}

/// A single key write at a relation key leaves both frames intact: the
/// entity keeps its other keys, and everyone else keeps every plain
/// component. `mid` is the written world's pre-state, which may differ from
/// `pre` only in recorded events or the epoch counter.
proof fn lemma_frames_from_set(
    pre: &World,
    mid: &World,
    post: &World,
    x: EntityId,
    kset: u64,
    v: CompVal,
    o1: u64,
    o2: u64,
)
    requires
        mid.entities == pre.entities,
        mid.archetypes == pre.archetypes,
        crate::world::set_key_effect(mid, x, kset, v, post),
        kset == o1 || kset == o2,
        !crate::comp::is_plain_key(kset),
    ensures
        keys_frame_except(pre, post, x, o1, o2),
        plain_frame_except(pre, post, x),
{
    lemma_epoch_only_congruence(pre, mid);
    assert(mid.comps(x) == pre.comps(x));
    assert forall|k: u64|
        k != o1 && k != o2 implies ((#[trigger] post.comps(x).contains_key(k)) == pre.comps(
        x,
    ).contains_key(k) && (pre.comps(x).contains_key(k) ==> post.comps(x)[k] == pre.comps(
        x,
    )[k])) by {
        assert(post.comps(x) == mid.comps(x).insert(kset, v));
    }
    assert forall|e2: EntityId, k: u64|
        e2 != x && pre.spec_alive(e2) && crate::comp::is_plain_key(k) implies ((
    #[trigger] post.comps(e2).contains_key(k)) == pre.comps(e2).contains_key(k) && (pre.comps(
        e2,
    ).contains_key(k) ==> post.comps(e2)[k] == pre.comps(e2)[k])) by {
        assert(mid.spec_alive(e2));
        assert(post.comps(e2) == mid.comps(e2));
        assert(mid.comps(e2) == pre.comps(e2));
    }
}

/// Plain-component preservation composes across a middle world with the same
/// liveness.
pub proof fn lemma_plain_preserved_trans(a: &World, b: &World, c: &World)
    requires
        plain_preserved(a, b),
        plain_preserved(b, c),
        forall|e2: EntityId| b.spec_alive(e2) == a.spec_alive(e2),
    ensures
        plain_preserved(a, c),
{
    assert forall|e2: EntityId, k: u64|
        a.spec_alive(e2) && crate::comp::is_plain_key(k) implies ((#[trigger] c.comps(
        e2,
    ).contains_key(k)) == a.comps(e2).contains_key(k) && (a.comps(e2).contains_key(k) ==> c.comps(
        e2,
    )[k] == a.comps(e2)[k])) by {
        assert(b.spec_alive(e2));
        assert(b.comps(e2).contains_key(k) == a.comps(e2).contains_key(k));
        assert(c.comps(e2).contains_key(k) == b.comps(e2).contains_key(k));
        if a.comps(e2).contains_key(k) {
            assert(b.comps(e2)[k] == a.comps(e2)[k]);
            assert(c.comps(e2)[k] == b.comps(e2)[k]);
        }
    }
}



/// Membership in a sequence survives extension.
pub proof fn lemma_contains_prefix(a: Seq<HookEvent>, b: Seq<HookEvent>, ev: HookEvent)
    requires
        a.contains(ev),
        a.is_prefix_of(b),
    ensures
        b.contains(ev),
{
    let i = choose|i: int| 0 <= i < a.len() && a[i] == ev;
    assert(b[i] == ev);
}

/// Removing the last origin entry targeting `other` leaves no such entry.
pub proof fn lemma_origin_cleaned(m: Map<u64, CompVal>, rel: u32, other: EntityId)
    requires
        has_origin_entry(m, rel, other) ==> comp_wf(
            spec_origin_key(rel),
            m[spec_origin_key(rel)],
        ),
    ensures
        !has_origin_entry(cleaned_origin_map(m, rel, other), rel, other),
{
    if has_origin_entry(m, rel, other) {
        let ok = spec_origin_key(rel);
        let o = m[ok]->Origins_0;
        let idx = choose|i: int| 0 <= i < o.entries.len() && (#[trigger] o.entries[i]).target == other;
        let entries2 = o.entries.remove(idx);
        o.entries.remove_ensures(idx);
        if entries2.len() > 0 {
            let m2 = cleaned_origin_map(m, rel, other);
            assert(m2[ok]->Origins_0.entries == entries2);
            if has_origin_entry(m2, rel, other) {
                let j = choose|j: int|
                    0 <= j < entries2.len() && (#[trigger] entries2[j]).target == other;
                if j < idx {
                    assert(o.entries[j].target == other);
                    assert(o.entries[j].target != o.entries[idx].target);
                } else {
                    assert(o.entries[j + 1].target == other);
                    assert(o.entries[idx].target != o.entries[j + 1].target);
                }
            }
        }
    }
}

/// Removing the last target record of `origin` leaves no such record.
pub proof fn lemma_target_record_cleaned(m: Map<u64, CompVal>, rel: u32, origin: EntityId)
    requires
        has_target_entry(m, rel, origin) ==> comp_wf(
            spec_target_key(rel),
            m[spec_target_key(rel)],
        ),
    ensures
        !has_target_entry(cleaned_target_map(m, rel, origin), rel, origin),
{
    if has_target_entry(m, rel, origin) {
        crate::laws::lemma_target_cleaned(m, rel, origin);
    }
}

/// Cleaning an origin entry never adds a record anywhere: every origin entry
/// or target record of the cleaned map was already in the original.
pub proof fn lemma_cleaned_origin_mono(m: Map<u64, CompVal>, rel2: u32, other2: EntityId)
    requires
        has_origin_entry(m, rel2, other2) ==> comp_wf(
            spec_origin_key(rel2),
            m[spec_origin_key(rel2)],
        ),
    ensures
        forall|rel: u32, t: EntityId|
            #![trigger has_origin_entry(cleaned_origin_map(m, rel2, other2), rel, t)]
            has_origin_entry(cleaned_origin_map(m, rel2, other2), rel, t) ==> has_origin_entry(
                m,
                rel,
                t,
            ),
        forall|rel: u32, o2: EntityId|
            #![trigger has_target_entry(cleaned_origin_map(m, rel2, other2), rel, o2)]
            has_target_entry(cleaned_origin_map(m, rel2, other2), rel, o2) ==> has_target_entry(
                m,
                rel,
                o2,
            ),
{
    let m2 = cleaned_origin_map(m, rel2, other2);
    lemma_cleaned_origin_frame(m, rel2, other2);
    assert forall|rel: u32, t: EntityId|
        has_origin_entry(m2, rel, t) implies has_origin_entry(m, rel, t) by {
        let ok = spec_origin_key(rel);
        if rel == rel2 && has_origin_entry(m, rel2, other2) {
            let o = m[ok]->Origins_0;
            let idx = choose|i: int|
                0 <= i < o.entries.len() && (#[trigger] o.entries[i]).target == other2;
            let entries2 = o.entries.remove(idx);
            o.entries.remove_ensures(idx);
            if entries2.len() == 0 {
                assert(!m2.contains_key(ok));
            } else {
                assert(m2[ok]->Origins_0.entries == entries2);
                let j = choose|j: int|
                    0 <= j < entries2.len() && (#[trigger] entries2[j]).target == t;
                if j < idx {
                    assert(o.entries[j].target == t);
                } else {
                    assert(o.entries[j + 1].target == t);
                }
            }
        } else {
            assert(m2.contains_key(ok) == m.contains_key(ok) && (m.contains_key(ok) ==> m2[ok]
                == m[ok])) by {
                if rel == rel2 {
                    assert(!has_origin_entry(m, rel2, other2));
                    assert(m2 == m);
                }
            }
        }
    }
    assert forall|rel: u32, o2: EntityId|
        has_target_entry(m2, rel, o2) implies has_target_entry(m, rel, o2) by {
        let tk = spec_target_key(rel);
        assert(tk != spec_origin_key(rel2));
        assert(m2.contains_key(tk) == m.contains_key(tk) && (m.contains_key(tk) ==> m2[tk]
            == m[tk]));
    }
}

/// At the cleaned relation itself, every surviving target record was already
/// present.
proof fn lemma_cleaned_target_subset(m: Map<u64, CompVal>, rel: u32, origin: EntityId)
    requires
        has_target_entry(m, rel, origin) ==> comp_wf(
            spec_target_key(rel),
            m[spec_target_key(rel)],
        ),
    ensures
        forall|o2: EntityId|
            #![trigger has_target_entry(cleaned_target_map(m, rel, origin), rel, o2)]
            has_target_entry(cleaned_target_map(m, rel, origin), rel, o2) ==> has_target_entry(
                m,
                rel,
                o2,
            ),
{
    let tk = spec_target_key(rel);
    let m2 = cleaned_target_map(m, rel, origin);
    if has_target_entry(m, rel, origin) {
        let t = m[tk]->Targets_0;
        let idx = choose|i: int| 0 <= i < t.origins.len() && t.origins[i] == origin;
        let origins2 = t.origins.remove(idx);
        t.origins.remove_ensures(idx);
        assert forall|o2: EntityId|
            has_target_entry(m2, rel, o2) implies has_target_entry(m, rel, o2) by {
            if origins2.len() > 0 {
                assert(m2[tk]->Targets_0.origins == origins2);
                let j = choose|j: int| 0 <= j < origins2.len() && origins2[j] == o2;
                if j < idx {
                    assert(t.origins[j] == o2);
                } else {
                    assert(t.origins[j + 1] == o2);
                }
            }
        }
    } else {
        assert(m2 == m);
    }
}

/// Cleaning a target record never adds a record anywhere.
pub proof fn lemma_cleaned_target_mono(m: Map<u64, CompVal>, rel2: u32, origin2: EntityId)
    requires
        has_target_entry(m, rel2, origin2) ==> comp_wf(
            spec_target_key(rel2),
            m[spec_target_key(rel2)],
        ),
    ensures
        forall|rel: u32, t: EntityId|
            #![trigger has_origin_entry(cleaned_target_map(m, rel2, origin2), rel, t)]
            has_origin_entry(cleaned_target_map(m, rel2, origin2), rel, t) ==> has_origin_entry(
                m,
                rel,
                t,
            ),
        forall|rel: u32, o2: EntityId|
            #![trigger has_target_entry(cleaned_target_map(m, rel2, origin2), rel, o2)]
            has_target_entry(cleaned_target_map(m, rel2, origin2), rel, o2) ==> has_target_entry(
                m,
                rel,
                o2,
            ),
{
    let m2 = cleaned_target_map(m, rel2, origin2);
    lemma_cleaned_target_frame(m, rel2, origin2);
    assert forall|rel: u32, t: EntityId|
        has_origin_entry(m2, rel, t) implies has_origin_entry(m, rel, t) by {
        let ok = spec_origin_key(rel);
        assert(ok != spec_target_key(rel2));
        assert(m2.contains_key(ok) == m.contains_key(ok) && (m.contains_key(ok) ==> m2[ok]
            == m[ok]));
    }
    assert forall|rel: u32, o2: EntityId|
        has_target_entry(m2, rel, o2) implies has_target_entry(m, rel, o2) by {
        let tk = spec_target_key(rel);
        if rel == rel2 && has_target_entry(m, rel2, origin2) {
            lemma_cleaned_target_subset(m, rel2, origin2);
        } else {
            assert(m2.contains_key(tk) == m.contains_key(tk) && (m.contains_key(tk) ==> m2[tk]
                == m[tk])) by {
                if rel == rel2 {
                    assert(!has_target_entry(m, rel2, origin2));
                    assert(m2 == m);
                }
            }
        }
    }
}

} // verus!
