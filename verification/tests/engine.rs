//! End-to-end checks of the engine through its public surface.

use ecs_core::action::{ActionBuffer, HookEvent};
use ecs_core::bundle::{bundle_valid, sort_bundle};
use ecs_core::comp::{origin_key, plain_key, target_key};
use ecs_core::query::{QueryItem, QueryKind};
use ecs_core::action::ActionBufferSliceExt;
use ecs_core::relation::{Relation, RelationDesc, RelationOrigin, RelationTarget};
use ecs_core::view::ViewValueIter;
use ecs_core::world::{EntityError, NoSuchEntity, QueryOneError};
use ecs_core::{EntityId, EpochCounter, EpochId, World, WorldBuilder};

const FOO: u32 = 1;
const BAR: u32 = 2;
const BAZ: u32 = 3;
const VAL: u32 = 7;

fn rel_plain(id: u32) -> RelationDesc {
    RelationDesc { id, exclusive: false, symmetric: false }
}

#[test]
fn epoch_counter_basics() {
    let mut c = EpochCounter::new();
    assert_eq!(c.current().value, 0);
    let e1 = c.next_mut();
    assert_eq!(e1.value, 1);
    assert_eq!(c.current_mut().value, 1);
    let start = EpochId::start();
    assert!(start.before(e1));
    assert!(e1.after(start));
    let mut x = EpochId::start();
    x.update(e1);
    assert_eq!(x.value, 1);
    let mut y = EpochId::start();
    y.bump(e1);
    assert_eq!(y.value, 1);
    y.bump_again(e1);
    assert_eq!(y.value, 1);
    let mut cell = EpochId::start();
    EpochId::bump_cell(&mut cell, e1);
    assert_eq!(cell.value, 1);
}

#[test]
fn bundle_helpers() {
    assert!(bundle_valid(&vec![(3, 30), (1, 10), (2, 20)]));
    assert!(!bundle_valid(&vec![(3, 30), (3, 31)]));
    let sorted = sort_bundle(&vec![(3, 30), (1, 10), (2, 20)]);
    assert_eq!(sorted, vec![(1, 10), (2, 20), (3, 30)]);
}

#[test]
fn spawn_and_read() {
    let mut w = World::new();
    let e = w.spawn(&vec![(FOO, 11), (BAR, 22), (BAZ, 33)]);
    assert!(w.is_alive(e));
    assert_eq!(w.get(e, FOO), Ok(11));
    assert_eq!(w.get(e, BAR), Ok(22));
    assert_eq!(w.get(e, BAZ), Ok(33));
    match w.query_one(e, &QueryKind::Read(FOO)) {
        Ok(QueryItem::Val(v)) => assert_eq!(v, 11),
        other => panic!("unexpected item: {:?}", other),
    }
    let items = w.make_query(QueryKind::Read(FOO), QueryKind::With(BAR)).iter(&w);
    assert_eq!(items.len(), 1);
    assert_eq!(items[0].0, e);
    assert_eq!(items[0].1, QueryItem::Val(11));
}

#[test]
fn structural_move_preserves_values() {
    let mut w = World::new();
    let e = w.spawn(&vec![(FOO, 5)]);
    let lone = w.query(QueryKind::Read(FOO)).iter(&w).len();
    assert_eq!(lone, 1);
    w.insert(e, BAR, 6).unwrap();
    assert_eq!(w.get(e, FOO), Ok(5));
    assert_eq!(w.get(e, BAR), Ok(6));
    assert_eq!(w.has_component(e, BAR), Ok(true));
    let both = w.make_query(QueryKind::Read(FOO), QueryKind::With(BAR)).iter(&w);
    assert_eq!(both.len(), 1);
    let only_foo = w
        .make_query(QueryKind::Read(FOO), QueryKind::Without(BAR))
        .iter(&w);
    assert_eq!(only_foo.len(), 0);
}

#[test]
fn insert_replaces_value() {
    let mut w = World::new();
    let e = w.spawn(&vec![(FOO, 1)]);
    w.insert(e, FOO, 2).unwrap();
    assert_eq!(w.get(e, FOO), Ok(2));
    w.insert(e, FOO, 2).unwrap();
    assert_eq!(w.get(e, FOO), Ok(2));
}

#[test]
fn remove_and_drop() {
    let mut w = World::new();
    let e = w.spawn(&vec![(FOO, 9), (BAR, 8)]);
    assert_eq!(w.remove(e, FOO), Ok(9));
    assert_eq!(w.get(e, FOO), Err(EntityError::MissingComponents));
    assert_eq!(w.remove(e, FOO), Err(EntityError::MissingComponents));
    assert_eq!(w.drop(e, BAR), Ok(()));
    assert_eq!(w.has_component(e, BAR), Ok(false));
    let dead = EntityId::new(100, 0);
    assert_eq!(w.remove(dead, FOO), Err(EntityError::NoSuchEntity));
}

#[test]
fn despawn_frees_and_reuses_slot() {
    let mut w = World::new();
    let e1 = w.spawn(&vec![(FOO, 1)]);
    let e2 = w.spawn(&vec![(FOO, 2)]);
    assert_eq!(w.despawn(e1), Ok(()));
    assert!(!w.is_alive(e1));
    assert_eq!(w.despawn(e1), Err(NoSuchEntity));
    assert_eq!(w.get(e1, FOO), Err(EntityError::NoSuchEntity));
    // the slot comes back with a fresh generation; the stale handle stays dead
    let e3 = w.spawn(&vec![(FOO, 3)]);
    assert_eq!(e3.idx, e1.idx);
    assert_ne!(e3.gen_id, e1.gen_id);
    assert!(w.is_alive(e3));
    assert!(!w.is_alive(e1));
    assert!(w.is_alive(e2));
    assert_eq!(w.get(e2, FOO), Ok(2));
    // only one handle of the slot resolves
    assert_eq!(w.find_entity(e3.idx), Ok(e3));
}

#[test]
fn change_detection_window() {
    let mut w = World::new();
    let mut ids = Vec::new();
    for i in 0..10u64 {
        ids.push(w.spawn(&vec![(VAL, i)]));
    }
    let after = w.epoch();
    let q = QueryKind::Modified { comp: VAL, after };
    let hits = w.query(q).iter(&w);
    assert_eq!(hits.len(), 0);
    w.insert(ids[2], VAL, 200).unwrap();
    w.insert(ids[5], VAL, 500).unwrap();
    let hits = w.query(q).iter(&w);
    assert_eq!(hits.len(), 2);
    assert_eq!(hits[0].0, ids[2]);
    assert_eq!(hits[0].1, QueryItem::Val(200));
    assert_eq!(hits[1].0, ids[5]);
    assert_eq!(hits[1].1, QueryItem::Val(500));
    // a write query stamps what it yields, so a later window sees it
    let after2 = w.epoch();
    let wq = QueryKind::Write(VAL);
    let written = w.query_mut(wq).iter_mut(&mut w);
    assert_eq!(written.len(), 10);
    let q2 = QueryKind::Modified { comp: VAL, after: after2 };
    let hits2 = w.query(q2).iter(&w);
    assert_eq!(hits2.len(), 10);
}

#[test]
fn lazy_write_bumps_only_on_write() {
    let mut w = World::new();
    let e = w.spawn(&vec![(VAL, 1)]);
    let after = w.epoch();
    // reading through the wrapper leaves every epoch untouched
    let token = match w.query_one(e, &QueryKind::Alt(VAL)) {
        Ok(QueryItem::Alt(t)) => t,
        other => panic!("unexpected item: {:?}", other),
    };
    assert_eq!(token.read(&w), 1);
    let q = QueryKind::Modified { comp: VAL, after };
    assert_eq!(w.query(q).iter(&w).len(), 0);
    // a wrapper from a mutable single-entity query can write, which stamps
    let token = match w.query_one_mut(e, &QueryKind::Alt(VAL)) {
        Ok(QueryItem::Alt(t)) => t,
        other => panic!("unexpected item: {:?}", other),
    };
    assert_eq!(w.query(q).iter(&w).len(), 0);
    token.write(&mut w, 42);
    assert_eq!(w.get(e, VAL), Ok(42));
    assert_eq!(w.query(q).iter(&w).len(), 1);
}

#[test]
fn query_one_not_satisfied() {
    let mut w = World::new();
    let e = w.spawn(&vec![(FOO, 1)]);
    match w.query_one(e, &QueryKind::Read(BAR)) {
        Err(QueryOneError::NotSatisfied) => {}
        other => panic!("unexpected result: {:?}", other),
    }
    let dead = EntityId::new(55, 0);
    match w.query_one(dead, &QueryKind::Read(BAR)) {
        Err(QueryOneError::NoSuchEntity) => {}
        other => panic!("unexpected result: {:?}", other),
    }
    match w.query_one(e, &QueryKind::OptRead(BAR)) {
        Ok(QueryItem::Missing) => {}
        other => panic!("unexpected result: {:?}", other),
    }
}

#[test]
fn relation_dual_records_origin() {
    let mut w = World::new();
    let r = rel_plain(1);
    let a = w.spawn(&vec![(FOO, 1)]);
    let b = w.spawn(&vec![(FOO, 2)]);
    w.add_relation(a, r, 77, b).unwrap();
    let (excl, sym, entries) = w.read_origins(a, r.id).unwrap();
    assert!(!excl && !sym);
    assert_eq!(entries.len(), 1);
    assert_eq!(entries[0].target, b);
    assert_eq!(entries[0].value, 77);
    let (_, origins) = w.read_targets(b, r.id).unwrap();
    assert_eq!(origins, vec![a]);
    // dropping the relation removes both sides, emptying both containers
    w.drop_relation(a, r, b).unwrap();
    assert!(w.read_origins(a, r.id).is_none());
    assert!(w.read_targets(b, r.id).is_none());
    assert!(w
        .events
        .contains(&HookEvent::RelationDrop { rel: r.id, origin: a, target: b }));
    assert!(w
        .events
        .contains(&HookEvent::RelationTargetDrop { rel: r.id, origin: a, target: b }));
}

#[test]
fn relation_cascade_on_despawn() {
    let mut w = World::new();
    let r = rel_plain(4);
    let a = w.spawn(&vec![(FOO, 1)]);
    let b = w.spawn(&vec![(FOO, 2)]);
    let c = w.spawn(&vec![(FOO, 3)]);
    w.add_relation(a, r, 10, b).unwrap();
    w.add_relation(c, r, 20, b).unwrap();
    w.despawn(b).unwrap();
    assert!(!w.is_alive(b));
    assert!(w.read_origins(a, r.id).is_none());
    assert!(w.read_origins(c, r.id).is_none());
    // the target-drop hook fired once per origin, with target b
    let drops: Vec<&HookEvent> = w
        .events
        .iter()
        .filter(|ev| {
            matches!(ev, HookEvent::RelationTargetDrop { rel, target, .. } if *rel == r.id && *target == b)
        })
        .collect();
    assert_eq!(drops.len(), 2);
    let mut origins: Vec<EntityId> = drops
        .iter()
        .map(|ev| match ev {
            HookEvent::RelationTargetDrop { origin, .. } => *origin,
            _ => unreachable!(),
        })
        .collect();
    origins.sort_by_key(|e| e.idx);
    assert_eq!(origins, vec![a, c]);
    // plain components elsewhere survive the cascade
    assert_eq!(w.get(a, FOO), Ok(1));
    assert_eq!(w.get(c, FOO), Ok(3));
}

#[test]
fn exclusive_relation_replacement() {
    let mut w = World::new();
    let r = RelationDesc { id: 5, exclusive: true, symmetric: false };
    let a = w.spawn(&vec![]);
    let b = w.spawn(&vec![]);
    let c = w.spawn(&vec![]);
    w.add_relation(a, r, 1, b).unwrap();
    w.add_relation(a, r, 2, c).unwrap();
    let (excl, _, entries) = w.read_origins(a, r.id).unwrap();
    assert!(excl);
    assert_eq!(entries.len(), 1);
    assert_eq!(entries[0].target, c);
    assert_eq!(entries[0].value, 2);
    // the set hook fired once for the replacement, then the drop hook
    let sets: Vec<&HookEvent> = w
        .events
        .iter()
        .filter(|ev| matches!(ev, HookEvent::RelationSet { .. }))
        .collect();
    assert_eq!(sets.len(), 1);
    assert_eq!(
        *sets[0],
        HookEvent::RelationSet { rel: r.id, origin: a, old_target: b, new_target: c }
    );
    assert!(w
        .events
        .contains(&HookEvent::RelationDrop { rel: r.id, origin: a, target: b }));
    // the displaced pairing was cleaned from the old target
    assert!(w.read_targets(b, r.id).is_none());
    let (_, origins) = w.read_targets(c, r.id).unwrap();
    assert_eq!(origins, vec![a]);
}

#[test]
fn symmetric_relation_two_sided() {
    let mut w = World::new();
    let r = RelationDesc { id: 6, exclusive: false, symmetric: true };
    let a = w.spawn(&vec![]);
    let b = w.spawn(&vec![]);
    w.add_relation(a, r, 9, b).unwrap();
    let (_, sym, ea) = w.read_origins(a, r.id).unwrap();
    assert!(sym);
    assert_eq!(ea[0].target, b);
    let (_, _, eb) = w.read_origins(b, r.id).unwrap();
    assert_eq!(eb[0].target, a);
    // despawning one side cleans the other
    w.despawn(a).unwrap();
    assert!(w.read_origins(b, r.id).is_none());
}

#[test]
fn encoder_defers_removal() {
    let mut w = World::new();
    let e = w.spawn(&vec![(FOO, 1), (BAR, 2)]);
    let mut buffer = ActionBuffer::new();
    let mut enc = buffer.encoder();
    enc.remove_component(e, plain_key(FOO));
    buffer.absorb(enc);
    // nothing observed the removal yet
    assert_eq!(w.get(e, FOO), Ok(1));
    let ran = buffer.execute(&mut w);
    assert!(ran);
    assert_eq!(w.get(e, FOO), Err(EntityError::MissingComponents));
    assert_eq!(w.get(e, BAR), Ok(2));
    // an empty buffer does nothing
    let ran = buffer.execute(&mut w);
    assert!(!ran);
}

#[test]
fn drop_erased_runs_relation_hooks() {
    let mut w = World::new();
    let r = rel_plain(8);
    let a = w.spawn(&vec![]);
    let b = w.spawn(&vec![]);
    w.add_relation(a, r, 3, b).unwrap();
    w.drop_erased(a, origin_key(r.id)).unwrap();
    assert!(w.read_origins(a, r.id).is_none());
    assert!(w.read_targets(b, r.id).is_none());
    assert_eq!(
        w.drop_erased(a, target_key(r.id)),
        Err(EntityError::MissingComponents)
    );
}

#[test]
fn bundles_and_batches() {
    let mut w = World::new();
    let e = w.spawn(&vec![(FOO, 1)]);
    w.insert_bundle(e, &vec![(BAR, 2), (BAZ, 3)]).unwrap();
    assert_eq!(w.get(e, BAR), Ok(2));
    assert_eq!(w.get(e, BAZ), Ok(3));
    assert_eq!(w.get(e, FOO), Ok(1));
    w.drop_bundle(e, &vec![BAR, VAL]).unwrap();
    assert_eq!(w.has_component(e, BAR), Ok(false));
    assert_eq!(w.get(e, BAZ), Ok(3));
    let mut batch = w.spawn_batch(vec![vec![(FOO, 10)], vec![(FOO, 20)], vec![(FOO, 30)]]);
    let first = batch.next(&mut w).unwrap();
    assert_eq!(w.get(first, FOO), Ok(10));
    batch.spawn_all(&mut w);
    let all = w.query(QueryKind::Read(FOO)).iter(&w);
    assert_eq!(all.len(), 4);
}

#[test]
fn builder_registers_components() {
    let mut b = World::builder();
    b.register_component(FOO);
    b.register_external(BAR);
    b.register_raw(ecs_core::component::ComponentInfo { id: BAZ });
    let mut w = b.build();
    let e = w.spawn_external(&vec![(FOO, 1), (BAR, 2), (BAZ, 3)]);
    assert_eq!(w.get(e, FOO), Ok(1));
    w.insert_external(e, BAR, 9).unwrap();
    assert_eq!(w.get(e, BAR), Ok(9));
    w.insert_external_bundle(e, &vec![(BAZ, 5)]).unwrap();
    assert_eq!(w.get(e, BAZ), Ok(5));
    let b2 = WorldBuilder::new();
    let _empty = b2.build();
}

#[test]
fn view_cursor_and_filters() {
    let mut w = World::new();
    let e1 = w.spawn(&vec![(FOO, 1), (BAR, 10)]);
    let _e2 = w.spawn(&vec![(FOO, 2)]);
    let items = w
        .make_query(QueryKind::Copied(FOO), QueryKind::Unit)
        .iter(&w);
    assert_eq!(items.len(), 2);
    let mut cursor = ViewValueIter::new(items);
    let first = cursor.next_item().unwrap();
    assert_eq!(first.1, QueryItem::Val(1));
    let second = cursor.next_item().unwrap();
    assert_eq!(second.1, QueryItem::Val(2));
    assert!(cursor.next_item().is_none());
    // relation filter keeps only targets
    let r = rel_plain(9);
    w.add_relation(e1, r, 0, _e2).unwrap();
    let targets = w
        .make_query(QueryKind::Unit, QueryKind::Related(r.id))
        .iter(&w);
    assert_eq!(targets.len(), 1);
    assert_eq!(targets[0].0, _e2);
    // exclusive relation query yields payload and target
    let rx = RelationDesc { id: 11, exclusive: true, symmetric: false };
    w.add_relation(e1, rx, 123, _e2).unwrap();
    let rels = w
        .query(ecs_core::query::RelatesExclusive::query(rx.id))
        .iter(&w);
    assert_eq!(rels.len(), 1);
    assert_eq!(rels[0].1, QueryItem::Rel(123, _e2));
}

#[test]
fn query_constructor_helpers() {
    assert_eq!(ecs_core::query::read(FOO), QueryKind::Read(FOO));
    assert_eq!(ecs_core::query::copied(FOO), QueryKind::Copied(FOO));
    assert_eq!(ecs_core::query::related(4), QueryKind::Related(4));
    assert_eq!(ecs_core::query::Alt::query(FOO), QueryKind::Alt(FOO));
    assert_eq!(ecs_core::query::Copied::query(FOO), QueryKind::Copied(FOO));
    assert_eq!(ecs_core::query::FilterRelated::query(4), QueryKind::Related(4));
    assert_eq!(
        ecs_core::query::RelatesExclusive::query_mut(4),
        QueryKind::RelatesExclusiveWrite(4)
    );
    let mut w = World::new();
    let _ = w.build_query();
    let _ = w.build_query_mut();
}

#[test]
fn chunk_boundaries_in_change_detection() {
    // spawn three chunks' worth of entities, then touch one in each chunk
    let mut w = World::new();
    let mut ids = Vec::new();
    for i in 0..600u64 {
        ids.push(w.spawn(&vec![(VAL, i)]));
    }
    let after = w.epoch();
    let q = QueryKind::Modified { comp: VAL, after };
    assert_eq!(w.query(q).iter(&w).len(), 0);
    w.insert(ids[10], VAL, 1).unwrap();
    w.insert(ids[300], VAL, 2).unwrap();
    w.insert(ids[599], VAL, 3).unwrap();
    let hits = w.query(q).iter(&w);
    assert_eq!(hits.len(), 3);
    assert_eq!(hits[0].0, ids[10]);
    assert_eq!(hits[1].0, ids[300]);
    assert_eq!(hits[2].0, ids[599]);
}

#[test]
fn despawn_moves_last_row_into_place() {
    let mut w = World::new();
    let a = w.spawn(&vec![(FOO, 1)]);
    let b = w.spawn(&vec![(FOO, 2)]);
    let c = w.spawn(&vec![(FOO, 3)]);
    w.despawn(a).unwrap();
    // the swapped-in entity still resolves to its value
    assert_eq!(w.get(c, FOO), Ok(3));
    assert_eq!(w.get(b, FOO), Ok(2));
    let left = w.query(QueryKind::Read(FOO)).iter(&w);
    assert_eq!(left.len(), 2);
}

#[test]
fn symmetric_self_relation_stored_once() {
    let mut w = World::new();
    let r = RelationDesc { id: 12, exclusive: false, symmetric: true };
    let a = w.spawn(&vec![]);
    w.add_relation(a, r, 5, a).unwrap();
    let (_, _, entries) = w.read_origins(a, r.id).unwrap();
    assert_eq!(entries.len(), 1);
    assert_eq!(entries[0].target, a);
    w.drop_relation(a, r, a).unwrap();
    assert!(w.read_origins(a, r.id).is_none());
}

#[test]
fn relation_readd_updates_value() {
    let mut w = World::new();
    let r = rel_plain(13);
    let a = w.spawn(&vec![]);
    let b = w.spawn(&vec![]);
    w.add_relation(a, r, 1, b).unwrap();
    w.add_relation(a, r, 2, b).unwrap();
    let (_, _, entries) = w.read_origins(a, r.id).unwrap();
    assert_eq!(entries.len(), 1);
    assert_eq!(entries[0].value, 2);
    let (_, origins) = w.read_targets(b, r.id).unwrap();
    assert_eq!(origins, vec![a]);
}

#[test]
fn write_query_reports_values_before_stamping() {
    let mut w = World::new();
    let e = w.spawn(&vec![(VAL, 41)]);
    let before = w.epoch();
    let items = w.query_mut(QueryKind::Write(VAL)).iter_mut(&mut w);
    assert_eq!(items, vec![(e, QueryItem::Val(41))]);
    // the write stamped the row, so the old window now sees it
    let q = QueryKind::Modified { comp: VAL, after: before };
    assert_eq!(w.query(q).iter(&w).len(), 1);
}

#[test]
fn buffers_execute_in_order() {
    let mut w = World::new();
    let e = w.spawn(&vec![(FOO, 1), (BAR, 2)]);
    let mut b1 = ActionBuffer::new();
    let mut enc = b1.encoder();
    enc.remove_component(e, plain_key(FOO));
    b1.absorb(enc);
    let mut b2 = ActionBuffer::new();
    let mut enc = b2.encoder();
    enc.remove_component(e, plain_key(BAR));
    b2.absorb(enc);
    let mut buffers = vec![b1, b2];
    let ran = buffers.execute_all(&mut w);
    assert!(ran);
    assert_eq!(w.has_component(e, FOO), Ok(false));
    assert_eq!(w.has_component(e, BAR), Ok(false));
    assert!(w.is_alive(e));
}

#[test]
fn find_entity_misses() {
    let mut w = World::new();
    assert_eq!(w.find_entity(0), Err(NoSuchEntity));
    let e = w.spawn(&vec![]);
    assert_eq!(w.find_entity(e.idx), Ok(e));
    w.despawn(e).unwrap();
    assert_eq!(w.find_entity(e.idx), Err(NoSuchEntity));
}

#[test]
fn relation_traits_expose_sides() {
    let r = RelationDesc { id: 3, exclusive: true, symmetric: false };
    assert_eq!(Relation::id(&r), 3);
    assert!(Relation::exclusive(&r));
    assert!(!Relation::symmetric(&r));
    assert_eq!(Relation::desc(&r), r);
    let mut w = World::new();
    let a = w.spawn(&vec![]);
    let b = w.spawn(&vec![]);
    w.add_relation(a, r, 1, b).unwrap();
    match w.get_comp(a, origin_key(r.id)) {
        Some(ecs_core::comp::CompValue::Origins(o)) => {
            assert_eq!(RelationOrigin::targets(o), vec![b]);
            assert_eq!(o.origins()[0].target, b);
        }
        other => panic!("unexpected component: {:?}", other.is_some()),
    }
    match w.get_comp(b, target_key(r.id)) {
        Some(ecs_core::comp::CompValue::Targets(t)) => {
            assert_eq!(RelationTarget::origins(t), vec![a]);
        }
        other => panic!("unexpected component: {:?}", other.is_some()),
    }
}

#[test]
fn despawning_origin_cleans_target_records() {
    let mut w = World::new();
    let r = rel_plain(14);
    let a = w.spawn(&vec![]);
    let b = w.spawn(&vec![]);
    let c = w.spawn(&vec![]);
    w.add_relation(a, r, 1, c).unwrap();
    w.add_relation(b, r, 2, c).unwrap();
    let (_, origins) = w.read_targets(c, r.id).unwrap();
    assert_eq!(origins.len(), 2);
    w.despawn(a).unwrap();
    let (_, origins) = w.read_targets(c, r.id).unwrap();
    assert_eq!(origins, vec![b]);
    w.despawn(b).unwrap();
    // the emptied target container leaves the entity
    assert!(w.read_targets(c, r.id).is_none());
}

#[test]
fn drop_relation_without_entry_changes_nothing() {
    let mut w = World::new();
    let r = rel_plain(15);
    let a = w.spawn(&vec![(FOO, 1)]);
    let b = w.spawn(&vec![(FOO, 2)]);
    w.drop_relation(a, r, b).unwrap();
    assert_eq!(w.get(a, FOO), Ok(1));
    assert!(w.read_origins(a, r.id).is_none());
    let dead = EntityId::new(77, 3);
    assert_eq!(w.drop_relation(a, r, dead), Err(NoSuchEntity));
}

#[test]
fn external_batch_spawns_registered_components() {
    let mut b = World::builder();
    b.register_component(FOO);
    let mut w = b.build();
    let batch = w.spawn_batch_external(vec![vec![(FOO, 1)], vec![(FOO, 2)]]);
    batch.spawn_all(&mut w);
    assert_eq!(w.query(QueryKind::Read(FOO)).iter(&w).len(), 2);
    assert!(w.get_comp(EntityId::new(0, 0), plain_key(BAR)).is_none());
}

#[test]
fn batch_rows_share_one_epoch() {
    let mut w = World::new();
    let before = w.epoch();
    let mut batch = w.spawn_batch(vec![vec![(VAL, 1)], vec![(VAL, 2)]]);
    let after_creation = w.epoch();
    assert_eq!(after_creation, before + 1);
    let _a = batch.next(&mut w).unwrap();
    // spawning from the batch does not move the clock further
    assert_eq!(w.epoch(), after_creation);
    batch.spawn_all(&mut w);
    assert_eq!(w.epoch(), after_creation);
    // every batch row carries the creation epoch: a window just before it
    // sees them all, a window at it sees none
    let q_old = QueryKind::Modified { comp: VAL, after: before };
    assert_eq!(w.query(q_old).iter(&w).len(), 2);
    let q_at = QueryKind::Modified { comp: VAL, after: after_creation };
    assert_eq!(w.query(q_at).iter(&w).len(), 0);
}
