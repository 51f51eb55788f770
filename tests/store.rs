use ecs_store::dispatch::partition;
use ecs_store::world::{Entity, Position, World};

const POS: u64 = 0;
const VEL: u64 = 1;

fn origin() -> Position {
    Position { x: 0, y: 0, z: 0 }
}

#[test]
fn created_entities_are_distinct_and_in_order() {
    let mut w: World<Position> = World::new();
    let mut made = Vec::new();
    for _ in 0..20 {
        made.push(w.create_entity());
    }
    for i in 0..made.len() {
        for j in 0..made.len() {
            if i != j {
                assert_ne!(made[i], made[j]);
            }
        }
    }
    assert_eq!(w.all(), &made);
    assert_eq!(made[0], Entity(0));
    assert_eq!(made[19], Entity(19));
}

#[test]
fn read_after_write() {
    let mut w: World<Position> = World::new();
    let e = w.create_entity();
    let v = Position { x: 3, y: 4, z: 5 };
    w.add_component(e, POS, v);
    assert_eq!(w.component_mut(POS, &e).copied(), Some(v));
    w.component_mut(POS, &e).unwrap().y = 40;
    assert_eq!(w.component_mut(POS, &e).copied(), Some(Position { x: 3, y: 40, z: 5 }));
}

#[test]
fn insert_overwrites() {
    let mut w: World<Position> = World::new();
    let e = w.create_entity();
    w.add_component(e, POS, origin());
    w.add_component(e, POS, Position { x: 1, y: 2, z: 3 });
    assert_eq!(w.component_mut(POS, &e).copied(), Some(Position { x: 1, y: 2, z: 3 }));
    assert_eq!(w.components(POS, &[e]).len(), 1);
}

#[test]
fn missing_component_is_absent() {
    let mut w: World<Position> = World::new();
    let e = w.create_entity();
    let f = w.create_entity();
    assert!(w.component_mut(POS, &e).is_none());
    w.add_component(f, POS, origin());
    assert!(w.component_mut(POS, &e).is_none());
    assert!(w.component_mut(POS, &Entity(999)).is_none());
}

#[test]
fn types_with_same_layout_stay_apart() {
    let mut w: World<Position> = World::new();
    let e = w.create_entity();
    w.add_component(e, VEL, Position { x: 7, y: 7, z: 7 });
    assert!(w.component_mut(POS, &e).is_none());
    w.add_component(e, POS, origin());
    w.add_component(e, VEL, Position { x: 8, y: 8, z: 8 });
    assert_eq!(w.component_mut(POS, &e).copied(), Some(origin()));
    assert_eq!(w.component_mut(VEL, &e).copied(), Some(Position { x: 8, y: 8, z: 8 }));
}

#[test]
fn components_keep_order_and_skip_missing() {
    let mut w: World<u32> = World::new();
    let es: Vec<Entity> = (0..5).map(|_| w.create_entity()).collect();
    w.add_component(es[0], POS, 10);
    w.add_component(es[2], POS, 12);
    w.add_component(es[3], POS, 13);
    w.add_component(es[1], VEL, 99);
    let order = [es[3], es[1], es[0], es[4], es[2]];
    assert_eq!(w.components(POS, &order), vec![13, 10, 12]);
    assert_eq!(w.components(VEL, &order), vec![99]);
    assert_eq!(w.components(7, &order), Vec::<u32>::new());
    assert_eq!(w.components(POS, &[]), Vec::<u32>::new());
}

#[test]
fn ensure_components_is_lazy_and_stable() {
    let mut w: World<u32> = World::new();
    let e = w.create_entity();
    let a = w.ensure_components(5);
    let b = w.ensure_components(6);
    assert_ne!(a, b);
    assert_eq!(w.ensure_components(5), a);
    assert!(w.component_mut(5, &e).is_none());
    w.add_component(e, 6, 1);
    assert_eq!(w.ensure_components(6), b);
}

#[test]
fn partition_sizes() {
    let es: Vec<Entity> = (0..10).map(Entity).collect();
    let gs = partition(&es, 4);
    assert_eq!(gs.iter().map(|g| g.len()).collect::<Vec<_>>(), vec![4, 4, 2]);
    assert_eq!(gs.concat(), es);
    assert_eq!(partition(&es, 10).len(), 1);
    assert_eq!(partition(&es, 11).len(), 1);
    assert_eq!(partition(&es, 1).len(), 10);
    assert_eq!(partition(&[], 3).len(), 0);
}

#[test]
fn bundles_cover_one_extraction() {
    let mut w: World<u32> = World::new();
    let es: Vec<Entity> = (0..10).map(|_| w.create_entity()).collect();
    for (i, e) in es.iter().enumerate() {
        if i % 3 != 1 {
            w.add_component(*e, POS, i as u32);
        }
    }
    let bs = w.bundles(POS, &es, 4);
    assert_eq!(bs.len(), 3);
    assert_eq!(bs, vec![vec![0, 2, 3], vec![5, 6], vec![8, 9]]);
    assert_eq!(bs.concat(), w.components(POS, &es));
}

#[test]
fn partitioned_pass_leaves_store_unchanged() {
    let mut w: World<Position> = World::new();
    for _ in 0..10 {
        let e = w.create_entity();
        w.add_component(e, POS, origin());
    }
    let fifth = w.all()[4];
    w.component_mut(POS, &fifth).unwrap().x += 1;
    let es = w.all().clone();
    let bundles = w.bundles(POS, &es, 4);
    assert_eq!(bundles.iter().map(|b| b.len()).collect::<Vec<_>>(), vec![4, 4, 2]);
    for mut b in bundles {
        for c in b.iter_mut() {
            c.x += 1;
        }
    }
    for (i, e) in es.iter().enumerate() {
        let x = w.component_mut(POS, e).unwrap().x;
        assert_eq!(x, if i == 4 { 1 } else { 0 });
        assert_eq!(w.component_mut(POS, e).unwrap().y, 0);
    }
}

#[test]
fn reinsert_is_idempotent() {
    let mut once: World<u32> = World::new();
    let mut twice: World<u32> = World::new();
    let e1 = once.create_entity();
    let e2 = twice.create_entity();
    once.add_component(e1, POS, 4);
    twice.add_component(e2, POS, 4);
    twice.add_component(e2, POS, 4);
    assert_eq!(once.components(POS, &[e1]), twice.components(POS, &[e2]));
    assert_eq!(twice.components(POS, &[e2]), vec![4]);
    assert_eq!(once.ensure_components(POS), twice.ensure_components(POS));
}
