use ecs_runtime::{Component, Entity, SystemCallback, Task, World};

const TEST1: u64 = 1;
const TEST2: u64 = 2;

#[derive(Debug, Clone, PartialEq)]
enum Comp {
    Test { test: u32 },
    Test1 { a: u32 },
    Test2 { a: u32 },
    Marker,
    Marker2,
}

impl Component for Comp {}

#[derive(Debug, Clone, PartialEq)]
struct NoRes;

#[derive(Debug, Clone, PartialEq)]
struct NoArg;

struct NoCb;

impl SystemCallback<Comp, NoRes, NoArg, NoTask> for NoCb {
    fn call(&self, _world: &mut World<Comp, NoRes, NoArg, NoCb, NoTask>, _args: &NoArg) {}
}

struct NoTask;

impl Task<NoArg> for NoTask {
    fn poll_once(&mut self) -> Option<NoArg> {
        None
    }
}

type W = World<Comp, NoRes, NoArg, NoCb, NoTask>;

fn test_of(c: &Comp) -> u32 {
    match c {
        Comp::Test { test } => *test,
        _ => panic!("not a test component"),
    }
}

#[test]
fn mod_test_entity() {
    let mut world = W::new();

    world.spawn();
}

#[test]
fn mod_test_component() {
    let mut world = W::new();
    let entity = world.spawn().entity();

    world.add_component(TEST1, entity, Comp::Test { test: 1 });
    assert_eq!(test_of(world.component(TEST1, entity).unwrap()), 1);
}

#[test]
fn mod_test_components() {
    let mut world = W::new();

    let entity = world.spawn().entity();
    world.add_component(TEST1, entity, Comp::Test { test: 1 });

    let entity = world.spawn().entity();
    world.add_component(TEST1, entity, Comp::Test { test: 2 });

    let all = world.components(TEST1);
    let mut it = all.iter();
    assert_eq!(test_of(it.next().unwrap().1), 1);
    assert_eq!(test_of(it.next().unwrap().1), 2);
    assert!(it.next().is_none());
}

#[test]
fn world_test_entity() {
    let mut world = W::new();

    world.spawn();
}

#[test]
fn world_test_component() {
    let mut world = W::new();
    let entity = world.spawn().with(&mut world, TEST1, Comp::Test { test: 1 }).entity();

    assert_eq!(test_of(world.component(TEST1, entity).unwrap()), 1);
}

#[test]
fn test_component_empty() {
    let mut world = W::new();
    let entity = world.spawn().with(&mut world, TEST1, Comp::Marker).entity();

    assert!(world.has_component(TEST1, entity));
    assert!(world.component(TEST1, entity).is_some());
}

#[test]
fn world_test_components() {
    let mut world = W::new();

    world.spawn().with(&mut world, TEST1, Comp::Test { test: 1 }).entity();

    world.spawn().with(&mut world, TEST1, Comp::Test { test: 2 }).entity();

    let all = world.components(TEST1);
    let mut it = all.iter();
    assert_eq!(test_of(it.next().unwrap().1), 1);
    assert_eq!(test_of(it.next().unwrap().1), 2);
    assert!(it.next().is_none());
}

#[test]
fn test_components_mut() {
    let mut world = W::new();

    world.spawn().with(&mut world, TEST1, Comp::Test { test: 1 }).entity();

    world.spawn().with(&mut world, TEST1, Comp::Test { test: 2 }).entity();

    {
        let first: Entity = world.components(TEST1)[0].0;
        *world.component_mut(TEST1, first).unwrap() = Comp::Test { test: 123 };
    }

    let all = world.components(TEST1);

    assert_eq!(test_of(all[0].1), 123);
}

#[test]
fn test_bundle() {
    let mut world = W::new();

    let bundle = vec![(TEST1, Comp::Test1 { a: 1 }), (TEST2, Comp::Test2 { a: 2 })];
    let entity = world.spawn_bundle(bundle);

    assert_eq!(world.component(TEST1, entity).unwrap(), &Comp::Test1 { a: 1 });
    assert_eq!(world.component(TEST2, entity).unwrap(), &Comp::Test2 { a: 2 });
}

#[test]
fn test_has_component() {
    let mut world = W::new();

    let entity1 = world.spawn().with(&mut world, TEST1, Comp::Marker).entity();
    let entity2 = world.spawn().entity();

    assert!(world.has_component(TEST1, entity1));
    assert!(!world.has_component(TEST1, entity2));
}

#[test]
fn test_quer1y() {
    let mut world = W::new();

    let entity1 = world.spawn().with(&mut world, TEST1, Comp::Marker).entity();
    world.spawn().entity();

    let query = world.query(&vec![TEST1]);
    let mut it = query.iter();
    assert!(*it.next().unwrap() == entity1);
    assert!(it.next().is_none());
}

#[test]
fn test_query2() {
    let mut world = W::new();

    let entity1 = world
        .spawn()
        .with(&mut world, TEST1, Comp::Marker)
        .with(&mut world, TEST2, Comp::Marker2)
        .entity();
    world.spawn().with(&mut world, TEST1, Comp::Marker).entity();

    let query = world.query(&vec![TEST1, TEST2]);
    let mut it = query.iter();
    assert!(*it.next().unwrap() == entity1);
    assert!(it.next().is_none());
}

#[test]
fn test_destroy() {
    let mut world = W::new();
    let entity = world.spawn().with(&mut world, TEST1, Comp::Marker).entity();

    world.destroy(entity);

    assert!(world.component(TEST1, entity).is_none());
}

#[test]
fn test_destroy_removes_every_component_type() {
    let mut world = W::new();
    let keep = world.spawn().with(&mut world, TEST1, Comp::Test { test: 5 }).entity();
    let gone = world
        .spawn()
        .with(&mut world, TEST1, Comp::Test { test: 6 })
        .with(&mut world, TEST2, Comp::Marker2)
        .entity();

    world.destroy(gone);

    assert!(world.component(TEST1, gone).is_none());
    assert!(world.component(TEST2, gone).is_none());
    assert_eq!(test_of(world.component(TEST1, keep).unwrap()), 5);
}

#[test]
fn test_destroy_twice_is_no_op() {
    let mut world = W::new();
    let entity = world.spawn().with(&mut world, TEST1, Comp::Marker).entity();

    world.destroy(entity);
    world.destroy(entity);

    assert!(world.component(TEST1, entity).is_none());
}

#[test]
fn test_overwrite_keeps_one_component() {
    let mut world = W::new();
    let entity = world.spawn().entity();

    world.add_component(TEST1, entity, Comp::Test { test: 1 });
    world.add_component(TEST1, entity, Comp::Test { test: 2 });

    let all = world.components(TEST1);
    assert_eq!(all.len(), 1);
    assert_eq!(test_of(all[0].1), 2);
}

#[test]
fn test_query_ascending_order() {
    let mut world = W::new();

    let e0 = world.spawn().with(&mut world, TEST1, Comp::Marker).entity();
    world.spawn().entity();
    let e2 = world.spawn().with(&mut world, TEST1, Comp::Marker).entity();
    let e3 = world.spawn().with(&mut world, TEST1, Comp::Marker).entity();

    world.destroy(e2);

    let query = world.query(&vec![TEST1]);
    assert_eq!(query.len(), 2);
    assert!(query[0] == e0);
    assert!(query[1] == e3);
}

#[test]
fn test_query_empty_world() {
    let world = W::new();

    assert!(world.query(&vec![TEST1]).is_empty());
    assert!(world.components(TEST1).is_empty());
}

#[test]
fn test_bundle_later_key_wins() {
    let mut world = W::new();

    let entity = world.spawn_bundle(vec![
        (TEST1, Comp::Test { test: 1 }),
        (TEST1, Comp::Test { test: 9 }),
    ]);

    assert_eq!(test_of(world.component(TEST1, entity).unwrap()), 9);
    assert_eq!(world.components(TEST1).len(), 1);
}

#[test]
fn test_position_velocity_scenario() {
    let mut world = W::new();

    let a = world.spawn().with(&mut world, TEST1, Comp::Test { test: 1 }).entity();
    let b = world
        .spawn()
        .with(&mut world, TEST1, Comp::Test { test: 2 })
        .with(&mut world, TEST2, Comp::Test2 { a: 1 })
        .entity();

    let query = world.query(&vec![TEST1, TEST2]);
    assert_eq!(query.len(), 1);
    assert!(query[0] == b);
    assert!(a != b);

    let dx = match world.component(TEST2, b).unwrap() {
        Comp::Test2 { a } => *a,
        _ => panic!("not a velocity"),
    };
    let position = world.component_mut(TEST1, b).unwrap();
    let x = test_of(position);
    *position = Comp::Test { test: x + dx };

    assert_eq!(test_of(world.component(TEST1, b).unwrap()), 3);
}

#[test]
fn test_iteration_order_kept_across_removal() {
    let mut world = W::new();

    let e0 = world.spawn().with(&mut world, TEST1, Comp::Test { test: 10 }).entity();
    let e1 = world.spawn().with(&mut world, TEST1, Comp::Test { test: 11 }).entity();
    let e2 = world.spawn().with(&mut world, TEST1, Comp::Test { test: 12 }).entity();

    world.destroy(e1);
    let e3 = world.spawn().with(&mut world, TEST1, Comp::Test { test: 13 }).entity();

    let all = world.components(TEST1);
    assert_eq!(all.len(), 3);
    assert!(all[0].0 == e0 && test_of(all[0].1) == 10);
    assert!(all[1].0 == e2 && test_of(all[1].1) == 12);
    assert!(all[2].0 == e3 && test_of(all[2].1) == 13);
}

#[test]
fn test_component_at_mut_bulk_walk() {
    let mut world = W::new();

    world.spawn().with(&mut world, TEST1, Comp::Test { test: 1 }).entity();
    world.spawn().with(&mut world, TEST1, Comp::Test { test: 2 }).entity();

    let n = world.components(TEST1).len();
    for i in 0..n {
        let c = world.component_at_mut(TEST1, i);
        let v = test_of(c);
        *c = Comp::Test { test: v * 10 };
    }

    let all = world.components(TEST1);
    assert_eq!(test_of(all[0].1), 10);
    assert_eq!(test_of(all[1].1), 20);
}
