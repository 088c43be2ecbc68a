use ecs_runtime::{Component, SystemCallback, Task, World};

const RES1: u64 = 10;
const RES2: u64 = 11;

#[derive(Debug, Clone, PartialEq)]
struct NoComp;

impl Component for NoComp {}

#[derive(Debug, Clone, PartialEq)]
enum Res {
    Test1 { a: u32 },
    Test2 { b: Vec<u32> },
}

#[derive(Debug, Clone, PartialEq)]
struct NoArg;

struct NoCb;

impl SystemCallback<NoComp, Res, NoArg, NoTask> for NoCb {
    fn call(&self, _world: &mut World<NoComp, Res, NoArg, NoCb, NoTask>, _args: &NoArg) {}
}

struct NoTask;

impl Task<NoArg> for NoTask {
    fn poll_once(&mut self) -> Option<NoArg> {
        None
    }
}

type W = World<NoComp, Res, NoArg, NoCb, NoTask>;

#[test]
fn test_resource() {
    let mut world = W::new();

    world.add_resource(RES1, Res::Test1 { a: 123 });
    world.add_resource(RES2, Res::Test2 { b: vec![1234] });

    assert_eq!(world.resource(RES1).unwrap(), &Res::Test1 { a: 123 });
    assert_eq!(world.resource(RES2).unwrap(), &Res::Test2 { b: vec![1234] });
}

#[test]
fn test_resource_overwrite() {
    let mut world = W::new();

    world.add_resource(RES1, Res::Test1 { a: 123 });
    assert_eq!(world.resource(RES1).unwrap(), &Res::Test1 { a: 123 });

    world.add_resource(RES1, Res::Test1 { a: 1234 });
    assert_eq!(world.resource(RES1).unwrap(), &Res::Test1 { a: 1234 });
}

#[test]
fn test_resource_missing_is_none() {
    let world = W::new();

    assert!(world.resource(RES1).is_none());
}

#[test]
fn test_resource_mut() {
    let mut world = W::new();

    world.add_resource(RES1, Res::Test1 { a: 1 });
    *world.resource_mut(RES1).unwrap() = Res::Test1 { a: 2 };

    assert_eq!(world.resource(RES1).unwrap(), &Res::Test1 { a: 2 });
    assert!(world.resource_mut(RES2).is_none());
}

#[test]
fn test_take_resource() {
    let mut world = W::new();

    world.add_resource(RES1, Res::Test1 { a: 123 });
    world.add_resource(RES1, Res::Test1 { a: 1234 });

    assert_eq!(world.take_resource(RES1), Some(Res::Test1 { a: 1234 }));
    assert!(world.resource(RES1).is_none());
    assert!(world.take_resource(RES1).is_none());
}
