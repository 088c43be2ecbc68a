use ecs_runtime::{Component, SystemCallback, SystemCallbackWrapper, Task, World};

const VALUE: u64 = 1;
const LOG: u64 = 20;
const EVENT: u64 = 30;

#[derive(Debug, Clone, PartialEq)]
struct Val {
    v: u32,
}

impl Component for Val {}

#[derive(Debug, Clone, PartialEq)]
struct Log {
    entries: Vec<u32>,
}

#[derive(Debug, Clone, PartialEq)]
struct Arg {
    v: u32,
}

enum Cb {
    SpawnVal,
    Append(u32),
    NestedThenAppend(u32),
    RegisterAppend(u32),
}

impl SystemCallback<Val, Log, Arg, TestTask> for Cb {
    fn call(&self, world: &mut World<Val, Log, Arg, Cb, TestTask>, args: &Arg) {
        match self {
            Cb::SpawnVal => {
                let entity = world.spawn().entity();
                world.add_component(VALUE, entity, Val { v: args.v });
            },
            Cb::Append(n) => {
                if let Some(log) = world.resource_mut(LOG) {
                    log.entries.push(*n);
                }
            },
            Cb::NestedThenAppend(n) => {
                if let Some(log) = world.resource_mut(LOG) {
                    log.entries.push(*n);
                }
                world.on_event(EVENT, Arg { v: args.v });
            },
            Cb::RegisterAppend(n) => {
                world.add_event_handler(EVENT, Cb::Append(*n));
            },
        }
    }
}

struct TestTask {
    out: Option<u32>,
}

impl Task<Arg> for TestTask {
    fn poll_once(&mut self) -> Option<Arg> {
        self.out.take().map(|v| Arg { v })
    }
}

type W = World<Val, Log, Arg, Cb, TestTask>;

fn log_of(world: &W) -> Vec<u32> {
    world.resource(LOG).unwrap().entries.clone()
}

#[test]
fn test_async() {
    let mut world = W::new();

    world.async_job(|| TestTask { out: Some(1) }, Cb::SpawnVal);

    world.update();

    assert_eq!(world.components(VALUE)[0].1.v, 1);
}

#[test]
fn test_async_callback_runs_exactly_once() {
    let mut world = W::new();

    world.async_job(|| TestTask { out: Some(7) }, Cb::SpawnVal);

    world.update();
    world.update();
    world.update();

    let all = world.components(VALUE);
    assert_eq!(all.len(), 1);
    assert_eq!(all[0].1.v, 7);
}

#[test]
fn test_async_pending_job_never_completes() {
    let mut world = W::new();

    world.async_job(|| TestTask { out: None }, Cb::SpawnVal);

    for _ in 0..5 {
        world.update();
    }

    assert!(world.components(VALUE).is_empty());
}

#[test]
fn test_async_mixed_jobs_keep_pending() {
    let mut world = W::new();

    world.async_job(|| TestTask { out: None }, Cb::SpawnVal);
    world.async_job(|| TestTask { out: Some(3) }, Cb::SpawnVal);

    world.update();

    let all = world.components(VALUE);
    assert_eq!(all.len(), 1);
    assert_eq!(all[0].1.v, 3);

    world.update();
    assert_eq!(world.components(VALUE).len(), 1);
}

#[test]
fn test_event_handler_order() {
    let mut world = W::new();
    world.add_resource(LOG, Log { entries: Vec::new() });

    world.add_event_handler(EVENT, Cb::Append(1));
    world.add_event_handler(EVENT, Cb::Append(2));

    world.on_event(EVENT, Arg { v: 0 });

    assert_eq!(log_of(&world), vec![1, 2]);
}

#[test]
fn test_event_without_handlers_is_silent() {
    let mut world = W::new();
    world.add_resource(LOG, Log { entries: Vec::new() });

    world.on_event(EVENT, Arg { v: 0 });

    assert_eq!(log_of(&world), Vec::<u32>::new());
}

#[test]
fn test_event_reentrant_publish_sees_no_handlers() {
    let mut world = W::new();
    world.add_resource(LOG, Log { entries: Vec::new() });

    world.add_event_handler(EVENT, Cb::NestedThenAppend(1));
    world.add_event_handler(EVENT, Cb::Append(2));

    world.on_event(EVENT, Arg { v: 0 });

    assert_eq!(log_of(&world), vec![1, 2]);

    world.on_event(EVENT, Arg { v: 0 });

    assert_eq!(log_of(&world), vec![1, 2, 1, 2]);
}

#[test]
fn test_handlers_registered_during_dispatch_are_dropped() {
    let mut world = W::new();
    world.add_resource(LOG, Log { entries: Vec::new() });

    world.add_event_handler(EVENT, Cb::RegisterAppend(9));

    world.on_event(EVENT, Arg { v: 0 });
    world.on_event(EVENT, Arg { v: 0 });

    assert_eq!(log_of(&world), Vec::<u32>::new());
}

#[test]
fn test_callback_wrapper_carries_value() {
    let wrapper: SystemCallbackWrapper<u32, Arg> = SystemCallbackWrapper::new(17);

    assert_eq!(wrapper.into_inner(), 17);
}

#[test]
fn test_settle_poll_outcomes() {
    let mut world = W::new();

    world.settle_poll(TestTask { out: None }, Cb::SpawnVal, None);
    assert!(world.components(VALUE).is_empty());

    world.settle_poll(TestTask { out: None }, Cb::SpawnVal, Some(Arg { v: 4 }));
    let all = world.components(VALUE);
    assert_eq!(all.len(), 1);
    assert_eq!(all[0].1.v, 4);
}
