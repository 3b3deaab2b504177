use ecs_core::access::{AccessMode, AccessSignature, Param};
use ecs_core::commands::CommandBuffer;
use ecs_core::error::EngineError;
use ecs_core::storage::Entity;
use ecs_core::world::{System, SystemInput, SystemOutput, World, Write};

const A: u64 = 1;
const B: u64 = 2;
const R: u64 = 10;
const Q: u64 = 11;
const EV: u64 = 20;

struct Sys(Box<dyn Fn(&SystemInput<i64>) -> SystemOutput<i64>>);

impl System<i64> for Sys {
    fn run(&self, input: &SystemInput<i64>) -> SystemOutput<i64> {
        (self.0)(input)
    }
}

fn sys(f: impl Fn(&SystemInput<i64>) -> SystemOutput<i64> + 'static) -> Sys {
    Sys(Box::new(f))
}

fn signature(params: Vec<Param>) -> AccessSignature {
    match AccessSignature::new(&params) {
        Ok(s) => s,
        Err(e) => panic!("rejected: {:?}", e),
    }
}

fn world() -> World<i64> {
    let mut world = World::new();
    world.register_component(A);
    world.register_component(B);
    world.register_resource(Q);
    world.insert_resource(R, 100);
    world.register_event(EV);
    world
}

#[test]
fn a_type_that_was_never_registered_cannot_be_bound() {
    let world = world();
    for params in vec![
        vec![Param::Query(vec![(99, AccessMode::Read)])],
        vec![Param::Query(vec![(A, AccessMode::Read), (99, AccessMode::Write)])],
        vec![Param::Res(99)],
        vec![Param::ResMut(99)],
        vec![Param::OptionRes(99)],
        vec![Param::OptionResMut(99)],
        vec![Param::EventReader(99)],
        vec![Param::EventWriter(99)],
        vec![Param::Res(R), Param::EventWriter(A)],
    ] {
        let access = signature(params);
        assert_eq!(world.check(&access), Err(EngineError::UnregisteredType));
        assert!(matches!(world.bind(&access), Err(EngineError::UnregisteredType)));
    }
}

#[test]
fn a_required_resource_that_is_absent_cannot_be_bound() {
    let world = world();
    assert_eq!(world.check(&signature(vec![Param::Res(Q)])), Err(EngineError::MissingResource));
    assert_eq!(world.check(&signature(vec![Param::ResMut(Q)])), Err(EngineError::MissingResource));
    assert_eq!(world.check(&signature(vec![Param::Res(R), Param::ResMut(Q)])), Err(EngineError::MissingResource));
    assert_eq!(world.check(&signature(vec![Param::OptionRes(Q)])), Ok(()));
    assert_eq!(world.check(&signature(vec![Param::OptionResMut(Q)])), Ok(()));
    assert_eq!(world.check(&signature(vec![Param::Res(R)])), Ok(()));
    assert_eq!(world.check(&signature(vec![])), Ok(()));
    // an unregistered type is reported before an absent resource
    assert_eq!(
        world.check(&signature(vec![Param::Res(Q), Param::Res(99)])),
        Err(EngineError::UnregisteredType)
    );
}

#[test]
fn a_system_is_shown_what_its_signature_reads() {
    let mut world = world();
    let e = world.spawn(vec![(A, 1), (B, 2)]);
    let access = signature(vec![Param::Query(vec![(A, AccessMode::Read)]), Param::Res(R)]);
    let input = world.bind(&access).ok().unwrap();
    assert!(input.contains(e));
    assert!(!input.contains(Entity { index: 5, generation: 0 }));
    assert_eq!(input.get(e, A), Some(&1));
    assert_eq!(input.get(e, B), None);
    assert_eq!(input.resource(R), Some(&100));
    assert_eq!(input.resource(Q), None);
    assert_eq!(input.query(&vec![A]), Some(vec![e]));
    assert_eq!(input.query(&vec![A, B]), None);
    assert_eq!(input.query(&vec![]), Some(vec![e]));
    assert_eq!(input.events(EV), None);
}

#[test]
fn a_mutable_request_lets_the_system_read_too() {
    let mut world = world();
    let e = world.spawn(vec![(A, 1), (B, 2)]);
    let access = signature(vec![
        Param::Query(vec![(A, AccessMode::Write), (B, AccessMode::Read)]),
        Param::ResMut(R),
        Param::OptionRes(Q),
    ]);
    let input = world.bind(&access).ok().unwrap();
    assert_eq!(input.get(e, A), Some(&1));
    assert_eq!(input.query(&vec![A, B]), Some(vec![e]));
    assert_eq!(input.resource(R), Some(&100));
    assert_eq!(input.resource(Q), None);
}

#[test]
fn a_query_over_three_entities_yields_the_two_that_have_both() {
    let mut world = world();
    let first = world.spawn(vec![(A, 1), (B, 2)]);
    let _lacking = world.spawn(vec![(A, 3)]);
    let third = world.spawn(vec![(B, 4), (A, 5)]);
    let access = signature(vec![Param::Query(vec![(A, AccessMode::Write), (B, AccessMode::Read)])]);
    let input = world.bind(&access).ok().unwrap();
    assert_eq!(input.query(&vec![A, B]), Some(vec![first, third]));
}

#[test]
fn writes_that_the_signature_does_not_allow_are_dropped() {
    let mut world = world();
    let e = world.spawn(vec![(A, 1), (B, 2)]);
    let access = signature(vec![
        Param::Query(vec![(A, AccessMode::Write), (B, AccessMode::Read)]),
        Param::Res(R),
        Param::EventReader(EV),
    ]);
    world.write_all(
        &access,
        vec![
            Write::Component(e, A, 10),
            Write::Component(e, B, 20),
            Write::Resource(R, 101),
            Write::Event(EV, 7),
        ],
    );
    assert_eq!(world.storage().get(e, A), Some(&10));
    assert_eq!(world.storage().get(e, B), Some(&2));
    assert_eq!(world.resources().get(R), Some(&100));
    assert_eq!(world.events().pending(EV), 0);
}

#[test]
fn writes_change_values_and_never_the_structure() {
    let mut world = world();
    let e = world.spawn(vec![(A, 1)]);
    let dead = Entity { index: 9, generation: 0 };
    let access = signature(vec![
        Param::Query(vec![(A, AccessMode::Write), (B, AccessMode::Write)]),
        Param::ResMut(R),
        Param::OptionResMut(Q),
        Param::EventWriter(EV),
    ]);
    world.write_all(
        &access,
        vec![
            Write::Component(e, A, 2),
            Write::Component(e, A, 3),
            Write::Component(e, B, 4),
            Write::Component(dead, A, 5),
            Write::Resource(R, 101),
            Write::Resource(Q, 6),
            Write::Event(EV, 7),
            Write::Event(EV, 8),
        ],
    );
    assert_eq!(world.storage().get(e, A), Some(&3));
    assert_eq!(world.storage().get(e, B), None);
    assert!(!world.storage().contains(dead));
    assert_eq!(world.resources().get(R), Some(&101));
    assert_eq!(world.resources().get(Q), None);
    assert_eq!(world.events().pending(EV), 2);
    world.turn_over();
    assert_eq!(world.events().read(EV), Ok(&vec![7, 8]));
}

#[test]
fn flush_applies_a_buffer() {
    let mut world = world();
    let e = world.spawn(vec![(A, 1)]);
    let mut buffer = CommandBuffer::new();
    buffer.insert(e, B, 2);
    buffer.insert_resource(Q, 3);
    buffer.spawn(vec![(B, 4)]);
    world.flush(buffer);
    assert_eq!(world.storage().get(e, B), Some(&2));
    assert_eq!(world.resources().get(Q), Some(&3));
    assert_eq!(world.storage().query(&vec![B]), vec![e, Entity { index: 1, generation: 0 }]);
}

#[test]
fn run_writes_at_once_and_hands_the_commands_back() {
    let mut world = world();
    let e = world.spawn(vec![(A, 1)]);
    let access = signature(vec![Param::ResMut(R), Param::Commands]);
    let system = sys(move |input| {
        let mut out = SystemOutput::new();
        out.set_resource(R, input.resource(R).unwrap() + 1);
        out.commands.insert(e, B, 2);
        out
    });
    let buffer = world.run(&access, &system).ok().unwrap();
    assert_eq!(world.resources().get(R), Some(&101));
    assert_eq!(world.storage().get(e, B), None);
    assert_eq!(buffer.len(), 1);
    world.flush(buffer);
    assert_eq!(world.storage().get(e, B), Some(&2));
}

#[test]
fn run_drops_commands_of_a_system_without_a_buffer() {
    let mut world = world();
    let e = world.spawn(vec![(A, 1)]);
    let access = signature(vec![Param::Res(R)]);
    let system = sys(move |_| {
        let mut out = SystemOutput::new();
        out.commands.despawn(e);
        out
    });
    let buffer = world.run(&access, &system).ok().unwrap();
    assert!(buffer.is_empty());
}

#[test]
fn run_does_not_run_a_system_that_cannot_be_bound() {
    let mut world = world();
    let access = signature(vec![Param::ResMut(Q), Param::ResMut(R)]);
    let system = sys(|_| {
        let mut out = SystemOutput::new();
        out.set_resource(R, 0);
        out
    });
    assert!(matches!(world.run(&access, &system), Err(EngineError::MissingResource)));
    assert_eq!(world.resources().get(R), Some(&100));
    let access = signature(vec![Param::ResMut(99)]);
    assert!(matches!(world.run(&access, &system), Err(EngineError::UnregisteredType)));
}

#[test]
fn a_reader_sees_the_events_of_the_tick_before() {
    let mut world = world();
    let writer = signature(vec![Param::EventWriter(EV)]);
    let reader = signature(vec![Param::EventReader(EV)]);
    world.write_all(&writer, vec![Write::Event(EV, 5)]);
    assert_eq!(world.bind(&reader).ok().unwrap().events(EV), Some(&vec![]));
    world.turn_over();
    assert_eq!(world.bind(&reader).ok().unwrap().events(EV), Some(&vec![5]));
    assert_eq!(world.bind(&writer).ok().unwrap().events(EV), None);
    world.turn_over();
    assert_eq!(world.bind(&reader).ok().unwrap().events(EV), Some(&vec![]));
}
