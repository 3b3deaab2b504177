use ecs_core::access::{is_contradictory, AccessMode, AccessSignature, Param};
use ecs_core::error::EngineError;

const A: u64 = 1;
const B: u64 = 2;
const R: u64 = 10;
const E: u64 = 20;

fn signature(params: Vec<Param>) -> AccessSignature {
    match AccessSignature::new(&params) {
        Ok(s) => s,
        Err(e) => panic!("rejected: {:?}", e),
    }
}

#[test]
fn a_query_that_asks_both_ways_is_rejected() {
    let params = vec![Param::Query(vec![(A, AccessMode::Read), (B, AccessMode::Read), (A, AccessMode::Write)])];
    assert!(matches!(AccessSignature::new(&params), Err(EngineError::ConflictingAccess)));
    let params = vec![
        Param::Res(R),
        Param::Query(vec![(A, AccessMode::Read)]),
        Param::Query(vec![(B, AccessMode::Write), (B, AccessMode::Read)]),
    ];
    assert!(matches!(AccessSignature::new(&params), Err(EngineError::ConflictingAccess)));
}

#[test]
fn is_contradictory_looks_at_one_query() {
    assert!(is_contradictory(&vec![(A, AccessMode::Write), (A, AccessMode::Read)]));
    assert!(is_contradictory(&vec![(A, AccessMode::Read), (B, AccessMode::Read), (A, AccessMode::Write)]));
    assert!(!is_contradictory(&vec![(A, AccessMode::Read), (A, AccessMode::Read)]));
    assert!(!is_contradictory(&vec![(A, AccessMode::Write), (A, AccessMode::Write)]));
    assert!(!is_contradictory(&vec![(A, AccessMode::Write), (B, AccessMode::Read)]));
    assert!(!is_contradictory(&vec![]));
}

#[test]
fn two_queries_of_one_system_may_ask_differently() {
    let s = signature(vec![
        Param::Query(vec![(A, AccessMode::Read)]),
        Param::Query(vec![(A, AccessMode::Write)]),
    ]);
    assert!(s.can_read_component(A));
    assert!(s.can_write_component(A));
}

#[test]
fn the_signature_lists_what_the_parameters_ask_for() {
    let s = signature(vec![
        Param::Query(vec![(A, AccessMode::Write), (B, AccessMode::Read)]),
        Param::Res(R),
        Param::OptionResMut(R + 1),
        Param::EventReader(E),
        Param::EventWriter(E + 1),
    ]);
    assert!(s.can_read_component(A) && s.can_write_component(A));
    assert!(s.can_read_component(B) && !s.can_write_component(B));
    assert!(!s.can_read_component(3));
    assert!(s.can_read_resource(R) && !s.can_write_resource(R));
    assert!(s.can_read_resource(R + 1) && s.can_write_resource(R + 1));
    assert!(!s.can_read_resource(A));
    assert!(s.can_read_event(E) && !s.can_write_event(E));
    assert!(s.can_write_event(E + 1) && !s.can_read_event(E + 1));
    assert!(!s.uses_commands());
    let with_commands = signature(vec![Param::Commands, Param::ResMut(R)]);
    assert!(with_commands.uses_commands());
    assert!(with_commands.can_write_resource(R));
    let empty = AccessSignature::empty();
    assert!(!empty.uses_commands() && !empty.can_read_component(A));
}

#[test]
fn writers_conflict_with_readers_and_writers_of_the_type() {
    let write_a = signature(vec![Param::Query(vec![(A, AccessMode::Write)])]);
    let read_a = signature(vec![Param::Query(vec![(A, AccessMode::Read)])]);
    let write_b = signature(vec![Param::Query(vec![(B, AccessMode::Write)])]);
    assert!(write_a.conflicts_with(&write_a));
    assert!(write_a.conflicts_with(&read_a));
    assert!(read_a.conflicts_with(&write_a));
    assert!(!read_a.conflicts_with(&read_a));
    assert!(!write_a.conflicts_with(&write_b));
    assert!(!write_b.conflicts_with(&read_a));
}

#[test]
fn resources_and_events_conflict_like_components() {
    let res = signature(vec![Param::Res(R)]);
    let res_mut = signature(vec![Param::ResMut(R)]);
    let opt_mut = signature(vec![Param::OptionResMut(R)]);
    let other = signature(vec![Param::ResMut(R + 1)]);
    assert!(res_mut.conflicts_with(&res));
    assert!(res.conflicts_with(&opt_mut));
    assert!(res_mut.conflicts_with(&opt_mut));
    assert!(!res.conflicts_with(&res));
    assert!(!res_mut.conflicts_with(&other));
    let reader = signature(vec![Param::EventReader(E)]);
    let writer = signature(vec![Param::EventWriter(E)]);
    assert!(writer.conflicts_with(&writer));
    assert!(writer.conflicts_with(&reader));
    assert!(reader.conflicts_with(&writer));
    assert!(!reader.conflicts_with(&reader));
}

#[test]
fn a_component_and_a_resource_of_one_tag_do_not_conflict() {
    let component = signature(vec![Param::Query(vec![(A, AccessMode::Write)])]);
    let resource = signature(vec![Param::ResMut(A)]);
    let event = signature(vec![Param::EventWriter(A)]);
    assert!(!component.conflicts_with(&resource));
    assert!(!resource.conflicts_with(&event));
    assert!(!event.conflicts_with(&component));
}

#[test]
fn command_buffers_never_conflict() {
    let one = signature(vec![Param::Commands]);
    let two = signature(vec![Param::Commands, Param::Res(R)]);
    assert!(!one.conflicts_with(&two));
    assert!(!one.conflicts_with(&one));
}
