use ecs_core::access::{AccessMode, Param};
use ecs_core::app::{App, Phase, Report, APP_EXIT};
use ecs_core::error::EngineError;
use ecs_core::schedule::SystemDescriptor;
use ecs_core::storage::Entity;
use ecs_core::world::{System, SystemInput, SystemOutput};

const A: u64 = 1;
const B: u64 = 2;
const COUNTER: u64 = 10;
const LOG: u64 = 11;
const OTHER: u64 = 12;
const ABSENT: u64 = 13;
const PING: u64 = 20;

struct Sys(Box<dyn Fn(&SystemInput<i64>) -> SystemOutput<i64>>);

impl System<i64> for Sys {
    fn run(&self, input: &SystemInput<i64>) -> SystemOutput<i64> {
        (self.0)(input)
    }
}

fn sys(f: impl Fn(&SystemInput<i64>) -> SystemOutput<i64> + 'static) -> Sys {
    Sys(Box::new(f))
}

fn idle() -> Sys {
    sys(|_| SystemOutput::new())
}

fn resource(app: &App<i64, Sys>, tag: u64) -> Option<i64> {
    app.world().resources().get(tag).copied()
}

fn stage_names(app: &App<i64, Sys>) -> Vec<String> {
    (0..app.stage_count()).map(|i| app.stage(i).name().clone()).collect()
}

/// Adds `step` to the resource `tag`.
fn adder(tag: u64, step: i64) -> Sys {
    sys(move |input| {
        let mut out = SystemOutput::new();
        out.set_resource(tag, input.resource(tag).unwrap() + step);
        out
    })
}

/// Appends the digit `digit` to the decimal number in the resource LOG, by a command.
fn logger(digit: i64) -> Sys {
    sys(move |input| {
        let mut out = SystemOutput::new();
        out.commands.insert_resource(LOG, input.resource(LOG).unwrap() * 10 + digit);
        out
    })
}

#[test]
fn a_new_engine_has_the_core_stages() {
    let app: App<i64, Sys> = App::new();
    assert_eq!(stage_names(&app), vec!["Startup", "First", "PreUpdate", "Update", "PostUpdate", "Last"]);
    assert!(app.stage(0).is_startup());
    assert!(!app.stage(3).is_startup());
    assert!(!app.is_started());
    assert!(!app.is_stopped());
    assert_eq!(app.ticks(), 0);
    assert_eq!(app.phase(), Phase::Idle);
    assert_eq!(app.failure(), None);
    assert!(app.reports().is_empty());
    assert!(app.world().events().is_registered(APP_EXIT));
    assert_eq!(app.find_stage("Update"), Some(3));
    assert_eq!(app.find_stage("Render"), None);
}

#[test]
fn a_counter_that_asks_to_exit_at_three_stops_the_engine_after_three_ticks() {
    let mut app: App<i64, Sys> = App::new();
    app.insert_resource(COUNTER, 0);
    let counting = sys(|input| {
        let value = input.resource(COUNTER).unwrap() + 1;
        let mut out = SystemOutput::new();
        out.set_resource(COUNTER, value);
        if value == 3 {
            out.send(APP_EXIT, 0);
        }
        out
    });
    let descriptor = SystemDescriptor::new(vec![Param::ResMut(COUNTER), Param::EventWriter(APP_EXIT)]);
    assert_eq!(app.add_system(descriptor, counting), Ok(()));
    assert_eq!(app.start(), Ok(()));
    assert_eq!(app.tick(), Ok(()));
    assert!(!app.is_stopped());
    assert_eq!(app.tick(), Ok(()));
    assert!(!app.is_stopped());
    assert_eq!(resource(&app, COUNTER), Some(2));
    assert_eq!(app.tick(), Ok(()));
    assert!(app.is_stopped());
    assert_eq!(resource(&app, COUNTER), Some(3));
    assert_eq!(app.ticks(), 3);
    assert!(app.reports().is_empty());
}

#[test]
fn a_stopped_engine_does_not_tick() {
    let mut app: App<i64, Sys> = App::new();
    app.insert_resource(COUNTER, 0);
    app.add_system(
        SystemDescriptor::new(vec![Param::ResMut(COUNTER), Param::EventWriter(APP_EXIT)]),
        sys(|input| {
            let mut out = SystemOutput::new();
            out.set_resource(COUNTER, input.resource(COUNTER).unwrap() + 1);
            out.send(APP_EXIT, 0);
            out
        }),
    )
    .unwrap();
    assert_eq!(app.tick(), Ok(()));
    assert!(app.is_started());
    assert!(app.is_stopped());
    assert_eq!(app.tick(), Ok(()));
    assert_eq!(app.tick(), Ok(()));
    assert_eq!(resource(&app, COUNTER), Some(1));
    assert_eq!(app.ticks(), 1);
}

#[test]
fn two_writers_of_one_resource_in_one_stage_run_in_the_order_registered() {
    let mut app: App<i64, Sys> = App::new();
    app.insert_resource(COUNTER, 1);
    // (1 + 4) * 10 = 50, not 1 * 10 + 4 = 14
    assert_eq!(app.add_system(SystemDescriptor::new(vec![Param::ResMut(COUNTER)]), adder(COUNTER, 4)), Ok(()));
    assert_eq!(
        app.add_system(
            SystemDescriptor::new(vec![Param::ResMut(COUNTER)]),
            sys(|input| {
                let mut out = SystemOutput::new();
                out.set_resource(COUNTER, input.resource(COUNTER).unwrap() * 10);
                out
            })
        ),
        Ok(())
    );
    assert_eq!(app.failure(), None);
    assert_eq!(app.stage(3).plan(), Ok(vec![vec![0], vec![1]]));
    assert_eq!(app.tick(), Ok(()));
    assert_eq!(resource(&app, COUNTER), Some(50));
}

#[test]
fn a_system_whose_query_asks_both_ways_is_rejected_at_registration() {
    let mut app: App<i64, Sys> = App::new();
    app.register_component(A);
    let descriptor =
        SystemDescriptor::new(vec![Param::Query(vec![(A, AccessMode::Write), (A, AccessMode::Read)])]);
    assert_eq!(app.add_system(descriptor, idle()), Err(EngineError::ConflictingAccess));
    assert_eq!(app.stage(3).len(), 0);
    assert_eq!(app.failure(), Some(EngineError::ConflictingAccess));
    assert_eq!(app.start(), Err(EngineError::ConflictingAccess));
    assert_eq!(app.tick(), Err(EngineError::ConflictingAccess));
    assert!(!app.is_started());
    assert_eq!(app.ticks(), 0);
}

#[test]
fn stages_are_inserted_around_update() {
    let mut app: App<i64, Sys> = App::new();
    assert_eq!(app.add_stage_before("Update", "Before"), Ok(()));
    assert_eq!(app.add_stage_after("Update", "After"), Ok(()));
    assert_eq!(
        stage_names(&app),
        vec!["Startup", "First", "PreUpdate", "Before", "Update", "After", "PostUpdate", "Last"]
    );
    assert_eq!(app.find_stage("Update"), Some(4));
}

#[test]
fn an_unknown_stage_keeps_the_engine_from_starting() {
    let mut app: App<i64, Sys> = App::new();
    app.insert_resource(COUNTER, 0);
    app.add_system(SystemDescriptor::new(vec![Param::ResMut(COUNTER)]), adder(COUNTER, 1)).unwrap();
    assert_eq!(app.add_stage_before("Render", "PreRender"), Err(EngineError::UnknownStage));
    assert_eq!(app.add_stage_after("Render", "PostRender"), Err(EngineError::UnknownStage));
    assert_eq!(
        app.add_system_to_stage("Render", SystemDescriptor::new(vec![]), idle()),
        Err(EngineError::UnknownStage)
    );
    assert_eq!(app.stage_count(), 6);
    assert_eq!(app.failure(), Some(EngineError::UnknownStage));
    assert_eq!(app.start(), Err(EngineError::UnknownStage));
    assert_eq!(app.tick(), Err(EngineError::UnknownStage));
    assert_eq!(resource(&app, COUNTER), Some(0));
}

#[test]
fn the_first_setup_error_is_the_one_kept() {
    let mut app: App<i64, Sys> = App::new();
    let bad = SystemDescriptor::new(vec![Param::Query(vec![(A, AccessMode::Read), (A, AccessMode::Write)])]);
    assert_eq!(app.add_stage_after("Nowhere", "X"), Err(EngineError::UnknownStage));
    assert_eq!(app.add_system(bad, idle()), Err(EngineError::ConflictingAccess));
    assert_eq!(app.add_stage_after("Update", "X"), Ok(()));
    assert_eq!(app.failure(), Some(EngineError::UnknownStage));
    assert_eq!(app.start(), Err(EngineError::UnknownStage));
}

#[test]
fn an_ordering_cycle_keeps_the_engine_from_starting() {
    let mut app: App<i64, Sys> = App::new();
    app.insert_resource(COUNTER, 0);
    app.add_system_to_stage("First", SystemDescriptor::new(vec![Param::ResMut(COUNTER)]), adder(COUNTER, 1))
        .unwrap();
    app.add_system_to_stage("Last", SystemDescriptor::new(vec![]).label("a").after("b"), idle()).unwrap();
    app.add_system_to_stage("Last", SystemDescriptor::new(vec![]).label("b").after("a"), idle()).unwrap();
    assert_eq!(app.failure(), None);
    assert!(matches!(app.plans(), Err(EngineError::OrderingCycle)));
    assert_eq!(app.start(), Err(EngineError::OrderingCycle));
    assert_eq!(app.tick(), Err(EngineError::OrderingCycle));
    assert!(!app.is_started());
    assert_eq!(resource(&app, COUNTER), Some(0));
}

#[test]
fn a_cycle_across_two_stages_is_none() {
    let mut app: App<i64, Sys> = App::new();
    app.add_system_to_stage("First", SystemDescriptor::new(vec![]).label("a").after("b"), idle()).unwrap();
    app.add_system_to_stage("Last", SystemDescriptor::new(vec![]).label("b").after("a"), idle()).unwrap();
    assert_eq!(app.start(), Ok(()));
    assert_eq!(app.tick(), Ok(()));
}

#[test]
fn startup_systems_run_once() {
    let mut app: App<i64, Sys> = App::new();
    app.insert_resource(COUNTER, 0);
    app.insert_resource(OTHER, 0);
    app.add_startup_system(SystemDescriptor::new(vec![Param::ResMut(COUNTER)]), adder(COUNTER, 1)).unwrap();
    app.add_system(SystemDescriptor::new(vec![Param::ResMut(OTHER)]), adder(OTHER, 1)).unwrap();
    assert_eq!(app.start(), Ok(()));
    assert!(app.is_started());
    assert_eq!(resource(&app, COUNTER), Some(1));
    assert_eq!(resource(&app, OTHER), Some(0));
    assert_eq!(app.ticks(), 0);
    assert_eq!(app.start(), Ok(()));
    assert_eq!(resource(&app, COUNTER), Some(1));
    for _ in 0..4 {
        assert_eq!(app.tick(), Ok(()));
    }
    assert_eq!(resource(&app, COUNTER), Some(1));
    assert_eq!(resource(&app, OTHER), Some(4));
    assert_eq!(app.ticks(), 4);
}

#[test]
fn the_first_tick_starts_an_engine_that_was_not_started() {
    let mut app: App<i64, Sys> = App::new();
    app.insert_resource(COUNTER, 0);
    app.add_startup_system(SystemDescriptor::new(vec![Param::ResMut(COUNTER)]), adder(COUNTER, 100)).unwrap();
    app.add_system(SystemDescriptor::new(vec![Param::ResMut(COUNTER)]), adder(COUNTER, 1)).unwrap();
    assert_eq!(app.tick(), Ok(()));
    assert!(app.is_started());
    assert_eq!(resource(&app, COUNTER), Some(101));
    assert_eq!(app.tick(), Ok(()));
    assert_eq!(resource(&app, COUNTER), Some(102));
}

#[test]
fn a_stage_placed_by_the_startup_stage_runs_once_too() {
    let mut app: App<i64, Sys> = App::new();
    app.insert_resource(LOG, 0);
    app.add_stage_after("Startup", "PostStartup").unwrap();
    app.add_stage_before("Startup", "PreStartup").unwrap();
    let d = || SystemDescriptor::new(vec![Param::Res(LOG), Param::Commands]);
    app.add_system_to_stage("PostStartup", d(), logger(3)).unwrap();
    app.add_system_to_stage("Startup", d(), logger(2)).unwrap();
    app.add_system_to_stage("PreStartup", d(), logger(1)).unwrap();
    app.add_system_to_stage("Update", d(), logger(7)).unwrap();
    app.tick().unwrap();
    app.tick().unwrap();
    assert_eq!(resource(&app, LOG), Some(12377));
}

#[test]
fn stages_run_in_sequence() {
    let mut app: App<i64, Sys> = App::new();
    app.insert_resource(LOG, 0);
    app.add_stage_before("Update", "Before").unwrap();
    app.add_stage_after("Update", "After").unwrap();
    let d = || SystemDescriptor::new(vec![Param::Res(LOG), Param::Commands]);
    app.add_system_to_stage("After", d(), logger(3)).unwrap();
    app.add_system_to_stage("Update", d(), logger(2)).unwrap();
    app.add_system_to_stage("Before", d(), logger(1)).unwrap();
    app.add_system_to_stage("Last", d(), logger(4)).unwrap();
    app.tick().unwrap();
    assert_eq!(resource(&app, LOG), Some(1234));
    app.tick().unwrap();
    assert_eq!(resource(&app, LOG), Some(12341234));
}

#[test]
fn commands_of_a_constrained_system_are_applied_after_those_of_the_labelled_one() {
    let mut app: App<i64, Sys> = App::new();
    app.insert_resource(LOG, 0);
    app.register_resource(OTHER);
    // registered first, but runs after "check"; both record a value for OTHER
    app.add_system(
        SystemDescriptor::new(vec![Param::Commands]).after("check"),
        sys(|_| {
            let mut out = SystemOutput::new();
            out.commands.insert_resource(OTHER, 2);
            out
        }),
    )
    .unwrap();
    app.add_system(
        SystemDescriptor::new(vec![Param::Commands]).label("check"),
        sys(|_| {
            let mut out = SystemOutput::new();
            out.commands.insert_resource(OTHER, 1);
            out
        }),
    )
    .unwrap();
    assert_eq!(app.stage(3).plan(), Ok(vec![vec![1], vec![0]]));
    for _ in 0..3 {
        app.tick().unwrap();
        assert_eq!(resource(&app, OTHER), Some(2));
    }
}

#[test]
fn commands_of_a_system_that_runs_before_a_label_are_applied_first() {
    let mut app: App<i64, Sys> = App::new();
    app.register_resource(OTHER);
    app.add_system(
        SystemDescriptor::new(vec![Param::Commands]).label("check"),
        sys(|_| {
            let mut out = SystemOutput::new();
            out.commands.insert_resource(OTHER, 1);
            out
        }),
    )
    .unwrap();
    app.add_system(
        SystemDescriptor::new(vec![Param::Commands]).before("check"),
        sys(|_| {
            let mut out = SystemOutput::new();
            out.commands.insert_resource(OTHER, 2);
            out
        }),
    )
    .unwrap();
    assert_eq!(app.stage(3).plan(), Ok(vec![vec![1], vec![0]]));
    for _ in 0..3 {
        app.tick().unwrap();
        assert_eq!(resource(&app, OTHER), Some(1));
    }
}

#[test]
fn a_component_inserted_by_a_command_shows_in_the_next_stage_and_not_before() {
    let mut app: App<i64, Sys> = App::new();
    app.register_component(A);
    app.register_component(B);
    app.insert_resource(COUNTER, 0);
    app.insert_resource(OTHER, 0);
    let e = app.spawn(vec![(A, 1)]);
    // in Update: attach B by a command
    app.add_system(
        SystemDescriptor::new(vec![Param::Commands]),
        sys(move |_| {
            let mut out = SystemOutput::new();
            out.commands.insert(e, B, 5);
            out
        }),
    )
    .unwrap();
    // in Update, later: count what a query for B yields, in COUNTER
    let count_into = |tag: u64| {
        sys(move |input| {
            let mut out = SystemOutput::new();
            let found = input.query(&vec![B]).unwrap();
            out.set_resource(tag, input.resource(tag).unwrap() + found.len() as i64);
            out
        })
    };
    app.add_system(
        SystemDescriptor::new(vec![Param::Query(vec![(B, AccessMode::Read)]), Param::ResMut(COUNTER)]),
        count_into(COUNTER),
    )
    .unwrap();
    // in PostUpdate: the same, in OTHER
    app.add_system_to_stage(
        "PostUpdate",
        SystemDescriptor::new(vec![Param::Query(vec![(B, AccessMode::Read)]), Param::ResMut(OTHER)]),
        count_into(OTHER),
    )
    .unwrap();
    app.tick().unwrap();
    assert_eq!(resource(&app, COUNTER), Some(0));
    assert_eq!(resource(&app, OTHER), Some(1));
    assert_eq!(app.world().storage().get(e, B), Some(&5));
}

#[test]
fn a_spawn_by_a_command_shows_in_the_next_stage() {
    let mut app: App<i64, Sys> = App::new();
    app.register_component(A);
    app.insert_resource(COUNTER, 0);
    app.add_system_to_stage(
        "First",
        SystemDescriptor::new(vec![Param::Commands]),
        sys(|_| {
            let mut out = SystemOutput::new();
            out.commands.spawn(vec![(A, 1)]);
            out.commands.spawn(vec![(A, 2)]);
            out
        }),
    )
    .unwrap();
    app.add_system(
        SystemDescriptor::new(vec![Param::Query(vec![(A, AccessMode::Read)]), Param::ResMut(COUNTER)]),
        sys(|input| {
            let mut out = SystemOutput::new();
            out.set_resource(COUNTER, input.query(&vec![A]).unwrap().len() as i64);
            out
        }),
    )
    .unwrap();
    app.tick().unwrap();
    assert_eq!(resource(&app, COUNTER), Some(2));
    app.tick().unwrap();
    assert_eq!(resource(&app, COUNTER), Some(4));
    assert_eq!(
        app.world().storage().query(&vec![A])[..2],
        [Entity { index: 0, generation: 0 }, Entity { index: 1, generation: 0 }]
    );
}

#[test]
fn a_query_in_a_system_yields_the_two_entities_that_have_both_components() {
    let mut app: App<i64, Sys> = App::new();
    app.register_component(A);
    app.register_component(B);
    app.insert_resource(COUNTER, 0);
    let first = app.spawn(vec![(A, 1), (B, 10)]);
    let lacking = app.spawn(vec![(A, 2)]);
    let third = app.spawn(vec![(A, 3), (B, 30)]);
    app.add_system(
        SystemDescriptor::new(vec![
            Param::Query(vec![(A, AccessMode::Write), (B, AccessMode::Read)]),
            Param::ResMut(COUNTER),
        ]),
        sys(|input| {
            let mut out = SystemOutput::new();
            let found = input.query(&vec![A, B]).unwrap();
            out.set_resource(COUNTER, found.len() as i64);
            for e in found {
                out.set_component(e, A, input.get(e, A).unwrap() + input.get(e, B).unwrap());
            }
            out
        }),
    )
    .unwrap();
    app.tick().unwrap();
    assert_eq!(resource(&app, COUNTER), Some(2));
    assert_eq!(app.world().storage().get(first, A), Some(&11));
    assert_eq!(app.world().storage().get(lacking, A), Some(&2));
    assert_eq!(app.world().storage().get(third, A), Some(&33));
}

#[test]
fn a_system_that_lacks_a_resource_is_skipped_and_reported() {
    let mut app: App<i64, Sys> = App::new();
    app.insert_resource(COUNTER, 0);
    app.register_resource(ABSENT);
    app.add_system(SystemDescriptor::new(vec![Param::ResMut(COUNTER)]), adder(COUNTER, 1)).unwrap();
    app.add_system(
        SystemDescriptor::new(vec![Param::Res(ABSENT), Param::ResMut(COUNTER)]),
        adder(COUNTER, 100),
    )
    .unwrap();
    app.add_system(SystemDescriptor::new(vec![Param::ResMut(COUNTER)]), adder(COUNTER, 10)).unwrap();
    assert_eq!(app.tick(), Ok(()));
    assert_eq!(resource(&app, COUNTER), Some(11));
    assert_eq!(
        app.reports(),
        &vec![Report { tick: 0, stage: 3, system: 1, error: EngineError::MissingResource }]
    );
    assert_eq!(app.tick(), Ok(()));
    assert_eq!(resource(&app, COUNTER), Some(22));
    assert_eq!(app.reports().len(), 2);
    assert_eq!(app.reports()[1], Report { tick: 1, stage: 3, system: 1, error: EngineError::MissingResource });
    // the state changes: the resource arrives, and the system runs
    app.insert_resource(ABSENT, 0);
    assert_eq!(app.tick(), Ok(()));
    assert_eq!(resource(&app, COUNTER), Some(133));
    assert_eq!(app.reports().len(), 2);
}

#[test]
fn a_system_that_names_an_unregistered_type_is_skipped_and_reported() {
    let mut app: App<i64, Sys> = App::new();
    app.insert_resource(COUNTER, 0);
    app.add_system(
        SystemDescriptor::new(vec![Param::Query(vec![(A, AccessMode::Read)]), Param::ResMut(COUNTER)]),
        adder(COUNTER, 100),
    )
    .unwrap();
    app.add_system(
        SystemDescriptor::new(vec![Param::EventReader(PING), Param::ResMut(COUNTER)]),
        adder(COUNTER, 100),
    )
    .unwrap();
    app.add_system(SystemDescriptor::new(vec![Param::ResMut(COUNTER)]), adder(COUNTER, 1)).unwrap();
    assert_eq!(app.start(), Ok(()));
    assert_eq!(app.tick(), Ok(()));
    assert_eq!(resource(&app, COUNTER), Some(1));
    assert_eq!(
        app.reports(),
        &vec![
            Report { tick: 0, stage: 3, system: 0, error: EngineError::UnregisteredType },
            Report { tick: 0, stage: 3, system: 1, error: EngineError::UnregisteredType },
        ]
    );
    app.register_component(A);
    app.register_event(PING);
    assert_eq!(app.tick(), Ok(()));
    assert_eq!(resource(&app, COUNTER), Some(202));
    assert_eq!(app.reports().len(), 2);
}

#[test]
fn an_event_reaches_readers_in_the_next_tick() {
    let mut app: App<i64, Sys> = App::new();
    app.register_event(PING);
    app.insert_resource(COUNTER, 0);
    app.insert_resource(LOG, 0);
    // tick by tick: write the tick number as an event, in ticks 1 and 2 only
    app.add_system_to_stage(
        "First",
        SystemDescriptor::new(vec![Param::ResMut(COUNTER), Param::EventWriter(PING)]),
        sys(|input| {
            let tick = input.resource(COUNTER).unwrap() + 1;
            let mut out = SystemOutput::new();
            out.set_resource(COUNTER, tick);
            if tick <= 2 {
                out.send(PING, tick);
            }
            out
        }),
    )
    .unwrap();
    // later in the tick: append what is read to LOG, or 0 where nothing is read
    app.add_system_to_stage(
        "Last",
        SystemDescriptor::new(vec![Param::EventReader(PING), Param::ResMut(LOG)]),
        sys(|input| {
            let mut log = *input.resource(LOG).unwrap();
            let events = input.events(PING).unwrap();
            if events.is_empty() {
                log = log * 10;
            }
            for event in events {
                log = log * 10 + event;
            }
            let mut out = SystemOutput::new();
            out.set_resource(LOG, log);
            out
        }),
    )
    .unwrap();
    for _ in 0..4 {
        app.tick().unwrap();
    }
    // tick 1 reads nothing, tick 2 reads 1, tick 3 reads 2, tick 4 reads nothing
    assert_eq!(resource(&app, LOG), Some(120));
}

#[test]
fn systems_that_do_not_conflict_give_the_same_end_state_in_either_order() {
    let run = |swap: bool| {
        let mut app: App<i64, Sys> = App::new();
        app.register_component(A);
        app.register_component(B);
        app.insert_resource(COUNTER, 1);
        app.insert_resource(OTHER, 2);
        let e = app.spawn(vec![(A, 3), (B, 4)]);
        let one = (
            SystemDescriptor::new(vec![
                Param::Query(vec![(A, AccessMode::Write)]),
                Param::Res(OTHER),
                Param::Commands,
            ]),
            sys(move |input| {
                let mut out = SystemOutput::new();
                out.set_component(e, A, input.get(e, A).unwrap() * 2 + input.resource(OTHER).unwrap());
                out.commands.spawn(vec![(A, 7)]);
                out
            }),
        );
        let two = (
            SystemDescriptor::new(vec![
                Param::Query(vec![(B, AccessMode::Write)]),
                Param::Res(OTHER),
                Param::ResMut(COUNTER),
            ]),
            sys(move |input| {
                let mut out = SystemOutput::new();
                out.set_component(e, B, input.get(e, B).unwrap() + 1);
                out.set_resource(COUNTER, input.resource(COUNTER).unwrap() + input.resource(OTHER).unwrap());
                out
            }),
        );
        if swap {
            app.add_system(two.0, two.1).unwrap();
            app.add_system(one.0, one.1).unwrap();
        } else {
            app.add_system(one.0, one.1).unwrap();
            app.add_system(two.0, two.1).unwrap();
        }
        assert_eq!(app.stage(3).plan(), Ok(vec![vec![0, 1]]));
        app.tick().unwrap();
        app.tick().unwrap();
        let spawned = app.world().storage().query(&vec![A]);
        (
            app.world().storage().get(e, A).copied(),
            app.world().storage().get(e, B).copied(),
            resource(&app, COUNTER),
            spawned,
        )
    };
    // A: 3 * 2 + 2 = 8, then 8 * 2 + 2 = 18; B: 4 + 1 + 1; COUNTER: 1 + 2 + 2
    let expected = (
        Some(18),
        Some(6),
        Some(5),
        vec![
            Entity { index: 0, generation: 0 },
            Entity { index: 1, generation: 0 },
            Entity { index: 2, generation: 0 },
        ],
    );
    assert_eq!(run(false), expected);
    assert_eq!(run(true), expected);
}

#[test]
fn the_phases_follow_one_another() {
    assert_eq!(Phase::Idle.next(2), Phase::RunningStage(0));
    assert_eq!(Phase::RunningStage(0).next(2), Phase::FlushingStage(0));
    assert_eq!(Phase::FlushingStage(0).next(2), Phase::RunningStage(1));
    assert_eq!(Phase::RunningStage(1).next(2), Phase::FlushingStage(1));
    assert_eq!(Phase::FlushingStage(1).next(2), Phase::TickComplete);
    assert_eq!(Phase::TickComplete.next(2), Phase::Idle);
    assert_eq!(Phase::Idle.next(0), Phase::TickComplete);
    assert_eq!(Phase::FlushingStage(usize::MAX).next(usize::MAX), Phase::TickComplete);
    assert_eq!(Phase::FlushingStage(5).next(0), Phase::TickComplete);
}

#[test]
fn errors_of_the_setup_are_fatal_and_the_others_are_not() {
    assert!(EngineError::ConflictingAccess.is_fatal());
    assert!(EngineError::OrderingCycle.is_fatal());
    assert!(EngineError::UnknownStage.is_fatal());
    assert!(!EngineError::MissingResource.is_fatal());
    assert!(!EngineError::UnregisteredType.is_fatal());
}

#[test]
fn an_exit_event_of_a_startup_system_stops_the_engine_before_the_first_tick() {
    let mut app: App<i64, Sys> = App::new();
    app.insert_resource(COUNTER, 0);
    app.add_startup_system(
        SystemDescriptor::new(vec![Param::EventWriter(APP_EXIT)]),
        sys(|_| {
            let mut out = SystemOutput::new();
            out.send(APP_EXIT, 0);
            out
        }),
    )
    .unwrap();
    app.add_system(SystemDescriptor::new(vec![Param::ResMut(COUNTER)]), adder(COUNTER, 1)).unwrap();
    assert_eq!(app.tick(), Ok(()));
    assert!(app.is_started() && app.is_stopped());
    assert_eq!(resource(&app, COUNTER), Some(0));
    assert_eq!(app.ticks(), 0);
}

#[test]
fn every_error_has_its_words() {
    assert_eq!(EngineError::UnregisteredType.message(), "a type was never registered");
    assert_eq!(EngineError::MissingResource.message(), "a required resource is absent");
    assert_eq!(
        EngineError::ConflictingAccess.message(),
        "a query asks for one type both read-only and mutably"
    );
    assert_eq!(EngineError::OrderingCycle.message(), "the ordering constraints run in a circle");
    assert_eq!(EngineError::UnknownStage.message(), "no stage bears that name");
}
