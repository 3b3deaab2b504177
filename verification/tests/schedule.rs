use ecs_core::access::{AccessMode, Param};
use ecs_core::error::EngineError;
use ecs_core::schedule::{share_name, Schedule, SystemDescriptor};

fn names(schedule: &Schedule<u8>) -> Vec<String> {
    (0..schedule.len()).map(|i| schedule.stage(i).name().clone()).collect()
}

fn three_stages() -> Schedule<u8> {
    let mut schedule = Schedule::new();
    schedule.push_stage("Startup", true);
    schedule.push_stage("Update", false);
    schedule.push_stage("Last", false);
    schedule
}

#[test]
fn share_name_compares_every_pair() {
    let xs = vec!["a".to_string(), "b".to_string()];
    let ys = vec!["c".to_string(), "b".to_string()];
    let zs = vec!["d".to_string()];
    assert!(share_name(&xs, &ys));
    assert!(share_name(&ys, &xs));
    assert!(!share_name(&xs, &zs));
    assert!(!share_name(&xs, &vec![]));
    assert!(!share_name(&vec![], &vec![]));
}

#[test]
fn the_builder_collects_labels_and_constraints() {
    let d = SystemDescriptor::new(vec![Param::Commands])
        .label("physics")
        .label("movement")
        .after("input")
        .before("render");
    assert_eq!(d.labels, vec!["physics".to_string(), "movement".to_string()]);
    assert_eq!(d.after, vec!["input".to_string()]);
    assert_eq!(d.before, vec!["render".to_string()]);
    assert_eq!(d.params.len(), 1);
    let plain = SystemDescriptor::new(vec![]);
    assert!(plain.labels.is_empty() && plain.after.is_empty() && plain.before.is_empty());
}

#[test]
fn a_stage_is_added_directly_before_or_after_its_reference() {
    let mut schedule = three_stages();
    assert_eq!(schedule.add_stage("Update", "Before", false), Ok(()));
    assert_eq!(schedule.add_stage("Update", "After", true), Ok(()));
    assert_eq!(names(&schedule), vec!["Startup", "Before", "Update", "After", "Last"]);
    assert_eq!(schedule.add_stage("Startup", "Zero", false), Ok(()));
    assert_eq!(schedule.add_stage("Last", "End", true), Ok(()));
    assert_eq!(names(&schedule), vec!["Zero", "Startup", "Before", "Update", "After", "Last", "End"]);
    assert_eq!(schedule.find("Update"), Some(3));
    assert_eq!(schedule.find("Nowhere"), None);
}

#[test]
fn a_new_stage_is_a_startup_stage_if_its_reference_is() {
    let mut schedule = three_stages();
    schedule.add_stage("Startup", "PostStartup", true).unwrap();
    schedule.add_stage("Update", "PreUpdate", false).unwrap();
    assert_eq!(names(&schedule), vec!["Startup", "PostStartup", "PreUpdate", "Update", "Last"]);
    let startup: Vec<bool> = (0..schedule.len()).map(|i| schedule.stage(i).is_startup()).collect();
    assert_eq!(startup, vec![true, true, false, false, false]);
}

#[test]
fn an_unknown_reference_is_an_error_and_changes_nothing() {
    let mut schedule = three_stages();
    assert_eq!(schedule.add_stage("Render", "Before", false), Err(EngineError::UnknownStage));
    assert_eq!(schedule.add_stage("Render", "After", true), Err(EngineError::UnknownStage));
    assert_eq!(names(&schedule), vec!["Startup", "Update", "Last"]);
    assert_eq!(
        schedule.add_system("Render", SystemDescriptor::new(vec![]), 0),
        Err(EngineError::UnknownStage)
    );
    assert_eq!(schedule.stage(1).len(), 0);
}

#[test]
fn a_name_stands_for_the_first_stage_that_bears_it() {
    let mut schedule = three_stages();
    schedule.add_stage("Last", "Update", true).unwrap();
    assert_eq!(names(&schedule), vec!["Startup", "Update", "Last", "Update"]);
    assert_eq!(schedule.find("Update"), Some(1));
    schedule.add_system("Update", SystemDescriptor::new(vec![]), 0).unwrap();
    assert_eq!(schedule.stage(1).len(), 1);
    assert_eq!(schedule.stage(3).len(), 0);
}

#[test]
fn a_contradictory_query_is_rejected_before_the_stage_is_looked_up() {
    let mut schedule = three_stages();
    let bad = || {
        SystemDescriptor::new(vec![Param::Query(vec![(1, AccessMode::Read), (1, AccessMode::Write)])])
    };
    assert_eq!(schedule.add_system("Update", bad(), 0), Err(EngineError::ConflictingAccess));
    assert_eq!(schedule.add_system("Render", bad(), 0), Err(EngineError::ConflictingAccess));
    assert_eq!(schedule.stage(1).len(), 0);
}

#[test]
fn systems_are_kept_in_the_order_registered() {
    let mut schedule = three_stages();
    schedule.add_system("Update", SystemDescriptor::new(vec![Param::Res(1)]), 10).unwrap();
    schedule.add_system("Update", SystemDescriptor::new(vec![Param::ResMut(2)]), 11).unwrap();
    let stage = schedule.stage(1);
    assert_eq!(stage.len(), 2);
    assert_eq!(*stage.system(0), 10);
    assert_eq!(*stage.system(1), 11);
    assert!(stage.access(0).can_read_resource(1));
    assert!(stage.access(1).can_write_resource(2));
    assert!(!stage.access(1).can_read_resource(1));
}

#[test]
fn the_plan_groups_systems_that_do_not_conflict() {
    let mut schedule = three_stages();
    schedule.add_system("Update", SystemDescriptor::new(vec![Param::Res(1)]), 0).unwrap();
    schedule.add_system("Update", SystemDescriptor::new(vec![Param::Res(1)]), 1).unwrap();
    schedule.add_system("Update", SystemDescriptor::new(vec![Param::ResMut(1)]), 2).unwrap();
    schedule.add_system("Update", SystemDescriptor::new(vec![Param::ResMut(2)]), 3).unwrap();
    schedule.add_system("Update", SystemDescriptor::new(vec![Param::Res(2)]), 4).unwrap();
    assert_eq!(schedule.stage(1).plan(), Ok(vec![vec![0, 1], vec![2, 3], vec![4]]));
    assert_eq!(schedule.stage(0).plan(), Ok(vec![]));
}

#[test]
fn two_writers_of_one_resource_run_one_after_the_other() {
    let mut schedule = three_stages();
    assert_eq!(schedule.add_system("Update", SystemDescriptor::new(vec![Param::ResMut(1)]), 0), Ok(()));
    assert_eq!(schedule.add_system("Update", SystemDescriptor::new(vec![Param::ResMut(1)]), 1), Ok(()));
    assert_eq!(schedule.stage(1).plan(), Ok(vec![vec![0], vec![1]]));
}

#[test]
fn labels_order_the_plan() {
    let mut schedule = three_stages();
    schedule
        .add_system("Update", SystemDescriptor::new(vec![]).after("check"), 0)
        .unwrap();
    schedule
        .add_system("Update", SystemDescriptor::new(vec![]).label("check"), 1)
        .unwrap();
    schedule.add_system("Update", SystemDescriptor::new(vec![]), 2).unwrap();
    schedule
        .add_system("Update", SystemDescriptor::new(vec![]).before("check"), 3)
        .unwrap();
    // 3 before 1 before 0; 2 is free
    assert_eq!(schedule.stage(1).plan(), Ok(vec![vec![2, 3], vec![1], vec![0]]));
}

#[test]
fn a_label_that_no_system_carries_constrains_nothing() {
    let mut schedule = three_stages();
    schedule
        .add_system("Update", SystemDescriptor::new(vec![]).after("nobody").before("nothing"), 0)
        .unwrap();
    schedule.add_system("Update", SystemDescriptor::new(vec![]), 1).unwrap();
    assert_eq!(schedule.stage(1).plan(), Ok(vec![vec![0, 1]]));
}

#[test]
fn constraints_in_a_circle_fail_the_plan() {
    let mut schedule = three_stages();
    schedule
        .add_system("Update", SystemDescriptor::new(vec![]).label("a").after("b"), 0)
        .unwrap();
    schedule
        .add_system("Update", SystemDescriptor::new(vec![]).label("b").after("a"), 1)
        .unwrap();
    assert_eq!(schedule.stage(1).plan(), Err(EngineError::OrderingCycle));
    let mut schedule = three_stages();
    schedule
        .add_system("Update", SystemDescriptor::new(vec![]).label("me").after("me"), 0)
        .unwrap();
    assert_eq!(schedule.stage(1).plan(), Err(EngineError::OrderingCycle));
}
