//! The engine: a world, a schedule, and the loop that runs one over the
//! other.
//!
//! An engine is set up by registering types, stages and systems.  `start`
//! runs the startup stages once; each `tick` runs the other stages once, in
//! sequence.  A stage runs its systems in the order of its plan and then
//! applies the commands that they recorded, in the same order.  After the
//! last stage the event buffers are turned over; if an exit event was
//! written, the engine stops.

use vstd::prelude::*;
use crate::access::{rejected, AccessView};
use crate::commands::{Command, CommandBuffer};
use crate::error::EngineError;
use crate::order::{
    concat,
    is_order,
    lemma_concat_index,
    lemma_order_is_unique,
    offset,
    respects,
    schedulable,
};
use crate::schedule::{
    empty_stage,
    has_stage,
    is_schedule,
    runs_before,
    stage_order,
    stage_position,
    with_system,
    Schedule,
    Stage,
    StageView,
    SystemDescriptor,
    SystemView,
};
use crate::storage::Entity;
use crate::world::{lemma_flush_keeps_rest, Outcome, System, World, WorldView};

verus! {

/// The type tag of the event that stops the engine.
pub const APP_EXIT: u64 = 0xffff_ffff_ffff_ffff;

/// Where the engine stands in a pass over the stages.
#[derive(Clone, Copy, PartialEq, Eq, Debug, Structural)]
pub enum Phase {
    /// Between passes.
    Idle,
    /// The systems of the stage are running.
    RunningStage(usize),
    /// The commands of the stage are being applied.
    FlushingStage(usize),
    /// The last stage is done.
    TickComplete,
}

impl Phase {
    /// The phase that follows in a schedule of `stages` stages.
    pub open spec fn after(self, stages: nat) -> Phase {
        match self {
            Phase::Idle => if stages > 0 {
                Phase::RunningStage(0)
            } else {
                Phase::TickComplete
            },
            Phase::RunningStage(i) => Phase::FlushingStage(i),
            Phase::FlushingStage(i) => if i + 1 < stages {
                Phase::RunningStage((i + 1) as usize)
            } else {
                Phase::TickComplete
            },
            Phase::TickComplete => Phase::Idle,
        }
    }

    /// Executable form of [`Phase::after`].
    pub fn next(self, stages: usize) -> (p: Phase)
        ensures
            p == self.after(stages as nat),
    {
        match self {
            Phase::Idle => if stages > 0 {
                Phase::RunningStage(0)
            } else {
                Phase::TickComplete
            },
            Phase::RunningStage(i) => Phase::FlushingStage(i),
            Phase::FlushingStage(i) => if stages > 0 && i < stages - 1 {
                Phase::RunningStage(i + 1)
            } else {
                Phase::TickComplete
            },
            Phase::TickComplete => Phase::Idle,
        }
    }
}

/// A system that could not be run.
#[derive(Clone, Copy, PartialEq, Eq, Debug, Structural)]
pub struct Report {
    /// The number of ticks completed before.
    pub tick: u64,
    /// The position of the stage in the schedule.
    pub stage: usize,
    /// The number of the system in its stage.
    pub system: usize,
    /// Why the system could not be run.
    pub error: EngineError,
}

/// The mathematical state of an [`App`].
pub struct AppView<V> {
    pub world: WorldView<V>,
    pub stages: Seq<StageView>,
    pub phase: Phase,
    /// Whether the startup stages have run.
    pub started: bool,
    /// Whether an exit event has stopped the engine.
    pub stopped: bool,
    /// Number of completed ticks.
    pub ticks: u64,
    /// The first error met while the engine was set up.
    pub failure: Option<EngineError>,
    /// The systems that could not be run, oldest first.
    pub reports: Seq<Report>,
}

/// The stages of a new engine: one startup stage, then five that run on
/// every tick.
pub open spec fn core_stages() -> Seq<StageView> {
    seq![
        empty_stage("Startup"@, true),
        empty_stage("First"@, false),
        empty_stage("PreUpdate"@, false),
        empty_stage("Update"@, false),
        empty_stage("PostUpdate"@, false),
        empty_stage("Last"@, false),
    ]
}

/// The first error of a setup: the one kept so far, else that of `r`.
pub open spec fn latched(failure: Option<EngineError>, r: Result<(), EngineError>) -> Option<
    EngineError,
> {
    if failure is Some {
        failure
    } else {
        match r {
            Ok(_) => None,
            Err(e) => Some(e),
        }
    }
}

/// What the buffers hold.
pub open spec fn buffer_views<V>(buffers: Seq<CommandBuffer<V>>) -> Seq<Seq<Command<V>>> {
    Seq::new(buffers.len(), |i: int| buffers[i]@)
}

impl<V> AppView<V> {
    /// Whether the constraints of every stage can be met.
    pub open spec fn runnable(self) -> bool {
        forall|i: int|
            0 <= i < self.stages.len() ==> schedulable(
                (#[trigger] self.stages[i]).systems.len(),
                runs_before(self.stages[i].systems),
            )
    }

    /// Why the engine cannot run, if it cannot: the first error of its
    /// setup, else `OrderingCycle` if a stage has constraints that cannot
    /// all be met.
    pub open spec fn blocked(self) -> Option<EngineError> {
        if self.failure is Some {
            self.failure
        } else if !self.runnable() {
            Some(EngineError::OrderingCycle)
        } else {
            None
        }
    }

    /// The state after a pass over the stages: over the startup stages if
    /// `startup`, else over the others.  `outcomes` holds, for every stage,
    /// what each of its systems asks for at its turn.  After the last stage
    /// the event buffers are turned over, and the engine is stopped if an
    /// exit event was written during the pass.
    pub open spec fn passed(self, startup: bool, outcomes: Seq<Seq<Outcome<V>>>) -> AppView<V> {
        let done = (Progress {
            world: self.world,
            buffers: Seq::empty(),
            reports: self.reports,
        }).stages(self.ticks, self.stages, startup, outcomes);
        let world = done.world.turn_over();
        AppView {
            world,
            reports: done.reports,
            stopped: self.stopped || world.events.read(APP_EXIT).len() > 0,
            phase: Phase::Idle,
            ..self
        }
    }

    /// The state after `start`: as it was if the engine has started; else
    /// the startup stages are passed over, and the engine has started.
    pub open spec fn started_with(self, outcomes: Seq<Seq<Outcome<V>>>) -> AppView<V> {
        if self.started {
            self
        } else {
            AppView { started: true, ..self.passed(true, outcomes) }
        }
    }

    /// The state after a tick of an engine that has started: as it was if
    /// the engine is stopped; else the stages that are no startup stages are
    /// passed over, and one more tick is counted, up to the largest count.
    pub open spec fn ticked_with(self, outcomes: Seq<Seq<Outcome<V>>>) -> AppView<V> {
        if self.stopped {
            self
        } else {
            AppView {
                ticks: if self.ticks < u64::MAX {
                    (self.ticks + 1) as u64
                } else {
                    self.ticks
                },
                ..self.passed(false, outcomes)
            }
        }
    }
}

/// How far a pass over the stages has come.
pub struct Progress<V> {
    pub world: WorldView<V>,
    /// The commands kept of each system that has had its turn in the stage
    /// under way.
    pub buffers: Seq<Seq<Command<V>>>,
    pub reports: Seq<Report>,
}

impl<V> Progress<V> {
    /// The state after the turn of one system, which asks for `outcome`.
    /// Where its parameters cannot be bound, the system is not run, and
    /// that is reported.
    pub open spec fn turn(
        self,
        tick: u64,
        stage: usize,
        system: usize,
        access: AccessView,
        outcome: Outcome<V>,
    ) -> Self {
        Progress {
            world: self.world.ran(access, outcome),
            buffers: self.buffers.push(self.world.kept(access, outcome)),
            reports: match self.world.binding_error(access) {
                Some(error) => self.reports.push(Report { tick, stage, system, error }),
                None => self.reports,
            },
        }
    }

    /// The state after the turns of the systems `order`, first to last.
    pub open spec fn turns(
        self,
        tick: u64,
        stage: usize,
        systems: Seq<SystemView>,
        order: Seq<usize>,
        outcomes: Seq<Outcome<V>>,
    ) -> Self
        decreases order.len(),
    {
        if order.len() == 0 {
            self
        } else {
            self.turns(tick, stage, systems, order.drop_last(), outcomes.drop_last()).turn(
                tick,
                stage,
                order.last(),
                systems[order.last() as int].access,
                outcomes.last(),
            )
        }
    }

    /// The state after the commands kept are applied, in the order in which
    /// the systems had their turns.
    pub open spec fn flushed(self) -> Self {
        Progress { world: self.world.flush_each(self.buffers), buffers: Seq::empty(), ..self }
    }

    /// The state after those of `stages` that are startup stages, if
    /// `startup`, or that are none, if not: each runs its systems in their
    /// order and then has their commands applied.
    pub open spec fn stages(
        self,
        tick: u64,
        stages: Seq<StageView>,
        startup: bool,
        outcomes: Seq<Seq<Outcome<V>>>,
    ) -> Self
        decreases stages.len(),
    {
        if stages.len() == 0 {
            self
        } else {
            let before = self.stages(tick, stages.drop_last(), startup, outcomes.drop_last());
            if stages.last().startup == startup {
                before.turns(
                    tick,
                    (stages.len() - 1) as usize,
                    stages.last().systems,
                    stage_order(stages.last().systems),
                    outcomes.last(),
                ).flushed()
            } else {
                before
            }
        }
    }
}

/// The engine.
pub struct App<V, S: System<V>> {
    world: World<V>,
    schedule: Schedule<S>,
    phase: Phase,
    started: bool,
    stopped: bool,
    ticks: u64,
    failure: Option<EngineError>,
    reports: Vec<Report>,
}

impl<V, S: System<V>> View for App<V, S> {
    type V = AppView<V>;

    closed spec fn view(&self) -> AppView<V> {
        AppView {
            world: self.world@,
            stages: self.schedule@,
            phase: self.phase,
            started: self.started,
            stopped: self.stopped,
            ticks: self.ticks,
            failure: self.failure,
            reports: self.reports@,
        }
    }
}

impl<V, S: System<V>> App<V, S> {
    /// The systems of each stage.
    pub closed spec fn systems(&self) -> Seq<Seq<S>> {
        self.schedule.systems()
    }

    /// The world is sound, the exit event is registered, and no pass is
    /// under way.
    pub closed spec fn wf(&self) -> bool {
        &&& self.world.wf()
        &&& self.world@.events.registered(APP_EXIT)
        &&& self.phase == Phase::Idle
    }

    /// An engine with the core stages, an empty world, and the exit event
    /// registered.
    pub fn new() -> (app: Self)
        ensures
            app.wf(),
            app@.stages == core_stages(),
            app@.world == (WorldView {
                events: WorldView::<V>::blank().events.register(APP_EXIT),
                ..WorldView::<V>::blank()
            }),
            app@.phase == Phase::Idle,
            !app@.started,
            !app@.stopped,
            app@.ticks == 0,
            app@.failure is None,
            app@.reports == Seq::<Report>::empty(),
            app.systems() == Seq::new(6, |i: int| Seq::<S>::empty()),
    {
        let mut schedule: Schedule<S> = Schedule::new();
        schedule.push_stage("Startup", true);
        schedule.push_stage("First", false);
        schedule.push_stage("PreUpdate", false);
        schedule.push_stage("Update", false);
        schedule.push_stage("PostUpdate", false);
        schedule.push_stage("Last", false);
        assert(schedule@ =~= core_stages());
        assert(schedule.systems() =~= Seq::new(6, |i: int| Seq::<S>::empty()));
        let mut world: World<V> = World::new();
        world.register_event(APP_EXIT);
        App {
            world,
            schedule,
            phase: Phase::Idle,
            started: false,
            stopped: false,
            ticks: 0,
            failure: None,
            reports: Vec::new(),
        }
    }

    /// Keeps the first error of the setup.
    fn latch(&mut self, r: Result<(), EngineError>)
        ensures
            final(self)@ == (AppView { failure: latched(old(self)@.failure, r), ..old(self)@ }),
            final(self).wf() == old(self).wf(),
            final(self).systems() == old(self).systems(),
    {
        if self.failure.is_none() {
            match r {
                Ok(_) => {},
                Err(e) => {
                    self.failure = Some(e);
                },
            }
        }
    }

    /// Registers the component type `tag`.
    pub fn register_component(&mut self, tag: u64)
        requires
            old(self).wf(),
        ensures
            final(self).wf(),
            final(self)@ == (AppView {
                world: WorldView {
                    component_types: old(self)@.world.component_types.insert(tag),
                    ..old(self)@.world
                },
                ..old(self)@
            }),
            final(self).systems() == old(self).systems(),
    {
        self.world.register_component(tag);
    }

    /// Registers the resource type `tag`, without a value.
    pub fn register_resource(&mut self, tag: u64)
        requires
            old(self).wf(),
        ensures
            final(self).wf(),
            final(self)@ == (AppView {
                world: WorldView {
                    resource_types: old(self)@.world.resource_types.insert(tag),
                    ..old(self)@.world
                },
                ..old(self)@
            }),
            final(self).systems() == old(self).systems(),
    {
        self.world.register_resource(tag);
    }

    /// Registers the event type `tag`.
    pub fn register_event(&mut self, tag: u64)
        requires
            old(self).wf(),
        ensures
            final(self).wf(),
            final(self)@ == (AppView {
                world: WorldView {
                    events: old(self)@.world.events.register(tag),
                    ..old(self)@.world
                },
                ..old(self)@
            }),
            final(self).systems() == old(self).systems(),
    {
        self.world.register_event(tag);
    }

    /// Registers the resource type `tag` and stores `value` as its value.
    pub fn insert_resource(&mut self, tag: u64, value: V)
        requires
            old(self).wf(),
        ensures
            final(self).wf(),
            final(self)@ == (AppView {
                world: WorldView {
                    resource_types: old(self)@.world.resource_types.insert(tag),
                    resources: old(self)@.world.resources.insert(tag, value),
                    ..old(self)@.world
                },
                ..old(self)@
            }),
            final(self).systems() == old(self).systems(),
    {
        self.world.insert_resource(tag, value);
    }

    /// Spawns an entity with the components `items`.
    pub fn spawn(&mut self, items: Vec<(u64, V)>) -> (e: Entity)
        requires
            old(self).wf(),
        ensures
            final(self).wf(),
            e == old(self)@.world.storage.next_entity(),
            final(self)@ == (AppView {
                world: WorldView {
                    storage: old(self)@.world.storage.spawn(items@),
                    ..old(self)@.world
                },
                ..old(self)@
            }),
            final(self).systems() == old(self).systems(),
    {
        self.world.spawn(items)
    }

    /// Adds a stage named `name` directly before the first stage named
    /// `reference`.  Fails with `UnknownStage` when there is none; the
    /// engine then cannot start.
    pub fn add_stage_before(&mut self, reference: &str, name: &str) -> (r: Result<(), EngineError>)
        requires
            old(self).wf(),
        ensures
            final(self).wf(),
            r == (if has_stage(old(self)@.stages, reference@) {
                Ok::<(), EngineError>(())
            } else {
                Err::<(), EngineError>(EngineError::UnknownStage)
            }),
            final(self)@ == (AppView {
                stages: if r is Ok {
                    let i = stage_position(old(self)@.stages, reference@);
                    old(self)@.stages.insert(i, empty_stage(name@, old(self)@.stages[i].startup))
                } else {
                    old(self)@.stages
                },
                failure: latched(old(self)@.failure, r),
                ..old(self)@
            }),
            final(self).systems() == (if r is Ok {
                old(self).systems().insert(
                    stage_position(old(self)@.stages, reference@),
                    Seq::empty(),
                )
            } else {
                old(self).systems()
            }),
    {
        let r = self.schedule.add_stage(reference, name, false);
        self.latch(r);
        r
    }

    /// Adds a stage named `name` directly after the first stage named
    /// `reference`.  Fails with `UnknownStage` when there is none; the
    /// engine then cannot start.
    pub fn add_stage_after(&mut self, reference: &str, name: &str) -> (r: Result<(), EngineError>)
        requires
            old(self).wf(),
        ensures
            final(self).wf(),
            r == (if has_stage(old(self)@.stages, reference@) {
                Ok::<(), EngineError>(())
            } else {
                Err::<(), EngineError>(EngineError::UnknownStage)
            }),
            final(self)@ == (AppView {
                stages: if r is Ok {
                    let i = stage_position(old(self)@.stages, reference@);
                    old(self)@.stages.insert(
                        i + 1,
                        empty_stage(name@, old(self)@.stages[i].startup),
                    )
                } else {
                    old(self)@.stages
                },
                failure: latched(old(self)@.failure, r),
                ..old(self)@
            }),
            final(self).systems() == (if r is Ok {
                old(self).systems().insert(
                    stage_position(old(self)@.stages, reference@) + 1,
                    Seq::empty(),
                )
            } else {
                old(self).systems()
            }),
    {
        let r = self.schedule.add_stage(reference, name, true);
        self.latch(r);
        r
    }

    /// Registers `system` in the first stage named `stage`.  Fails with
    /// `ConflictingAccess` when one of the system's queries asks for a
    /// component type both read-only and mutably, else with `UnknownStage`
    /// when no stage is named `stage`; the engine then cannot start.
    pub fn add_system_to_stage(&mut self, stage: &str, descriptor: SystemDescriptor, system: S) -> (r:
        Result<(), EngineError>)
        requires
            old(self).wf(),
        ensures
            final(self).wf(),
            r == (if rejected(descriptor.params@) {
                Err::<(), EngineError>(EngineError::ConflictingAccess)
            } else if !has_stage(old(self)@.stages, stage@) {
                Err::<(), EngineError>(EngineError::UnknownStage)
            } else {
                Ok::<(), EngineError>(())
            }),
            final(self)@ == (AppView {
                stages: if r is Ok {
                    let i = stage_position(old(self)@.stages, stage@);
                    old(self)@.stages.update(
                        i,
                        with_system(old(self)@.stages[i], SystemView::of(descriptor)),
                    )
                } else {
                    old(self)@.stages
                },
                failure: latched(old(self)@.failure, r),
                ..old(self)@
            }),
            final(self).systems() == (if r is Ok {
                let i = stage_position(old(self)@.stages, stage@);
                old(self).systems().update(i, old(self).systems()[i].push(system))
            } else {
                old(self).systems()
            }),
    {
        let r = self.schedule.add_system(stage, descriptor, system);
        self.latch(r);
        r
    }

    /// Registers `system` in the stage `Update`.
    pub fn add_system(&mut self, descriptor: SystemDescriptor, system: S) -> (r: Result<
        (),
        EngineError,
    >)
        requires
            old(self).wf(),
        ensures
            final(self).wf(),
            r == (if rejected(descriptor.params@) {
                Err::<(), EngineError>(EngineError::ConflictingAccess)
            } else if !has_stage(old(self)@.stages, "Update"@) {
                Err::<(), EngineError>(EngineError::UnknownStage)
            } else {
                Ok::<(), EngineError>(())
            }),
            final(self)@ == (AppView {
                stages: if r is Ok {
                    let i = stage_position(old(self)@.stages, "Update"@);
                    old(self)@.stages.update(
                        i,
                        with_system(old(self)@.stages[i], SystemView::of(descriptor)),
                    )
                } else {
                    old(self)@.stages
                },
                failure: latched(old(self)@.failure, r),
                ..old(self)@
            }),
            final(self).systems() == (if r is Ok {
                let i = stage_position(old(self)@.stages, "Update"@);
                old(self).systems().update(i, old(self).systems()[i].push(system))
            } else {
                old(self).systems()
            }),
    {
        self.add_system_to_stage("Update", descriptor, system)
    }

    /// Registers `system` in the stage `Startup`.
    pub fn add_startup_system(&mut self, descriptor: SystemDescriptor, system: S) -> (r: Result<
        (),
        EngineError,
    >)
        requires
            old(self).wf(),
        ensures
            final(self).wf(),
            r == (if rejected(descriptor.params@) {
                Err::<(), EngineError>(EngineError::ConflictingAccess)
            } else if !has_stage(old(self)@.stages, "Startup"@) {
                Err::<(), EngineError>(EngineError::UnknownStage)
            } else {
                Ok::<(), EngineError>(())
            }),
            final(self)@ == (AppView {
                stages: if r is Ok {
                    let i = stage_position(old(self)@.stages, "Startup"@);
                    old(self)@.stages.update(
                        i,
                        with_system(old(self)@.stages[i], SystemView::of(descriptor)),
                    )
                } else {
                    old(self)@.stages
                },
                failure: latched(old(self)@.failure, r),
                ..old(self)@
            }),
            final(self).systems() == (if r is Ok {
                let i = stage_position(old(self)@.stages, "Startup"@);
                old(self).systems().update(i, old(self).systems()[i].push(system))
            } else {
                old(self).systems()
            }),
    {
        self.add_system_to_stage("Startup", descriptor, system)
    }

    /// The world.
    pub fn world(&self) -> (world: &World<V>)
        requires
            self.wf(),
        ensures
            world.wf(),
            world@ == self@.world,
    {
        &self.world
    }

    /// Number of stages.
    pub fn stage_count(&self) -> (n: usize)
        ensures
            n == self@.stages.len(),
    {
        self.schedule.len()
    }

    /// Stage `i` of the schedule.
    pub fn stage(&self, i: usize) -> (stage: &Stage<S>)
        requires
            i < self@.stages.len(),
        ensures
            stage@ == self@.stages[i as int],
            stage.systems() == self.systems()[i as int],
    {
        self.schedule.stage(i)
    }

    /// The position of the first stage named `name`.
    pub fn find_stage(&self, name: &str) -> (r: Option<usize>)
        ensures
            match r {
                Some(i) => has_stage(self@.stages, name@) && i == stage_position(
                    self@.stages,
                    name@,
                ),
                None => !has_stage(self@.stages, name@),
            },
    {
        self.schedule.find(name)
    }

    /// Whether the startup stages have run.
    pub fn is_started(&self) -> (b: bool)
        ensures
            b == self@.started,
    {
        self.started
    }

    /// Whether an exit event has stopped the engine.
    pub fn is_stopped(&self) -> (b: bool)
        ensures
            b == self@.stopped,
    {
        self.stopped
    }

    /// Number of completed ticks.
    pub fn ticks(&self) -> (n: u64)
        ensures
            n == self@.ticks,
    {
        self.ticks
    }

    /// Where the engine stands: `Idle` whenever it can be asked.
    pub fn phase(&self) -> (p: Phase)
        ensures
            p == self@.phase,
    {
        self.phase
    }

    /// The first error met while the engine was set up.
    pub fn failure(&self) -> (e: Option<EngineError>)
        ensures
            e == self@.failure,
    {
        self.failure
    }

    /// The systems that could not be run, oldest first.
    pub fn reports(&self) -> (reports: &Vec<Report>)
        ensures
            reports@ == self@.reports,
    {
        &self.reports
    }

    /// The plan of every stage.  Fails with `OrderingCycle` when a stage has
    /// constraints that cannot all be met.
    pub fn plans(&self) -> (r: Result<Vec<Vec<Vec<usize>>>, EngineError>)
        ensures
            match r {
                Ok(plans) => self@.runnable() && plans@.len() == self@.stages.len() && forall|
                    i: int,
                |
                    0 <= i < plans@.len() ==> is_schedule(
                        (#[trigger] plans@[i])@,
                        self@.stages[i].systems,
                    ),
                Err(e) => e == EngineError::OrderingCycle && !self@.runnable(),
            },
    {
        let mut plans: Vec<Vec<Vec<usize>>> = Vec::new();
        let mut i: usize = 0;
        while i < self.schedule.len()
            invariant
                i <= self@.stages.len(),
                plans@.len() == i,
                forall|k: int|
                    0 <= k < i ==> is_schedule((#[trigger] plans@[k])@, self@.stages[k].systems),
                forall|k: int|
                    0 <= k < i ==> schedulable(
                        (#[trigger] self@.stages[k]).systems.len(),
                        runs_before(self@.stages[k].systems),
                    ),
            decreases self@.stages.len() - i,
        {
            match self.schedule.stage(i).plan() {
                Ok(groups) => {
                    proof {
                        let systems = self@.stages[i as int].systems;
                        assert(is_order(concat(groups@), systems.len()) && respects(
                            concat(groups@),
                            runs_before(systems),
                        ));
                    }
                    plans.push(groups);
                },
                Err(e) => {
                    return Err(e);
                },
            }
            i += 1;
        }
        Ok(plans)
    }

    /// Gives the systems of stage `i` their turns, in the order of its plan.
    /// Hands back the commands kept of each, in that order.
    fn run_systems(&mut self, i: usize, groups: &Vec<Vec<usize>>) -> (buffers: Vec<
        CommandBuffer<V>,
    >)
        requires
            old(self).world.wf(),
            i < old(self)@.stages.len(),
            is_schedule(groups@, old(self)@.stages[i as int].systems),
        ensures
            final(self).world.wf(),
            final(self).systems() == old(self).systems(),
            final(self)@.world.same_shape(old(self)@.world),
            final(self)@ == (AppView {
                world: final(self)@.world,
                reports: final(self)@.reports,
                ..old(self)@
            }),
            exists|outcomes: Seq<Outcome<V>>| #[trigger]
                (Progress {
                    world: old(self)@.world,
                    buffers: Seq::empty(),
                    reports: old(self)@.reports,
                }).turns(
                    old(self)@.ticks,
                    i,
                    old(self)@.stages[i as int].systems,
                    concat(groups@),
                    outcomes,
                ) == (Progress {
                    world: final(self)@.world,
                    buffers: buffer_views(buffers@),
                    reports: final(self)@.reports,
                }),
    {
        let ghost start = Progress {
            world: self@.world,
            buffers: Seq::<Seq<Command<V>>>::empty(),
            reports: self@.reports,
        };
        let ghost systems = self@.stages[i as int].systems;
        let ghost order = concat(groups@);
        let ghost mut outcomes = Seq::<Outcome<V>>::empty();
        let mut buffers: Vec<CommandBuffer<V>> = Vec::new();
        let mut g: usize = 0;
        proof {
            assert(concat(groups@.take(0)) =~= Seq::<usize>::empty());
            assert(order.take(0) =~= Seq::<usize>::empty());
            assert(buffer_views(buffers@) =~= Seq::<Seq<Command<V>>>::empty());
        }
        while g < groups.len()
            invariant
                g <= groups@.len(),
                self.world.wf(),
                i < self@.stages.len(),
                systems == self@.stages[i as int].systems,
                order == concat(groups@),
                is_schedule(groups@, systems),
                self.systems() == old(self).systems(),
                self@.world.same_shape(old(self)@.world),
                self@ == (AppView { world: self@.world, reports: self@.reports, ..old(self)@ }),
                buffers@.len() == offset(groups@, g as int),
                buffers@.len() <= order.len(),
                start.turns(
                    old(self)@.ticks,
                    i,
                    systems,
                    order.take(buffers@.len() as int),
                    outcomes,
                ) == (Progress {
                    world: self@.world,
                    buffers: buffer_views(buffers@),
                    reports: self@.reports,
                }),
            decreases groups@.len() - g,
        {
            let group = &groups[g];
            let mut k: usize = 0;
            while k < group.len()
                invariant
                    g < groups@.len(),
                    group == groups@[g as int],
                    k <= group@.len(),
                    self.world.wf(),
                    i < self@.stages.len(),
                    systems == self@.stages[i as int].systems,
                    order == concat(groups@),
                    is_schedule(groups@, systems),
                    self.systems() == old(self).systems(),
                    self@.world.same_shape(old(self)@.world),
                    self@ == (AppView { world: self@.world, reports: self@.reports, ..old(self)@ }),
                    buffers@.len() == offset(groups@, g as int) + k,
                    buffers@.len() <= order.len(),
                    start.turns(
                        old(self)@.ticks,
                        i,
                        systems,
                        order.take(buffers@.len() as int),
                        outcomes,
                    ) == (Progress {
                        world: self@.world,
                        buffers: buffer_views(buffers@),
                        reports: self@.reports,
                    }),
                decreases group@.len() - k,
            {
                let system = group[k];
                proof {
                    lemma_concat_index(groups@, g as int, k as int);
                }
                let ghost before = Progress {
                    world: self@.world,
                    buffers: buffer_views(buffers@),
                    reports: self@.reports,
                };
                let ghost done = buffers@.len() as int;
                let stage = self.schedule.stage(i);
                let access = stage.access(system);
                let r = self.world.run(access, stage.system(system));
                let ghost outcome = choose|outcome: Outcome<V>| #[trigger]
                    before.world.ran(access@, outcome) == self@.world && (match r {
                        Ok(buffer) => buffer@ == before.world.kept(access@, outcome),
                        Err(e) => true,
                    });
                match r {
                    Ok(buffer) => {
                        buffers.push(buffer);
                    },
                    Err(error) => {
                        self.reports.push(Report { tick: self.ticks, stage: i, system, error });
                        buffers.push(CommandBuffer::new());
                    },
                }
                proof {
                    let longer = order.take(done + 1);
                    assert(longer.drop_last() =~= order.take(done));
                    assert(longer.last() == system);
                    assert(outcomes.push(outcome).drop_last() =~= outcomes);
                    assert(buffer_views(buffers@) =~= before.buffers.push(
                        before.world.kept(access@, outcome),
                    ));
                    outcomes = outcomes.push(outcome);
                }
                k += 1;
            }
            proof {
                assert(groups@.take(g + 1).drop_last() =~= groups@.take(g as int));
            }
            g += 1;
        }
        proof {
            assert(groups@.take(groups@.len() as int) =~= groups@);
            assert(order.take(order.len() as int) =~= order);
        }
        buffers
    }

    /// Applies the commands of each buffer, first buffer to last.
    fn flush_all(&mut self, buffers: Vec<CommandBuffer<V>>)
        requires
            old(self).world.wf(),
        ensures
            final(self).world.wf(),
            final(self)@ == (AppView {
                world: old(self)@.world.flush_each(buffer_views(buffers@)),
                ..old(self)@
            }),
            final(self).systems() == old(self).systems(),
    {
        let ghost all = buffer_views(buffers@);
        let ghost held = buffers@;
        for buffer in it: buffers
            invariant
                self.world.wf(),
                it.seq() == held,
                all == buffer_views(held),
                self@ == (AppView {
                    world: old(self)@.world.flush_each(all.take(it.index() as int)),
                    ..old(self)@
                }),
                self.systems() == old(self).systems(),
        {
            let ghost k = it.index() as int;
            proof {
                assert(all.take(k + 1).drop_last() =~= all.take(k));
                assert(all.take(k + 1).last() == buffer@);
            }
            self.world.flush(buffer);
        }
        proof {
            assert(all.take(all.len() as int) =~= all);
        }
    }

    /// One pass over the stages: over the startup stages if `startup`, else
    /// over the others.  Each stage gives its systems their turns and then
    /// applies their commands.  After the last stage the event buffers are
    /// turned over, and the engine stops if an exit event was written.
    fn pass(&mut self, plans: &Vec<Vec<Vec<usize>>>, startup: bool)
        requires
            old(self).wf(),
            plans@.len() == old(self)@.stages.len(),
            forall|i: int|
                0 <= i < plans@.len() ==> is_schedule(
                    (#[trigger] plans@[i])@,
                    old(self)@.stages[i].systems,
                ),
        ensures
            final(self).wf(),
            final(self).systems() == old(self).systems(),
            exists|outcomes: Seq<Seq<Outcome<V>>>| #[trigger]
                old(self)@.passed(startup, outcomes) == final(self)@,
    {
        let ghost start = Progress {
            world: self@.world,
            buffers: Seq::<Seq<Command<V>>>::empty(),
            reports: self@.reports,
        };
        let ghost stages = self@.stages;
        let ghost mut outcomes = Seq::<Seq<Outcome<V>>>::empty();
        let count = self.schedule.len();
        self.phase = self.phase.next(count);
        let mut i: usize = 0;
        proof {
            assert(stages.take(0) =~= Seq::<StageView>::empty());
        }
        while i < count
            invariant
                i <= count,
                count == stages.len(),
                stages == self@.stages,
                count <= usize::MAX,
                plans@.len() == count,
                forall|k: int|
                    0 <= k < plans@.len() ==> is_schedule((#[trigger] plans@[k])@, stages[k].systems),
                self.world.wf(),
                self.systems() == old(self).systems(),
                self.phase == (if i < count {
                    Phase::RunningStage(i)
                } else {
                    Phase::TickComplete
                }),
                self@.world.events.current.dom() == old(self)@.world.events.current.dom(),
                self@ == (AppView {
                    world: self@.world,
                    reports: self@.reports,
                    phase: self@.phase,
                    ..old(self)@
                }),
                start.stages(old(self)@.ticks, stages.take(i as int), startup, outcomes)
                    == (Progress {
                    world: self@.world,
                    buffers: Seq::<Seq<Command<V>>>::empty(),
                    reports: self@.reports,
                }),
            decreases count - i,
        {
            let ghost before = Progress {
                world: self@.world,
                buffers: Seq::<Seq<Command<V>>>::empty(),
                reports: self@.reports,
            };
            let ghost systems = stages[i as int].systems;
            let ghost mut turns = Seq::<Outcome<V>>::empty();
            proof {
                assert(stages.take(i + 1).drop_last() =~= stages.take(i as int));
                assert(stages.take(i + 1).last() == stages[i as int]);
            }
            proof {
                self.schedule.lemma_stage_sizes();
            }
            let buffers = if self.schedule.stage(i).is_startup() == startup {
                let buffers = self.run_systems(i, &plans[i]);
                proof {
                    let order = concat(plans@[i as int]@);
                    turns = choose|turns: Seq<Outcome<V>>| #[trigger]
                        before.turns(old(self)@.ticks, i, systems, order, turns) == (Progress {
                            world: self@.world,
                            buffers: buffer_views(buffers@),
                            reports: self@.reports,
                        });
                    lemma_order_is_unique(
                        order,
                        stage_order(systems),
                        systems.len(),
                        runs_before(systems),
                    );
                }
                buffers
            } else {
                let buffers = Vec::new();
                assert(buffer_views(buffers@) =~= Seq::<Seq<Command<V>>>::empty());
                buffers
            };
            self.phase = self.phase.next(count);
            assert(self.phase == Phase::FlushingStage(i));
            proof {
                lemma_flush_keeps_rest(self@.world, buffer_views(buffers@));
            }
            self.flush_all(buffers);
            self.phase = self.phase.next(count);
            proof {
                assert(outcomes.push(turns).drop_last() =~= outcomes);
                outcomes = outcomes.push(turns);
            }
            i += 1;
        }
        assert(self.phase == Phase::TickComplete);
        self.world.turn_over();
        let exits = match self.world.events().read(APP_EXIT) {
            Ok(events) => events.len(),
            Err(_) => 0,
        };
        if exits > 0 {
            self.stopped = true;
        }
        self.phase = self.phase.next(count);
        proof {
            assert(stages.take(count as int) =~= stages);
            assert(old(self)@.passed(startup, outcomes) == self@);
        }
    }

    /// Runs the startup stages, once.  Fails, and runs nothing, when the
    /// engine is blocked.  Does nothing when the engine has started.
    pub fn start(&mut self) -> (r: Result<(), EngineError>)
        requires
            old(self).wf(),
        ensures
            final(self).wf(),
            final(self).systems() == old(self).systems(),
            r == (match old(self)@.blocked() {
                Some(e) => Err::<(), EngineError>(e),
                None => Ok::<(), EngineError>(()),
            }),
            r is Err ==> final(self)@ == old(self)@,
            r is Ok ==> exists|outcomes: Seq<Seq<Outcome<V>>>| #[trigger]
                old(self)@.started_with(outcomes) == final(self)@,
    {
        if let Some(e) = self.failure {
            return Err(e);
        }
        let plans = match self.plans() {
            Ok(plans) => plans,
            Err(e) => {
                return Err(e);
            },
        };
        if !self.started {
            self.pass(&plans, true);
            proof {
                let outcomes = choose|outcomes: Seq<Seq<Outcome<V>>>| #[trigger]
                    old(self)@.passed(true, outcomes) == self@;
                assert(old(self)@.started_with(outcomes) == (AppView { started: true, ..self@ }));
            }
            self.started = true;
        } else {
            assert(old(self)@.started_with(Seq::empty()) == self@);
        }
        Ok(())
    }

    /// Runs one tick: every stage but the startup stages, once, in
    /// sequence.  The startup stages are run first if they have not run
    /// yet.  Fails, and runs nothing, when the engine is blocked.  Runs no
    /// stage when the engine is stopped, or is stopped by the startup
    /// stages.
    pub fn tick(&mut self) -> (r: Result<(), EngineError>)
        requires
            old(self).wf(),
        ensures
            final(self).wf(),
            final(self).systems() == old(self).systems(),
            r == (match old(self)@.blocked() {
                Some(e) => Err::<(), EngineError>(e),
                None => Ok::<(), EngineError>(()),
            }),
            r is Err ==> final(self)@ == old(self)@,
            r is Ok ==> exists|first: Seq<Seq<Outcome<V>>>, second: Seq<Seq<Outcome<V>>>| #[trigger]
                old(self)@.started_with(first).ticked_with(second) == final(self)@,
    {
        if let Some(e) = self.failure {
            return Err(e);
        }
        let plans = match self.plans() {
            Ok(plans) => plans,
            Err(e) => {
                return Err(e);
            },
        };
        let ghost mut first = Seq::<Seq<Outcome<V>>>::empty();
        let ghost mut second = Seq::<Seq<Outcome<V>>>::empty();
        if !self.started {
            self.pass(&plans, true);
            proof {
                first = choose|outcomes: Seq<Seq<Outcome<V>>>| #[trigger]
                    old(self)@.passed(true, outcomes) == self@;
            }
            self.started = true;
        }
        let ghost started = self@;
        assert(old(self)@.started_with(first) == started);
        if !self.stopped {
            self.pass(&plans, false);
            proof {
                second = choose|outcomes: Seq<Seq<Outcome<V>>>| #[trigger]
                    started.passed(false, outcomes) == self@;
            }
            if self.ticks < u64::MAX {
                self.ticks = self.ticks + 1;
            }
        }
        assert(started.ticked_with(second) == self@);
        Ok(())
    }
}

} // verus!
