//! What the engine guarantees across its parts.
//!
//! The statements here are about the mathematical states of the world and of
//! the schedule.  The executable functions are tied to those states by their
//! own contracts.

use vstd::prelude::*;
use crate::access::{lemma_conflicts_symmetric, AccessView};
use crate::app::{AppView, Progress};
use crate::commands::Command;
use crate::order::{
    compatible,
    concat,
    earliest,
    is_order,
    lemma_concat_index,
    lemma_order_is_unique,
    lemma_pigeonhole,
    lemma_plan_is_unique,
    lemma_respects_placed,
    offset,
    ready,
    respects,
};
use crate::schedule::{
    in_conflict,
    is_schedule,
    runs_before,
    stage_order,
    StageView,
    SystemView,
};
use crate::storage::{Entity, StorageView};
use crate::world::{lemma_writes_keep_shape, Outcome, WorldView, Write};

verus! {

// ---------------------------------------------------------------------------
// Storage
// ---------------------------------------------------------------------------
/// Every change keeps a sound storage sound.
pub proof fn lemma_storage_stays_sound<V>(s: StorageView<V>, e: Entity, tag: u64, value: V)
    requires
        s.wf(),
    ensures
        s.spawn_empty().wf(),
        s.insert(e, tag, value).wf(),
        s.remove(e, tag).wf(),
        s.despawn(e).wf(),
{
    let spawned = s.spawn_empty();
    if s.free.len() > 0 {
        assert forall|i: int| 0 <= i < spawned.free.len() implies (#[trigger] spawned.free[i])
            < spawned.alive.len() && !spawned.alive[spawned.free[i] as int] by {
            assert(spawned.free[i] == s.free[i]);
        }
    }
    let gone = s.despawn(e);
    if s.contains(e) && e.generation < u64::MAX {
        assert forall|i: int, j: int|
            0 <= i < gone.free.len() && 0 <= j < gone.free.len() && i != j implies gone.free[i]
            != gone.free[j] by {
            if i < s.free.len() {
                assert(gone.free[i] == s.free[i]);
            }
            if j < s.free.len() {
                assert(gone.free[j] == s.free[j]);
            }
        }
    }
}

/// Attaching components keeps a sound storage sound.
pub proof fn lemma_insert_all_stays_sound<V>(s: StorageView<V>, e: Entity, items: Seq<(u64, V)>)
    requires
        s.wf(),
    ensures
        s.insert_all(e, items).wf(),
        s.insert_all(e, items).generations == s.generations,
        s.insert_all(e, items).alive == s.alive,
        s.insert_all(e, items).free == s.free,
    decreases items.len(),
{
    if items.len() > 0 {
        lemma_insert_all_stays_sound(s, e, items.drop_last());
        lemma_storage_stays_sound(
            s.insert_all(e, items.drop_last()),
            e,
            items.last().0,
            items.last().1,
        );
    }
}

/// A spawn hands out a handle that was not live, and leaves every other
/// entity as it was.
pub proof fn lemma_spawn_is_fresh<V>(s: StorageView<V>, items: Seq<(u64, V)>, other: Entity)
    requires
        s.wf(),
        s.generations.len() <= usize::MAX,
    ensures
        !s.contains(s.next_entity()),
        !s.retired(s.next_entity()),
        s.spawn(items).wf(),
        s.spawn(items).contains(s.next_entity()),
        other != s.next_entity() ==> s.spawn(items).contains(other) == s.contains(other),
{
    let e = s.next_entity();
    lemma_storage_stays_sound(s, e, 0, arbitrary());
    lemma_insert_all_stays_sound(s.spawn_empty(), e, items);
    if s.free.len() > 0 {
        assert(s.free[s.free.len() - 1] == e.index);
        assert(s.free.contains(e.index));
    }
}

/// A despawned handle is retired, and a retired handle stays retired and
/// dead whatever is done to the storage: no handle is ever used twice.
pub proof fn lemma_handles_are_not_reused<V>(
    s: StorageView<V>,
    e: Entity,
    other: Entity,
    tag: u64,
    value: V,
)
    requires
        s.wf(),
    ensures
        s.contains(e) ==> s.despawn(e).retired(e),
        s.retired(e) ==> !s.contains(e),
        s.retired(e) ==> s.spawn_empty().retired(e),
        s.retired(e) ==> s.insert(other, tag, value).retired(e),
        s.retired(e) ==> s.remove(other, tag).retired(e),
        s.retired(e) ==> s.despawn(other).retired(e),
{
    if s.contains(e) {
        if s.free.contains(e.index) {
            let i = s.free.index_of(e.index);
            assert(!s.alive[s.free[i] as int]);
        }
    }
    if s.retired(e) {
        if s.free.len() > 0 {
            let last = s.free.len() - 1;
            assert(s.free.contains(s.free[last]));
            if s.spawn_empty().free.contains(e.index) {
                let i = s.spawn_empty().free.index_of(e.index);
                assert(s.free[i] == e.index);
            }
        }
        if s.contains(other) && s.despawn(other).free.contains(e.index) {
            let i = s.despawn(other).free.index_of(e.index);
            if i < s.free.len() {
                assert(s.free[i] == e.index);
            }
        }
    }
}

// ---------------------------------------------------------------------------
// Commands
// ---------------------------------------------------------------------------
/// While the systems of a stage have their turns, the world keeps its
/// shape: values change, but no entity, component or resource comes or goes.
pub proof fn lemma_turns_keep_shape<V>(
    start: Progress<V>,
    tick: u64,
    stage: usize,
    systems: Seq<SystemView>,
    order: Seq<usize>,
    outcomes: Seq<Outcome<V>>,
)
    ensures
        start.turns(tick, stage, systems, order, outcomes).world.same_shape(start.world),
    decreases order.len(),
{
    if order.len() > 0 {
        lemma_turns_keep_shape(start, tick, stage, systems, order.drop_last(), outcomes.drop_last());
        let before = start.turns(tick, stage, systems, order.drop_last(), outcomes.drop_last());
        lemma_writes_keep_shape(
            before.world,
            systems[order.last() as int].access,
            outcomes.last().writes,
        );
    }
}

/// Two worlds of one shape give the same entities to every query, whoever
/// asks.
pub proof fn lemma_shape_fixes_queries<V>(
    world: WorldView<V>,
    later: WorldView<V>,
    access: AccessView,
    e: Entity,
    tags: Seq<u64>,
)
    requires
        later.same_shape(world),
    ensures
        later.storage.matches(e, tags) == world.storage.matches(e, tags),
        later.visible(access).storage.matches(e, tags) == world.visible(access).storage.matches(
            e,
            tags,
        ),
{
    assert forall|k: (usize, u64)|
        later.storage.components.contains_key(k) == world.storage.components.contains_key(k) by {
        assert(later.storage.components.dom().contains(k) == world.storage.components.dom().contains(
            k,
        ));
    }
    assert forall|k: (usize, u64)|
        later.visible(access).storage.components.contains_key(k) == world.visible(
            access,
        ).storage.components.contains_key(k) by {
        assert(later.storage.components.contains_key(k) == world.storage.components.contains_key(
            k,
        ));
    }
}

/// While the systems of a stage have their turns, every query gives the
/// same entities as at the start of the stage: what the systems record in
/// their command buffers is not in the world before the buffers are
/// applied, which is when all of them have had their turn.
pub proof fn lemma_queries_are_stable<V>(
    start: Progress<V>,
    tick: u64,
    stage: usize,
    systems: Seq<SystemView>,
    order: Seq<usize>,
    outcomes: Seq<Outcome<V>>,
    access: AccessView,
    e: Entity,
    tags: Seq<u64>,
)
    ensures
        ({
            let later = start.turns(tick, stage, systems, order, outcomes).world;
            &&& later.storage.matches(e, tags) == start.world.storage.matches(e, tags)
            &&& later.visible(access).storage.matches(e, tags) == start.world.visible(
                access,
            ).storage.matches(e, tags)
        }),
{
    lemma_turns_keep_shape(start, tick, stage, systems, order, outcomes);
    lemma_shape_fixes_queries(
        start.world,
        start.turns(tick, stage, systems, order, outcomes).world,
        access,
        e,
        tags,
    );
}

/// Once a buffer is applied, a component that it attached last to a live
/// entity is there, and the entity answers queries for its type.
pub proof fn lemma_insert_shows_after_flush<V>(
    world: WorldView<V>,
    earlier: Seq<Command<V>>,
    e: Entity,
    tag: u64,
    value: V,
)
    requires
        world.flush(earlier).storage.contains(e),
    ensures
        world.flush(earlier.push(Command::Insert(e, tag, value))).storage.get(e, tag) == Some(
            value,
        ),
        world.flush(earlier.push(Command::Insert(e, tag, value))).storage.matches(e, seq![tag]),
{
    let buffer = earlier.push(Command::Insert(e, tag, value));
    assert(buffer.drop_last() =~= earlier);
    assert(buffer.last() == Command::Insert(e, tag, value));
}

/// After the components `items` are attached to a live entity, it carries
/// each of their types.
pub proof fn lemma_insert_all_has<V>(s: StorageView<V>, e: Entity, items: Seq<(u64, V)>, i: int)
    requires
        s.contains(e),
        0 <= i < items.len(),
    ensures
        s.insert_all(e, items).contains(e),
        s.insert_all(e, items).has(e, items[i].0),
    decreases items.len(),
{
    lemma_insert_all_keeps(s, e, items);
    if i < items.len() - 1 {
        lemma_insert_all_has(s, e, items.drop_last(), i);
    }
}

/// Attaching components does not despawn.
proof fn lemma_insert_all_keeps<V>(s: StorageView<V>, e: Entity, items: Seq<(u64, V)>)
    requires
        s.contains(e),
    ensures
        s.insert_all(e, items).contains(e),
    decreases items.len(),
{
    if items.len() > 0 {
        lemma_insert_all_keeps(s, e, items.drop_last());
    }
}

/// Once a buffer is applied, an entity that it spawned last is live and
/// carries each of the component types that it was spawned with.
pub proof fn lemma_spawn_shows_after_flush<V>(
    world: WorldView<V>,
    earlier: Seq<Command<V>>,
    items: Vec<(u64, V)>,
    i: int,
)
    requires
        world.flush(earlier).storage.wf(),
        world.flush(earlier).storage.generations.len() <= usize::MAX,
        0 <= i < items@.len(),
    ensures
        ({
            let e = world.flush(earlier).storage.next_entity();
            let after = world.flush(earlier.push(Command::Spawn(items)));
            !world.flush(earlier).storage.contains(e) && after.storage.has(e, items@[i].0)
        }),
{
    let buffer = earlier.push(Command::Spawn(items));
    assert(buffer.drop_last() =~= earlier);
    assert(buffer.last() == Command::Spawn(items));
    let before = world.flush(earlier).storage;
    let e = before.next_entity();
    lemma_spawn_is_fresh(before, items@, e);
    lemma_storage_stays_sound(before, e, 0, arbitrary());
    if before.free.len() > 0 {
        assert(before.free[before.free.len() - 1] == e.index);
    }
    lemma_insert_all_has(before.spawn_empty(), e, items@, i);
}

// ---------------------------------------------------------------------------
// Reports
// ---------------------------------------------------------------------------
/// The turns of systems add reports and lose none.
pub proof fn lemma_turns_keep_reports<V>(
    start: Progress<V>,
    tick: u64,
    stage: usize,
    systems: Seq<SystemView>,
    order: Seq<usize>,
    outcomes: Seq<Outcome<V>>,
)
    ensures
        start.reports.is_prefix_of(start.turns(tick, stage, systems, order, outcomes).reports),
    decreases order.len(),
{
    if order.len() > 0 {
        lemma_turns_keep_reports(
            start,
            tick,
            stage,
            systems,
            order.drop_last(),
            outcomes.drop_last(),
        );
    }
}

/// A pass adds reports and loses none.
pub proof fn lemma_stages_keep_reports<V>(
    start: Progress<V>,
    tick: u64,
    stages: Seq<StageView>,
    startup: bool,
    outcomes: Seq<Seq<Outcome<V>>>,
)
    ensures
        start.reports.is_prefix_of(start.stages(tick, stages, startup, outcomes).reports),
    decreases stages.len(),
{
    if stages.len() > 0 {
        lemma_stages_keep_reports(
            start,
            tick,
            stages.drop_last(),
            startup,
            outcomes.drop_last(),
        );
        let before = start.stages(tick, stages.drop_last(), startup, outcomes.drop_last());
        lemma_turns_keep_reports(
            before,
            tick,
            (stages.len() - 1) as usize,
            stages.last().systems,
            stage_order(stages.last().systems),
            outcomes.last(),
        );
    }
}

/// A pass over the stages leaves the setup of the engine as it was and
/// loses no report.
pub proof fn lemma_pass_keeps_setup<V>(
    app: AppView<V>,
    startup: bool,
    outcomes: Seq<Seq<Outcome<V>>>,
)
    ensures
        app.passed(startup, outcomes).stages == app.stages,
        app.passed(startup, outcomes).failure == app.failure,
        app.passed(startup, outcomes).started == app.started,
        app.passed(startup, outcomes).ticks == app.ticks,
        app.stopped ==> app.passed(startup, outcomes).stopped,
        app.reports.is_prefix_of(app.passed(startup, outcomes).reports),
{
    lemma_stages_keep_reports(
        Progress { world: app.world, buffers: Seq::empty(), reports: app.reports },
        app.ticks,
        app.stages,
        startup,
        outcomes,
    );
}

// ---------------------------------------------------------------------------
// Systems that do not conflict
// ---------------------------------------------------------------------------
/// The world after the turn of a system, before its commands are applied.
/// The system is a function of what it is shown.
pub open spec fn after_run<V>(
    world: WorldView<V>,
    access: AccessView,
    system: spec_fn(WorldView<V>) -> Outcome<V>,
) -> WorldView<V> {
    world.ran(access, system(world.visible(access)))
}

/// The commands that are kept of the turn of a system.
pub open spec fn commands_of<V>(
    world: WorldView<V>,
    access: AccessView,
    system: spec_fn(WorldView<V>) -> Outcome<V>,
) -> Seq<Command<V>> {
    world.kept(access, system(world.visible(access)))
}

/// The world after two systems ran side by side: both were shown the world
/// as it was before either ran, and what they ask for is written
/// afterwards, the first system's wishes first.
pub open spec fn side_by_side<V>(
    world: WorldView<V>,
    a: AccessView,
    b: AccessView,
    first: spec_fn(WorldView<V>) -> Outcome<V>,
    second: spec_fn(WorldView<V>) -> Outcome<V>,
) -> WorldView<V> {
    world.ran(a, first(world.visible(a))).ran(b, second(world.visible(b)))
}

/// One write of each of two systems that do not conflict can be made in
/// either order.
proof fn lemma_write_commutes<V>(
    w: WorldView<V>,
    a: AccessView,
    b: AccessView,
    x: Write<V>,
    y: Write<V>,
)
    requires
        !a.conflicts(b),
    ensures
        w.write(a, x).write(b, y) == w.write(b, y).write(a, x),
{
    let l = w.write(a, x).write(b, y);
    let r = w.write(b, y).write(a, x);
    assert(a.component_writes.disjoint(b.component_writes));
    assert(a.resource_writes.disjoint(b.resource_writes));
    assert(a.event_writes.disjoint(b.event_writes));
    assert(l.storage.components =~= r.storage.components);
    assert(l.resources =~= r.resources);
    assert(l.events.current =~= r.events.current);
}

/// A write of one system can be moved before the writes of another that it
/// does not conflict with.
proof fn lemma_write_moves<V>(
    w: WorldView<V>,
    a: AccessView,
    b: AccessView,
    xs: Seq<Write<V>>,
    y: Write<V>,
)
    requires
        !a.conflicts(b),
    ensures
        w.write_all(a, xs).write(b, y) == w.write(b, y).write_all(a, xs),
    decreases xs.len(),
{
    if xs.len() > 0 {
        lemma_write_moves(w, a, b, xs.drop_last(), y);
        lemma_write_commutes(w.write_all(a, xs.drop_last()), a, b, xs.last(), y);
    }
}

/// The writes of two systems that do not conflict can be made in either
/// order.
pub proof fn lemma_writes_commute<V>(
    w: WorldView<V>,
    a: AccessView,
    b: AccessView,
    xs: Seq<Write<V>>,
    ys: Seq<Write<V>>,
)
    requires
        !a.conflicts(b),
    ensures
        w.write_all(a, xs).write_all(b, ys) == w.write_all(b, ys).write_all(a, xs),
    decreases ys.len(),
{
    if ys.len() > 0 {
        lemma_writes_commute(w, a, b, xs, ys.drop_last());
        lemma_write_moves(w.write_all(b, ys.drop_last()), a, b, xs, ys.last());
    }
}

/// What a system is shown, and whether it can run, does not depend on the
/// writes of a system that it does not conflict with.
pub proof fn lemma_writes_are_unseen<V>(
    w: WorldView<V>,
    a: AccessView,
    b: AccessView,
    ys: Seq<Write<V>>,
)
    requires
        !a.conflicts(b),
    ensures
        w.write_all(b, ys).visible(a) == w.visible(a),
        w.write_all(b, ys).binding_error(a) == w.binding_error(a),
    decreases ys.len(),
{
    lemma_writes_keep_shape(w, b, ys);
    let later = w.write_all(b, ys);
    assert forall|t: u64| later.events.registered(t) == w.events.registered(t) by {
        assert(later.events.current.dom().contains(t) == w.events.current.dom().contains(t));
    }
    assert forall|t: u64| later.resources.contains_key(t) == w.resources.contains_key(t) by {
        assert(later.resources.dom().contains(t) == w.resources.dom().contains(t));
    }
    if ys.len() > 0 {
        lemma_writes_are_unseen(w, a, b, ys.drop_last());
        let before = w.write_all(b, ys.drop_last());
        assert(later == before.write(b, ys.last()));
        assert(a.component_reads.disjoint(b.component_writes));
        assert(a.component_writes.disjoint(b.component_writes));
        assert(a.resource_reads.disjoint(b.resource_writes));
        assert(a.resource_writes.disjoint(b.resource_writes));
        assert(later.visible(a).storage.components =~= before.visible(a).storage.components);
        assert(later.visible(a).resources =~= before.visible(a).resources);
        assert(later.visible(a).events.previous =~= before.visible(a).events.previous);
    }
}

/// Two systems that do not conflict can have their turns in either order,
/// or run side by side: each is shown the same, asks for the same and is
/// run or not run alike whether or not the other had its turn before; and
/// the world is the same after both, before their commands are applied and
/// after they are applied in the order in which the systems were
/// registered.
pub proof fn lemma_systems_commute<V>(
    world: WorldView<V>,
    a: AccessView,
    b: AccessView,
    first: spec_fn(WorldView<V>) -> Outcome<V>,
    second: spec_fn(WorldView<V>) -> Outcome<V>,
)
    requires
        !a.conflicts(b),
    ensures
        ({
            let after_first = after_run(world, a, first);
            let after_second = after_run(world, b, second);
            let one = commands_of(world, a, first);
            let two = commands_of(world, b, second);
            &&& after_second.visible(a) == world.visible(a)
            &&& after_first.visible(b) == world.visible(b)
            &&& after_second.binding_error(a) == world.binding_error(a)
            &&& after_first.binding_error(b) == world.binding_error(b)
            &&& commands_of(after_second, a, first) == one
            &&& commands_of(after_first, b, second) == two
            &&& after_run(after_first, b, second) == after_run(after_second, a, first)
            &&& after_run(after_first, b, second) == side_by_side(world, a, b, first, second)
            &&& after_run(after_first, b, second).flush(one).flush(two) == after_run(
                after_second,
                a,
                first,
            ).flush(one).flush(two)
        }),
{
    let one = first(world.visible(a)).writes;
    let two = second(world.visible(b)).writes;
    lemma_conflicts_symmetric(a, b);
    lemma_writes_are_unseen(world, a, b, two);
    lemma_writes_are_unseen(world, b, a, one);
    lemma_writes_commute(world, a, b, one, two);
}

/// A system is shown the same, and is run or not run alike, whether or not
/// systems that it does not conflict with had their turns before it.  So
/// every system of a group of a plan can be shown the world as it is when
/// the first of them has its turn: the group can run side by side.
pub proof fn lemma_turns_are_unseen<V>(
    start: Progress<V>,
    tick: u64,
    stage: usize,
    systems: Seq<SystemView>,
    order: Seq<usize>,
    outcomes: Seq<Outcome<V>>,
    a: AccessView,
)
    requires
        forall|k: int|
            0 <= k < order.len() ==> !a.conflicts(systems[(#[trigger] order[k]) as int].access),
    ensures
        start.turns(tick, stage, systems, order, outcomes).world.visible(a) == start.world.visible(
            a,
        ),
        start.turns(tick, stage, systems, order, outcomes).world.binding_error(a)
            == start.world.binding_error(a),
    decreases order.len(),
{
    if order.len() > 0 {
        assert forall|k: int| 0 <= k < order.drop_last().len() implies !a.conflicts(
            systems[(#[trigger] order.drop_last()[k]) as int].access,
        ) by {
            assert(order.drop_last()[k] == order[k]);
        }
        lemma_turns_are_unseen(
            start,
            tick,
            stage,
            systems,
            order.drop_last(),
            outcomes.drop_last(),
            a,
        );
        let before = start.turns(tick, stage, systems, order.drop_last(), outcomes.drop_last());
        assert(!a.conflicts(systems[order[order.len() - 1] as int].access));
        lemma_writes_are_unseen(
            before.world,
            a,
            systems[order.last() as int].access,
            outcomes.last().writes,
        );
    }
}

// ---------------------------------------------------------------------------
// Ordering
// ---------------------------------------------------------------------------
/// A system that must run before another stands before it in the plan of
/// their stage.  In every pass the systems have their turns, and their
/// commands are applied, in the order of the plan.
pub proof fn lemma_constraints_order_the_plan(
    systems: Seq<SystemView>,
    groups: Seq<Vec<usize>>,
    a: usize,
    b: usize,
)
    requires
        systems.len() <= usize::MAX,
        is_schedule(groups, systems),
        a < systems.len(),
        b < systems.len(),
        systems[a as int].must_precede(systems[b as int]),
    ensures
        concat(groups).contains(a),
        concat(groups).contains(b),
        concat(groups).index_of(a) < concat(groups).index_of(b),
{
    let order = concat(groups);
    lemma_pigeonhole(order, systems.len());
    assert(order.contains(a));
    assert(order.contains(b));
    let i = order.index_of(a);
    let j = order.index_of(b);
    assert(runs_before(systems)(order[i] as int, order[j] as int));
}

/// Two systems conflict if both write one component, resource or event
/// type, or if one writes a type that the other reads.
pub proof fn lemma_shared_writes_conflict(a: AccessView, b: AccessView, tag: u64)
    ensures
        a.writes_component(tag) && b.reads_component(tag) ==> a.conflicts(b),
        a.writes_resource(tag) && b.reads_resource(tag) ==> a.conflicts(b),
        a.writes_event(tag) && (b.reads_event(tag) || b.writes_event(tag)) ==> a.conflicts(b),
        a.conflicts(b) == b.conflicts(a),
{
    lemma_conflicts_symmetric(a, b);
    if a.writes_component(tag) && b.reads_component(tag) {
        assert(a.component_writes.contains(tag));
        assert(!a.component_writes.disjoint(b.component_writes)
            || !a.component_writes.disjoint(b.component_reads));
    }
    if a.writes_resource(tag) && b.reads_resource(tag) {
        assert(a.resource_writes.contains(tag));
        assert(!a.resource_writes.disjoint(b.resource_writes) || !a.resource_writes.disjoint(
            b.resource_reads,
        ));
    }
    if a.writes_event(tag) && (b.reads_event(tag) || b.writes_event(tag)) {
        assert(a.event_writes.contains(tag));
        assert(!a.event_writes.disjoint(b.event_writes) || !a.event_writes.disjoint(
            b.event_reads,
        ));
    }
}

/// No two systems of one group of a plan conflict, and neither of them must
/// run before the other: only systems that may run side by side share a
/// group.
pub proof fn lemma_groups_are_free_of_conflict(
    systems: Seq<SystemView>,
    groups: Seq<Vec<usize>>,
    g: int,
    i: int,
    j: int,
)
    requires
        is_schedule(groups, systems),
        0 <= g < groups.len(),
        0 <= i < groups[g]@.len(),
        0 <= j < groups[g]@.len(),
        i != j,
    ensures
        groups[g]@[i] < systems.len(),
        groups[g]@[j] < systems.len(),
        !systems[groups[g]@[i] as int].access.conflicts(systems[groups[g]@[j] as int].access),
        !systems[groups[g]@[i] as int].must_precede(systems[groups[g]@[j] as int]),
{
    lemma_concat_index(groups, g, i);
    lemma_concat_index(groups, g, j);
    let x = groups[g]@[i] as int;
    let y = groups[g]@[j] as int;
    if i < j {
        assert(compatible(x, y, runs_before(systems), in_conflict(systems)));
    } else {
        assert(compatible(y, x, runs_before(systems), in_conflict(systems)));
    }
    assert(!in_conflict(systems)(x, y));
    assert(!runs_before(systems)(x, y));
}

/// The systems of a stage run in the order of its plan.
pub proof fn lemma_plan_gives_the_order(systems: Seq<SystemView>, groups: Seq<Vec<usize>>)
    requires
        systems.len() <= usize::MAX,
        is_schedule(groups, systems),
    ensures
        stage_order(systems) == concat(groups),
{
    lemma_order_is_unique(
        concat(groups),
        stage_order(systems),
        systems.len(),
        runs_before(systems),
    );
}

/// A stage has one plan only: whenever it is planned, its systems run in the
/// same order and in the same groups.
pub proof fn lemma_schedule_is_unique(
    systems: Seq<SystemView>,
    g1: Seq<Vec<usize>>,
    g2: Seq<Vec<usize>>,
)
    requires
        systems.len() <= usize::MAX,
        is_schedule(g1, systems),
        is_schedule(g2, systems),
    ensures
        g1.len() == g2.len(),
        forall|g: int| 0 <= g < g1.len() ==> (#[trigger] g1[g])@ == g2[g]@,
{
    lemma_order_is_unique(concat(g1), concat(g2), systems.len(), runs_before(systems));
    lemma_plan_is_unique(g1, g2, runs_before(systems), in_conflict(systems));
}

/// Two systems that stand next to each other in one group of a plan are in
/// the order in which they were registered.
proof fn lemma_neighbours_ascend(
    order: Seq<usize>,
    n: nat,
    before: spec_fn(int, int) -> bool,
    k: int,
)
    requires
        n <= usize::MAX,
        is_order(order, n),
        respects(order, before),
        earliest(order, n, before),
        0 <= k < order.len() - 1,
        !before(order[k] as int, order[k + 1] as int),
    ensures
        order[k] < order[k + 1],
{
    lemma_respects_placed(order, n, before);
    let x = order[k];
    let y = order[k + 1];
    if y < x {
        assert(order.take(k).contains(y) || !ready(order.take(k), y as int, n, before));
        if order.take(k).contains(y) {
            let i = order.take(k).index_of(y);
            assert(order[i] == y);
        } else {
            let p = choose|p: int|
                0 <= p < n && #[trigger] before(p, y as int) && !order.take(k).contains(p as usize);
            assert(ready(order.take(k + 1), order[k + 1] as int, n, before));
            assert(order.take(k + 1).contains(p as usize));
            let i = order.take(k + 1).index_of(p as usize);
            if i < k {
                assert(order.take(k)[i] == p as usize);
            }
        }
    }
}

/// Within a group of a plan, the systems stand in the order in which they
/// were registered: that is the order in which their commands are applied.
pub proof fn lemma_groups_ascend(
    systems: Seq<SystemView>,
    groups: Seq<Vec<usize>>,
    g: int,
    i: int,
    j: int,
)
    requires
        systems.len() <= usize::MAX,
        is_schedule(groups, systems),
        0 <= g < groups.len(),
        0 <= i < j < groups[g]@.len(),
    ensures
        groups[g]@[i] < groups[g]@[j],
    decreases j - i,
{
    let order = concat(groups);
    let before = runs_before(systems);
    lemma_concat_index(groups, g, j - 1);
    lemma_concat_index(groups, g, j);
    let k = offset(groups, g) + j - 1;
    assert(compatible(
        groups[g]@[j - 1] as int,
        groups[g]@[j] as int,
        before,
        in_conflict(systems),
    ));
    lemma_neighbours_ascend(order, systems.len(), before, k);
    if i < j - 1 {
        lemma_groups_ascend(systems, groups, g, i, j - 1);
    }
}

} // verus!
