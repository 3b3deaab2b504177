//! The world that systems run in, and what passes between it and a system.
//!
//! A system never holds the world.  It is handed an input that shows it the
//! components, resources and events that its signature lets it read, and it
//! hands back an output: the values that it wants written, and the commands
//! that it wants applied when the stage is over.  The world writes the values
//! that the signature allows, in the order given, and drops the others.

use vstd::prelude::*;
use crate::access::{AccessSignature, AccessView};
use crate::commands::{Command, CommandBuffer, DataView};
use crate::error::EngineError;
use crate::events::{Events, EventsView};
use crate::resources::Resources;
use crate::storage::{Entity, Storage, StorageView};
use crate::tag_set::TagSet;

verus! {

/// A value that a system wants written.
pub enum Write<V> {
    /// A new value for the component of a type on an entity that has one.
    Component(Entity, u64, V),
    /// A new value for a resource that is present.
    Resource(u64, V),
    /// An event.
    Event(u64, V),
}

/// What a system asks for when it is run: values to write, and commands.
pub struct Outcome<V> {
    pub writes: Seq<Write<V>>,
    pub commands: Seq<Command<V>>,
}

/// The mathematical state of a [`World`].
pub struct WorldView<V> {
    pub storage: StorageView<V>,
    pub resources: Map<u64, V>,
    pub events: EventsView<V>,
    /// The registered component types.
    pub component_types: Set<u64>,
    /// The registered resource types.
    pub resource_types: Set<u64>,
}

impl<V> WorldView<V> {
    /// A world without entities, resources, events or registered types.
    pub open spec fn blank() -> Self {
        WorldView {
            storage: StorageView::empty(),
            resources: Map::empty(),
            events: EventsView::empty(),
            component_types: Set::empty(),
            resource_types: Set::empty(),
        }
    }

    /// The storage and the resource table.
    pub open spec fn data(self) -> DataView<V> {
        DataView { storage: self.storage, resources: self.resources }
    }

    /// Whether every type that `access` names is registered.
    pub open spec fn registered(self, access: AccessView) -> bool {
        &&& access.component_reads.subset_of(self.component_types)
        &&& access.component_writes.subset_of(self.component_types)
        &&& access.resource_reads.subset_of(self.resource_types)
        &&& access.resource_writes.subset_of(self.resource_types)
        &&& forall|t: u64| access.event_reads.contains(t) ==> self.events.registered(t)
        &&& forall|t: u64| access.event_writes.contains(t) ==> self.events.registered(t)
    }

    /// Whether every resource that `access` requires is present.
    pub open spec fn supplied(self, access: AccessView) -> bool {
        forall|t: u64| access.required.contains(t) ==> self.resources.contains_key(t)
    }

    /// Why a system with the signature `access` cannot run now, if it
    /// cannot.
    pub open spec fn binding_error(self, access: AccessView) -> Option<EngineError> {
        if !self.registered(access) {
            Some(EngineError::UnregisteredType)
        } else if !self.supplied(access) {
            Some(EngineError::MissingResource)
        } else {
            None
        }
    }

    /// What a system with the signature `access` can see: the entities, the
    /// components and resources of the types that it reads or writes, and
    /// last tick's events of the types that it reads.
    pub open spec fn visible(self, access: AccessView) -> WorldView<V> {
        WorldView {
            storage: StorageView {
                components: self.storage.components.restrict(
                    Set::new(|k: (usize, u64)| access.reads_component(k.1)),
                ),
                ..self.storage
            },
            resources: self.resources.restrict(Set::new(|t: u64| access.reads_resource(t))),
            events: EventsView {
                current: Map::empty(),
                previous: self.events.previous.restrict(access.event_reads),
            },
            ..self
        }
    }

    /// The state after one write on behalf of a system with the signature
    /// `access`.  A write that the signature does not allow, or whose
    /// target does not exist, changes nothing.
    pub open spec fn write(self, access: AccessView, w: Write<V>) -> Self {
        match w {
            Write::Component(e, tag, value) => if access.writes_component(tag)
                && self.storage.has(e, tag) {
                WorldView { storage: self.storage.insert(e, tag, value), ..self }
            } else {
                self
            },
            Write::Resource(tag, value) => if access.writes_resource(tag)
                && self.resources.contains_key(tag) {
                WorldView { resources: self.resources.insert(tag, value), ..self }
            } else {
                self
            },
            Write::Event(tag, event) => if access.writes_event(tag) {
                WorldView { events: self.events.write(tag, event), ..self }
            } else {
                self
            },
        }
    }

    /// The state after the writes `ws`, first to last.
    pub open spec fn write_all(self, access: AccessView, ws: Seq<Write<V>>) -> Self
        decreases ws.len(),
    {
        if ws.len() == 0 {
            self
        } else {
            self.write_all(access, ws.drop_last()).write(access, ws.last())
        }
    }

    /// The state after the turn of a system with the signature `access`
    /// that asks for `outcome`: nothing is written where the parameters of
    /// the system cannot be bound, for then it is not run.
    pub open spec fn ran(self, access: AccessView, outcome: Outcome<V>) -> Self {
        if self.binding_error(access) is Some {
            self
        } else {
            self.write_all(access, outcome.writes)
        }
    }

    /// The commands that are kept of the turn of a system: none where the
    /// system is not run, or where its signature has no command buffer.
    pub open spec fn kept(self, access: AccessView, outcome: Outcome<V>) -> Seq<Command<V>> {
        if self.binding_error(access) is Some || !access.commands {
            Seq::empty()
        } else {
            outcome.commands
        }
    }

    /// The state after the commands of a buffer.
    pub open spec fn flush(self, commands: Seq<Command<V>>) -> Self {
        let data = self.data().apply_all(commands);
        WorldView { storage: data.storage, resources: data.resources, ..self }
    }

    /// The state after the commands of each buffer, first buffer to last.
    pub open spec fn flush_each(self, buffers: Seq<Seq<Command<V>>>) -> Self
        decreases buffers.len(),
    {
        if buffers.len() == 0 {
            self
        } else {
            self.flush_each(buffers.drop_last()).flush(buffers.last())
        }
    }

    /// The state after a tick boundary.
    pub open spec fn turn_over(self) -> Self {
        WorldView { events: self.events.update(), ..self }
    }

    /// Whether the two states hold the same entities with components of the
    /// same types, resources of the same types, the same registered types
    /// and the same events of the tick before.  They may differ in the
    /// values of components and resources and in the events of this tick.
    pub open spec fn same_shape(self, other: WorldView<V>) -> bool {
        &&& self.storage.generations == other.storage.generations
        &&& self.storage.alive == other.storage.alive
        &&& self.storage.free == other.storage.free
        &&& self.storage.components.dom() == other.storage.components.dom()
        &&& self.resources.dom() == other.resources.dom()
        &&& self.component_types == other.component_types
        &&& self.resource_types == other.resource_types
        &&& self.events.previous == other.events.previous
        &&& self.events.current.dom() == other.events.current.dom()
    }
}

/// Writes change values only: the entities, the types of their components,
/// the types of the resources, the registered types and last tick's events
/// stay as they are.
pub proof fn lemma_writes_keep_shape<V>(world: WorldView<V>, access: AccessView, ws: Seq<Write<V>>)
    ensures
        world.write_all(access, ws).same_shape(world),
    decreases ws.len(),
{
    if ws.len() > 0 {
        lemma_writes_keep_shape(world, access, ws.drop_last());
        let before = world.write_all(access, ws.drop_last());
        let after = before.write(access, ws.last());
        assert(after.storage.components.dom() =~= before.storage.components.dom());
        assert(after.resources.dom() =~= before.resources.dom());
        assert(after.events.current.dom() =~= before.events.current.dom());
    }
}

/// Commands change the storage and the resource table only.
pub proof fn lemma_flush_keeps_rest<V>(world: WorldView<V>, buffers: Seq<Seq<Command<V>>>)
    ensures
        world.flush_each(buffers).events == world.events,
        world.flush_each(buffers).component_types == world.component_types,
        world.flush_each(buffers).resource_types == world.resource_types,
    decreases buffers.len(),
{
    if buffers.len() > 0 {
        lemma_flush_keeps_rest(world, buffers.drop_last());
    }
}

/// The world: storage, resource table, event channel, and the registered
/// component and resource types.  The registered event types are those of
/// the channel.
pub struct World<V> {
    storage: Storage<V>,
    resources: Resources<V>,
    events: Events<V>,
    component_types: TagSet,
    resource_types: TagSet,
}

impl<V> View for World<V> {
    type V = WorldView<V>;

    closed spec fn view(&self) -> WorldView<V> {
        WorldView {
            storage: self.storage@,
            resources: self.resources@,
            events: self.events@,
            component_types: self.component_types@,
            resource_types: self.resource_types@,
        }
    }
}

/// What a system is shown of the world while it runs.
pub struct SystemInput<'a, V> {
    world: &'a World<V>,
    access: &'a AccessSignature,
}

/// What a system hands back: the values to write now, and the commands to
/// apply when the stage is over.
pub struct SystemOutput<V> {
    pub writes: Vec<Write<V>>,
    pub commands: CommandBuffer<V>,
}

/// A system: a function from what it is shown to what it wants done.
pub trait System<V> {
    /// Runs the system once.  The engine calls this with a sound input
    /// only; nothing is asked of the output.
    fn run(&self, input: &SystemInput<V>) -> (output: SystemOutput<V>)
        requires
            input.wf(),
    ;
}

impl<V> SystemOutput<V> {
    /// An output that asks for nothing.
    pub fn new() -> (out: Self)
        ensures
            out.writes@ == Seq::<Write<V>>::empty(),
            out.commands@ == Seq::<Command<V>>::empty(),
    {
        SystemOutput { writes: Vec::new(), commands: CommandBuffer::new() }
    }

    /// Asks for `value` to become the component of type `tag` on `e`.
    pub fn set_component(&mut self, e: Entity, tag: u64, value: V)
        ensures
            final(self).writes@ == old(self).writes@.push(Write::Component(e, tag, value)),
            final(self).commands == old(self).commands,
    {
        self.writes.push(Write::Component(e, tag, value));
    }

    /// Asks for `value` to become the resource of type `tag`.
    pub fn set_resource(&mut self, tag: u64, value: V)
        ensures
            final(self).writes@ == old(self).writes@.push(Write::Resource(tag, value)),
            final(self).commands == old(self).commands,
    {
        self.writes.push(Write::Resource(tag, value));
    }

    /// Asks for `event` to be written as an event of type `tag`.
    pub fn send(&mut self, tag: u64, event: V)
        ensures
            final(self).writes@ == old(self).writes@.push(Write::Event(tag, event)),
            final(self).commands == old(self).commands,
    {
        self.writes.push(Write::Event(tag, event));
    }
}

impl<'a, V> SystemInput<'a, V> {
    /// What the system can see.
    pub closed spec fn visible(&self) -> WorldView<V> {
        self.world@.visible(self.access@)
    }

    /// The signature of the system.
    pub closed spec fn access(&self) -> AccessView {
        self.access@
    }

    /// The world behind the input is sound.
    pub closed spec fn wf(&self) -> bool {
        self.world.wf()
    }

    /// Whether `e` is a live entity.
    pub fn contains(&self, e: Entity) -> (b: bool)
        requires
            self.wf(),
        ensures
            b == self.visible().storage.contains(e),
    {
        self.world.storage.contains(e)
    }

    /// The live entities that carry every component type in `tags`, by
    /// ascending slot number; `None` if the system may not read one of the
    /// types.
    pub fn query(&self, tags: &Vec<u64>) -> (r: Option<Vec<Entity>>)
        requires
            self.wf(),
        ensures
            match r {
                Some(found) => {
                    &&& forall|j: int|
                        0 <= j < tags@.len() ==> self.access().reads_component(#[trigger] tags@[j])
                    &&& forall|k: int|
                        0 <= k < found@.len() ==> self.visible().storage.matches(
                            #[trigger] found@[k],
                            tags@,
                        )
                    &&& forall|e: Entity|
                        self.visible().storage.matches(e, tags@) ==> found@.contains(e)
                    &&& forall|a: int, b: int|
                        0 <= a < b < found@.len() ==> found@[a].index < found@[b].index
                },
                None => exists|j: int|
                    0 <= j < tags@.len() && !self.access().reads_component(#[trigger] tags@[j]),
            },
    {
        let mut j: usize = 0;
        while j < tags.len()
            invariant
                j <= tags@.len(),
                forall|k: int| 0 <= k < j ==> self.access@.reads_component(#[trigger] tags@[k]),
            decreases tags@.len() - j,
        {
            if !self.access.can_read_component(tags[j]) {
                return None;
            }
            j += 1;
        }
        let found = self.world.storage.query(tags);
        proof {
            let seen = self.visible().storage;
            let all = self.world@.storage;
            assert forall|e: Entity| seen.matches(e, tags@) == all.matches(e, tags@) by {
                if all.matches(e, tags@) {
                    assert forall|j: int| 0 <= j < tags@.len() implies seen.components.contains_key(
                        (e.index, #[trigger] tags@[j]),
                    ) by {
                        assert(all.components.contains_key((e.index, tags@[j])));
                    }
                }
                if seen.matches(e, tags@) {
                    assert forall|j: int| 0 <= j < tags@.len() implies all.components.contains_key(
                        (e.index, #[trigger] tags@[j]),
                    ) by {
                        assert(seen.components.contains_key((e.index, tags@[j])));
                    }
                }
            }
        }
        Some(found)
    }

    /// The component of type `tag` on `e`; `None` if there is none or the
    /// system may not read the type.
    pub fn get(&self, e: Entity, tag: u64) -> (r: Option<&V>)
        requires
            self.wf(),
        ensures
            match r {
                Some(v) => self.visible().storage.get(e, tag) == Some(*v),
                None => self.visible().storage.get(e, tag) is None,
            },
    {
        if self.access.can_read_component(tag) {
            self.world.storage.get(e, tag)
        } else {
            None
        }
    }

    /// The resource of type `tag`; `None` if it is absent or the system may
    /// not read the type.
    pub fn resource(&self, tag: u64) -> (r: Option<&V>)
        requires
            self.wf(),
        ensures
            match r {
                Some(v) => self.visible().resources.contains_key(tag) && *v
                    == self.visible().resources[tag],
                None => !self.visible().resources.contains_key(tag),
            },
    {
        if self.access.can_read_resource(tag) {
            self.world.resources.get(tag)
        } else {
            None
        }
    }

    /// The events of type `tag` that were written during the tick before;
    /// `None` if the type is not registered or the system may not read it.
    pub fn events(&self, tag: u64) -> (r: Option<&Vec<V>>)
        requires
            self.wf(),
        ensures
            match r {
                Some(events) => self.visible().events.previous.contains_key(tag) && events@
                    == self.visible().events.previous[tag],
                None => !self.visible().events.previous.contains_key(tag),
            },
    {
        if self.access.can_read_event(tag) {
            match self.world.events.read(tag) {
                Ok(events) => {
                    proof {
                        self.world.events.lemma_view_wf();
                    }
                    Some(events)
                },
                Err(_) => {
                    proof {
                        self.world.events.lemma_view_wf();
                    }
                    None
                },
            }
        } else {
            None
        }
    }
}

/// Whether every event type in `tags` is registered.
fn all_registered<V>(tags: &TagSet, events: &Events<V>) -> (b: bool)
    ensures
        b == (forall|t: u64| tags@.contains(t) ==> events@.registered(t)),
{
    let mut i: usize = 0;
    while i < tags.len()
        invariant
            i <= tags.elements().len(),
            forall|k: int| 0 <= k < i ==> events@.registered(#[trigger] tags.elements()[k]),
        decreases tags.elements().len() - i,
    {
        if !events.is_registered(tags.at(i)) {
            return false;
        }
        i += 1;
    }
    assert forall|t: u64| tags@.contains(t) implies events@.registered(t) by {
        let k = tags.elements().index_of(t);
        assert(tags.elements()[k] == t);
    }
    true
}

/// Whether a resource of every type in `tags` is present.
fn all_present<V>(tags: &TagSet, resources: &Resources<V>) -> (b: bool)
    ensures
        b == (forall|t: u64| tags@.contains(t) ==> resources@.contains_key(t)),
{
    let mut i: usize = 0;
    while i < tags.len()
        invariant
            i <= tags.elements().len(),
            forall|k: int| 0 <= k < i ==> resources@.contains_key(#[trigger] tags.elements()[k]),
        decreases tags.elements().len() - i,
    {
        if !resources.contains(tags.at(i)) {
            return false;
        }
        i += 1;
    }
    assert forall|t: u64| tags@.contains(t) implies resources@.contains_key(t) by {
        let k = tags.elements().index_of(t);
        assert(tags.elements()[k] == t);
    }
    true
}

impl<V> World<V> {
    /// The storage, the resource table and the event channel are sound.
    pub closed spec fn wf(&self) -> bool {
        &&& self.storage.wf()
        &&& self.resources.wf()
        &&& self.events.wf()
    }

    /// A world without entities, resources, events or registered types.
    pub fn new() -> (world: Self)
        ensures
            world.wf(),
            world@ == WorldView::<V>::blank(),
    {
        World {
            storage: Storage::new(),
            resources: Resources::new(),
            events: Events::new(),
            component_types: TagSet::new(),
            resource_types: TagSet::new(),
        }
    }

    /// The storage.
    pub fn storage(&self) -> (storage: &Storage<V>)
        requires
            self.wf(),
        ensures
            storage.wf(),
            storage@ == self@.storage,
    {
        &self.storage
    }

    /// The resource table.
    pub fn resources(&self) -> (resources: &Resources<V>)
        requires
            self.wf(),
        ensures
            resources.wf(),
            resources@ == self@.resources,
    {
        &self.resources
    }

    /// The event channel.
    pub fn events(&self) -> (events: &Events<V>)
        requires
            self.wf(),
        ensures
            events.wf(),
            events@ == self@.events,
    {
        &self.events
    }

    /// Registers the component type `tag`.
    pub fn register_component(&mut self, tag: u64)
        requires
            old(self).wf(),
        ensures
            final(self).wf(),
            final(self)@ == (WorldView {
                component_types: old(self)@.component_types.insert(tag),
                ..old(self)@
            }),
    {
        self.component_types.insert(tag);
    }

    /// Registers the resource type `tag`, without a value.
    pub fn register_resource(&mut self, tag: u64)
        requires
            old(self).wf(),
        ensures
            final(self).wf(),
            final(self)@ == (WorldView {
                resource_types: old(self)@.resource_types.insert(tag),
                ..old(self)@
            }),
    {
        self.resource_types.insert(tag);
    }

    /// Registers the event type `tag`.
    pub fn register_event(&mut self, tag: u64)
        requires
            old(self).wf(),
        ensures
            final(self).wf(),
            final(self)@ == (WorldView { events: old(self)@.events.register(tag), ..old(self)@ }),
    {
        self.events.register(tag);
    }

    /// Registers the resource type `tag` and stores `value` as its value.
    pub fn insert_resource(&mut self, tag: u64, value: V)
        requires
            old(self).wf(),
        ensures
            final(self).wf(),
            final(self)@ == (WorldView {
                resource_types: old(self)@.resource_types.insert(tag),
                resources: old(self)@.resources.insert(tag, value),
                ..old(self)@
            }),
    {
        self.resource_types.insert(tag);
        self.resources.insert(tag, value);
    }

    /// Spawns an entity with the components `items`.
    pub fn spawn(&mut self, items: Vec<(u64, V)>) -> (e: Entity)
        requires
            old(self).wf(),
        ensures
            final(self).wf(),
            e == old(self)@.storage.next_entity(),
            final(self)@ == (WorldView { storage: old(self)@.storage.spawn(items@), ..old(self)@ }),
    {
        self.storage.spawn(items)
    }

    /// Whether a system with the signature `access` can run now:
    /// `UnregisteredType` if it names a type that is not registered, else
    /// `MissingResource` if a resource that it requires is absent.
    pub fn check(&self, access: &AccessSignature) -> (r: Result<(), EngineError>)
        requires
            self.wf(),
        ensures
            r == (match self@.binding_error(access@) {
                Some(e) => Err::<(), EngineError>(e),
                None => Ok::<(), EngineError>(()),
            }),
    {
        let registered = access.component_reads().is_subset_of(&self.component_types)
            && access.component_writes().is_subset_of(&self.component_types)
            && access.resource_reads().is_subset_of(&self.resource_types)
            && access.resource_writes().is_subset_of(&self.resource_types) && all_registered(
            access.event_reads(),
            &self.events,
        ) && all_registered(access.event_writes(), &self.events);
        if !registered {
            Err(EngineError::UnregisteredType)
        } else if !all_present(access.required(), &self.resources) {
            Err(EngineError::MissingResource)
        } else {
            Ok(())
        }
    }

    /// Binds the parameters of a system with the signature `access`: on
    /// success, what the system is to be shown.
    pub fn bind<'a>(&'a self, access: &'a AccessSignature) -> (r: Result<
        SystemInput<'a, V>,
        EngineError,
    >)
        requires
            self.wf(),
        ensures
            match r {
                Ok(input) => self@.binding_error(access@) is None && input.wf() && input.access()
                    == access@ && input.visible() == self@.visible(access@),
                Err(e) => self@.binding_error(access@) == Some(e),
            },
    {
        match self.check(access) {
            Ok(()) => Ok(SystemInput { world: self, access }),
            Err(e) => Err(e),
        }
    }

    /// Writes, first to last, those of `writes` that `access` allows and
    /// whose target exists.
    pub fn write_all(&mut self, access: &AccessSignature, writes: Vec<Write<V>>)
        requires
            old(self).wf(),
        ensures
            final(self).wf(),
            final(self)@ == old(self)@.write_all(access@, writes@),
    {
        let ghost start = self@;
        let ghost all = writes@;
        for w in it: writes
            invariant
                self.wf(),
                it.seq() == all,
                self@ == start.write_all(access@, all.take(it.index() as int)),
        {
            let ghost k = it.index() as int;
            proof {
                assert(all.take(k + 1).drop_last() =~= all.take(k));
                assert(all.take(k + 1).last() == all[k]);
            }
            match w {
                Write::Component(e, tag, value) => {
                    if access.can_write_component(tag) && self.storage.has(e, tag) {
                        self.storage.insert(e, tag, value);
                    }
                },
                Write::Resource(tag, value) => {
                    if access.can_write_resource(tag) && self.resources.contains(tag) {
                        self.resources.insert(tag, value);
                    }
                },
                Write::Event(tag, event) => {
                    if access.can_write_event(tag) {
                        let _ = self.events.write(tag, event);
                    }
                },
            }
        }
        proof {
            assert(all.take(all.len() as int) =~= all);
        }
    }

    /// Applies the commands of `buffer`, first to last.
    pub fn flush(&mut self, buffer: CommandBuffer<V>)
        requires
            old(self).wf(),
        ensures
            final(self).wf(),
            final(self)@ == old(self)@.flush(buffer@),
    {
        buffer.apply(&mut self.storage, &mut self.resources);
    }

    /// Turns the event buffers over at a tick boundary.
    pub fn turn_over(&mut self)
        requires
            old(self).wf(),
        ensures
            final(self).wf(),
            final(self)@ == old(self)@.turn_over(),
    {
        self.events.update();
    }

    /// Gives `system` its turn: binds its parameters, runs it on what it may
    /// see, and writes what it asks for and `access` allows.  On success,
    /// hands back the commands that the system recorded, which are none if
    /// `access` has no command buffer.  Where the parameters cannot be
    /// bound, the system is not run and the world stays as it is.
    pub fn run<S: System<V>>(&mut self, access: &AccessSignature, system: &S) -> (r: Result<
        CommandBuffer<V>,
        EngineError,
    >)
        requires
            old(self).wf(),
        ensures
            final(self).wf(),
            final(self)@.same_shape(old(self)@),
            exists|outcome: Outcome<V>| #[trigger]
                old(self)@.ran(access@, outcome) == final(self)@ && (match r {
                    Ok(buffer) => buffer@ == old(self)@.kept(access@, outcome),
                    Err(e) => true,
                }),
            match r {
                Ok(buffer) => old(self)@.binding_error(access@) is None,
                Err(e) => old(self)@.binding_error(access@) == Some(e),
            },
    {
        let output = match self.bind(access) {
            Ok(input) => system.run(&input),
            Err(e) => {
                proof {
                    let outcome = Outcome::<V> { writes: Seq::empty(), commands: Seq::empty() };
                    assert(old(self)@.ran(access@, outcome) == self@);
                }
                return Err(e);
            },
        };
        let ghost outcome = Outcome { writes: output.writes@, commands: output.commands@ };
        self.write_all(access, output.writes);
        proof {
            lemma_writes_keep_shape(old(self)@, access@, outcome.writes);
            assert(old(self)@.ran(access@, outcome) == self@);
        }
        if access.uses_commands() {
            Ok(output.commands)
        } else {
            Ok(CommandBuffer::new())
        }
    }
}

} // verus!
