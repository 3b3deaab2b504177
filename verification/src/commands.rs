//! Deferred structural changes.
//!
//! A system does not spawn or despawn entities, attach or detach components,
//! or insert or remove resources while it runs.  It records what it wants in
//! a buffer of its own; the buffers of a stage are applied one after the
//! other once all its systems have run.

use vstd::prelude::*;
use crate::resources::Resources;
use crate::storage::{Entity, Storage, StorageView};

verus! {

/// One recorded change.
pub enum Command<V> {
    /// Spawn an entity with the given components.
    Spawn(Vec<(u64, V)>),
    /// Despawn an entity.
    Despawn(Entity),
    /// Attach a component to an entity.
    Insert(Entity, u64, V),
    /// Detach the component of a type from an entity.
    Remove(Entity, u64),
    /// Store a resource.
    InsertResource(u64, V),
    /// Take the resource of a type out of the table.
    RemoveResource(u64),
}

/// The data that commands act on: the storage and the resource table.
pub struct DataView<V> {
    pub storage: StorageView<V>,
    pub resources: Map<u64, V>,
}

impl<V> DataView<V> {
    /// The state after one command.  A command on an entity that is not live
    /// changes nothing.
    pub open spec fn apply(self, command: Command<V>) -> Self {
        match command {
            Command::Spawn(items) => DataView { storage: self.storage.spawn(items@), ..self },
            Command::Despawn(e) => DataView { storage: self.storage.despawn(e), ..self },
            Command::Insert(e, tag, value) => DataView {
                storage: self.storage.insert(e, tag, value),
                ..self
            },
            Command::Remove(e, tag) => DataView { storage: self.storage.remove(e, tag), ..self },
            Command::InsertResource(tag, value) => DataView {
                resources: self.resources.insert(tag, value),
                ..self
            },
            Command::RemoveResource(tag) => DataView {
                resources: self.resources.remove(tag),
                ..self
            },
        }
    }

    /// The state after the commands of a buffer, first to last.
    pub open spec fn apply_all(self, commands: Seq<Command<V>>) -> Self
        decreases commands.len(),
    {
        if commands.len() == 0 {
            self
        } else {
            self.apply_all(commands.drop_last()).apply(commands.last())
        }
    }
}

/// The commands recorded by one invocation of a system, in the order in
/// which they were recorded.
pub struct CommandBuffer<V> {
    commands: Vec<Command<V>>,
}

impl<V> View for CommandBuffer<V> {
    type V = Seq<Command<V>>;

    closed spec fn view(&self) -> Seq<Command<V>> {
        self.commands@
    }
}

impl<V> CommandBuffer<V> {
    /// An empty buffer.
    pub fn new() -> (buffer: Self)
        ensures
            buffer@ == Seq::<Command<V>>::empty(),
    {
        CommandBuffer { commands: Vec::new() }
    }

    /// Number of recorded commands.
    pub fn len(&self) -> (n: usize)
        ensures
            n == self@.len(),
    {
        self.commands.len()
    }

    /// Whether nothing was recorded.
    pub fn is_empty(&self) -> (b: bool)
        ensures
            b == (self@.len() == 0),
    {
        self.commands.len() == 0
    }

    /// Records `command`.
    pub fn push(&mut self, command: Command<V>)
        ensures
            final(self)@ == old(self)@.push(command),
    {
        self.commands.push(command);
    }

    /// Records the spawning of an entity with the components `items`.
    pub fn spawn(&mut self, items: Vec<(u64, V)>)
        ensures
            final(self)@ == old(self)@.push(Command::Spawn(items)),
    {
        self.commands.push(Command::Spawn(items));
    }

    /// Records the despawning of `e`.
    pub fn despawn(&mut self, e: Entity)
        ensures
            final(self)@ == old(self)@.push(Command::Despawn(e)),
    {
        self.commands.push(Command::Despawn(e));
    }

    /// Records the attaching of `value` to `e` as its component of type `tag`.
    pub fn insert(&mut self, e: Entity, tag: u64, value: V)
        ensures
            final(self)@ == old(self)@.push(Command::Insert(e, tag, value)),
    {
        self.commands.push(Command::Insert(e, tag, value));
    }

    /// Records the detaching of the component of type `tag` from `e`.
    pub fn remove(&mut self, e: Entity, tag: u64)
        ensures
            final(self)@ == old(self)@.push(Command::Remove(e, tag)),
    {
        self.commands.push(Command::Remove(e, tag));
    }

    /// Records the storing of `value` as the resource of type `tag`.
    pub fn insert_resource(&mut self, tag: u64, value: V)
        ensures
            final(self)@ == old(self)@.push(Command::InsertResource(tag, value)),
    {
        self.commands.push(Command::InsertResource(tag, value));
    }

    /// Records the removal of the resource of type `tag`.
    pub fn remove_resource(&mut self, tag: u64)
        ensures
            final(self)@ == old(self)@.push(Command::RemoveResource(tag)),
    {
        self.commands.push(Command::RemoveResource(tag));
    }

    /// Applies the recorded commands, first to last, and uses the buffer up.
    pub fn apply(self, storage: &mut Storage<V>, resources: &mut Resources<V>)
        requires
            old(storage).wf(),
            old(resources).wf(),
        ensures
            final(storage).wf(),
            final(resources).wf(),
            (DataView { storage: final(storage)@, resources: final(resources)@ }) == (DataView {
                storage: old(storage)@,
                resources: old(resources)@,
            }).apply_all(self@),
    {
        let ghost start = DataView { storage: storage@, resources: resources@ };
        let ghost all = self@;
        for command in it: self.commands
            invariant
                storage.wf(),
                resources.wf(),
                it.seq() == all,
                (DataView { storage: storage@, resources: resources@ }) == start.apply_all(
                    all.take(it.index() as int),
                ),
        {
            let ghost k = it.index() as int;
            proof {
                assert(all.take(k + 1).drop_last() =~= all.take(k));
                assert(all.take(k + 1).last() == all[k]);
            }
            match command {
                Command::Spawn(items) => {
                    storage.spawn(items);
                },
                Command::Despawn(e) => {
                    storage.despawn(e);
                },
                Command::Insert(e, tag, value) => {
                    storage.insert(e, tag, value);
                },
                Command::Remove(e, tag) => {
                    storage.remove(e, tag);
                },
                Command::InsertResource(tag, value) => {
                    resources.insert(tag, value);
                },
                Command::RemoveResource(tag) => {
                    resources.remove(tag);
                },
            }
        }
        proof {
            assert(all.take(all.len() as int) =~= all);
        }
    }
}

} // verus!
