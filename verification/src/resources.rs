//! The resource table: at most one value for each resource type.

use vstd::prelude::*;
use crate::tag_map::TagMap;

verus! {

/// Singleton values, one per resource type.
pub struct Resources<V> {
    table: TagMap<V>,
}

impl<V> View for Resources<V> {
    type V = Map<u64, V>;

    closed spec fn view(&self) -> Map<u64, V> {
        self.table@
    }
}

impl<V> Resources<V> {
    /// The table is sound: no type has two values.
    pub closed spec fn wf(&self) -> bool {
        self.table.wf()
    }

    /// An empty table.
    pub fn new() -> (r: Self)
        ensures
            r.wf(),
            r@ == Map::<u64, V>::empty(),
    {
        Resources { table: TagMap::new() }
    }

    /// Whether a resource of type `tag` is present.
    pub fn contains(&self, tag: u64) -> (b: bool)
        ensures
            b == self@.contains_key(tag),
    {
        self.table.contains(tag)
    }

    /// Stores `value` as the resource of type `tag`, in place of any earlier
    /// one, which is handed back.
    pub fn insert(&mut self, tag: u64, value: V) -> (previous: Option<V>)
        requires
            old(self).wf(),
        ensures
            final(self).wf(),
            final(self)@ == old(self)@.insert(tag, value),
            previous == (if old(self)@.contains_key(tag) {
                Some(old(self)@[tag])
            } else {
                None
            }),
    {
        self.table.insert(tag, value)
    }

    /// The resource of type `tag`.
    pub fn get(&self, tag: u64) -> (r: Option<&V>)
        requires
            self.wf(),
        ensures
            match r {
                Some(v) => self@.contains_key(tag) && *v == self@[tag],
                None => !self@.contains_key(tag),
            },
    {
        self.table.get(tag)
    }

    /// Mutable access to the resource of type `tag`.  Whatever is written
    /// through the reference becomes the resource; nothing else changes.
    pub fn get_mut(&mut self, tag: u64) -> (r: Option<&mut V>)
        requires
            old(self).wf(),
        ensures
            final(self).wf(),
            match r {
                Some(v) => old(self)@.contains_key(tag) && *v == old(self)@[tag] && final(self)@
                    == old(self)@.insert(tag, *final(v)),
                None => !old(self)@.contains_key(tag) && final(self)@ == old(self)@,
            },
    {
        self.table.get_mut(tag)
    }

    /// Takes the resource of type `tag` out of the table.
    pub fn remove(&mut self, tag: u64) -> (removed: Option<V>)
        requires
            old(self).wf(),
        ensures
            final(self).wf(),
            final(self)@ == old(self)@.remove(tag),
            removed == (if old(self)@.contains_key(tag) {
                Some(old(self)@[tag])
            } else {
                None
            }),
    {
        self.table.remove(tag)
    }
}

} // verus!
