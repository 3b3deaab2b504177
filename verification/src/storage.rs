//! Entities and the components attached to them.
//!
//! Components are kept in one column per component type.  A column has one
//! cell for every entity slot; a slot is handed out again after its entity is
//! despawned, under a higher generation, so that a stale handle is never
//! mistaken for the slot's new tenant.

use vstd::prelude::*;
use crate::tag_map::TagMap;

verus! {

/// A handle to an entity: a slot number and the generation of the slot at the
/// time the entity was spawned.
#[derive(Clone, Copy, PartialEq, Eq, Debug, Hash, Structural)]
pub struct Entity {
    pub index: usize,
    pub generation: u64,
}

/// The mathematical state of a [`Storage`].
pub struct StorageView<V> {
    /// The current generation of every slot.
    pub generations: Seq<u64>,
    /// Whether the slot holds a live entity.
    pub alive: Seq<bool>,
    /// Vacant slots, the next one to be reused last.
    pub free: Seq<usize>,
    /// The component of each (slot, component type) pair.
    pub components: Map<(usize, u64), V>,
}

impl<V> StorageView<V> {
    /// A storage without entities.
    pub open spec fn empty() -> Self {
        StorageView {
            generations: Seq::empty(),
            alive: Seq::empty(),
            free: Seq::empty(),
            components: Map::empty(),
        }
    }

    /// Vacant slots are dead and listed once, and only live slots carry
    /// components.
    pub open spec fn wf(self) -> bool {
        &&& self.alive.len() == self.generations.len()
        &&& self.free.no_duplicates()
        &&& forall|i: int|
            0 <= i < self.free.len() ==> (#[trigger] self.free[i]) < self.alive.len()
                && !self.alive[self.free[i] as int]
        &&& forall|k: (usize, u64)| #[trigger]
            self.components.contains_key(k) ==> k.0 < self.alive.len() && self.alive[k.0 as int]
    }

    /// Whether `e` is a live entity.
    pub open spec fn contains(self, e: Entity) -> bool {
        &&& e.index < self.alive.len()
        &&& e.index < self.generations.len()
        &&& self.alive[e.index as int]
        &&& self.generations[e.index as int] == e.generation
    }

    /// Whether `e` is live and carries a component of type `tag`.
    pub open spec fn has(self, e: Entity, tag: u64) -> bool {
        self.contains(e) && self.components.contains_key((e.index, tag))
    }

    /// The component of type `tag` on `e`.
    pub open spec fn get(self, e: Entity, tag: u64) -> Option<V> {
        if self.has(e, tag) {
            Some(self.components[(e.index, tag)])
        } else {
            None
        }
    }

    /// Whether `e` is live and carries every component type in `tags`.
    pub open spec fn matches(self, e: Entity, tags: Seq<u64>) -> bool {
        &&& self.contains(e)
        &&& forall|j: int|
            0 <= j < tags.len() ==> self.components.contains_key((e.index, #[trigger] tags[j]))
    }

    /// Whether the handle `e` is used up: its slot has moved on to a later
    /// generation, or is dead and will not be handed out again.
    pub open spec fn retired(self, e: Entity) -> bool {
        &&& e.index < self.alive.len()
        &&& e.index < self.generations.len()
        &&& (self.generations[e.index as int] > e.generation || (self.generations[e.index as int]
            == e.generation && !self.alive[e.index as int] && !self.free.contains(e.index)))
    }

    /// The handle that the next spawn returns.
    pub open spec fn next_entity(self) -> Entity {
        if self.free.len() > 0 {
            Entity { index: self.free.last(), generation: self.generations[self.free.last() as int] }
        } else {
            Entity { index: self.generations.len() as usize, generation: 0 }
        }
    }

    /// The state after spawning an entity without components.
    pub open spec fn spawn_empty(self) -> Self {
        if self.free.len() > 0 {
            StorageView {
                alive: self.alive.update(self.free.last() as int, true),
                free: self.free.drop_last(),
                ..self
            }
        } else {
            StorageView {
                generations: self.generations.push(0),
                alive: self.alive.push(true),
                ..self
            }
        }
    }

    /// The state after attaching `value` to `e`; unchanged if `e` is not live.
    pub open spec fn insert(self, e: Entity, tag: u64, value: V) -> Self {
        if self.contains(e) {
            StorageView { components: self.components.insert((e.index, tag), value), ..self }
        } else {
            self
        }
    }

    /// The state after attaching each of `items` to `e`, first to last.
    pub open spec fn insert_all(self, e: Entity, items: Seq<(u64, V)>) -> Self
        decreases items.len(),
    {
        if items.len() == 0 {
            self
        } else {
            self.insert_all(e, items.drop_last()).insert(e, items.last().0, items.last().1)
        }
    }

    /// The state after spawning an entity with the components `items`.
    pub open spec fn spawn(self, items: Seq<(u64, V)>) -> Self {
        self.spawn_empty().insert_all(self.next_entity(), items)
    }

    /// The state after detaching the component of type `tag` from `e`.
    pub open spec fn remove(self, e: Entity, tag: u64) -> Self {
        if self.contains(e) {
            StorageView { components: self.components.remove((e.index, tag)), ..self }
        } else {
            self
        }
    }

    /// The state after despawning `e`; unchanged if `e` is not live.  The
    /// slot moves to the next generation and becomes vacant, unless its
    /// generations are used up: then it is never handed out again.
    pub open spec fn despawn(self, e: Entity) -> Self {
        if self.contains(e) {
            let reusable = e.generation < u64::MAX;
            StorageView {
                generations: if reusable {
                    self.generations.update(e.index as int, (e.generation + 1) as u64)
                } else {
                    self.generations
                },
                alive: self.alive.update(e.index as int, false),
                free: if reusable {
                    self.free.push(e.index)
                } else {
                    self.free
                },
                components: Map::new(
                    |k: (usize, u64)| self.components.contains_key(k) && k.0 != e.index,
                    |k: (usize, u64)| self.components[k],
                ),
            }
        } else {
            self
        }
    }
}

/// Entities and their components, one column per component type.
pub struct Storage<V> {
    generations: Vec<u64>,
    alive: Vec<bool>,
    free: Vec<usize>,
    columns: TagMap<Vec<Option<V>>>,
}

impl<V> View for Storage<V> {
    type V = StorageView<V>;

    closed spec fn view(&self) -> StorageView<V> {
        StorageView {
            generations: self.generations@,
            alive: self.alive@,
            free: self.free@,
            components: Map::new(
                |k: (usize, u64)|
                    self.columns@.contains_key(k.1) && k.0 < self.columns@[k.1]@.len()
                        && self.columns@[k.1]@[k.0 as int] is Some,
                |k: (usize, u64)| self.columns@[k.1]@[k.0 as int]->0,
            ),
        }
    }
}

/// A column of `n` empty cells.
fn blank_column<V>(n: usize) -> (column: Vec<Option<V>>)
    ensures
        column@.len() == n,
        forall|i: int| 0 <= i < n ==> column@[i] is None,
{
    let mut column: Vec<Option<V>> = Vec::new();
    let mut i: usize = 0;
    while i < n
        invariant
            i <= n,
            column@.len() == i,
            forall|j: int| 0 <= j < i ==> column@[j] is None,
        decreases n - i,
    {
        column.push(None);
        i += 1;
    }
    column
}

impl<V> Storage<V> {
    /// Every column has one cell per slot, the cells of dead slots are empty,
    /// and the vacant slots are dead and listed once.
    pub closed spec fn wf(&self) -> bool {
        &&& self.columns.wf()
        &&& self.alive@.len() == self.generations@.len()
        &&& forall|t: u64| #[trigger]
            self.columns@.contains_key(t) ==> self.columns@[t]@.len() == self.alive@.len()
        &&& forall|t: u64, i: int|
            self.columns@.contains_key(t) && 0 <= i < self.alive@.len() && !self.alive@[i]
                ==> (#[trigger] self.columns@[t]@[i]) is None
        &&& self.free@.no_duplicates()
        &&& forall|i: int|
            0 <= i < self.free@.len() ==> (#[trigger] self.free@[i]) < self.alive@.len()
                && !self.alive@[self.free@[i] as int]
    }

    /// A well-formed storage has a well-formed state.
    pub proof fn lemma_view_wf(&self)
        requires
            self.wf(),
        ensures
            self@.wf(),
    {
        assert forall|k: (usize, u64)| #[trigger] self@.components.contains_key(k) implies k.0
            < self@.alive.len() && self@.alive[k.0 as int] by {
            assert(self.columns@.contains_key(k.1));
            if !self.alive@[k.0 as int] {
                assert(self.columns@[k.1]@[k.0 as int] is None);
            }
        }
    }

    /// A storage without entities.
    pub fn new() -> (s: Self)
        ensures
            s.wf(),
            s@ == StorageView::<V>::empty(),
    {
        let s = Storage {
            generations: Vec::new(),
            alive: Vec::new(),
            free: Vec::new(),
            columns: TagMap::new(),
        };
        assert(s@.components =~= Map::<(usize, u64), V>::empty());
        s
    }

    /// Whether `e` is a live entity.
    pub fn contains(&self, e: Entity) -> (b: bool)
        requires
            self.wf(),
        ensures
            b == self@.contains(e),
    {
        e.index < self.alive.len() && self.alive[e.index] && self.generations[e.index]
            == e.generation
    }

    /// Spawns an entity without components.
    pub fn spawn_empty(&mut self) -> (e: Entity)
        requires
            old(self).wf(),
        ensures
            final(self).wf(),
            e == old(self)@.next_entity(),
            final(self)@ == old(self)@.spawn_empty(),
    {
        match self.free.pop() {
            Some(i) => {
                self.alive[i] = true;
                let e = Entity { index: i, generation: self.generations[i] };
                proof {
                    assert(old(self).free@[old(self).free@.len() - 1] == i);
                    assert(self.free@ =~= old(self).free@.drop_last());
                    assert forall|j: int| 0 <= j < self.free@.len() implies (#[trigger] self.free@[j])
                        < self.alive@.len() && !self.alive@[self.free@[j] as int] by {
                        assert(self.free@[j] == old(self).free@[j]);
                    }
                    assert(self@.components =~= old(self)@.components);
                }
                e
            },
            None => {
                let i = self.generations.len();
                self.generations.push(0);
                self.alive.push(true);
                let ghost before = self.columns;
                let mut c: usize = 0;
                while c < self.columns.len()
                    invariant
                        c <= self.columns.keys().len(),
                        self.columns.wf(),
                        before.wf(),
                        self.columns.keys() == before.keys(),
                        self.generations@ == old(self).generations@.push(0),
                        self.alive@ == old(self).alive@.push(true),
                        self.free@ == old(self).free@,
                        forall|k: int|
                            0 <= k < c ==> (#[trigger] self.columns.values()[k])@
                                == before.values()[k]@.push(None),
                        forall|k: int|
                            c <= k < before.keys().len() ==> (#[trigger] self.columns.values()[k])
                                == before.values()[k],
                    decreases self.columns.keys().len() - c,
                {
                    self.columns.value_at_mut(c).push(None);
                    c += 1;
                }
                proof {
                    assert forall|t: u64| #[trigger] self.columns@.contains_key(t) implies before@.contains_key(t)
                        && self.columns@[t]@ == before@[t]@.push(None) by {
                        self.columns.lemma_entry(t);
                        before.lemma_entry(t);
                    }
                    assert(self@.components =~= old(self)@.components);
                    assert(self.free@ =~= old(self).free@);
                }
                Entity { index: i, generation: 0 }
            },
        }
    }

    /// Attaches `value` to `e` as its component of type `tag`, in place of any
    /// earlier one.  Does nothing, and returns `false`, if `e` is not live.
    pub fn insert(&mut self, e: Entity, tag: u64, value: V) -> (done: bool)
        requires
            old(self).wf(),
        ensures
            final(self).wf(),
            done == old(self)@.contains(e),
            final(self)@ == old(self)@.insert(e, tag, value),
    {
        if !self.contains(e) {
            return false;
        }
        let slot = match self.columns.slot_of(tag) {
            Some(slot) => slot,
            None => {
                let column = blank_column(self.alive.len());
                self.columns.insert(tag, column);
                self.columns.len() - 1
            },
        };
        let ghost mid = self.columns;
        proof {
            mid.lemma_slot(slot as int);
            assert(mid.keys()[slot as int] == tag);
            assert forall|t: u64| #[trigger] mid@.contains_key(t) implies mid@[t]@.len()
                == self.alive@.len() by {}
        }
        let column = self.columns.value_at_mut(slot);
        column[e.index] = Some(value);
        proof {
            assert(self.columns@ == mid@.insert(tag, self.columns@[tag]));
            assert(self.columns@[tag]@ == mid@[tag]@.update(e.index as int, Some(value)));
            assert(self@.components =~= old(self)@.components.insert((e.index, tag), value));
        }
        true
    }

    /// Spawns an entity that carries the components `items`.  Where a type
    /// occurs twice, the later value stays.
    pub fn spawn(&mut self, items: Vec<(u64, V)>) -> (e: Entity)
        requires
            old(self).wf(),
        ensures
            final(self).wf(),
            e == old(self)@.next_entity(),
            final(self)@ == old(self)@.spawn(items@),
    {
        let e = self.spawn_empty();
        let ghost base = self@;
        for item in it: items
            invariant
                self.wf(),
                it.seq() == items@,
                self@ == base.insert_all(e, items@.take(it.index() as int)),
        {
            let ghost k = it.index() as int;
            let (tag, value) = item;
            self.insert(e, tag, value);
            proof {
                assert(items@.take(k + 1).drop_last() =~= items@.take(k));
                assert(items@.take(k + 1).last() == items@[k]);
            }
        }
        proof {
            assert(items@.take(items@.len() as int) =~= items@);
        }
        e
    }

    /// Despawns `e` and drops its components.  Does nothing, and returns
    /// `false`, if `e` is not live.
    pub fn despawn(&mut self, e: Entity) -> (done: bool)
        requires
            old(self).wf(),
        ensures
            final(self).wf(),
            done == old(self)@.contains(e),
            final(self)@ == old(self)@.despawn(e),
    {
        if !self.contains(e) {
            return false;
        }
        let ghost before = self.columns;
        let mut c: usize = 0;
        while c < self.columns.len()
            invariant
                c <= self.columns.keys().len(),
                self.columns.wf(),
                before.wf(),
                self.columns.keys() == before.keys(),
                self.generations@ == old(self).generations@,
                self.alive@ == old(self).alive@,
                self.free@ == old(self).free@,
                e.index < self.alive@.len(),
                forall|t: u64| #[trigger]
                    before@.contains_key(t) ==> before@[t]@.len() == self.alive@.len(),
                forall|k: int|
                    0 <= k < c ==> (#[trigger] self.columns.values()[k])@
                        == before.values()[k]@.update(e.index as int, None),
                forall|k: int|
                    c <= k < before.keys().len() ==> (#[trigger] self.columns.values()[k])
                        == before.values()[k],
            decreases self.columns.keys().len() - c,
        {
            proof {
                before.lemma_slot(c as int);
            }
            let column = self.columns.value_at_mut(c);
            column[e.index] = None;
            c += 1;
        }
        self.alive[e.index] = false;
        if e.generation < u64::MAX {
            self.generations[e.index] = e.generation + 1;
            self.free.push(e.index);
        }
        proof {
            assert forall|t: u64| #[trigger] self.columns@.contains_key(t) implies before@.contains_key(t)
                && self.columns@[t]@ == before@[t]@.update(e.index as int, None) by {
                self.columns.lemma_entry(t);
                before.lemma_entry(t);
            }
            assert(self@.components =~= old(self)@.despawn(e).components);
            assert(self@.free =~= old(self)@.despawn(e).free);
        }
        true
    }

    /// Detaches the component of type `tag` from `e` and hands it back.
    pub fn remove(&mut self, e: Entity, tag: u64) -> (removed: Option<V>)
        requires
            old(self).wf(),
        ensures
            final(self).wf(),
            removed == old(self)@.get(e, tag),
            final(self)@ == old(self)@.remove(e, tag),
    {
        if !self.contains(e) {
            return None;
        }
        match self.columns.get_mut(tag) {
            Some(column) => {
                let removed = column[e.index].take();
                proof {
                    assert(self.columns@[tag]@ == old(self).columns@[tag]@.update(
                        e.index as int,
                        None,
                    ));
                    assert(self@.components =~= old(self)@.components.remove((e.index, tag)));
                }
                removed
            },
            None => {
                proof {
                    assert(self@.components =~= old(self)@.components.remove((e.index, tag)));
                }
                None
            },
        }
    }

    /// Whether `e` is live and carries a component of type `tag`.
    pub fn has(&self, e: Entity, tag: u64) -> (b: bool)
        requires
            self.wf(),
        ensures
            b == self@.has(e, tag),
    {
        self.contains(e) && self.cell_is_set(e.index, tag)
    }

    /// The component of type `tag` on `e`.
    pub fn get(&self, e: Entity, tag: u64) -> (r: Option<&V>)
        requires
            self.wf(),
        ensures
            match r {
                Some(v) => self@.get(e, tag) == Some(*v),
                None => self@.get(e, tag) is None,
            },
    {
        if !self.contains(e) {
            return None;
        }
        match self.columns.get(tag) {
            Some(column) => column[e.index].as_ref(),
            None => None,
        }
    }

    /// Whether slot `i` has a component of type `tag`.
    fn cell_is_set(&self, i: usize, tag: u64) -> (b: bool)
        requires
            self.wf(),
            i < self.alive@.len(),
        ensures
            b == self@.components.contains_key((i, tag)),
    {
        match self.columns.get(tag) {
            Some(column) => column[i].is_some(),
            None => false,
        }
    }

    /// Whether slot `i` has a component of every type in `tags`.
    fn row_has_all(&self, i: usize, tags: &Vec<u64>) -> (b: bool)
        requires
            self.wf(),
            i < self.alive@.len(),
        ensures
            b == (forall|j: int|
                0 <= j < tags@.len() ==> self@.components.contains_key((i, #[trigger] tags@[j]))),
    {
        let mut j: usize = 0;
        while j < tags.len()
            invariant
                self.wf(),
                i < self.alive@.len(),
                j <= tags@.len(),
                forall|k: int|
                    0 <= k < j ==> self@.components.contains_key((i, #[trigger] tags@[k])),
            decreases tags@.len() - j,
        {
            if !self.cell_is_set(i, tags[j]) {
                return false;
            }
            j += 1;
        }
        true
    }

    /// The live entities that carry every component type in `tags`, by
    /// ascending slot number.
    pub fn query(&self, tags: &Vec<u64>) -> (found: Vec<Entity>)
        requires
            self.wf(),
        ensures
            forall|k: int| 0 <= k < found@.len() ==> self@.matches(#[trigger] found@[k], tags@),
            forall|e: Entity| self@.matches(e, tags@) ==> found@.contains(e),
            forall|a: int, b: int|
                0 <= a < b < found@.len() ==> found@[a].index < found@[b].index,
    {
        let mut found: Vec<Entity> = Vec::new();
        let mut i: usize = 0;
        while i < self.alive.len()
            invariant
                self.wf(),
                i <= self.alive@.len(),
                forall|k: int|
                    0 <= k < found@.len() ==> self@.matches(#[trigger] found@[k], tags@)
                        && found@[k].index < i,
                forall|e: Entity| self@.matches(e, tags@) && e.index < i ==> found@.contains(e),
                forall|a: int, b: int|
                    0 <= a < b < found@.len() ==> found@[a].index < found@[b].index,
            decreases self.alive@.len() - i,
        {
            if self.alive[i] && self.row_has_all(i, tags) {
                let e = Entity { index: i, generation: self.generations[i] };
                let ghost earlier = found@;
                found.push(e);
                proof {
                    assert forall|x: Entity| self@.matches(x, tags@) && x.index < i + 1 implies found@.contains(
                        x,
                    ) by {
                        if x.index < i {
                            assert(earlier.contains(x));
                            let k = earlier.index_of(x);
                            assert(found@[k] == x);
                        } else {
                            assert(x == e);
                            assert(found@[found@.len() - 1] == x);
                        }
                    }
                }
            }
            i += 1;
        }
        found
    }
}

} // verus!
