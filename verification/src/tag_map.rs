//! Maps from type tags to values, kept as two parallel arrays.

use vstd::prelude::*;
use crate::tag_set::position;

verus! {

/// In a sequence without repeats, an element is found where it stands.
pub proof fn lemma_index_of_unique(s: Seq<u64>, i: int)
    requires
        s.no_duplicates(),
        0 <= i < s.len(),
    ensures
        s.contains(s[i]),
        s.index_of(s[i]) == i,
{
    let j = s.index_of(s[i]);
    assert(0 <= j < s.len() && s[j] == s[i]);
}

/// A map from tags to values of type `T`.  Each stored tag owns one slot;
/// slots are numbered from zero and can be walked by index.
pub struct TagMap<T> {
    keys: Vec<u64>,
    values: Vec<T>,
}

impl<T> View for TagMap<T> {
    type V = Map<u64, T>;

    open spec fn view(&self) -> Map<u64, T> {
        Map::new(
            |t: u64| self.keys().contains(t),
            |t: u64| self.values()[self.keys().index_of(t)],
        )
    }
}

impl<T> TagMap<T> {
    /// The tag of each slot.
    pub closed spec fn keys(&self) -> Seq<u64> {
        self.keys@
    }

    /// The value of each slot.
    pub closed spec fn values(&self) -> Seq<T> {
        self.values@
    }

    /// No tag owns two slots, and every slot has a value.
    pub open spec fn wf(&self) -> bool {
        &&& self.keys().no_duplicates()
        &&& self.keys().len() == self.values().len()
    }

    /// Slot `i` is the entry of its tag.
    pub proof fn lemma_slot(&self, i: int)
        requires
            self.wf(),
            0 <= i < self.keys().len(),
        ensures
            self@.contains_key(self.keys()[i]),
            self@[self.keys()[i]] == self.values()[i],
            self.keys().index_of(self.keys()[i]) == i,
    {
        lemma_index_of_unique(self.keys(), i);
    }

    /// Every entry sits in some slot.
    pub proof fn lemma_entry(&self, tag: u64)
        requires
            self.wf(),
            self@.contains_key(tag),
        ensures
            0 <= self.keys().index_of(tag) < self.keys().len(),
            self.keys()[self.keys().index_of(tag)] == tag,
            self@[tag] == self.values()[self.keys().index_of(tag)],
    {
    }

    /// The empty map.
    pub fn new() -> (m: Self)
        ensures
            m.wf(),
            m@ == Map::<u64, T>::empty(),
            m.keys() == Seq::<u64>::empty(),
            m.values() == Seq::<T>::empty(),
    {
        let m = TagMap { keys: Vec::new(), values: Vec::new() };
        assert(m@ =~= Map::<u64, T>::empty());
        m
    }

    /// Number of slots.
    pub fn len(&self) -> (n: usize)
        ensures
            n == self.keys().len(),
    {
        self.keys.len()
    }

    /// The slot of `tag`, if it has one.
    pub fn slot_of(&self, tag: u64) -> (r: Option<usize>)
        ensures
            match r {
                Some(i) => i < self.keys().len() && self.keys()[i as int] == tag,
                None => !self.keys().contains(tag),
            },
    {
        position(&self.keys, tag)
    }

    /// Whether `tag` has an entry.
    pub fn contains(&self, tag: u64) -> (b: bool)
        ensures
            b == self@.contains_key(tag),
    {
        position(&self.keys, tag).is_some()
    }

    /// The value stored under `tag`.
    pub fn get(&self, tag: u64) -> (r: Option<&T>)
        requires
            self.wf(),
        ensures
            match r {
                Some(v) => self@.contains_key(tag) && *v == self@[tag],
                None => !self@.contains_key(tag),
            },
    {
        match position(&self.keys, tag) {
            Some(i) => {
                proof {
                    self.lemma_slot(i as int);
                }
                Some(&self.values[i])
            },
            None => None,
        }
    }

    /// Mutable access to the value stored under `tag`.  Whatever is written
    /// through the reference becomes the entry of `tag`; nothing else changes.
    pub fn get_mut(&mut self, tag: u64) -> (r: Option<&mut T>)
        requires
            old(self).wf(),
        ensures
            final(self).wf(),
            final(self).keys() == old(self).keys(),
            match r {
                Some(v) => old(self)@.contains_key(tag) && *v == old(self)@[tag] && final(self)@
                    == old(self)@.insert(tag, *final(v)),
                None => !old(self)@.contains_key(tag) && final(self)@ == old(self)@,
            },
    {
        match position(&self.keys, tag) {
            Some(i) => {
                proof {
                    self.lemma_slot(i as int);
                }
                let ghost keys = self.keys@;
                let ghost before = self.values@;
                let v = &mut self.values[i];
                proof {
                    let after = before.update(i as int, *final(v));
                    assert forall|t: u64| keys.contains(t) implies #[trigger] after[keys.index_of(
                        t,
                    )] == (if t == tag {
                        *final(v)
                    } else {
                        before[keys.index_of(t)]
                    }) by {
                        lemma_index_of_unique(keys, i as int);
                    }
                }
                Some(v)
            },
            None => None,
        }
    }

    /// Stores `value` under `tag` and hands back what was there before.
    pub fn insert(&mut self, tag: u64, value: T) -> (previous: Option<T>)
        requires
            old(self).wf(),
        ensures
            final(self).wf(),
            final(self)@ == old(self)@.insert(tag, value),
            previous == (if old(self)@.contains_key(tag) {
                Some(old(self)@[tag])
            } else {
                None
            }),
            old(self)@.contains_key(tag) ==> final(self).keys() == old(self).keys()
                && final(self).values() == old(self).values().update(
                old(self).keys().index_of(tag),
                value,
            ),
            !old(self)@.contains_key(tag) ==> final(self).keys() == old(self).keys().push(tag)
                && final(self).values() == old(self).values().push(value),
    {
        match position(&self.keys, tag) {
            Some(i) => {
                let mut held = value;
                core::mem::swap(&mut self.values[i], &mut held);
                proof {
                    lemma_index_of_unique(self.keys@, i as int);
                    assert(self@ =~= old(self)@.insert(tag, value));
                }
                Some(held)
            },
            None => {
                self.keys.push(tag);
                self.values.push(value);
                proof {
                    let n = old(self).keys@.len() as int;
                    assert forall|t: u64| self.keys@.contains(t) == (old(self).keys@.contains(t)
                        || t == tag) by {
                        if old(self).keys@.contains(t) {
                            let j = old(self).keys@.index_of(t);
                            assert(self.keys@[j] == t);
                        }
                        if t == tag {
                            assert(self.keys@[n] == t);
                        }
                    }
                    assert forall|t: u64| self.keys@.contains(t) implies self.values@[self.keys@.index_of(
                        t,
                    )] == old(self)@.insert(tag, value)[t] by {
                        let j = self.keys@.index_of(t);
                        if j < n {
                            lemma_index_of_unique(old(self).keys@, j);
                        }
                    }
                    assert(self@ =~= old(self)@.insert(tag, value));
                }
                None
            },
        }
    }

    /// Takes the entry of `tag` out of the map.  The last slot moves into
    /// the place of the one that is given up.
    pub fn remove(&mut self, tag: u64) -> (removed: Option<T>)
        requires
            old(self).wf(),
        ensures
            final(self).wf(),
            final(self)@ == old(self)@.remove(tag),
            removed == (if old(self)@.contains_key(tag) {
                Some(old(self)@[tag])
            } else {
                None
            }),
            final(self).keys() == (if old(self)@.contains_key(tag) {
                old(self).keys().update(
                    old(self).keys().index_of(tag),
                    old(self).keys().last(),
                ).drop_last()
            } else {
                old(self).keys()
            }),
            final(self).values() == (if old(self)@.contains_key(tag) {
                old(self).values().update(
                    old(self).keys().index_of(tag),
                    old(self).values().last(),
                ).drop_last()
            } else {
                old(self).values()
            }),
    {
        match position(&self.keys, tag) {
            Some(i) => {
                proof {
                    lemma_index_of_unique(self.keys@, i as int);
                }
                self.keys.swap_remove(i);
                let value = self.values.swap_remove(i);
                proof {
                    let before = old(self).keys@;
                    let last = before.len() - 1;
                    assert forall|t: u64| self.keys@.contains(t) == (before.contains(t) && t
                        != tag) by {
                        if self.keys@.contains(t) {
                            let j = self.keys@.index_of(t);
                            if j == i {
                                assert(before[last] == t);
                            } else {
                                assert(before[j] == t);
                            }
                        }
                        if before.contains(t) && t != tag {
                            let j = before.index_of(t);
                            if j == last {
                                assert(self.keys@[i as int] == t);
                            } else {
                                assert(self.keys@[j] == t);
                            }
                        }
                    }
                    assert forall|t: u64| self.keys@.contains(t) implies self.values@[self.keys@.index_of(
                        t,
                    )] == old(self)@[t] by {
                        let j = self.keys@.index_of(t);
                        if j == i {
                            lemma_index_of_unique(before, last);
                        } else {
                            lemma_index_of_unique(before, j);
                        }
                    }
                    assert(self@ =~= old(self)@.remove(tag));
                }
                Some(value)
            },
            None => {
                assert(self@ =~= old(self)@.remove(tag));
                None
            },
        }
    }

    /// The tag of slot `i`.
    pub fn key_at(&self, i: usize) -> (k: u64)
        requires
            i < self.keys().len(),
        ensures
            k == self.keys()[i as int],
    {
        self.keys[i]
    }

    /// The value of slot `i`.
    pub fn value_at(&self, i: usize) -> (v: &T)
        requires
            i < self.values().len(),
        ensures
            *v == self.values()[i as int],
    {
        &self.values[i]
    }

    /// Mutable access to the value of slot `i`.  Whatever is written through
    /// the reference becomes the entry of that slot's tag.
    pub fn value_at_mut(&mut self, i: usize) -> (v: &mut T)
        requires
            old(self).wf(),
            i < old(self).values().len(),
        ensures
            *v == old(self).values()[i as int],
            final(self).wf(),
            final(self).keys() == old(self).keys(),
            final(self).values() == old(self).values().update(i as int, *final(v)),
            final(self)@ == old(self)@.insert(old(self).keys()[i as int], *final(v)),
    {
        let ghost keys = self.keys@;
        let ghost before = self.values@;
        let v = &mut self.values[i];
        proof {
            let after = before.update(i as int, *final(v));
            lemma_index_of_unique(keys, i as int);
            assert forall|t: u64| keys.contains(t) implies #[trigger] after[keys.index_of(t)] == (
            if t == keys[i as int] {
                *final(v)
            } else {
                before[keys.index_of(t)]
            }) by {}
        }
        v
    }
}

} // verus!
