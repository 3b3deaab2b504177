//! Finite sets of type tags.

use vstd::prelude::*;

verus! {

/// Position of the first occurrence of `tag` in `tags`.
pub fn position(tags: &Vec<u64>, tag: u64) -> (r: Option<usize>)
    ensures
        match r {
            Some(i) => i < tags@.len() && tags@[i as int] == tag && forall|j: int|
                0 <= j < i ==> tags@[j] != tag,
            None => !tags@.contains(tag),
        },
{
    let mut i: usize = 0;
    while i < tags.len()
        invariant
            i <= tags@.len(),
            forall|j: int| 0 <= j < i ==> tags@[j] != tag,
        decreases tags@.len() - i,
    {
        if tags[i] == tag {
            return Some(i);
        }
        i += 1;
    }
    None
}

/// A finite set of tags.
pub struct TagSet {
    tags: Vec<u64>,
}

impl View for TagSet {
    type V = Set<u64>;

    open spec fn view(&self) -> Set<u64> {
        self.elements().to_set()
    }
}

impl TagSet {
    /// The members, in the order in which they were added.
    pub closed spec fn elements(&self) -> Seq<u64> {
        self.tags@
    }

    /// The empty set.
    pub fn new() -> (s: Self)
        ensures
            s@ == Set::<u64>::empty(),
            s.elements() == Seq::<u64>::empty(),
    {
        let s = TagSet { tags: Vec::new() };
        assert(s@ =~= Set::<u64>::empty());
        s
    }

    /// Number of members.
    pub fn len(&self) -> (n: usize)
        ensures
            n == self.elements().len(),
    {
        self.tags.len()
    }

    /// The `i`-th member.
    pub fn at(&self, i: usize) -> (tag: u64)
        requires
            i < self.elements().len(),
        ensures
            tag == self.elements()[i as int],
            self@.contains(tag),
    {
        self.tags[i]
    }

    /// Whether `tag` is a member.
    pub fn contains(&self, tag: u64) -> (b: bool)
        ensures
            b == self@.contains(tag),
    {
        position(&self.tags, tag).is_some()
    }

    /// Adds `tag`; says whether it was new.
    pub fn insert(&mut self, tag: u64) -> (added: bool)
        ensures
            final(self)@ == old(self)@.insert(tag),
            added == !old(self)@.contains(tag),
            final(self).elements() == (if added {
                old(self).elements().push(tag)
            } else {
                old(self).elements()
            }),
    {
        if position(&self.tags, tag).is_some() {
            assert(self@ =~= old(self)@.insert(tag));
            false
        } else {
            self.tags.push(tag);
            assert forall|t: u64| self@.contains(t) == old(self)@.insert(tag).contains(t) by {
                if old(self).tags@.contains(t) {
                    let j = choose|j: int| 0 <= j < old(self).tags@.len() && old(self).tags@[j] == t;
                    assert(self.tags@[j] == t);
                }
                if t == tag {
                    assert(self.tags@[self.tags@.len() - 1] == t);
                }
            }
            assert(self@ =~= old(self)@.insert(tag));
            true
        }
    }

    /// Whether the two sets share a member.
    pub fn intersects(&self, other: &TagSet) -> (b: bool)
        ensures
            b == !self@.disjoint(other@),
    {
        let mut i: usize = 0;
        while i < self.tags.len()
            invariant
                i <= self.tags@.len(),
                forall|j: int| 0 <= j < i ==> !other@.contains(self.tags@[j]),
            decreases self.tags@.len() - i,
        {
            if other.contains(self.tags[i]) {
                assert(self@.contains(self.tags@[i as int]));
                return true;
            }
            i += 1;
        }
        assert forall|t: u64| self@.contains(t) implies !other@.contains(t) by {
            let j = choose|j: int| 0 <= j < self.tags@.len() && self.tags@[j] == t;
            assert(!other@.contains(self.tags@[j]));
        }
        false
    }

    /// Whether every member is also a member of `other`.
    pub fn is_subset_of(&self, other: &TagSet) -> (b: bool)
        ensures
            b == self@.subset_of(other@),
    {
        let mut i: usize = 0;
        while i < self.tags.len()
            invariant
                i <= self.tags@.len(),
                forall|j: int| 0 <= j < i ==> other@.contains(self.tags@[j]),
            decreases self.tags@.len() - i,
        {
            if !other.contains(self.tags[i]) {
                assert(self@.contains(self.tags@[i as int]));
                return false;
            }
            i += 1;
        }
        assert forall|t: u64| self@.contains(t) implies other@.contains(t) by {
            let j = choose|j: int| 0 <= j < self.tags@.len() && self.tags@[j] == t;
            assert(other@.contains(self.tags@[j]));
        }
        true
    }
}

} // verus!
