//! The event channel: one double-buffered queue per event type.
//!
//! What is written during a tick goes to the type's current buffer.  At the
//! tick boundary the buffers are turned over: the current buffer becomes the
//! previous one, which is what readers see during the next tick, and what
//! was readable before is dropped.

use vstd::prelude::*;
use crate::error::EngineError;
use crate::tag_map::TagMap;

verus! {

/// The mathematical state of an [`Events`] channel.  Both maps are defined on
/// the registered event types.
pub struct EventsView<V> {
    /// What was written since the last tick boundary.
    pub current: Map<u64, Seq<V>>,
    /// What was written during the tick before.
    pub previous: Map<u64, Seq<V>>,
}

impl<V> EventsView<V> {
    /// A channel without event types.
    pub open spec fn empty() -> Self {
        EventsView { current: Map::empty(), previous: Map::empty() }
    }

    /// Both buffers exist for the same event types.
    pub open spec fn wf(self) -> bool {
        self.current.dom() == self.previous.dom()
    }

    /// Whether `tag` is a registered event type.
    pub open spec fn registered(self, tag: u64) -> bool {
        self.current.contains_key(tag)
    }

    /// What readers of `tag` see: the events of the tick before.
    pub open spec fn read(self, tag: u64) -> Seq<V> {
        if self.previous.contains_key(tag) {
            self.previous[tag]
        } else {
            Seq::empty()
        }
    }

    /// The events of type `tag` written during this tick so far.
    pub open spec fn pending(self, tag: u64) -> Seq<V> {
        if self.current.contains_key(tag) {
            self.current[tag]
        } else {
            Seq::empty()
        }
    }

    /// The state after registering `tag`; unchanged if it was registered.
    pub open spec fn register(self, tag: u64) -> Self {
        if self.registered(tag) {
            self
        } else {
            EventsView {
                current: self.current.insert(tag, Seq::empty()),
                previous: self.previous.insert(tag, Seq::empty()),
            }
        }
    }

    /// The state after writing `event`; unchanged if `tag` is not registered.
    pub open spec fn write(self, tag: u64, event: V) -> Self {
        if self.registered(tag) {
            EventsView { current: self.current.insert(tag, self.current[tag].push(event)), ..self }
        } else {
            self
        }
    }

    /// The state after a tick boundary.
    pub open spec fn update(self) -> Self {
        EventsView {
            current: Map::new(|t: u64| self.current.contains_key(t), |t: u64| Seq::empty()),
            previous: self.current,
        }
    }
}

/// The two buffers of one event type.
struct EventQueue<V> {
    current: Vec<V>,
    previous: Vec<V>,
}

/// The event channel.
pub struct Events<V> {
    queues: TagMap<EventQueue<V>>,
}

impl<V> View for Events<V> {
    type V = EventsView<V>;

    closed spec fn view(&self) -> EventsView<V> {
        EventsView {
            current: Map::new(
                |t: u64| self.queues@.contains_key(t),
                |t: u64| self.queues@[t].current@,
            ),
            previous: Map::new(
                |t: u64| self.queues@.contains_key(t),
                |t: u64| self.queues@[t].previous@,
            ),
        }
    }
}

impl<V> Events<V> {
    /// The channel is sound: no event type has two queues.
    pub closed spec fn wf(&self) -> bool {
        self.queues.wf()
    }

    /// In a sound channel both buffers exist for the same event types.
    pub proof fn lemma_view_wf(&self)
        requires
            self.wf(),
        ensures
            self@.wf(),
    {
        assert(self@.current.dom() =~= self@.previous.dom());
    }

    /// A channel without event types.
    pub fn new() -> (ch: Self)
        ensures
            ch.wf(),
            ch@ == EventsView::<V>::empty(),
    {
        let ch = Events { queues: TagMap::new() };
        assert(ch@.current =~= Map::<u64, Seq<V>>::empty());
        assert(ch@.previous =~= Map::<u64, Seq<V>>::empty());
        ch
    }

    /// Whether `tag` is a registered event type.
    pub fn is_registered(&self, tag: u64) -> (b: bool)
        ensures
            b == self@.registered(tag),
    {
        self.queues.contains(tag)
    }

    /// Registers the event type `tag`, with empty buffers.
    pub fn register(&mut self, tag: u64)
        requires
            old(self).wf(),
        ensures
            final(self).wf(),
            final(self)@ == old(self)@.register(tag),
    {
        if !self.queues.contains(tag) {
            self.queues.insert(tag, EventQueue { current: Vec::new(), previous: Vec::new() });
            assert(self@.current =~= old(self)@.register(tag).current);
            assert(self@.previous =~= old(self)@.register(tag).previous);
        }
    }

    /// Appends `event` to the current buffer of `tag`.
    pub fn write(&mut self, tag: u64, event: V) -> (r: Result<(), EngineError>)
        requires
            old(self).wf(),
        ensures
            final(self).wf(),
            final(self)@ == old(self)@.write(tag, event),
            r == (if old(self)@.registered(tag) {
                Ok::<(), EngineError>(())
            } else {
                Err::<(), EngineError>(EngineError::UnregisteredType)
            }),
    {
        match self.queues.get_mut(tag) {
            Some(queue) => {
                queue.current.push(event);
                proof {
                    assert(self@.current =~= old(self)@.write(tag, event).current);
                    assert(self@.previous =~= old(self)@.write(tag, event).previous);
                }
                Ok(())
            },
            None => Err(EngineError::UnregisteredType),
        }
    }

    /// The events of type `tag` that were written during the tick before.
    pub fn read(&self, tag: u64) -> (r: Result<&Vec<V>, EngineError>)
        requires
            self.wf(),
        ensures
            match r {
                Ok(events) => self@.registered(tag) && events@ == self@.read(tag),
                Err(e) => !self@.registered(tag) && e == EngineError::UnregisteredType,
            },
    {
        match self.queues.get(tag) {
            Some(queue) => Ok(&queue.previous),
            None => Err(EngineError::UnregisteredType),
        }
    }

    /// Number of events of type `tag` written during this tick so far.
    pub fn pending(&self, tag: u64) -> (n: usize)
        requires
            self.wf(),
        ensures
            n == self@.pending(tag).len(),
    {
        match self.queues.get(tag) {
            Some(queue) => queue.current.len(),
            None => 0,
        }
    }

    /// Turns the buffers over at a tick boundary: what was written during
    /// the tick becomes readable, and what was readable is dropped.
    pub fn update(&mut self)
        requires
            old(self).wf(),
        ensures
            final(self).wf(),
            final(self)@ == old(self)@.update(),
    {
        let ghost before = self.queues;
        let mut i: usize = 0;
        while i < self.queues.len()
            invariant
                i <= self.queues.keys().len(),
                self.queues.wf(),
                before.wf(),
                self.queues.keys() == before.keys(),
                forall|k: int|
                    0 <= k < i ==> (#[trigger] self.queues.values()[k]).previous@
                        == before.values()[k].current@ && self.queues.values()[k].current@
                        == Seq::<V>::empty(),
                forall|k: int|
                    i <= k < before.keys().len() ==> (#[trigger] self.queues.values()[k])
                        == before.values()[k],
            decreases self.queues.keys().len() - i,
        {
            let queue = self.queues.value_at_mut(i);
            let mut written: Vec<V> = Vec::new();
            core::mem::swap(&mut queue.current, &mut written);
            queue.previous = written;
            i += 1;
        }
        proof {
            assert forall|t: u64| #[trigger] self.queues@.contains_key(t) implies before@.contains_key(t)
                && self.queues@[t].previous@ == before@[t].current@ && self.queues@[t].current@
                == Seq::<V>::empty() by {
                self.queues.lemma_entry(t);
                before.lemma_entry(t);
            }
            assert(self@.current =~= old(self)@.update().current);
            assert(self@.previous =~= old(self)@.update().previous);
        }
    }
}

/// Writing an event leaves what readers see untouched; after the next tick
/// boundary the event is read as the last of that tick's events, once; and
/// after one more boundary without writes nothing is read.
pub proof fn lemma_event_visibility<V>(channel: EventsView<V>, tag: u64, event: V)
    requires
        channel.registered(tag),
    ensures
        channel.write(tag, event).read(tag) == channel.read(tag),
        channel.write(tag, event).update().read(tag) == channel.pending(tag).push(event),
        channel.write(tag, event).update().update().read(tag) == Seq::<V>::empty(),
{
}

/// A tick boundary makes readable exactly what was written since the one
/// before, whatever was readable until then.
pub proof fn lemma_update_forgets<V>(channel: EventsView<V>, tag: u64)
    ensures
        channel.update().read(tag) == channel.pending(tag),
        channel.update().pending(tag) == Seq::<V>::empty(),
        channel.update().registered(tag) == channel.registered(tag),
{
}

} // verus!
