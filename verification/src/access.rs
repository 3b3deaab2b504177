//! What a system asks for, and the access signature that follows from it.
//!
//! A system declares its parameters when it is registered.  From them the
//! engine works out which component, resource and event types the system
//! reads and which it writes.  Two systems conflict when one writes a type
//! that the other reads or writes.

use vstd::prelude::*;
use crate::error::EngineError;
use crate::tag_set::TagSet;

verus! {

/// How a system uses a type.
#[derive(Clone, Copy, PartialEq, Eq, Debug, Structural)]
pub enum AccessMode {
    Read,
    Write,
}

/// One declared parameter of a system.
pub enum Param {
    /// The entities that carry all the listed component types, each type
    /// read-only or mutable.
    Query(Vec<(u64, AccessMode)>),
    /// A resource, read-only.  The system is not run while it is absent.
    Res(u64),
    /// A resource, mutable.  The system is not run while it is absent.
    ResMut(u64),
    /// A resource, read-only, that may be absent.
    OptionRes(u64),
    /// A resource, mutable, that may be absent.
    OptionResMut(u64),
    /// A command buffer.
    Commands,
    /// The events of a type that were written during the tick before.
    EventReader(u64),
    /// The right to write events of a type.
    EventWriter(u64),
}

/// The read and write sets of a system.
pub struct AccessView {
    pub component_reads: Set<u64>,
    pub component_writes: Set<u64>,
    pub resource_reads: Set<u64>,
    pub resource_writes: Set<u64>,
    pub event_reads: Set<u64>,
    pub event_writes: Set<u64>,
    /// The resource types without which the system cannot run.
    pub required: Set<u64>,
    /// Whether the system records commands.
    pub commands: bool,
}

/// Whether a query asks for one component type both read-only and mutably.
pub open spec fn contradictory(items: Seq<(u64, AccessMode)>) -> bool {
    exists|i: int, j: int|
        0 <= i < items.len() && 0 <= j < items.len() && (#[trigger] items[i]).0 == (
        #[trigger] items[j]).0 && items[i].1 == AccessMode::Read && items[j].1
            == AccessMode::Write
}

/// Whether some query among `params` is contradictory.
pub open spec fn rejected(params: Seq<Param>) -> bool {
    exists|p: int|
        0 <= p < params.len() && (#[trigger] params[p]) is Query && contradictory(
            params[p]->Query_0@,
        )
}

/// Whether one side writes what the other reads or writes.
pub open spec fn overlap(
    reads_a: Set<u64>,
    writes_a: Set<u64>,
    reads_b: Set<u64>,
    writes_b: Set<u64>,
) -> bool {
    !writes_a.disjoint(writes_b) || !writes_a.disjoint(reads_b) || !reads_a.disjoint(writes_b)
}

impl AccessView {
    /// The signature of a system without parameters.
    pub open spec fn empty() -> Self {
        AccessView {
            component_reads: Set::empty(),
            component_writes: Set::empty(),
            resource_reads: Set::empty(),
            resource_writes: Set::empty(),
            event_reads: Set::empty(),
            event_writes: Set::empty(),
            required: Set::empty(),
            commands: false,
        }
    }

    /// Whether the system may look at components of type `tag`.
    pub open spec fn reads_component(self, tag: u64) -> bool {
        self.component_reads.contains(tag) || self.component_writes.contains(tag)
    }

    /// Whether the system may change components of type `tag`.
    pub open spec fn writes_component(self, tag: u64) -> bool {
        self.component_writes.contains(tag)
    }

    /// Whether the system may look at the resource of type `tag`.
    pub open spec fn reads_resource(self, tag: u64) -> bool {
        self.resource_reads.contains(tag) || self.resource_writes.contains(tag)
    }

    /// Whether the system may change the resource of type `tag`.
    pub open spec fn writes_resource(self, tag: u64) -> bool {
        self.resource_writes.contains(tag)
    }

    /// Whether the system may read events of type `tag`.
    pub open spec fn reads_event(self, tag: u64) -> bool {
        self.event_reads.contains(tag)
    }

    /// Whether the system may write events of type `tag`.
    pub open spec fn writes_event(self, tag: u64) -> bool {
        self.event_writes.contains(tag)
    }

    /// The signature with one more requested component type.
    pub open spec fn with_component(self, tag: u64, mode: AccessMode) -> Self {
        match mode {
            AccessMode::Read => AccessView {
                component_reads: self.component_reads.insert(tag),
                ..self
            },
            AccessMode::Write => AccessView {
                component_writes: self.component_writes.insert(tag),
                ..self
            },
        }
    }

    /// The signature with the component types of one more query.
    pub open spec fn with_query(self, items: Seq<(u64, AccessMode)>) -> Self
        decreases items.len(),
    {
        if items.len() == 0 {
            self
        } else {
            self.with_query(items.drop_last()).with_component(items.last().0, items.last().1)
        }
    }

    /// The signature with one more parameter.
    pub open spec fn with_param(self, param: Param) -> Self {
        match param {
            Param::Query(items) => self.with_query(items@),
            Param::Res(tag) => AccessView {
                resource_reads: self.resource_reads.insert(tag),
                required: self.required.insert(tag),
                ..self
            },
            Param::ResMut(tag) => AccessView {
                resource_writes: self.resource_writes.insert(tag),
                required: self.required.insert(tag),
                ..self
            },
            Param::OptionRes(tag) => AccessView {
                resource_reads: self.resource_reads.insert(tag),
                ..self
            },
            Param::OptionResMut(tag) => AccessView {
                resource_writes: self.resource_writes.insert(tag),
                ..self
            },
            Param::Commands => AccessView { commands: true, ..self },
            Param::EventReader(tag) => AccessView {
                event_reads: self.event_reads.insert(tag),
                ..self
            },
            Param::EventWriter(tag) => AccessView {
                event_writes: self.event_writes.insert(tag),
                ..self
            },
        }
    }

    /// The signature with each of `params`, first to last.
    pub open spec fn with_params(self, params: Seq<Param>) -> Self
        decreases params.len(),
    {
        if params.len() == 0 {
            self
        } else {
            self.with_params(params.drop_last()).with_param(params.last())
        }
    }

    /// The signature of a system with the parameters `params`.
    pub open spec fn of(params: Seq<Param>) -> Self {
        AccessView::empty().with_params(params)
    }

    /// Whether two systems must not run at the same time: one of them writes
    /// a component, resource or event type that the other reads or writes.
    /// Recording commands never conflicts, for each system has a buffer of
    /// its own.
    pub open spec fn conflicts(self, other: AccessView) -> bool {
        ||| overlap(
            self.component_reads,
            self.component_writes,
            other.component_reads,
            other.component_writes,
        )
        ||| overlap(
            self.resource_reads,
            self.resource_writes,
            other.resource_reads,
            other.resource_writes,
        )
        ||| overlap(self.event_reads, self.event_writes, other.event_reads, other.event_writes)
    }
}

/// Executable form of [`contradictory`].
pub fn is_contradictory(items: &Vec<(u64, AccessMode)>) -> (b: bool)
    ensures
        b == contradictory(items@),
{
    let mut i: usize = 0;
    while i < items.len()
        invariant
            i <= items@.len(),
            forall|a: int, b: int|
                0 <= a < i && 0 <= b < items@.len() ==> !((#[trigger] items@[a]).0 == (
                #[trigger] items@[b]).0 && items@[a].1 == AccessMode::Read && items@[b].1
                    == AccessMode::Write),
        decreases items@.len() - i,
    {
        let mut j: usize = 0;
        while j < items.len()
            invariant
                i < items@.len(),
                j <= items@.len(),
                forall|b: int|
                    0 <= b < j ==> !(items@[i as int].0 == (#[trigger] items@[b]).0
                        && items@[i as int].1 == AccessMode::Read && items@[b].1
                        == AccessMode::Write),
            decreases items@.len() - j,
        {
            if items[i].0 == items[j].0 && items[i].1 == AccessMode::Read && items[j].1
                == AccessMode::Write {
                return true;
            }
            j += 1;
        }
        i += 1;
    }
    false
}

/// The access signature of a system, worked out once when the system is
/// registered.
pub struct AccessSignature {
    component_reads: TagSet,
    component_writes: TagSet,
    resource_reads: TagSet,
    resource_writes: TagSet,
    event_reads: TagSet,
    event_writes: TagSet,
    required: TagSet,
    commands: bool,
}

impl View for AccessSignature {
    type V = AccessView;

    closed spec fn view(&self) -> AccessView {
        AccessView {
            component_reads: self.component_reads@,
            component_writes: self.component_writes@,
            resource_reads: self.resource_reads@,
            resource_writes: self.resource_writes@,
            event_reads: self.event_reads@,
            event_writes: self.event_writes@,
            required: self.required@,
            commands: self.commands,
        }
    }
}

impl AccessSignature {
    /// The signature of a system without parameters.
    pub fn empty() -> (s: Self)
        ensures
            s@ == AccessView::empty(),
    {
        AccessSignature {
            component_reads: TagSet::new(),
            component_writes: TagSet::new(),
            resource_reads: TagSet::new(),
            resource_writes: TagSet::new(),
            event_reads: TagSet::new(),
            event_writes: TagSet::new(),
            required: TagSet::new(),
            commands: false,
        }
    }

    /// Adds the component types of a query.
    fn add_query(&mut self, items: &Vec<(u64, AccessMode)>)
        ensures
            final(self)@ == old(self)@.with_query(items@),
    {
        let mut i: usize = 0;
        while i < items.len()
            invariant
                i <= items@.len(),
                self@ == old(self)@.with_query(items@.take(i as int)),
            decreases items@.len() - i,
        {
            proof {
                assert(items@.take(i + 1).drop_last() =~= items@.take(i as int));
            }
            let (tag, mode) = items[i];
            match mode {
                AccessMode::Read => {
                    self.component_reads.insert(tag);
                },
                AccessMode::Write => {
                    self.component_writes.insert(tag);
                },
            }
            i += 1;
        }
        proof {
            assert(items@.take(items@.len() as int) =~= items@);
        }
    }

    /// Adds one parameter.
    fn add_param(&mut self, param: &Param)
        ensures
            final(self)@ == old(self)@.with_param(*param),
    {
        match param {
            Param::Query(items) => {
                self.add_query(items);
            },
            Param::Res(tag) => {
                self.resource_reads.insert(*tag);
                self.required.insert(*tag);
            },
            Param::ResMut(tag) => {
                self.resource_writes.insert(*tag);
                self.required.insert(*tag);
            },
            Param::OptionRes(tag) => {
                self.resource_reads.insert(*tag);
            },
            Param::OptionResMut(tag) => {
                self.resource_writes.insert(*tag);
            },
            Param::Commands => {
                self.commands = true;
            },
            Param::EventReader(tag) => {
                self.event_reads.insert(*tag);
            },
            Param::EventWriter(tag) => {
                self.event_writes.insert(*tag);
            },
        }
    }

    /// The signature of a system with the parameters `params`.  Fails with
    /// `ConflictingAccess` when one of its queries asks for a component type
    /// both read-only and mutably.
    pub fn new(params: &Vec<Param>) -> (r: Result<AccessSignature, EngineError>)
        ensures
            match r {
                Ok(signature) => !rejected(params@) && signature@ == AccessView::of(params@),
                Err(e) => rejected(params@) && e == EngineError::ConflictingAccess,
            },
    {
        let mut signature = AccessSignature::empty();
        let mut i: usize = 0;
        while i < params.len()
            invariant
                i <= params@.len(),
                signature@ == AccessView::empty().with_params(params@.take(i as int)),
                forall|p: int|
                    0 <= p < i ==> !((#[trigger] params@[p]) is Query && contradictory(
                        params@[p]->Query_0@,
                    )),
            decreases params@.len() - i,
        {
            proof {
                assert(params@.take(i + 1).drop_last() =~= params@.take(i as int));
            }
            match &params[i] {
                Param::Query(items) => {
                    if is_contradictory(items) {
                        return Err(EngineError::ConflictingAccess);
                    }
                },
                _ => {},
            }
            signature.add_param(&params[i]);
            i += 1;
        }
        proof {
            assert(params@.take(params@.len() as int) =~= params@);
        }
        Ok(signature)
    }

    /// Whether the system may look at components of type `tag`.
    pub fn can_read_component(&self, tag: u64) -> (b: bool)
        ensures
            b == self@.reads_component(tag),
    {
        self.component_reads.contains(tag) || self.component_writes.contains(tag)
    }

    /// Whether the system may change components of type `tag`.
    pub fn can_write_component(&self, tag: u64) -> (b: bool)
        ensures
            b == self@.writes_component(tag),
    {
        self.component_writes.contains(tag)
    }

    /// Whether the system may look at the resource of type `tag`.
    pub fn can_read_resource(&self, tag: u64) -> (b: bool)
        ensures
            b == self@.reads_resource(tag),
    {
        self.resource_reads.contains(tag) || self.resource_writes.contains(tag)
    }

    /// Whether the system may change the resource of type `tag`.
    pub fn can_write_resource(&self, tag: u64) -> (b: bool)
        ensures
            b == self@.writes_resource(tag),
    {
        self.resource_writes.contains(tag)
    }

    /// Whether the system may read events of type `tag`.
    pub fn can_read_event(&self, tag: u64) -> (b: bool)
        ensures
            b == self@.reads_event(tag),
    {
        self.event_reads.contains(tag)
    }

    /// Whether the system may write events of type `tag`.
    pub fn can_write_event(&self, tag: u64) -> (b: bool)
        ensures
            b == self@.writes_event(tag),
    {
        self.event_writes.contains(tag)
    }

    /// The component types that the system asks for read-only.
    pub(crate) fn component_reads(&self) -> (tags: &TagSet)
        ensures
            tags@ == self@.component_reads,
    {
        &self.component_reads
    }

    /// The component types that the system asks for mutably.
    pub(crate) fn component_writes(&self) -> (tags: &TagSet)
        ensures
            tags@ == self@.component_writes,
    {
        &self.component_writes
    }

    /// The resource types that the system asks for read-only.
    pub(crate) fn resource_reads(&self) -> (tags: &TagSet)
        ensures
            tags@ == self@.resource_reads,
    {
        &self.resource_reads
    }

    /// The resource types that the system asks for mutably.
    pub(crate) fn resource_writes(&self) -> (tags: &TagSet)
        ensures
            tags@ == self@.resource_writes,
    {
        &self.resource_writes
    }

    /// The event types that the system reads.
    pub(crate) fn event_reads(&self) -> (tags: &TagSet)
        ensures
            tags@ == self@.event_reads,
    {
        &self.event_reads
    }

    /// The event types that the system writes.
    pub(crate) fn event_writes(&self) -> (tags: &TagSet)
        ensures
            tags@ == self@.event_writes,
    {
        &self.event_writes
    }

    /// The resource types without which the system cannot run.
    pub(crate) fn required(&self) -> (tags: &TagSet)
        ensures
            tags@ == self@.required,
    {
        &self.required
    }

    /// Whether the system records commands.
    pub fn uses_commands(&self) -> (b: bool)
        ensures
            b == self@.commands,
    {
        self.commands
    }

    /// Whether the two systems must not run at the same time.
    pub fn conflicts_with(&self, other: &AccessSignature) -> (b: bool)
        ensures
            b == self@.conflicts(other@),
    {
        kinds_overlap(
            &self.component_reads,
            &self.component_writes,
            &other.component_reads,
            &other.component_writes,
        ) || kinds_overlap(
            &self.resource_reads,
            &self.resource_writes,
            &other.resource_reads,
            &other.resource_writes,
        ) || kinds_overlap(
            &self.event_reads,
            &self.event_writes,
            &other.event_reads,
            &other.event_writes,
        )
    }
}

/// Executable form of [`overlap`].
fn kinds_overlap(reads_a: &TagSet, writes_a: &TagSet, reads_b: &TagSet, writes_b: &TagSet) -> (b:
    bool)
    ensures
        b == overlap(reads_a@, writes_a@, reads_b@, writes_b@),
{
    writes_a.intersects(writes_b) || writes_a.intersects(reads_b) || reads_a.intersects(writes_b)
}

/// Conflict is mutual.
pub proof fn lemma_conflicts_symmetric(a: AccessView, b: AccessView)
    ensures
        a.conflicts(b) == b.conflicts(a),
{
    lemma_overlap_symmetric(
        a.component_reads,
        a.component_writes,
        b.component_reads,
        b.component_writes,
    );
    lemma_overlap_symmetric(
        a.resource_reads,
        a.resource_writes,
        b.resource_reads,
        b.resource_writes,
    );
    lemma_overlap_symmetric(a.event_reads, a.event_writes, b.event_reads, b.event_writes);
}

proof fn lemma_overlap_symmetric(
    reads_a: Set<u64>,
    writes_a: Set<u64>,
    reads_b: Set<u64>,
    writes_b: Set<u64>,
)
    ensures
        overlap(reads_a, writes_a, reads_b, writes_b) == overlap(
            reads_b,
            writes_b,
            reads_a,
            writes_a,
        ),
{
    assert(writes_a.disjoint(writes_b) == writes_b.disjoint(writes_a));
    assert(writes_a.disjoint(reads_b) == reads_b.disjoint(writes_a));
    assert(reads_a.disjoint(writes_b) == writes_b.disjoint(reads_a));
}

} // verus!
