//! Stages and the systems registered in them.
//!
//! A schedule is a sequence of named stages.  The stages at its head that
//! are marked as startup stages run once, before the first tick; the others
//! run on every tick, in sequence.  A stage may be added directly before or
//! after a stage of a given name.  Names need not be distinct: a name stands
//! for the first stage that bears it.
//!
//! Within a stage, systems are ordered by labels: a system may carry labels,
//! and may ask to run after, or before, every system that carries a given
//! label.

use vstd::prelude::*;
use crate::access::{rejected, AccessSignature, AccessView, Param};
use crate::error::EngineError;
use crate::order::{
    concat,
    earliest,
    is_order,
    is_plan,
    partition,
    relation_of,
    respects,
    schedulable,
    square,
    topological_order,
};

verus! {

/// The names that the strings spell.
pub open spec fn names_of(names: Seq<String>) -> Seq<Seq<char>> {
    Seq::new(names.len(), |i: int| names[i]@)
}

/// Whether the two lists have a name in common.
pub open spec fn shares(xs: Seq<Seq<char>>, ys: Seq<Seq<char>>) -> bool {
    exists|i: int, j: int|
        #![trigger xs[i], ys[j]]
        0 <= i < xs.len() && 0 <= j < ys.len() && xs[i] == ys[j]
}

/// Executable form of [`shares`].
pub fn share_name(xs: &Vec<String>, ys: &Vec<String>) -> (b: bool)
    ensures
        b == shares(names_of(xs@), names_of(ys@)),
{
    let ghost xn = names_of(xs@);
    let ghost yn = names_of(ys@);
    let mut i: usize = 0;
    while i < xs.len()
        invariant
            i <= xs@.len(),
            xn == names_of(xs@),
            yn == names_of(ys@),
            forall|a: int, b: int|
                #![trigger xn[a], yn[b]]
                0 <= a < i && 0 <= b < yn.len() ==> xn[a] != yn[b],
        decreases xs@.len() - i,
    {
        let mut j: usize = 0;
        while j < ys.len()
            invariant
                i < xs@.len(),
                j <= ys@.len(),
                xn == names_of(xs@),
                yn == names_of(ys@),
                forall|b: int| 0 <= b < j ==> xn[i as int] != #[trigger] yn[b],
            decreases ys@.len() - j,
        {
            if xs[i] == ys[j] {
                assert(xn[i as int] == yn[j as int]);
                return true;
            }
            j += 1;
        }
        i += 1;
    }
    false
}

/// What is said of a system when it is registered.
pub struct SystemDescriptor {
    /// The parameters that the system asks for.
    pub params: Vec<Param>,
    /// The labels that the system carries.
    pub labels: Vec<String>,
    /// The system runs after every system that carries one of these labels.
    pub after: Vec<String>,
    /// The system runs before every system that carries one of these labels.
    pub before: Vec<String>,
}

impl SystemDescriptor {
    /// A system with the parameters `params`, without labels or constraints.
    pub fn new(params: Vec<Param>) -> (d: Self)
        ensures
            d.params == params,
            d.labels@.len() == 0,
            d.after@.len() == 0,
            d.before@.len() == 0,
    {
        SystemDescriptor { params, labels: Vec::new(), after: Vec::new(), before: Vec::new() }
    }

    /// The same system, carrying the label `name` as well.
    pub fn label(self, name: &str) -> (d: Self)
        ensures
            d.params == self.params,
            d.after == self.after,
            d.before == self.before,
            names_of(d.labels@) == names_of(self.labels@).push(name@),
    {
        let mut d = self;
        d.labels.push(name.to_owned());
        assert(names_of(d.labels@) =~= names_of(self.labels@).push(name@));
        d
    }

    /// The same system, to run after every system labelled `name` as well.
    pub fn after(self, name: &str) -> (d: Self)
        ensures
            d.params == self.params,
            d.labels == self.labels,
            d.before == self.before,
            names_of(d.after@) == names_of(self.after@).push(name@),
    {
        let mut d = self;
        d.after.push(name.to_owned());
        assert(names_of(d.after@) =~= names_of(self.after@).push(name@));
        d
    }

    /// The same system, to run before every system labelled `name` as well.
    pub fn before(self, name: &str) -> (d: Self)
        ensures
            d.params == self.params,
            d.labels == self.labels,
            d.after == self.after,
            names_of(d.before@) == names_of(self.before@).push(name@),
    {
        let mut d = self;
        d.before.push(name.to_owned());
        assert(names_of(d.before@) =~= names_of(self.before@).push(name@));
        d
    }
}

/// What the schedule knows of a registered system.
pub struct SystemView {
    pub labels: Seq<Seq<char>>,
    pub after: Seq<Seq<char>>,
    pub before: Seq<Seq<char>>,
    pub access: AccessView,
}

impl SystemView {
    /// What the schedule records of a system registered with `descriptor`.
    pub open spec fn of(descriptor: SystemDescriptor) -> SystemView {
        SystemView {
            labels: names_of(descriptor.labels@),
            after: names_of(descriptor.after@),
            before: names_of(descriptor.before@),
            access: AccessView::of(descriptor.params@),
        }
    }

    /// Whether this system must run before `other`: `other` asks to run
    /// after one of its labels, or it asks to run before one of `other`'s.
    pub open spec fn must_precede(self, other: SystemView) -> bool {
        shares(self.labels, other.after) || shares(self.before, other.labels)
    }
}

/// Which system of a stage must run before which.
pub open spec fn runs_before(systems: Seq<SystemView>) -> spec_fn(int, int) -> bool {
    |a: int, b: int|
        0 <= a < systems.len() && 0 <= b < systems.len() && systems[a].must_precede(systems[b])
}

/// Which two systems of a stage must not run at the same time.
pub open spec fn in_conflict(systems: Seq<SystemView>) -> spec_fn(int, int) -> bool {
    |a: int, b: int|
        0 <= a < systems.len() && 0 <= b < systems.len() && systems[a].access.conflicts(
            systems[b].access,
        )
}

/// Whether `groups` is the plan of a stage with the systems `systems`: the
/// groups, taken one after the other, list every system once, in the order
/// that respects the constraints and takes the lowest-numbered free system
/// at every step; and each group is a longest run of systems that may run
/// side by side.
pub open spec fn is_schedule(groups: Seq<Vec<usize>>, systems: Seq<SystemView>) -> bool {
    &&& is_order(concat(groups), systems.len())
    &&& respects(concat(groups), runs_before(systems))
    &&& earliest(concat(groups), systems.len(), runs_before(systems))
    &&& is_plan(groups, concat(groups), runs_before(systems), in_conflict(systems))
}

/// The order in which the systems of a stage run: the one that respects the
/// constraints and takes the lowest-numbered free system at every step.
pub open spec fn stage_order(systems: Seq<SystemView>) -> Seq<usize> {
    choose|order: Seq<usize>|
        is_order(order, systems.len()) && respects(order, runs_before(systems)) && earliest(
            order,
            systems.len(),
            runs_before(systems),
        )
}

/// A registered system: what the schedule knows of it, and the system.
struct SystemEntry<S> {
    labels: Vec<String>,
    after: Vec<String>,
    before: Vec<String>,
    access: AccessSignature,
    system: S,
}

impl<S> View for SystemEntry<S> {
    type V = SystemView;

    closed spec fn view(&self) -> SystemView {
        SystemView {
            labels: names_of(self.labels@),
            after: names_of(self.after@),
            before: names_of(self.before@),
            access: self.access@,
        }
    }
}

spec fn entry_views<S>(entries: Seq<SystemEntry<S>>) -> Seq<SystemView> {
    Seq::new(entries.len(), |i: int| entries[i]@)
}

/// The state of a stage.
pub struct StageView {
    pub name: Seq<char>,
    /// Whether the stage runs once, before the first tick.
    pub startup: bool,
    /// The systems, in the order in which they were registered.
    pub systems: Seq<SystemView>,
}

/// A named stage and its systems.
pub struct Stage<S> {
    name: String,
    startup: bool,
    systems: Vec<SystemEntry<S>>,
}

impl<S> View for Stage<S> {
    type V = StageView;

    closed spec fn view(&self) -> StageView {
        StageView {
            name: self.name@,
            startup: self.startup,
            systems: entry_views(self.systems@),
        }
    }
}

/// Whether system `a` must run before system `b`.
fn precedes<S>(a: &SystemEntry<S>, b: &SystemEntry<S>) -> (r: bool)
    ensures
        r == a@.must_precede(b@),
{
    share_name(&a.labels, &b.after) || share_name(&a.before, &b.labels)
}

/// The matrix of one of the two relations between the systems of a stage:
/// of `runs_before` if `ordering`, else of `in_conflict`.
fn relation_matrix<S>(systems: &Vec<SystemEntry<S>>, ordering: bool) -> (m: Vec<Vec<bool>>)
    ensures
        square(m@),
        m@.len() == systems@.len(),
        ordering ==> relation_of(m@) == runs_before(entry_views(systems@)),
        !ordering ==> relation_of(m@) == in_conflict(entry_views(systems@)),
{
    let n = systems.len();
    let ghost views = entry_views(systems@);
    let ghost rel = if ordering {
        runs_before(views)
    } else {
        in_conflict(views)
    };
    let mut m: Vec<Vec<bool>> = Vec::new();
    let mut a: usize = 0;
    while a < n
        invariant
            n == systems@.len(),
            views == entry_views(systems@),
            rel == (if ordering {
                runs_before(views)
            } else {
                in_conflict(views)
            }),
            a <= n,
            m@.len() == a,
            forall|i: int| 0 <= i < a ==> (#[trigger] m@[i])@.len() == n,
            forall|i: int, j: int| 0 <= i < a && 0 <= j < n ==> m@[i]@[j] == rel(i, j),
        decreases n - a,
    {
        let mut row: Vec<bool> = Vec::new();
        let mut b: usize = 0;
        while b < n
            invariant
                n == systems@.len(),
                views == entry_views(systems@),
                rel == (if ordering {
                    runs_before(views)
                } else {
                    in_conflict(views)
                }),
                a < n,
                b <= n,
                row@.len() == b,
                forall|j: int| 0 <= j < b ==> row@[j] == rel(a as int, j),
            decreases n - b,
        {
            let cell = if ordering {
                precedes(&systems[a], &systems[b])
            } else {
                systems[a].access.conflicts_with(&systems[b].access)
            };
            row.push(cell);
            b += 1;
        }
        m.push(row);
        a += 1;
    }
    proof {
        assert forall|i: int, j: int| #[trigger] relation_of(m@)(i, j) == rel(i, j) by {}
        assert(relation_of(m@) =~= rel);
    }
    m
}

impl<S> Stage<S> {
    /// The systems themselves, in the order in which they were registered.
    pub closed spec fn systems(&self) -> Seq<S> {
        Seq::new(self.systems@.len(), |k: int| self.systems@[k].system)
    }

    /// The stage knows something of each of its systems, and they are no
    /// more than the machine can count.
    pub proof fn lemma_systems_len(&self)
        ensures
            self.systems().len() == self@.systems.len(),
            self@.systems.len() <= usize::MAX,
    {
        assert(self.systems.len() == self.systems@.len());
    }

    /// The name of the stage.
    pub fn name(&self) -> (name: &String)
        ensures
            name@ == self@.name,
    {
        &self.name
    }

    /// Whether the stage runs once, before the first tick.
    pub fn is_startup(&self) -> (b: bool)
        ensures
            b == self@.startup,
    {
        self.startup
    }

    /// Number of registered systems.
    pub fn len(&self) -> (n: usize)
        ensures
            n == self@.systems.len(),
    {
        self.systems.len()
    }

    /// The access signature of system `k`.
    pub fn access(&self, k: usize) -> (access: &AccessSignature)
        requires
            k < self@.systems.len(),
        ensures
            access@ == self@.systems[k as int].access,
    {
        &self.systems[k].access
    }

    /// System `k`.
    pub fn system(&self, k: usize) -> (system: &S)
        requires
            k < self@.systems.len(),
        ensures
            *system == self.systems()[k as int],
    {
        &self.systems[k].system
    }

    /// The plan of the stage: its systems in the order in which they run,
    /// cut into groups that may run side by side.  Fails with
    /// `OrderingCycle` when the ordering constraints cannot all be met.
    pub fn plan(&self) -> (r: Result<Vec<Vec<usize>>, EngineError>)
        ensures
            match r {
                Ok(groups) => is_schedule(groups@, self@.systems),
                Err(e) => e == EngineError::OrderingCycle && !schedulable(
                    self@.systems.len(),
                    runs_before(self@.systems),
                ),
            },
    {
        let m = relation_matrix(&self.systems, true);
        let c = relation_matrix(&self.systems, false);
        match topological_order(&m) {
            Ok(order) => Ok(partition(&order, &m, &c)),
            Err(e) => Err(e),
        }
    }
}

/// Whether `i` is the first stage named `name`.
pub open spec fn is_stage(stages: Seq<StageView>, name: Seq<char>, i: int) -> bool {
    &&& 0 <= i < stages.len()
    &&& stages[i].name == name
    &&& forall|j: int| 0 <= j < i ==> (#[trigger] stages[j]).name != name
}

/// Whether some stage is named `name`.
pub open spec fn has_stage(stages: Seq<StageView>, name: Seq<char>) -> bool {
    exists|i: int| 0 <= i < stages.len() && (#[trigger] stages[i]).name == name
}

/// The position of the first stage named `name`.
pub open spec fn stage_position(stages: Seq<StageView>, name: Seq<char>) -> int {
    choose|i: int| is_stage(stages, name, i)
}

/// A new stage without systems.
pub open spec fn empty_stage(name: Seq<char>, startup: bool) -> StageView {
    StageView { name, startup, systems: Seq::empty() }
}

/// The stage with one more system.
pub open spec fn with_system(stage: StageView, system: SystemView) -> StageView {
    StageView { systems: stage.systems.push(system), ..stage }
}

/// The sequence of stages.
pub struct Schedule<S> {
    stages: Vec<Stage<S>>,
}

impl<S> View for Schedule<S> {
    type V = Seq<StageView>;

    closed spec fn view(&self) -> Seq<StageView> {
        Seq::new(self.stages@.len(), |i: int| self.stages@[i]@)
    }
}

impl<S> Schedule<S> {
    /// The systems of each stage.
    pub closed spec fn systems(&self) -> Seq<Seq<S>> {
        Seq::new(self.stages@.len(), |i: int| self.stages@[i].systems())
    }

    /// No stage has more systems than the machine can count.
    pub proof fn lemma_stage_sizes(&self)
        ensures
            forall|i: int| 0 <= i < self@.len() ==> (#[trigger] self@[i]).systems.len() <= usize::MAX,
    {
        assert forall|i: int| 0 <= i < self@.len() implies (#[trigger] self@[i]).systems.len()
            <= usize::MAX by {
            self.stages@[i].lemma_systems_len();
        }
    }

    /// A schedule without stages.
    pub fn new() -> (s: Self)
        ensures
            s@ == Seq::<StageView>::empty(),
            s.systems() == Seq::<Seq<S>>::empty(),
    {
        let s = Schedule { stages: Vec::new() };
        assert(s@ =~= Seq::<StageView>::empty());
        assert(s.systems() =~= Seq::<Seq<S>>::empty());
        s
    }

    /// Number of stages.
    pub fn len(&self) -> (n: usize)
        ensures
            n == self@.len(),
    {
        self.stages.len()
    }

    /// Stage `i`.
    pub fn stage(&self, i: usize) -> (stage: &Stage<S>)
        requires
            i < self@.len(),
        ensures
            stage@ == self@[i as int],
            stage.systems() == self.systems()[i as int],
    {
        &self.stages[i]
    }

    /// The position of the first stage named `name`.
    pub fn find(&self, name: &str) -> (r: Option<usize>)
        ensures
            match r {
                Some(i) => is_stage(self@, name@, i as int) && i == stage_position(self@, name@),
                None => !has_stage(self@, name@),
            },
    {
        let wanted = name.to_owned();
        let mut i: usize = 0;
        while i < self.stages.len()
            invariant
                i <= self.stages@.len(),
                wanted@ == name@,
                forall|j: int| 0 <= j < i ==> (#[trigger] self@[j]).name != name@,
            decreases self.stages@.len() - i,
        {
            if self.stages[i].name == wanted {
                assert(is_stage(self@, name@, i as int));
                return Some(i);
            }
            i += 1;
        }
        None
    }

    /// Adds a stage named `name` at the end.
    pub fn push_stage(&mut self, name: &str, startup: bool)
        ensures
            final(self)@ == old(self)@.push(empty_stage(name@, startup)),
            final(self).systems() == old(self).systems().push(Seq::empty()),
    {
        self.stages.push(Stage { name: name.to_owned(), startup, systems: Vec::new() });
        assert(self.stages@.last()@.systems =~= Seq::<SystemView>::empty());
        assert(self.stages@.last().systems() =~= Seq::<S>::empty());
        assert(self@ =~= old(self)@.push(empty_stage(name@, startup)));
        assert(self.systems() =~= old(self).systems().push(Seq::empty()));
    }

    /// Adds a stage named `name` directly before the first stage named
    /// `reference`, or directly after it if `after`.  The new stage is a
    /// startup stage if and only if the stage that it is placed by is one.
    /// Fails with `UnknownStage`, and changes nothing, when no stage is
    /// named `reference`.
    pub fn add_stage(&mut self, reference: &str, name: &str, after: bool) -> (r: Result<
        (),
        EngineError,
    >)
        ensures
            r == (if has_stage(old(self)@, reference@) {
                Ok::<(), EngineError>(())
            } else {
                Err::<(), EngineError>(EngineError::UnknownStage)
            }),
            final(self)@ == (if r is Ok {
                let i = stage_position(old(self)@, reference@);
                old(self)@.insert(
                    if after {
                        i + 1
                    } else {
                        i
                    },
                    empty_stage(name@, old(self)@[i].startup),
                )
            } else {
                old(self)@
            }),
            final(self).systems() == (if r is Ok {
                let i = stage_position(old(self)@, reference@);
                old(self).systems().insert(
                    if after {
                        i + 1
                    } else {
                        i
                    },
                    Seq::empty(),
                )
            } else {
                old(self).systems()
            }),
    {
        match self.find(reference) {
            Some(i) => {
                let startup = self.stages[i].startup;
                let count = self.stages.len();
                assert(i < count);
                let at = if after {
                    i + 1
                } else {
                    i
                };
                self.stages.insert(at, Stage { name: name.to_owned(), startup, systems: Vec::new() });
                proof {
                    assert(self.stages@[at as int]@.systems =~= Seq::<SystemView>::empty());
                    assert(self.stages@[at as int].systems() =~= Seq::<S>::empty());
                    assert(self@ =~= old(self)@.insert(
                        at as int,
                        empty_stage(name@, old(self)@[i as int].startup),
                    ));
                    assert(self.systems() =~= old(self).systems().insert(at as int, Seq::empty()));
                }
                Ok(())
            },
            None => Err(EngineError::UnknownStage),
        }
    }

    /// Registers `system` in the first stage named `stage`, behind the
    /// systems that the stage holds.  Fails, and changes nothing, with
    /// `ConflictingAccess` when one of the system's queries asks for a
    /// component type both read-only and mutably, else with `UnknownStage`
    /// when no stage is named `stage`.
    pub fn add_system(&mut self, stage: &str, descriptor: SystemDescriptor, system: S) -> (r:
        Result<(), EngineError>)
        ensures
            r == (if rejected(descriptor.params@) {
                Err::<(), EngineError>(EngineError::ConflictingAccess)
            } else if !has_stage(old(self)@, stage@) {
                Err::<(), EngineError>(EngineError::UnknownStage)
            } else {
                Ok::<(), EngineError>(())
            }),
            final(self)@ == (if r is Ok {
                let i = stage_position(old(self)@, stage@);
                old(self)@.update(i, with_system(old(self)@[i], SystemView::of(descriptor)))
            } else {
                old(self)@
            }),
            final(self).systems() == (if r is Ok {
                let i = stage_position(old(self)@, stage@);
                old(self).systems().update(i, old(self).systems()[i].push(system))
            } else {
                old(self).systems()
            }),
    {
        let access = match AccessSignature::new(&descriptor.params) {
            Ok(access) => access,
            Err(e) => {
                return Err(e);
            },
        };
        match self.find(stage) {
            Some(i) => {
                let entry = SystemEntry {
                    labels: descriptor.labels,
                    after: descriptor.after,
                    before: descriptor.before,
                    access,
                    system,
                };
                let ghost added = entry@;
                self.stages[i].systems.push(entry);
                proof {
                    assert(self.stages@[i as int]@.systems =~= old(self)@[i as int].systems.push(
                        added,
                    ));
                    assert(self.stages@[i as int].systems() =~= old(self).systems()[i as int].push(
                        system,
                    ));
                    assert(self.systems() =~= old(self).systems().update(
                        i as int,
                        old(self).systems()[i as int].push(system),
                    ));
                    assert(self@ =~= old(self)@.update(
                        i as int,
                        with_system(old(self)@[i as int], SystemView::of(descriptor)),
                    ));
                }
                Ok(())
            },
            None => Err(EngineError::UnknownStage),
        }
    }
}

} // verus!
