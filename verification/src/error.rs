//! The engine's error taxonomy.

use vstd::prelude::*;

verus! {

/// What can go wrong while an engine is configured or run.
#[derive(Clone, Copy, PartialEq, Eq, Debug, Structural)]
pub enum EngineError {
    /// A system names a component, resource or event type that was never
    /// registered.
    UnregisteredType,
    /// A system requires a resource that is not in the table.
    MissingResource,
    /// One query asks for the same component type both read-only and mutably.
    ConflictingAccess,
    /// The ordering constraints of a stage cannot all be met.
    OrderingCycle,
    /// A stage was named that the schedule does not hold.
    UnknownStage,
}

impl EngineError {
    /// Whether the error describes a configuration that cannot run at all.
    /// Such errors are raised while the engine is set up; the others are met
    /// while a system is invoked, and cost only that invocation.
    pub open spec fn fatal(self) -> bool {
        self == EngineError::ConflictingAccess || self == EngineError::OrderingCycle || self
            == EngineError::UnknownStage
    }

    /// The error in words.
    pub open spec fn text(self) -> Seq<char> {
        match self {
            EngineError::UnregisteredType => "a type was never registered"@,
            EngineError::MissingResource => "a required resource is absent"@,
            EngineError::ConflictingAccess =>
                "a query asks for one type both read-only and mutably"@,
            EngineError::OrderingCycle => "the ordering constraints run in a circle"@,
            EngineError::UnknownStage => "no stage bears that name"@,
        }
    }

    /// The error in words, for a log line or a message to the user.
    pub fn message(&self) -> (s: String)
        ensures
            s@ == self.text(),
    {
        match self {
            EngineError::UnregisteredType => "a type was never registered".to_owned(),
            EngineError::MissingResource => "a required resource is absent".to_owned(),
            EngineError::ConflictingAccess =>
                "a query asks for one type both read-only and mutably".to_owned(),
            EngineError::OrderingCycle => "the ordering constraints run in a circle".to_owned(),
            EngineError::UnknownStage => "no stage bears that name".to_owned(),
        }
    }

    /// Executable form of [`EngineError::fatal`].
    pub fn is_fatal(&self) -> (b: bool)
        ensures
            b == self.fatal(),
    {
        match self {
            EngineError::ConflictingAccess => true,
            EngineError::OrderingCycle => true,
            EngineError::UnknownStage => true,
            EngineError::UnregisteredType => false,
            EngineError::MissingResource => false,
        }
    }
}

} // verus!
