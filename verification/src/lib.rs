//! An entity-component engine: storage, scheduling and the run loop.
//!
//! Entities and their components live in a [`storage::Storage`], singletons
//! in a [`resources::Resources`] table, and events in a double-buffered
//! [`events::Events`] channel; together they make up a [`world::World`].
//! Component, resource and event types are told apart by a `u64` tag that
//! the application chooses; the values are of one type `V`, which the
//! application chooses too.
//!
//! A system is a function from what it is shown of the world to what it
//! wants written and what it wants done when its stage is over
//! ([`world::System`]).  What it is shown, and what of its wishes is
//! granted, follows from the parameters that it declares
//! ([`access::Param`]).  Systems are registered in named stages
//! ([`schedule::Schedule`]); within a stage they are ordered by labels and
//! grouped so that no two systems of a group conflict ([`order`]).
//!
//! An [`app::App`] holds a world and a schedule.  Its `start` runs the
//! startup stages once, and each `tick` runs the other stages in sequence;
//! when to tick is for the caller to decide.  What holds of the engine as a
//! whole is proved in [`guarantees`].

pub mod error;
pub mod tag_set;
pub mod tag_map;
pub mod storage;
pub mod resources;
pub mod events;
pub mod commands;
pub mod access;
pub mod order;
pub mod schedule;
pub mod world;
pub mod app;
pub mod guarantees;
