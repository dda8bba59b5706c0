//! A verified entity-component-system core.
//!
//! The crate stores entities, the components attached to them, and the
//! indices needed to query and iterate over them: an identifier space with
//! generation-checked recycling, a component registry, archetype tables that
//! keep entities with identical component sets in contiguous columns, a
//! relationship (pair) mechanism with deletion policies, a query engine with
//! wildcards, negation, optional terms and Or-groups, and a scheduler that
//! runs registered systems in phase order with rate and interval throttling.

pub mod api;
pub mod builder;
pub mod component;
pub mod defer;
pub mod entity;
pub mod expr;
pub mod fixtures;
pub mod flecs;
pub mod laws;
pub mod lifecycle;
pub mod ops;
pub mod query;
pub mod rel;
pub mod store;
pub mod system;
pub mod table;
pub mod world;

pub use crate::builder::QueryBuilder;
pub use crate::query::{Iter, Query, Term};
pub use crate::system::SystemBuilder;
pub use crate::world::{EcsError, World};
