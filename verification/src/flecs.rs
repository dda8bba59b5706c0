//! Built-in identifiers.
//!
//! A fixed table of entity ids that every world starts with: relationship
//! traits, deletion policies, scheduler phases and a few marker tags.  They
//! occupy the indices below [`FIRST_USER_INDEX`], which the identifier
//! allocator never hands out.

use vstd::prelude::*;

verus! {

/// The null id; never names an entity.
pub const NULL_ID: u64 = 0;

/// Hierarchy relationship: a pair `(CHILD_OF, parent)` makes an entity a
/// child of `parent`.  Exclusive, acyclic, and deleting the parent deletes
/// the children.
pub const CHILD_OF: u64 = 1;

/// Ordering relationship between scheduler phases and systems.
pub const DEPENDS_ON: u64 = 2;

/// Matches any id in a query term, or any half of a pair pattern.
pub const WILDCARD: u64 = 3;

/// Relationship trait: the relationship is transitive.
pub const TRANSITIVE: u64 = 4;

/// Relationship trait: the relationship is reflexive.
pub const REFLEXIVE: u64 = 5;

/// Relationship trait: adding `(R, b)` to `a` also adds `(R, a)` to `b`.
pub const SYMMETRIC: u64 = 6;

/// Relationship trait: an entity holds at most one target per relationship.
pub const EXCLUSIVE: u64 = 7;

/// Relationship trait: an edge that would close a cycle is rejected.
pub const ACYCLIC: u64 = 8;

/// Relationship trait carrier: the pair `(ON_DELETE_TARGET, policy)` on a
/// relationship declares what happens to holders of a pair whose target is
/// deleted.
pub const ON_DELETE_TARGET: u64 = 9;

/// Deletion policy: delete the entity that holds the pair.
pub const POLICY_DELETE: u64 = 10;

/// Deletion policy: strip just the pair; the default.
pub const POLICY_REMOVE: u64 = 11;

/// Deletion policy: refuse to delete the target.
pub const POLICY_PANIC: u64 = 12;

/// Marker tag: the entity is a prefab and is skipped by default matching.
pub const PREFAB: u64 = 13;

/// Marker tag placed on every registered system entity.
pub const SYSTEM: u64 = 14;

/// Scheduler phase: runs first in a frame.
pub const ON_LOAD: u64 = 15;

/// Scheduler phase: after loading.
pub const POST_LOAD: u64 = 16;

/// Scheduler phase: before the main update.
pub const PRE_UPDATE: u64 = 17;

/// Scheduler phase: the main update; the default phase for systems.
pub const ON_UPDATE: u64 = 18;

/// Scheduler phase: validation after the main update.
pub const ON_VALIDATE: u64 = 19;

/// Scheduler phase: after validation.
pub const POST_UPDATE: u64 = 20;

/// Scheduler phase: before storing.
pub const PRE_STORE: u64 = 21;

/// Scheduler phase: runs last in a frame.
pub const ON_STORE: u64 = 22;

/// Indices below this are reserved for built-in entities.
pub const FIRST_USER_INDEX: u64 = 32;

/// Highest built-in id that names an alive entity in a fresh world.
pub const LAST_BUILTIN: u64 = 22;

/// Marker for types that stand for built-in identifiers.
pub trait FlecsTrait {

}

impl FlecsTrait for crate::component::UnknownType {

}

impl FlecsTrait for crate::component::EmptyType {

}

/// Configuration for the optional introspection connection; the transport
/// itself is outside the storage core.
pub struct Rest {
    /// Port the connection listens on.
    pub port: u16,
}

/// Rank of a built-in scheduler phase inside a frame; systems run in rank
/// order.  Ids that are not phases rank alongside [`ON_UPDATE`].
pub open spec fn spec_phase_rank(phase: u64) -> int {
    if phase == ON_LOAD {
        0
    } else if phase == POST_LOAD {
        1
    } else if phase == PRE_UPDATE {
        2
    } else if phase == ON_VALIDATE {
        4
    } else if phase == POST_UPDATE {
        5
    } else if phase == PRE_STORE {
        6
    } else if phase == ON_STORE {
        7
    } else {
        3
    }
}

/// Rank of a built-in scheduler phase inside a frame.
pub fn phase_rank(phase: u64) -> (r: u64)
    ensures
        r as int == spec_phase_rank(phase),
{
    if phase == ON_LOAD {
        0
    } else if phase == POST_LOAD {
        1
    } else if phase == PRE_UPDATE {
        2
    } else if phase == ON_VALIDATE {
        4
    } else if phase == POST_UPDATE {
        5
    } else if phase == PRE_STORE {
        6
    } else if phase == ON_STORE {
        7
    } else {
        3
    }
}

} // verus!
