//! Example component layouts.
//!
//! Small value types used by the crate's scenario tests, with their word
//! encodings.  They double as a worked example of how a caller maps its own
//! component structs onto stored words.

use vstd::prelude::*;

verus! {

/// Singleton accumulator of the query scenarios.
pub struct TestSingleton {
    /// Accumulated product.
    pub data: u64,
}

impl TestSingleton {
    /// The stored words of the value.
    pub fn to_words(&self) -> (r: Vec<u64>)
        ensures
            r@ == seq![self.data],
    {
        let mut r: Vec<u64> = Vec::new();
        r.push(self.data);
        proof {
            assert(r@ =~= seq![self.data]);
        }
        r
    }
}

/// Per-entity datum of the query scenarios.
pub struct TestData {
    /// Stored factor.
    pub data: u64,
}

impl TestData {
    /// The stored words of the value.
    pub fn to_words(&self) -> (r: Vec<u64>)
        ensures
            r@ == seq![self.data],
    {
        let mut r: Vec<u64> = Vec::new();
        r.push(self.data);
        proof {
            assert(r@ =~= seq![self.data]);
        }
        r
    }
}

/// Marker tag of the query scenarios; carries no data.
pub struct TestTag;

/// Or-group branch marker of the query scenarios; carries no data.
pub struct TestTriple;

/// Or-group branch datum of the query scenarios.
pub struct TestMultiplier {
    /// Stored multiplier.
    pub mult: u64,
}

impl TestMultiplier {
    /// The stored words of the value.
    pub fn to_words(&self) -> (r: Vec<u64>)
        ensures
            r@ == seq![self.mult],
    {
        let mut r: Vec<u64> = Vec::new();
        r.push(self.mult);
        proof {
            assert(r@ =~= seq![self.mult]);
        }
        r
    }
}

/// Singleton fixture.
pub struct Foo {
    /// Stored value.
    pub foo_one: u64,
}

/// Singleton fixture.
pub struct Bar {
    /// Stored value.
    pub bar_one: u64,
}

/// Singleton fixture.
pub struct Baz {
    /// Stored value.
    pub baz_one: u64,
}

/// Singleton fixture.
pub struct Qwak {
    /// Stored value.
    pub qwak_one: u64,
}

} // verus!
