//! Component registry.
//!
//! Maps a component's id to its storage metadata: byte size, alignment and
//! lifecycle hook flags.  A component's value is stored as 64-bit words,
//! `(size + 7) / 8` of them per row; a tag has size zero and no storage.
//! The registry is per world, append-only, and idempotent by symbol.

use vstd::prelude::*;

use crate::entity::{spec_is_pair, spec_pair_first, spec_pair_second};

verus! {

/// Storage metadata of one registered component.
pub struct CompInfo {
    /// The entity id that names the component.
    pub id: u64,
    /// Registration symbol; unique per world.
    pub symbol: String,
    /// Value size in bytes; zero for a tag.
    pub size: u32,
    /// Value alignment in bytes.
    pub align: u32,
    /// Number of 64-bit words a value occupies in a column row.
    pub words: usize,
    /// Whether a destructor hook runs when a value is discarded.
    pub has_dtor: bool,
    /// Whether a copy hook was registered for the component.
    pub has_copy: bool,
}

/// Words needed to store a value of `size` bytes.
pub open spec fn spec_words_for_size(size: u32) -> int {
    (size as int + 7) / 8
}

/// A typed handle to a registered component: the raw id together with the
/// compile-time type its values decode to.
pub struct Id<T> {
    /// The component's entity id.
    pub raw: u64,
    /// The value type the handle stands for.
    pub marker: core::marker::PhantomData<T>,
}

impl<T> Id<T> {
    /// Wraps a raw component id.
    pub fn of(raw: u64) -> (r: Id<T>)
        ensures
            r.raw == raw,
    {
        Id { raw, marker: core::marker::PhantomData }
    }

    /// The raw component id.
    pub fn retrieve_id(&self) -> (r: u64)
        ensures
            r == self.raw,
    {
        self.raw
    }
}

/// Placeholder type for a handle whose value type is not known.
pub struct UnknownType;

/// Placeholder type for the data-free half of a pair.
pub struct EmptyType;

/// Per-world component registry.
pub struct Registry {
    /// Registered components, in registration order.
    pub comps: Vec<CompInfo>,
}

/// Index of the first entry at or after `k` whose id is `id`.
pub open spec fn spec_find_id_from(s: Seq<CompInfo>, id: u64, k: int) -> Option<int>
    decreases s.len() - k,
{
    if k < 0 || k >= s.len() {
        None
    } else if s[k].id == id {
        Some(k)
    } else {
        spec_find_id_from(s, id, k + 1)
    }
}

/// Index of the first entry at or after `k` whose symbol is `sym`.
pub open spec fn spec_find_symbol_from(s: Seq<CompInfo>, sym: Seq<char>, k: int) -> Option<int>
    decreases s.len() - k,
{
    if k < 0 || k >= s.len() {
        None
    } else if s[k].symbol@ == sym {
        Some(k)
    } else {
        spec_find_symbol_from(s, sym, k + 1)
    }
}

/// A fruitless id search means no entry bears the id.
pub proof fn lemma_find_covers(s: Seq<CompInfo>, id: u64, a: int)
    requires
        spec_find_id_from(s, id, 0) is None,
        0 <= a < s.len(),
    ensures
        s[a].id != id,
{
    lemma_find_covers_from(s, id, a, 0);
}

proof fn lemma_find_covers_from(s: Seq<CompInfo>, id: u64, a: int, k: int)
    requires
        spec_find_id_from(s, id, k) is None,
        0 <= k <= a < s.len(),
    ensures
        s[a].id != id,
    decreases s.len() - k,
{
    if k < a {
        lemma_find_covers_from(s, id, a, k + 1);
    }
}

/// A fruitless symbol search means no entry bears the symbol.
pub proof fn lemma_find_symbol_covers(s: Seq<CompInfo>, sym: Seq<char>, a: int)
    requires
        spec_find_symbol_from(s, sym, 0) is None,
        0 <= a < s.len(),
    ensures
        s[a].symbol@ != sym,
{
    lemma_find_symbol_covers_from(s, sym, a, 0);
}

proof fn lemma_find_symbol_covers_from(s: Seq<CompInfo>, sym: Seq<char>, a: int, k: int)
    requires
        spec_find_symbol_from(s, sym, k) is None,
        0 <= k <= a < s.len(),
    ensures
        s[a].symbol@ != sym,
    decreases s.len() - k,
{
    if k < a {
        lemma_find_symbol_covers_from(s, sym, a, k + 1);
    }
}

impl Registry {
    /// Registry well-formedness: ids and symbols are unique, word counts
    /// derive from byte sizes, and component ids are plain non-null ids.
    pub open spec fn wf(self) -> bool {
        &&& forall|i: int, j: int|
            0 <= i < j < self.comps.len() ==> self.comps[i].id != self.comps[j].id
        &&& forall|i: int, j: int|
            0 <= i < j < self.comps.len() ==> self.comps[i].symbol@ != self.comps[j].symbol@
        &&& forall|i: int|
            0 <= i < self.comps.len() ==> (#[trigger] self.comps[i]).words == spec_words_for_size(
                self.comps[i].size,
            )
        &&& forall|i: int|
            0 <= i < self.comps.len() ==> !spec_is_pair((#[trigger] self.comps[i]).id)
                && self.comps[i].id != 0
    }

    /// The registered metadata of a plain component id, if any.
    pub open spec fn spec_comp(self, id: u64) -> Option<CompInfo> {
        match spec_find_id_from(self.comps@, id, 0) {
            Some(i) => Some(self.comps[i]),
            None => None,
        }
    }

    /// The component whose metadata governs storage for `id`: for a plain id
    /// its own registration; for a pair the relationship half if that is a
    /// data component, otherwise the target half if that is one.
    pub open spec fn spec_data_comp(self, id: u64) -> Option<CompInfo> {
        if spec_is_pair(id) {
            match self.spec_comp(spec_pair_first(id) as u64) {
                Some(ci) => if ci.words > 0 {
                    Some(ci)
                } else {
                    self.spec_data_comp_second(id)
                },
                None => self.spec_data_comp_second(id),
            }
        } else {
            match self.spec_comp(id) {
                Some(ci) => if ci.words > 0 {
                    Some(ci)
                } else {
                    None
                },
                None => None,
            }
        }
    }

    /// Storage metadata taken from the target half of a pair.
    pub open spec fn spec_data_comp_second(self, id: u64) -> Option<CompInfo> {
        match self.spec_comp(spec_pair_second(id) as u64) {
            Some(ci) => if ci.words > 0 {
                Some(ci)
            } else {
                None
            },
            None => None,
        }
    }

    /// Words a column row for `id` occupies; zero means no column (a tag).
    pub open spec fn spec_words_of_id(self, id: u64) -> int {
        match self.spec_data_comp(id) {
            Some(ci) => ci.words as int,
            None => 0,
        }
    }

    /// Whether discarding a value of `id` runs a destructor hook.
    pub open spec fn spec_dtor_of_id(self, id: u64) -> bool {
        match self.spec_data_comp(id) {
            Some(ci) => ci.has_dtor,
            None => false,
        }
    }

    /// Finds the registry index of a plain component id.
    pub fn find_id(&self, id: u64) -> (r: Option<usize>)
        ensures
            match r {
                Some(i) => i < self.comps.len() && self.comps[i as int].id == id
                    && spec_find_id_from(self.comps@, id, 0) == Some(i as int),
                None => spec_find_id_from(self.comps@, id, 0) is None,
            },
    {
        let n = self.comps.len();
        let mut i: usize = 0;
        while i < n
            invariant
                i <= n,
                n == self.comps.len(),
                spec_find_id_from(self.comps@, id, 0) == spec_find_id_from(
                    self.comps@,
                    id,
                    i as int,
                ),
            decreases n - i,
        {
            if self.comps[i].id == id {
                return Some(i);
            }
            i = i + 1;
        }
        None
    }

    /// Finds the registry index of a symbol.
    pub fn find_symbol(&self, sym: &str) -> (r: Option<usize>)
        ensures
            match r {
                Some(i) => i < self.comps.len() && self.comps[i as int].symbol@ == sym@
                    && spec_find_symbol_from(self.comps@, sym@, 0) == Some(i as int),
                None => spec_find_symbol_from(self.comps@, sym@, 0) is None,
            },
    {
        let sym_owned: String = sym.to_owned();
        let n = self.comps.len();
        let mut i: usize = 0;
        while i < n
            invariant
                i <= n,
                n == self.comps.len(),
                sym_owned@ == sym@,
                spec_find_symbol_from(self.comps@, sym@, 0) == spec_find_symbol_from(
                    self.comps@,
                    sym@,
                    i as int,
                ),
            decreases n - i,
        {
            if self.comps[i].symbol == sym_owned {
                return Some(i);
            }
            i = i + 1;
        }
        None
    }

    /// Storage words for `id`, resolving pairs to their data half.
    pub fn words_of_id(&self, id: u64) -> (r: usize)
        ensures
            r as int == self.spec_words_of_id(id),
    {
        match self.data_comp_index(id) {
            Some(i) => self.comps[i].words,
            None => 0,
        }
    }

    /// Whether discarding a value of `id` runs a destructor hook.
    pub fn dtor_of_id(&self, id: u64) -> (r: bool)
        ensures
            r == self.spec_dtor_of_id(id),
    {
        match self.data_comp_index(id) {
            Some(i) => self.comps[i].has_dtor,
            None => false,
        }
    }

    /// Registry index of the component whose metadata governs `id`.
    pub fn data_comp_index(&self, id: u64) -> (r: Option<usize>)
        ensures
            match r {
                Some(i) => i < self.comps.len() && self.spec_data_comp(id) == Some(
                    self.comps[i as int],
                ) && self.comps[i as int].words > 0,
                None => self.spec_data_comp(id) is None,
            },
    {
        if crate::entity::is_pair(id) {
            let first = crate::entity::pair_first(id);
            match self.find_id(first) {
                Some(i) => {
                    if self.comps[i].words > 0 {
                        return Some(i);
                    }
                },
                None => {},
            }
            let second = crate::entity::pair_second(id);
            match self.find_id(second) {
                Some(i) => {
                    if self.comps[i].words > 0 {
                        Some(i)
                    } else {
                        None
                    }
                },
                None => None,
            }
        } else {
            match self.find_id(id) {
                Some(i) => {
                    if self.comps[i].words > 0 {
                        Some(i)
                    } else {
                        None
                    }
                },
                None => None,
            }
        }
    }
}

} // verus!
