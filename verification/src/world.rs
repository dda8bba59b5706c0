//! The ECS world.
//!
//! Owns the entity index, the archetype tables, the component registry, the
//! deferred-operation queue and the registered systems.  An entity record
//! maps an entity id to its table and row; the world invariant [`World::wf`]
//! ties records and table rows together both ways, so the set of entities
//! stored in a table is exactly the set of alive entities whose component
//! id-set equals that table's type.

use vstd::prelude::*;

use crate::component::{CompInfo, Registry};
use crate::entity::{
    spec_entity_id, spec_gen_part, spec_index_part, spec_is_pair, spec_pair, spec_pair_first,
    spec_pair_second, GEN_LIMIT, INDEX_LIMIT, PAIR_FLAG, REL_LIMIT,
};
use crate::flecs::{
    ACYCLIC, CHILD_OF, DEPENDS_ON, EXCLUSIVE, FIRST_USER_INDEX, LAST_BUILTIN, ON_DELETE_TARGET,
    POLICY_DELETE, POLICY_REMOVE, SYMMETRIC, WILDCARD,
};
use crate::system::SystemDef;
use crate::table::{spec_sorted_strict, spec_swap_removed, Column, Table};

verus! {

/// Record of one entity index slot.
pub struct Rec {
    /// Whether the slot currently names an alive entity.
    pub alive: bool,
    /// Generation of the current or next occupant.
    pub gen: u64,
    /// Table holding the entity's row.
    pub table: usize,
    /// Row inside that table.
    pub row: usize,
    /// Optional entity name.
    pub name: Option<String>,
    /// Soft enable toggle; disabled entities are skipped by default matching.
    pub enabled: bool,
    /// Component ids whose instances are individually disabled on this entity.
    pub disabled_ids: Vec<u64>,
}

/// Errors surfaced by world operations.
#[derive(Debug, Clone, Copy, PartialEq, Eq)]
pub enum EcsError {
    /// A second registration of a symbol disagreed on size or alignment.
    RegistrationConflict,
    /// Adding the edge would close a cycle on an acyclic relationship.
    CycleDetected,
    /// A deletion target is protected by a panic policy.
    ProtectedTarget,
    /// A value's width does not match the component's registered size.
    SizeMismatch,
    /// A term expression could not be parsed.
    ParseFailure,
    /// A name in a term expression resolved to no entity.
    UnknownName,
}

/// A structural mutation buffered while the world is in deferred mode.
pub enum DeferOp {
    /// Add an id to an entity.
    AddOp(u64, u64),
    /// Remove an id from an entity.
    RemoveOp(u64, u64),
    /// Write a component value on an entity.
    SetOp(u64, u64, Vec<u64>),
    /// Delete an entity.
    DeleteOp(u64),
    /// Remove all ids from an entity.
    ClearOp(u64),
}

/// One destructor-hook invocation: the discarded value and its component.
pub struct DropRecord {
    /// The component whose hook ran.
    pub comp: u64,
    /// The discarded value.
    pub value: Vec<u64>,
}

/// An ECS world.
pub struct World {
    /// Entity records, indexed by entity index.
    pub recs: Vec<Rec>,
    /// Recycled entity indices.
    pub free: Vec<u64>,
    /// Archetype tables; table 0 is the empty archetype.
    pub tables: Vec<Table>,
    /// Component registry.
    pub registry: Registry,
    /// Log of destructor-hook invocations, oldest first.
    pub drop_log: Vec<DropRecord>,
    /// Registered systems, in registration order.
    pub systems: Vec<SystemDef>,
    /// Per-system tick counters advance each progress call.
    pub frame: u64,
    /// Deferred-mode nesting depth.
    pub defer_depth: u64,
    /// Deferred-mode suspension nesting depth.
    pub defer_suspend: u64,
    /// Buffered structural mutations, in submission order.
    pub defer_queue: Vec<DeferOp>,
}

/// A zero-filled value of the given width.
pub open spec fn spec_zeros(words: int) -> Seq<u64> {
    Seq::new(words as nat, |i: int| 0u64)
}

/// The drop log as component-value pairs.
pub open spec fn spec_drops_view(log: Seq<DropRecord>) -> Seq<(u64, Seq<u64>)> {
    log.map_values(|d: DropRecord| (d.comp, d.value@))
}

impl World {
    /// Tables are well-formed, table 0 is the empty archetype, and no two
    /// tables share a type.
    pub open spec fn tables_wf(self) -> bool {
        &&& self.tables.len() >= 1
        &&& self.tables[0].ids.len() == 0
        &&& forall|t: int| 0 <= t < self.tables.len() ==> (#[trigger] self.tables[t]).wf(
            self.registry,
        )
        &&& forall|t1: int, t2: int|
            0 <= t1 < t2 < self.tables.len() ==> self.tables[t1].ids@ != self.tables[t2].ids@
    }

    /// Records and table rows agree in both directions.
    pub open spec fn recs_wf(self) -> bool {
        &&& self.recs.len() as int <= INDEX_LIMIT as int
        &&& self.recs.len() as int >= FIRST_USER_INDEX as int
        &&& !self.recs[0].alive
        &&& forall|i: int|
            0 <= i < self.recs.len() ==> (#[trigger] self.recs[i]).gen < GEN_LIMIT
        &&& forall|i: int|
            0 <= i < self.recs.len() && (#[trigger] self.recs[i]).alive ==> {
                &&& self.recs[i].table < self.tables.len()
                &&& self.recs[i].row < self.tables[self.recs[i].table as int].entities.len()
                &&& self.tables[self.recs[i].table as int].entities[self.recs[i].row as int]
                    == spec_entity_id(self.recs[i].gen as int, i) as u64
            }
        &&& forall|t: int, r: int|
            0 <= t < self.tables.len() && 0 <= r < self.tables[t].entities.len()
                ==> #[trigger] self.row_backed(t, r)
    }

    /// The entity stored at table `t`, row `r` has a record pointing back.
    pub open spec fn row_backed(self, t: int, r: int) -> bool {
        let e = self.tables[t].entities[r];
        &&& !spec_is_pair(e)
        &&& 0 < spec_index_part(e) < self.recs.len()
        &&& self.recs[spec_index_part(e)].alive
        &&& self.recs[spec_index_part(e)].gen as int == spec_gen_part(e)
        &&& self.recs[spec_index_part(e)].table as int == t
        &&& self.recs[spec_index_part(e)].row as int == r
    }

    /// The free list holds distinct dead user indices.
    pub open spec fn free_wf(self) -> bool {
        &&& forall|i: int|
            0 <= i < self.free.len() ==> {
                &&& FIRST_USER_INDEX as int <= (#[trigger] self.free[i]) as int
                &&& (self.free[i] as int) < self.recs.len() as int
                &&& !self.recs[self.free[i] as int].alive
            }
        &&& forall|i: int, j: int| 0 <= i < j < self.free.len() ==> self.free[i] != self.free[j]
    }

    /// The world invariant.
    pub open spec fn wf(self) -> bool {
        &&& self.tables_wf()
        &&& self.recs_wf()
        &&& self.free_wf()
        &&& self.registry.wf()
    }

    /// The entity id currently occupying index `idx`, if alive.
    pub open spec fn spec_entity_at(self, idx: int) -> Option<u64> {
        if 0 < idx < self.recs.len() && self.recs[idx].alive {
            Some(spec_entity_id(self.recs[idx].gen as int, idx) as u64)
        } else {
            None
        }
    }

    /// Whether `e` names an alive entity: its index is occupied and the
    /// stored generation matches.
    pub open spec fn spec_alive(self, e: u64) -> bool {
        &&& !spec_is_pair(e)
        &&& 0 < spec_index_part(e) < self.recs.len()
        &&& self.recs[spec_index_part(e)].alive
        &&& self.recs[spec_index_part(e)].gen as int == spec_gen_part(e)
    }

    /// Table index of an alive entity.
    pub open spec fn spec_table_of(self, e: u64) -> int {
        self.recs[spec_index_part(e)].table as int
    }

    /// Row of an alive entity inside its table.
    pub open spec fn spec_row_of(self, e: u64) -> int {
        self.recs[spec_index_part(e)].row as int
    }

    /// The component id-set of an alive entity, as the sorted type sequence
    /// of its table.
    pub open spec fn spec_type_of(self, e: u64) -> Seq<u64> {
        self.tables[self.spec_table_of(e)].ids@
    }

    /// The component id-set of an alive entity.
    pub open spec fn spec_type_set(self, e: u64) -> Set<u64> {
        self.spec_type_of(e).to_set()
    }

    /// Whether an alive entity's id-set contains exactly `id`.
    pub open spec fn spec_has(self, e: u64, id: u64) -> bool {
        self.spec_alive(e) && self.spec_type_of(e).contains(id)
    }

    /// The value stored for `id` on an alive entity; empty when `id` carries
    /// no data or is absent.
    pub open spec fn spec_value(self, e: u64, id: u64) -> Seq<u64> {
        self.tables[self.spec_table_of(e)].spec_value_at(id, self.spec_row_of(e))
    }

    /// The name of an alive entity.
    pub open spec fn spec_name(self, e: u64) -> Option<Seq<char>> {
        match self.recs[spec_index_part(e)].name {
            Some(s) => Some(s@),
            None => None,
        }
    }

    /// Whether an alive entity is enabled.
    pub open spec fn spec_enabled(self, e: u64) -> bool {
        self.recs[spec_index_part(e)].enabled
    }

    /// Whether structural mutations are currently buffered.
    pub open spec fn spec_deferred(self) -> bool {
        self.defer_depth > 0 && self.defer_suspend == 0
    }

    /// Whether new entity indices remain.
    pub open spec fn spec_can_alloc(self) -> bool {
        self.free.len() > 0 || (self.recs.len() as int) < INDEX_LIMIT as int
    }

    /// The index the next allocation will use: the most recently recycled
    /// one, or a fresh slot at the end.
    pub open spec fn spec_next_index(self) -> int {
        if self.free.len() > 0 {
            self.free@.last() as int
        } else {
            self.recs.len() as int
        }
    }

    /// The id the next allocation will return.
    pub open spec fn spec_next_id(self) -> u64 {
        if self.free.len() > 0 {
            spec_entity_id(
                self.recs[self.free@.last() as int].gen as int,
                self.free@.last() as int,
            ) as u64
        } else {
            spec_entity_id(0, self.recs.len() as int) as u64
        }
    }
}

/// Everything outside the entity index and tables is unchanged.
pub open spec fn spec_same_support(pre: World, post: World) -> bool {
    &&& post.registry == pre.registry
    &&& post.systems == pre.systems
    &&& post.frame == pre.frame
    &&& post.defer_depth == pre.defer_depth
    &&& post.defer_suspend == pre.defer_suspend
    &&& post.defer_queue == pre.defer_queue
}

/// Alive entities, their names, enable flags and toggle lists are unchanged.
pub open spec fn spec_same_entities(pre: World, post: World) -> bool {
    &&& forall|e: u64| pre.spec_alive(e) == #[trigger] post.spec_alive(e)
    &&& forall|e: u64|
        pre.spec_alive(e) ==> #[trigger] post.spec_name(e) == pre.spec_name(e)
            && post.spec_enabled(e) == pre.spec_enabled(e)
            && post.recs[spec_index_part(e)].disabled_ids == pre.recs[spec_index_part(
            e,
        )].disabled_ids
}

/// Entities other than `e` keep their id-set and every stored value.
pub open spec fn spec_others_unchanged(pre: World, post: World, e: u64) -> bool {
    &&& forall|x: u64|
        pre.spec_alive(x) && spec_index_part(x) != spec_index_part(e)
            ==> #[trigger] post.spec_type_of(x) == pre.spec_type_of(x)
    &&& forall|x: u64, id: u64|
        pre.spec_alive(x) && spec_index_part(x) != spec_index_part(e)
            ==> #[trigger] post.spec_value(x, id) == pre.spec_value(x, id)
}

/// Effect of allocating a fresh or recycled entity id `r`.
pub open spec fn spec_alloc_effect(pre: World, post: World, r: u64) -> bool {
    &&& post.wf()
    &&& spec_same_support(pre, post)
    &&& post.drop_log == pre.drop_log
    &&& post.spec_alive(r)
    &&& !pre.spec_alive(r)
    &&& post.spec_type_of(r).len() == 0
    &&& post.spec_name(r) is None
    &&& post.spec_enabled(r)
    &&& forall|e: u64| pre.spec_alive(e) ==> #[trigger] post.spec_alive(e)
    &&& forall|e: u64|
        #[trigger] post.spec_alive(e) && spec_index_part(e) != spec_index_part(r)
            ==> pre.spec_alive(e)
    &&& forall|e: u64|
        pre.spec_alive(e) ==> #[trigger] post.spec_type_of(e) == pre.spec_type_of(e)
            && post.spec_name(e) == pre.spec_name(e) && post.spec_enabled(e) == pre.spec_enabled(e)
    &&& forall|e: u64, id: u64|
        pre.spec_alive(e) ==> #[trigger] post.spec_value(e, id) == pre.spec_value(e, id)
    &&& post.recs.len() >= pre.recs.len()
    &&& post.recs.len() <= pre.recs.len() + 1
    &&& forall|j: int|
        0 <= j < pre.recs.len() ==> (#[trigger] post.recs[j]).gen == pre.recs[j].gen
    &&& post.tables.len() == pre.tables.len()
    &&& forall|t: int|
        0 <= t < pre.tables.len() ==> (#[trigger] post.tables[t]).ids == pre.tables[t].ids
    &&& r == pre.spec_next_id()
}

/// Well-formedness depends only on the records, tables, free list and
/// registry.
pub proof fn lemma_wf_same_core(a: World, b: World)
    requires
        a.wf(),
        b.recs == a.recs,
        b.tables == a.tables,
        b.free == a.free,
        b.registry == a.registry,
    ensures
        b.wf(),
{
    assert forall|t: int, r: int|
        0 <= t < b.tables.len() && 0 <= r < b.tables[t].entities.len() implies #[trigger] b.row_backed(
        t,
        r,
    ) by {
        assert(a.row_backed(t, r));
    }
}

impl World {
    /// Creates a world holding only the built-in entities.
    pub fn new() -> (w: World)
        ensures
            w.wf(),
            forall|b: u64| 1 <= b <= LAST_BUILTIN ==> #[trigger] w.spec_alive(b),
            w.recs.len() == FIRST_USER_INDEX,
            w.free.len() == 0,
            w.tables.len() == 1,
            w.registry.comps.len() == 0,
            w.systems.len() == 0,
            w.drop_log.len() == 0,
            !w.spec_deferred(),
            w.defer_queue.len() == 0,
            forall|b: u64| 1 <= b <= LAST_BUILTIN ==> #[trigger] w.spec_type_of(b).len() == 0,
            forall|j: int| 0 <= j < w.recs.len() ==> (#[trigger] w.recs[j]).name is None,
    {
        let mut recs: Vec<Rec> = Vec::new();
        let mut table0 = Table::empty();
        recs.push(
            Rec {
                alive: false,
                gen: 0,
                table: 0,
                row: 0,
                name: None,
                enabled: true,
                disabled_ids: Vec::new(),
            },
        );
        let mut i: u64 = 1;
        while i < FIRST_USER_INDEX
            invariant
                1 <= i <= FIRST_USER_INDEX,
                recs.len() == i,
                forall|j: int|
                    0 <= j < i ==> {
                        &&& (#[trigger] recs[j]).gen == 0
                        &&& recs[j].table == 0
                        &&& recs[j].name is None
                        &&& recs[j].enabled
                    },
                !recs[0].alive,
                forall|j: int|
                    1 <= j < i ==> (#[trigger] recs[j]).alive == (j <= LAST_BUILTIN as int),
                table0.ids.len() == 0,
                table0.cols.len() == 0,
                table0.entities.len() == (if i <= LAST_BUILTIN + 1 {
                    i - 1
                } else {
                    LAST_BUILTIN as int
                }),
                forall|r: int|
                    0 <= r < table0.entities.len() ==> (#[trigger] table0.entities[r]) as int == r
                        + 1,
                forall|j: int|
                    1 <= j < i && j <= LAST_BUILTIN as int ==> (#[trigger] recs[j]).row == j - 1,
            decreases FIRST_USER_INDEX - i,
        {
            let alive = i <= LAST_BUILTIN;
            let row = table0.entities.len();
            recs.push(
                Rec {
                    alive,
                    gen: 0,
                    table: 0,
                    row,
                    name: None,
                    enabled: true,
                    disabled_ids: Vec::new(),
                },
            );
            if alive {
                table0.entities.push(i);
            }
            i = i + 1;
        }
        let mut tables: Vec<Table> = Vec::new();
        tables.push(table0);
        let w = World {
            recs,
            free: Vec::new(),
            tables,
            registry: Registry { comps: Vec::new() },
            drop_log: Vec::new(),
            systems: Vec::new(),
            frame: 0,
            defer_depth: 0,
            defer_suspend: 0,
            defer_queue: Vec::new(),
        };
        proof {
            assert forall|t: int, r: int|
                0 <= t < w.tables.len() && 0 <= r < w.tables[t].entities.len() implies #[trigger] w.row_backed(
                t,
                r,
            ) by {
                let e = w.tables[t].entities[r];
                assert(e as int == r + 1);
                assert(spec_gen_part(e) == 0 && spec_index_part(e) == r + 1);
            }
            assert forall|b: u64| 1 <= b <= LAST_BUILTIN implies #[trigger] w.spec_alive(b) by {
                assert(spec_index_part(b) == b as int && spec_gen_part(b) == 0);
            }
        }
        w
    }

    /// Is the entity alive?  A stale id whose generation no longer matches
    /// its index's record is reported dead.
    pub fn is_alive(&self, e: u64) -> (r: bool)
        requires
            self.wf(),
        ensures
            r == self.spec_alive(e),
    {
        if crate::entity::is_pair(e) {
            return false;
        }
        let idx = crate::entity::index_part(e);
        let gen = crate::entity::gen_part(e);
        if idx == 0 || idx >= self.recs.len() as u64 {
            return false;
        }
        let rec = &self.recs[idx as usize];
        rec.alive && rec.gen == gen
    }

    /// Allocates a fresh entity id, recycling a deleted index with its
    /// bumped generation when one is free.
    pub fn entity(&mut self) -> (r: u64)
        requires
            old(self).wf(),
            old(self).spec_can_alloc(),
        ensures
            final(self).wf(),
            spec_alloc_effect(*old(self), *final(self), r),
            final(self).drop_log == old(self).drop_log,
    {
        let idx: u64;
        match self.free.pop() {
            Some(fi) => {
                idx = fi;
                let row = self.tables[0].entities.len();
                let gen = self.recs[idx as usize].gen;
                let e = crate::entity::entity_id(gen, idx);
                self.recs[idx as usize] = Rec {
                    alive: true,
                    gen,
                    table: 0,
                    row,
                    name: None,
                    enabled: true,
                    disabled_ids: Vec::new(),
                };
                self.tables[0].entities.push(e);
                proof {
                    self.lemma_alloc_restores(*old(self), e);
                }
                e
            },
            None => {
                idx = self.recs.len() as u64;
                let row = self.tables[0].entities.len();
                let e = crate::entity::entity_id(0, idx);
                self.recs.push(
                    Rec {
                        alive: true,
                        gen: 0,
                        table: 0,
                        row,
                        name: None,
                        enabled: true,
                        disabled_ids: Vec::new(),
                    },
                );
                self.tables[0].entities.push(e);
                proof {
                    self.lemma_alloc_restores(*old(self), e);
                }
                e
            },
        }
    }

    /// After pushing a fresh record and its table-0 row, the invariant and
    /// the allocation effect hold.
    proof fn lemma_alloc_restores(&self, pre: World, e: u64)
        requires
            pre.wf(),
            self.spec_alive(e),
            self.tables.len() == pre.tables.len(),
            forall|t: int|
                1 <= t < pre.tables.len() ==> #[trigger] self.tables[t] == pre.tables[t],
            self.tables[0].ids == pre.tables[0].ids,
            self.tables[0].cols == pre.tables[0].cols,
            self.tables[0].entities@ == pre.tables[0].entities@.push(e),
            self.recs.len() >= pre.recs.len(),
            self.recs.len() as int <= INDEX_LIMIT as int,
            (spec_index_part(e) == pre.recs.len() && self.recs.len() == pre.recs.len() + 1
                && self.free@ == pre.free@) || (pre.free.len() > 0 && spec_index_part(e)
                == pre.free@.last() as int && spec_index_part(e) < pre.recs.len()
                && !pre.recs[spec_index_part(e)].alive && self.recs.len() == pre.recs.len()
                && self.free@ == pre.free@.drop_last()),
            forall|j: int|
                0 <= j < pre.recs.len() && j != spec_index_part(e) ==> #[trigger] self.recs[j]
                    == pre.recs[j],
            self.recs[spec_index_part(e)].alive,
            self.recs[spec_index_part(e)].gen as int == spec_gen_part(e),
            self.recs[spec_index_part(e)].gen < GEN_LIMIT,
            self.recs[spec_index_part(e)].table == 0,
            self.recs[spec_index_part(e)].row as int == pre.tables[0].entities.len() as int,
            self.recs[spec_index_part(e)].name is None,
            self.recs[spec_index_part(e)].enabled,
            self.registry == pre.registry,
            self.systems == pre.systems,
            self.frame == pre.frame,
            self.defer_depth == pre.defer_depth,
            self.defer_suspend == pre.defer_suspend,
            self.defer_queue == pre.defer_queue,
            self.drop_log == pre.drop_log,
            spec_index_part(e) < pre.recs.len() ==> self.recs[spec_index_part(e)].gen
                == pre.recs[spec_index_part(e)].gen,
            e == pre.spec_next_id(),
        ensures
            self.wf(),
            spec_alloc_effect(pre, *self, e),
    {
        let idx = spec_index_part(e);
        crate::entity::lemma_id_parts(e);
        assert(self.tables[0].wf(self.registry)) by {
            assert(pre.tables[0].wf(pre.registry));
            assert(forall|c: int|
                0 <= c < self.tables[0].cols.len() ==> (#[trigger] self.tables[0].cols[c]).rows.len()
                    == pre.tables[0].entities.len());
            assert(self.tables[0].cols.len() == 0) by {
                if self.tables[0].cols.len() > 0 {
                    assert(self.tables[0].ids@.contains(self.tables[0].cols[0].id));
                }
            }
        }
        assert forall|t: int, r: int|
            0 <= t < self.tables.len() && 0 <= r < self.tables[t].entities.len() implies #[trigger] self.row_backed(
            t,
            r,
        ) by {

            if t == 0 && r == pre.tables[0].entities.len() {
                assert(self.tables[0].entities[r] == e);
            } else {
                assert(pre.row_backed(t, r));
                let x = self.tables[t].entities[r];
                assert(x == pre.tables[t].entities[r]);
                assert(spec_index_part(x) != idx) by {
                    if spec_index_part(x) == idx {
                        assert(pre.recs[spec_index_part(x)].alive);
                        assert(idx < pre.recs.len() ==> !pre.recs[idx].alive);
                    }
                }
            }
        }
        assert forall|x: u64| pre.spec_alive(x) implies #[trigger] self.spec_alive(x) by {
            assert(spec_index_part(x) != idx);
        }
        assert forall|x: u64| pre.spec_alive(x) implies #[trigger] self.spec_type_of(x)
            == pre.spec_type_of(x) && self.spec_name(x) == pre.spec_name(x) && self.spec_enabled(x)
            == pre.spec_enabled(x) by {
            assert(spec_index_part(x) != idx);
            if self.spec_table_of(x) == 0 {
                assert(self.tables[0].ids@ == pre.tables[0].ids@);
            }
        }
        assert forall|x: u64, id: u64| pre.spec_alive(x) implies #[trigger] self.spec_value(x, id)
            == pre.spec_value(x, id) by {
            assert(spec_index_part(x) != idx);
            let t = pre.spec_table_of(x);
            assert(self.tables[t].cols == pre.tables[t].cols);
        }
        assert(self.spec_type_of(e).len() == 0);
        assert(self.tables_wf());
        assert(self.recs_wf());
        assert forall|i: int| 0 <= i < self.free.len() implies FIRST_USER_INDEX as int <= (
        #[trigger] self.free[i]) as int && (self.free[i] as int) < self.recs.len() as int
            && !self.recs[self.free[i] as int].alive by {
            if self.free@ == pre.free@ {
                assert(self.free[i] == pre.free[i]);
            } else {
                assert(self.free[i] == pre.free@.drop_last()[i]);
                assert(pre.free@.drop_last()[i] == pre.free[i]);
                assert(pre.free[i] != pre.free[pre.free.len() - 1]);
            }
        }
        assert forall|i: int, j: int| 0 <= i < j < self.free.len() implies self.free[i]
            != self.free[j] by {
            if self.free@ == pre.free@ {
            } else {
                assert(self.free[i] == pre.free@.drop_last()[i]);
                assert(self.free[j] == pre.free@.drop_last()[j]);
            }
        }
        assert(self.free_wf());
        assert(self.registry.wf());
        assert(spec_same_support(pre, *self));
        assert(self.spec_alive(e));
        assert(!pre.spec_alive(e));
        assert(self.spec_name(e) is None);
        assert(self.spec_enabled(e));
        assert(forall|x: u64| pre.spec_alive(x) ==> #[trigger] self.spec_alive(x));
        assert(forall|x: u64|
            #[trigger] self.spec_alive(x) && spec_index_part(x) != spec_index_part(e)
                ==> pre.spec_alive(x));
    }
}

} // verus!
