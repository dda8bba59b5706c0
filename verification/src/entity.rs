//! Entity identifiers.
//!
//! An entity id is a 64-bit value holding a recycled index in its low 32 bits
//! and a generation counter above them, so a stale handle to a deleted slot
//! can be told apart from the slot's current occupant.  A pair id combines a
//! relationship id and a target id into one value whose highest bit is set;
//! both halves can be recovered from it.

use vstd::prelude::*;

verus! {

/// One more than the largest entity index: indices live in the low 32 bits.
pub const INDEX_LIMIT: u64 = 0x1_0000_0000;
/// Generations wrap below this bound, so ids stay clear of the pair flag.
pub const GEN_LIMIT: u64 = 0x1_0000;
/// Bit that marks an id as a pair.
pub const PAIR_FLAG: u64 = 0x8000_0000_0000_0000;
/// The relationship half of a pair keeps this many values (28 bits).
pub const REL_LIMIT: u64 = 0x1000_0000;

/// Index part of an entity id.
pub open spec fn spec_index_part(e: u64) -> int {
    e as int % INDEX_LIMIT as int
}

/// Generation part of an entity id.
pub open spec fn spec_gen_part(e: u64) -> int {
    e as int / INDEX_LIMIT as int
}

/// Entity id with the given generation and index.
pub open spec fn spec_entity_id(gen: int, index: int) -> int {
    gen * INDEX_LIMIT as int + index
}

/// Does the id carry the pair flag?
pub open spec fn spec_is_pair(e: u64) -> bool {
    e >= PAIR_FLAG
}

/// Pair id combining a relationship and a target.  Only the low 28 bits of
/// the relationship and the low 32 bits of the target (its index, without
/// the generation) are kept.
pub open spec fn spec_pair(rel: u64, target: u64) -> int {
    PAIR_FLAG as int + (rel as int % REL_LIMIT as int) * INDEX_LIMIT as int + (
    target as int % INDEX_LIMIT as int)
}

/// Relationship half of a pair id.
pub open spec fn spec_pair_first(p: u64) -> int {
    (p as int / INDEX_LIMIT as int) % REL_LIMIT as int
}

/// Target half of a pair id.
pub open spec fn spec_pair_second(p: u64) -> int {
    p as int % INDEX_LIMIT as int
}

/// Index part of an entity id.
pub fn index_part(e: u64) -> (r: u64)
    ensures
        r as int == spec_index_part(e),
{
    e % INDEX_LIMIT
}

/// Generation part of an entity id.
pub fn gen_part(e: u64) -> (r: u64)
    ensures
        r as int == spec_gen_part(e),
{
    e / INDEX_LIMIT
}

/// Builds an entity id from a generation and an index.
pub fn entity_id(gen: u64, index: u64) -> (r: u64)
    requires
        gen < GEN_LIMIT,
        index < INDEX_LIMIT,
    ensures
        r as int == spec_entity_id(gen as int, index as int),
        spec_gen_part(r) == gen,
        spec_index_part(r) == index,
        !spec_is_pair(r),
{
    let r = gen * INDEX_LIMIT + index;
    proof {
        vstd::arithmetic::div_mod::lemma_fundamental_div_mod_converse(
            r as int,
            INDEX_LIMIT as int,
            gen as int,
            index as int,
        );
    }
    r
}

/// Does the id carry the pair flag?
pub fn is_pair(e: u64) -> (r: bool)
    ensures
        r == spec_is_pair(e),
{
    e >= PAIR_FLAG
}

/// Combines a relationship id and a target id into a pair id.
pub fn make_pair(rel: u64, target: u64) -> (r: u64)
    ensures
        r as int == spec_pair(rel, target),
        spec_is_pair(r),
        spec_pair_first(r) == rel as int % REL_LIMIT as int,
        spec_pair_second(r) == target as int % INDEX_LIMIT as int,
{
    let rel_low = rel % REL_LIMIT;
    let target_low = target % INDEX_LIMIT;
    let r = PAIR_FLAG + rel_low * INDEX_LIMIT + target_low;
    proof {
        let q = 0x8000_0000int + rel_low as int;
        vstd::arithmetic::div_mod::lemma_fundamental_div_mod_converse(
            r as int,
            INDEX_LIMIT as int,
            q,
            target_low as int,
        );
        vstd::arithmetic::div_mod::lemma_fundamental_div_mod_converse(
            q,
            REL_LIMIT as int,
            8,
            rel_low as int,
        );
    }
    r
}

/// Relationship half of a pair id.
pub fn pair_first(p: u64) -> (r: u64)
    ensures
        r as int == spec_pair_first(p),
{
    (p / INDEX_LIMIT) % REL_LIMIT
}

/// Target half of a pair id.
pub fn pair_second(p: u64) -> (r: u64)
    ensures
        r as int == spec_pair_second(p),
{
    p % INDEX_LIMIT
}

/// A pair id never collides with a plain entity id, and the two halves of a
/// pair are always recoverable from it.
pub proof fn lemma_pair_round_trip(rel: u64, target: u64)
    requires
        rel < REL_LIMIT,
        target < INDEX_LIMIT,
    ensures
        spec_pair_first((spec_pair(rel, target)) as u64) == rel,
        spec_pair_second((spec_pair(rel, target)) as u64) == target,
        spec_is_pair((spec_pair(rel, target)) as u64),
{
    let p = spec_pair(rel, target);
    let q = 0x8000_0000int + rel as int;
    vstd::arithmetic::div_mod::lemma_fundamental_div_mod_converse(
        p,
        INDEX_LIMIT as int,
        q,
        target as int,
    );
    vstd::arithmetic::div_mod::lemma_fundamental_div_mod_converse(q, REL_LIMIT as int, 8, rel as int);
}

/// Pair halves lie below their field limits.
pub proof fn lemma_pair_parts_small(p: u64)
    ensures
        0 <= spec_pair_first(p) < REL_LIMIT as int,
        0 <= spec_pair_second(p) < INDEX_LIMIT as int,
{
}

/// The parts of an entity id built from a generation and an index are that
/// generation and index.
pub proof fn lemma_parts_of_entity_id(gen: int, index: int)
    requires
        0 <= gen < GEN_LIMIT as int,
        0 <= index < INDEX_LIMIT as int,
    ensures
        spec_index_part(spec_entity_id(gen, index) as u64) == index,
        spec_gen_part(spec_entity_id(gen, index) as u64) == gen,
        !spec_is_pair(spec_entity_id(gen, index) as u64),
{
    vstd::arithmetic::div_mod::lemma_fundamental_div_mod_converse(
        spec_entity_id(gen, index),
        INDEX_LIMIT as int,
        gen,
        index,
    );
}

/// Any id is the entity id built from its generation and index parts.
pub proof fn lemma_id_parts(e: u64)
    ensures
        e as int == spec_entity_id(spec_gen_part(e), spec_index_part(e)),
{
    vstd::arithmetic::div_mod::lemma_fundamental_div_mod(e as int, INDEX_LIMIT as int);
}

/// Distinct (generation, index) arguments give distinct entity ids.
pub proof fn lemma_entity_id_injective(g1: int, i1: int, g2: int, i2: int)
    requires
        0 <= g1 < GEN_LIMIT as int,
        0 <= i1 < INDEX_LIMIT as int,
        0 <= g2 < GEN_LIMIT as int,
        0 <= i2 < INDEX_LIMIT as int,
        spec_entity_id(g1, i1) == spec_entity_id(g2, i2),
    ensures
        g1 == g2,
        i1 == i2,
{
    vstd::arithmetic::div_mod::lemma_fundamental_div_mod_converse(
        spec_entity_id(g1, i1),
        INDEX_LIMIT as int,
        g1,
        i1,
    );
    vstd::arithmetic::div_mod::lemma_fundamental_div_mod_converse(
        spec_entity_id(g2, i2),
        INDEX_LIMIT as int,
        g2,
        i2,
    );
}

} // verus!
