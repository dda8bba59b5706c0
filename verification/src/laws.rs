//! Global laws of the world.
//!
//! These proofs state, once and in one place, the guarantees the rest of
//! the crate establishes piecewise: stale ids stay detectably dead, a table
//! holds exactly the entities of its type and is determined by the id-set,
//! an add/remove round trip restores an entity's id-set and values, and a
//! query matches a table exactly when its required ids are present and its
//! negated ids absent.

use vstd::prelude::*;

use crate::entity::{spec_gen_part, spec_index_part, spec_is_pair, GEN_LIMIT};
use crate::flecs::WILDCARD;
use crate::lifecycle::spec_delete_effect;
use crate::ops::{spec_add_effect, spec_conflicting, spec_remove_effect};
use crate::query::{
    lemma_matched_alt_nonzero, lemma_matched_in_ty, spec_id_matches, spec_matched_alt_from,
    spec_pattern_in, spec_some_alt_in, spec_table_matches, spec_term_accepts, spec_term_ty, Term,
    TermOper, TermSrc,
};
use crate::world::{spec_alloc_effect, World};

verus! {

/// Deleting an entity leaves it dead, and an id allocated afterwards that
/// reuses its index carries a different generation, so the stale id stays
/// detectably dead.
pub proof fn lemma_stale_id_detected(w0: World, w1: World, w2: World, e: u64, r: u64)
    requires
        w0.wf(),
        w0.spec_alive(e),
        spec_delete_effect(w0, w1, e),
        spec_alloc_effect(w1, w2, r),
        spec_index_part(r) == spec_index_part(e),
    ensures
        !w1.spec_alive(e),
        !w2.spec_alive(e),
        spec_gen_part(r) != spec_gen_part(e),
{
    let idx = spec_index_part(e);
    crate::lifecycle::lemma_victims_monotone_start(w0, e, w0.recs.len() as nat);
    assert(w0.spec_victims(e, w0.recs.len() as nat).contains(idx));
    assert(!w1.recs[idx].alive);
    assert(w1.recs[idx].gen as int == (w0.recs[idx].gen + 1) % (GEN_LIMIT as int));
    assert(w2.spec_alive(r));
    assert(spec_gen_part(r) == w2.recs[idx].gen as int);
    assert(w2.recs[idx].gen == w1.recs[idx].gen);
    assert(spec_gen_part(e) == w0.recs[idx].gen as int);
    assert((w0.recs[idx].gen + 1) % (GEN_LIMIT as int) != w0.recs[idx].gen as int) by {
        if w0.recs[idx].gen as int == GEN_LIMIT as int - 1 {
        } else {
        }
    }
    assert(!w2.spec_alive(e));
}

/// On a world fresh from `new` — an empty registry and only the empty
/// archetype — no registration is refused: the symbol is free and the
/// allocator's next id can collide with nothing.
pub proof fn lemma_fresh_registration_succeeds(w: World, sym: Seq<char>, size: u32, align: u32)
    requires
        w.wf(),
        w.registry.comps.len() == 0,
        w.tables.len() == 1,
    ensures
        !crate::api::spec_reg_refused(w, sym, size, align),
{
    assert(crate::component::spec_find_symbol_from(w.registry.comps@, sym, 0) is None);
    assert(crate::component::spec_find_id_from(w.registry.comps@, w.spec_next_id(), 0) is None);
    assert(w.tables[0].ids.len() == 0);
}

/// Looking a name up at the root scope returns the one alive root-scope
/// entity bearing it — in particular, a freshly registered system's name
/// resolves to the system's entity.
pub proof fn lemma_lookup_unique_name(w: World, name: Seq<char>, e: u64)
    requires
        w.wf(),
        w.spec_alive(e),
        w.spec_name(e) == Some(name),
        w.spec_scope_of(e) == 0,
        forall|i: int|
            0 <= i < w.recs.len() && i != spec_index_part(e) && (#[trigger] w.recs[i]).alive
                ==> !(match w.recs[i].name {
                Some(n) => n@ == name,
                None => false,
            } && w.spec_scope_of(crate::api::spec_entity_of_rec(w, i)) == 0),
    ensures
        w.spec_find_named_from(name, 0, 0) == Some(spec_index_part(e)),
        crate::api::spec_entity_of_rec(w, spec_index_part(e)) == e,
{
    crate::entity::lemma_id_parts(e);
    lemma_find_named_hits(w, name, e, 0);
}

/// The name scan from `k` finds exactly the index of the one alive
/// root-scope entity bearing the name, when the scan has not passed it.
proof fn lemma_find_named_hits(w: World, name: Seq<char>, e: u64, k: int)
    requires
        w.wf(),
        w.spec_alive(e),
        w.spec_name(e) == Some(name),
        w.spec_scope_of(e) == 0,
        0 <= k <= spec_index_part(e),
        forall|i: int|
            0 <= i < w.recs.len() && i != spec_index_part(e) && (#[trigger] w.recs[i]).alive
                ==> !(match w.recs[i].name {
                Some(n) => n@ == name,
                None => false,
            } && w.spec_scope_of(crate::api::spec_entity_of_rec(w, i)) == 0),
    ensures
        w.spec_find_named_from(name, 0, k) == Some(spec_index_part(e)),
    decreases w.recs.len() - k,
{
    let idx = spec_index_part(e);
    crate::entity::lemma_id_parts(e);
    if k == idx {
        assert(w.recs[k].alive);
        assert(crate::api::spec_entity_of_rec(w, k) == e);
        assert(match w.recs[k].name {
            Some(n) => n@ == name,
            None => false,
        });
    } else {
        lemma_find_named_hits(w, name, e, k + 1);
    }
}

/// A table holds exactly the alive entities whose id-set equals its type.
pub proof fn lemma_table_membership(w: World, e: u64, t: int)
    requires
        w.wf(),
        w.spec_alive(e),
        0 <= t < w.tables.len(),
    ensures
        w.tables[t].entities@.contains(e) <==> w.spec_type_of(e) == w.tables[t].ids@,
{
    if w.tables[t].entities@.contains(e) {
        let r = choose|r: int| 0 <= r < w.tables[t].entities@.len() && w.tables[t].entities@[r] == e;
        assert(w.row_backed(t, r));
        assert(w.spec_table_of(e) == t);
    }
    if w.spec_type_of(e) == w.tables[t].ids@ {
        let te = w.spec_table_of(e);
        assert(w.tables[te].ids@ == w.tables[t].ids@);
        assert(te == t) by {
            if te < t {
                assert(w.tables[te].ids@ != w.tables[t].ids@);
            } else if t < te {
                assert(w.tables[t].ids@ != w.tables[te].ids@);
            }
        }
        let r = w.spec_row_of(e);
        assert(w.tables[t].entities@[r] == e) by {
            assert(w.recs[spec_index_part(e)].alive);
            crate::entity::lemma_id_parts(e);
        }
    }
}

/// Table identity is a pure function of the id-set: two alive entities
/// with the same id-set live in the same table.
pub proof fn lemma_same_type_same_table(w: World, e1: u64, e2: u64)
    requires
        w.wf(),
        w.spec_alive(e1),
        w.spec_alive(e2),
        w.spec_type_set(e1) == w.spec_type_set(e2),
    ensures
        w.spec_table_of(e1) == w.spec_table_of(e2),
{
    broadcast use vstd::set::group_set_axioms;

    let t1 = w.spec_table_of(e1);
    let t2 = w.spec_table_of(e2);
    assert(w.tables[t1].wf(w.registry));
    assert(w.tables[t2].wf(w.registry));
    assert forall|x: u64| w.spec_type_of(e1).contains(x) == w.spec_type_of(e2).contains(x) by {
        assert(w.spec_type_set(e1).contains(x) == w.spec_type_of(e1).contains(x));
        assert(w.spec_type_set(e2).contains(x) == w.spec_type_of(e2).contains(x));
        assert(w.spec_type_set(e1).contains(x) == w.spec_type_set(e2).contains(x));
    }
    crate::table::lemma_sorted_same_set(w.spec_type_of(e1), w.spec_type_of(e2));
    assert(w.tables[t1].ids@ == w.tables[t2].ids@);
    if t1 < t2 {
        assert(w.tables[t1].ids@ != w.tables[t2].ids@);
    } else if t2 < t1 {
        assert(w.tables[t2].ids@ != w.tables[t1].ids@);
    }
}

/// Adding an id an entity lacks and then removing it restores the
/// entity's id-set and every other stored value, so the entity is back in
/// the table of its original type — possibly at another row.
pub proof fn lemma_add_remove_round_trip(w0: World, w1: World, w2: World, e: u64, id: u64)
    requires
        w0.wf(),
        w0.spec_alive(e),
        !w0.spec_type_of(e).contains(id),
        forall|p: u64|
            w0.spec_type_set(e).contains(p) ==> !(spec_is_pair(id) && spec_conflicting(id, p)),
        spec_add_effect(w0, w1, e, id),
        spec_remove_effect(w1, w2, e, id),
    ensures
        w2.spec_type_set(e) == w0.spec_type_set(e),
        w2.spec_type_of(e) == w0.spec_type_of(e),
        forall|c: u64| c != id ==> #[trigger] w2.spec_value(e, c) == w0.spec_value(e, c),
        w2.spec_value(e, id) == w0.spec_value(e, id),
{
    assert(!w0.spec_type_set(e).contains(id)) by {
        if w0.spec_type_set(e).contains(id) {
            assert(w0.spec_type_of(e).contains(id));
        }
    }
    assert forall|p: u64| #[trigger] w2.spec_type_set(e).contains(p) == w0.spec_type_set(
        e,
    ).contains(p) by {
        assert(w1.spec_type_set(e).contains(p) == ((w0.spec_type_set(e).contains(p) && !(
        spec_is_pair(id) && w0.spec_has_trait(crate::entity::spec_pair_first(id), crate::flecs::EXCLUSIVE)
            && spec_conflicting(id, p))) || p == id));
    }
    assert(w2.spec_type_set(e) =~= w0.spec_type_set(e));
    assert(w2.spec_alive(e)) by {
        assert(w1.spec_alive(e));
    }
    assert(crate::table::spec_sorted_strict(w2.spec_type_of(e))) by {
        assert(w2.tables[w2.spec_table_of(e)].wf(w2.registry));
    }
    assert(crate::table::spec_sorted_strict(w0.spec_type_of(e))) by {
        assert(w0.tables[w0.spec_table_of(e)].wf(w0.registry));
    }
    assert forall|x: u64| w2.spec_type_of(e).contains(x) == w0.spec_type_of(e).contains(x) by {
        assert(w2.spec_type_set(e).contains(x) == w0.spec_type_set(e).contains(x));
    }
    crate::table::lemma_sorted_same_set(w2.spec_type_of(e), w0.spec_type_of(e));
    assert forall|c: u64| c != id implies #[trigger] w2.spec_value(e, c) == w0.spec_value(
        e,
        c,
    ) by {
        assert(w1.spec_value(e, c) == w0.spec_value(e, c)) by {
            assert(!(spec_is_pair(id) && w0.spec_has_trait(
                crate::entity::spec_pair_first(id),
                crate::flecs::EXCLUSIVE,
            ) && spec_conflicting(id, c)) || !w0.spec_type_set(e).contains(c));
            if spec_is_pair(id) && w0.spec_has_trait(
                crate::entity::spec_pair_first(id),
                crate::flecs::EXCLUSIVE,
            ) && spec_conflicting(id, c) {
                assert(!w0.spec_type_of(e).contains(c)) by {
                    if w0.spec_type_of(e).contains(c) {
                        assert(w0.spec_type_set(e).contains(c));
                    }
                }
                crate::ops::lemma_col_iff_data_id(
                    w0.tables[w0.spec_table_of(e)],
                    w0.registry,
                    c,
                );
                assert(w0.spec_value(e, c) == Seq::<u64>::empty());
                assert(w1.spec_value(e, c) == Seq::<u64>::empty());
            }
        }
    }
    assert(w2.spec_value(e, id) == w0.spec_value(e, id)) by {
        crate::ops::lemma_col_iff_data_id(w0.tables[w0.spec_table_of(e)], w0.registry, id);
        assert(w0.spec_value(e, id) == Seq::<u64>::empty());
    }
}

/// A query of required, negated and optional terms matches a table exactly
/// when every required term finds one of its ids present, every negated
/// term finds its id absent, and the prefab and emptiness gates pass.
pub proof fn lemma_match_iff(w: World, terms: Seq<Term>, flags: u8, t: int)
    requires
        w.wf(),
        0 <= t < w.tables.len(),
        forall|i: int| 0 <= i < terms.len() ==> (#[trigger] terms[i]).wf(),
        forall|i: int| 0 <= i < terms.len() ==> (#[trigger] terms[i]).src is SrcThis,
    ensures
        spec_table_matches(w, terms, flags, t) <==> ({
            let ty = w.tables[t].ids@;
            &&& forall|i: int|
                0 <= i < terms.len() && (#[trigger] terms[i]).oper is OperAnd ==> exists|k: int|
                    0 <= k < terms[i].ids.len() && spec_pattern_in(#[trigger] terms[i].ids@[k], ty)
            &&& forall|i: int|
                0 <= i < terms.len() && (#[trigger] terms[i]).oper is OperNot
                    ==> !spec_pattern_in(terms[i].ids@[0], ty)
            &&& (flags & crate::query::FLAG_MATCH_PREFAB != 0 || !ty.contains(
                crate::flecs::PREFAB,
            ))
            &&& (flags & crate::query::FLAG_MATCH_EMPTY != 0 || w.tables[t].entities.len() > 0)
        }),
{
    let ty = w.tables[t].ids@;
    assert forall|i: int| 0 <= i < terms.len() implies (spec_term_accepts(
        #[trigger] terms[i],
        spec_term_ty(w, terms[i], ty),
    ) == match terms[i].oper {
        TermOper::OperAnd => exists|k: int|
            0 <= k < terms[i].ids.len() && spec_pattern_in(#[trigger] terms[i].ids@[k], ty),
        TermOper::OperNot => !spec_pattern_in(terms[i].ids@[0], ty),
        TermOper::OperOptional => true,
    }) by {
        assert(spec_term_ty(w, terms[i], ty) == ty);
    }
}

/// The matched slot a loaded table reports for a term holds the concrete
/// id the term matched: it is an id of the type satisfying one of the
/// term's alternatives, and — over a type that does not hold the null id —
/// it is nonzero exactly when some alternative is satisfied, so `check_id`
/// and `has` report exactly which id a wildcard or Or-group term found.
pub proof fn lemma_matched_slot_concrete(ids: Seq<u64>, ty: Seq<u64>)
    requires
        forall|j: int| 0 <= j < ty.len() ==> ty[j] != 0,
    ensures
        (spec_matched_alt_from(ids, ty, 0) != 0) <==> spec_some_alt_in(ids, ty),
        spec_matched_alt_from(ids, ty, 0) != 0 ==> ({
            let m = spec_matched_alt_from(ids, ty, 0);
            ty.contains(m) && exists|k: int|
                0 <= k < ids.len() && spec_id_matches(#[trigger] ids[k], m)
        }),
{
    lemma_matched_alt_nonzero(ids, ty, 0);
    lemma_matched_in_ty(ids, ty, 0);
}

/// Removing the id a required single-id term asks for makes the entity's
/// table stop matching any query carrying that term.
pub proof fn lemma_removed_component_stops_matching(
    w0: World,
    w1: World,
    e: u64,
    id: u64,
    terms: Seq<Term>,
    flags: u8,
    i: int,
)
    requires
        w0.wf(),
        w0.spec_alive(e),
        spec_remove_effect(w0, w1, e, id),
        0 <= i < terms.len(),
        terms[i].oper is OperAnd,
        terms[i].src is SrcThis,
        terms[i].ids@ =~= seq![id],
        id != WILDCARD,
        !spec_is_pair(id),
    ensures
        !spec_table_matches(w1, terms, flags, w1.spec_table_of(e)),
{
    let t = w1.spec_table_of(e);
    let ty = w1.tables[t].ids@;
    assert(ty == w1.spec_type_of(e));
    assert(!ty.contains(id)) by {
        if ty.contains(id) {
            assert(w1.spec_type_set(e).contains(id));
            assert(w0.spec_type_set(e).contains(id) && id != id);
        }
    }
    assert(!spec_pattern_in(id, ty)) by {
        if spec_pattern_in(id, ty) {
            let j = choose|j: int|
                0 <= j < ty.len() && crate::query::spec_id_matches(id, #[trigger] ty[j]);
            assert(ty[j] == id);
            assert(ty.contains(id));
        }
    }
    assert(terms[i].ids@ == seq![id]);
    assert(!spec_some_alt_in(terms[i].ids@, ty)) by {
        if spec_some_alt_in(terms[i].ids@, ty) {
            let k = choose|k: int|
                0 <= k < terms[i].ids@.len() && spec_pattern_in(#[trigger] terms[i].ids@[k], ty);
            assert(terms[i].ids@[k] == id);
        }
    }
    assert(!spec_term_accepts(terms[i], spec_term_ty(w1, terms[i], ty)));
}

} // verus!
