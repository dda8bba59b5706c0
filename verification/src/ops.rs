//! Plain component operations.
//!
//! Adding an id migrates the entity to the table for its enlarged id-set,
//! default-initialising the new column; removing an id migrates it to the
//! shrunken set, running the destructor hook on the dropped value; setting
//! writes a value in place, adding the id first when absent.  These are the
//! immediate forms; relationship traits and deferred buffering sit on top.

use vstd::prelude::*;

use crate::entity::{
    spec_entity_id, spec_index_part, spec_is_pair, spec_pair, spec_pair_first, spec_pair_second,
};
use crate::flecs::{ACYCLIC, EXCLUSIVE, SYMMETRIC};
use crate::world::{DeferOp, EcsError};
use crate::store::spec_migrated_value;
use crate::table::{
    copy_words, insert_sorted, lemma_col_index_props, lemma_col_index_same_ids, remove_sorted,
    spec_col_index_from, Table,
};
use crate::world::{spec_same_support, spec_zeros, DropRecord, World};

verus! {

/// A well-formed table has no column for an id outside its type, and always
/// one for a data id inside it.
pub proof fn lemma_col_iff_data_id(t: Table, reg: crate::component::Registry, id: u64)
    requires
        t.wf(reg),
    ensures
        spec_col_index_from(t.cols@, id, 0) is Some <==> (t.ids@.contains(id)
            && reg.spec_words_of_id(id) > 0),
        spec_col_index_from(t.cols@, id, 0) is Some ==> t.cols@[spec_col_index_from(
            t.cols@,
            id,
            0,
        )->Some_0].words == reg.spec_words_of_id(id),
{
    if spec_col_index_from(t.cols@, id, 0) is Some {
        lemma_col_index_props(t.cols@, id, 0);
    }
    if t.ids@.contains(id) && reg.spec_words_of_id(id) > 0 {
        let i = choose|i: int| 0 <= i < t.ids@.len() && t.ids@[i] == id;
        assert(reg.spec_words_of_id(t.ids@[i]) > 0);
    }
}

impl World {
    /// The full per-record frame: nothing about any entity changed except
    /// possibly the id-set and values of the one at index `idx`.
    pub open spec fn spec_frame_except(pre: World, post: World, idx: int) -> bool {
        &&& post.wf()
        &&& spec_same_support(pre, post)
        &&& post.recs.len() == pre.recs.len()
        &&& forall|j: int|
            0 <= j < pre.recs.len() ==> {
                &&& (#[trigger] post.recs[j]).alive == pre.recs[j].alive
                &&& post.recs[j].gen == pre.recs[j].gen
                &&& post.recs[j].name == pre.recs[j].name
                &&& post.recs[j].enabled == pre.recs[j].enabled
                &&& post.recs[j].disabled_ids == pre.recs[j].disabled_ids
            }
        &&& forall|x: u64| post.spec_alive(x) == pre.spec_alive(x)
        &&& forall|x: u64|
            pre.spec_alive(x) && spec_index_part(x) != idx ==> #[trigger] post.spec_type_of(x)
                == pre.spec_type_of(x)
        &&& forall|x: u64, id: u64|
            pre.spec_alive(x) && spec_index_part(x) != idx ==> #[trigger] post.spec_value(x, id)
                == pre.spec_value(x, id)
        &&& post.free == pre.free
    }

    /// Adds `id` to an alive entity that does not yet carry it: the entity
    /// moves to the table for the enlarged id-set, values carry over and the
    /// new column, if any, starts zero-filled.
    pub fn add_plain(&mut self, e: u64, id: u64)
        requires
            old(self).wf(),
            old(self).spec_alive(e),
            !old(self).spec_type_of(e).contains(id),
        ensures
            Self::spec_frame_except(*old(self), *final(self), spec_index_part(e)),
            final(self).spec_type_set(e) == old(self).spec_type_set(e).insert(id),
            final(self).spec_value(e, id) == spec_zeros(
                old(self).registry.spec_words_of_id(id),
            ),
            forall|c: u64|
                c != id ==> #[trigger] final(self).spec_value(e, c) == old(self).spec_value(e, c),
            final(self).drop_log == old(self).drop_log,
    {
        let ghost pre = *old(self);
        let idx = crate::entity::index_part(e) as usize;
        let src = self.recs[idx].table;
        proof {
            assert(pre.spec_table_of(e) == src as int);
            assert(pre.tables[src as int].wf(pre.registry));
        }
        let new_ids = insert_sorted(&self.tables[src].ids, id);
        let dst = self.find_or_create_table(new_ids);
        let ghost mid = *self;
        proof {
            assert(mid.tables[dst as int].ids@.contains(id)) by {
                assert(mid.tables[dst as int].ids@.len() == pre.spec_type_of(e).len() + 1);
            }
            assert(dst as int != src as int) by {
                if dst as int == src as int {
                    assert(mid.tables[src as int].ids@ == pre.spec_type_of(e));
                }
            }
            assert(mid.recs == pre.recs);
            assert(mid.spec_alive(e));
            assert(mid.spec_table_of(e) == src as int);
        }
        self.migrate_row(idx, dst);
        proof {
            let post = *self;
            assert(spec_entity_id(mid.recs[idx as int].gen as int, idx as int) as u64 == e) by {
                crate::entity::lemma_id_parts(e);
            }
            assert(post.spec_type_of(e) == mid.tables[dst as int].ids@);
            assert(post.spec_type_set(e) =~= pre.spec_type_set(e).insert(id)) by {
                assert(forall|x: u64| post.spec_type_of(e).contains(x) == (
                pre.spec_type_of(e).contains(x) || x == id));
                assert(forall|x: u64| #[trigger] post.spec_type_set(e).contains(x)
                    == post.spec_type_of(e).contains(x));
                assert(forall|x: u64| #[trigger] pre.spec_type_set(e).contains(x)
                    == pre.spec_type_of(e).contains(x));
            }
            // The migrated values: the fresh column is zero-filled, all other
            // columns carry their value over.
            let srctab = pre.tables[src as int];
            let dsttab = mid.tables[dst as int];
            lemma_col_iff_data_id(srctab, pre.registry, id);
            assert(post.spec_value(e, id) == spec_zeros(pre.registry.spec_words_of_id(id))) by {
                assert(post.spec_value(e, id) == spec_migrated_value(mid, e, dst as int, id));
                lemma_col_iff_data_id(dsttab, pre.registry, id);
                if pre.registry.spec_words_of_id(id) > 0 {
                    let c = spec_col_index_from(dsttab.cols@, id, 0)->Some_0;
                    assert(dsttab.cols@[c].words == pre.registry.spec_words_of_id(id));
                } else {
                    assert(spec_zeros(0) =~= Seq::<u64>::empty());
                }
            }
            assert forall|c: u64| c != id implies #[trigger] post.spec_value(e, c)
                == pre.spec_value(e, c) by {
                assert(post.spec_value(e, c) == spec_migrated_value(mid, e, dst as int, c));
                lemma_col_iff_data_id(dsttab, pre.registry, c);
                lemma_col_iff_data_id(srctab, pre.registry, c);
                assert(dsttab.ids@.contains(c) == (srctab.ids@.contains(c) || c == id));
                if spec_col_index_from(dsttab.cols@, c, 0) is Some {
                    assert(srctab.ids@.contains(c) && pre.registry.spec_words_of_id(c) > 0);
                } else {
                    assert(pre.spec_value(e, c) == Seq::<u64>::empty()) by {
                        assert(spec_col_index_from(srctab.cols@, c, 0) is None);
                    }
                }
            }
        }
    }

    /// Removes `id` from an alive entity that carries it: the destructor
    /// hook is logged for a dropped data value, and the entity moves to the
    /// table for the shrunken id-set.
    pub fn remove_plain(&mut self, e: u64, id: u64)
        requires
            old(self).wf(),
            old(self).spec_alive(e),
            old(self).spec_type_of(e).contains(id),
        ensures
            Self::spec_frame_except(*old(self), *final(self), spec_index_part(e)),
            final(self).spec_type_set(e) == old(self).spec_type_set(e).remove(id),
            final(self).spec_value(e, id) == Seq::<u64>::empty(),
            forall|c: u64|
                c != id ==> #[trigger] final(self).spec_value(e, c) == old(self).spec_value(e, c),
            if old(self).registry.spec_dtor_of_id(id) && old(self).registry.spec_words_of_id(id)
                > 0 {
                &&& final(self).drop_log@.len() == old(self).drop_log@.len() + 1
                &&& final(self).drop_log@.drop_last() == old(self).drop_log@
                &&& final(self).drop_log@.last().comp == id
                &&& final(self).drop_log@.last().value@ == old(self).spec_value(e, id)
            } else {
                final(self).drop_log@ == old(self).drop_log@
            },
    {
        let ghost pre = *old(self);
        let idx = crate::entity::index_part(e) as usize;
        let src = self.recs[idx].table;
        proof {
            assert(pre.spec_table_of(e) == src as int);
            assert(pre.tables[src as int].wf(pre.registry));
        }
        // Run the destructor hook on the dropped value, if the component
        // registered one.
        if self.registry.dtor_of_id(id) {
            let r1 = self.recs[idx].row;
            match self.tables[src].find_col(id) {
                Some(c1) => {
                    let v = copy_words(&self.tables[src].cols[c1].rows[r1]);
                    self.drop_log.push(DropRecord { comp: id, value: v });
                    proof {
                        lemma_col_iff_data_id(pre.tables[src as int], pre.registry, id);
                    }
                },
                None => {
                    proof {
                        lemma_col_iff_data_id(pre.tables[src as int], pre.registry, id);
                    }
                },
            }
        }
        let ghost mid0 = *self;
        proof {
            crate::world::lemma_wf_same_core(pre, mid0);
        }
        let new_ids = remove_sorted(&self.tables[src].ids, id);
        let dst = self.find_or_create_table(new_ids);
        let ghost mid = *self;
        proof {
            assert(mid.wf()) by {
                assert(mid0.recs == pre.recs && mid0.tables == pre.tables && mid0.free == pre.free);
            }
            assert(!mid.tables[dst as int].ids@.contains(id));
            assert(dst as int != src as int) by {
                if dst as int == src as int {
                    assert(mid.tables[src as int].ids@.contains(id));
                }
            }
            assert(mid.spec_alive(e));
            assert(mid.spec_table_of(e) == src as int);
        }
        self.migrate_row(idx, dst);
        proof {
            let post = *self;
            assert(spec_entity_id(mid.recs[idx as int].gen as int, idx as int) as u64 == e) by {
                crate::entity::lemma_id_parts(e);
            }
            assert(post.spec_type_of(e) == mid.tables[dst as int].ids@);
            assert(post.spec_type_set(e) =~= pre.spec_type_set(e).remove(id)) by {
                assert(forall|x: u64| post.spec_type_of(e).contains(x) == (
                pre.spec_type_of(e).contains(x) && x != id));
                assert(forall|x: u64| #[trigger] post.spec_type_set(e).contains(x)
                    == post.spec_type_of(e).contains(x));
                assert(forall|x: u64| #[trigger] pre.spec_type_set(e).contains(x)
                    == pre.spec_type_of(e).contains(x));
            }
            let srctab = pre.tables[src as int];
            let dsttab = mid.tables[dst as int];
            assert(mid.spec_value(e, id) == pre.spec_value(e, id)) by {
                assert(mid.tables[src as int] == pre.tables[src as int]);
            }
            assert(post.spec_value(e, id) == Seq::<u64>::empty()) by {
                assert(post.spec_value(e, id) == spec_migrated_value(mid, e, dst as int, id));
                lemma_col_iff_data_id(dsttab, pre.registry, id);
            }
            assert forall|c: u64| c != id implies #[trigger] post.spec_value(e, c)
                == pre.spec_value(e, c) by {
                assert(post.spec_value(e, c) == spec_migrated_value(mid, e, dst as int, c));
                assert(mid.spec_value(e, c) == pre.spec_value(e, c));
                lemma_col_iff_data_id(dsttab, pre.registry, c);
                lemma_col_iff_data_id(srctab, pre.registry, c);
                assert(dsttab.ids@.contains(c) == (srctab.ids@.contains(c) && c != id));
                if spec_col_index_from(dsttab.cols@, c, 0) is Some {
                    assert(srctab.ids@.contains(c) && pre.registry.spec_words_of_id(c) > 0);
                    assert(spec_col_index_from(srctab.cols@, c, 0) is Some);
                } else {
                    assert(pre.spec_value(e, c) == Seq::<u64>::empty()) by {
                        if spec_col_index_from(srctab.cols@, c, 0) is Some {
                            assert(srctab.ids@.contains(c) && pre.registry.spec_words_of_id(c)
                                > 0);
                            assert(c != id);
                        }
                    }
                }
            }
        }
    }

    /// Overwrites the stored value of a data id the entity already carries.
    pub fn write_value(&mut self, e: u64, id: u64, data: Vec<u64>)
        requires
            old(self).wf(),
            old(self).spec_alive(e),
            old(self).spec_type_of(e).contains(id),
            old(self).registry.spec_words_of_id(id) > 0,
            data.len() as int == old(self).registry.spec_words_of_id(id),
        ensures
            Self::spec_frame_except(*old(self), *final(self), spec_index_part(e)),
            final(self).spec_type_set(e) == old(self).spec_type_set(e),
            final(self).spec_value(e, id) == data@,
            forall|c: u64|
                c != id ==> #[trigger] final(self).spec_value(e, c) == old(self).spec_value(e, c),
            final(self).drop_log == old(self).drop_log,
            final(self).spec_type_of(e) == old(self).spec_type_of(e),
    {
        let ghost pre = *old(self);
        let idx = crate::entity::index_part(e) as usize;
        let t = self.recs[idx].table;
        let r = self.recs[idx].row;
        proof {
            assert(pre.spec_table_of(e) == t as int);
            assert(pre.tables[t as int].wf(pre.registry));
            lemma_col_iff_data_id(pre.tables[t as int], pre.registry, id);
        }
        match self.tables[t].find_col(id) {
            Some(c) => {
                self.tables[t].cols[c].rows[r] = data;
                proof {
                    let post = *self;
                    let ci = c as int;
                    let oldt = pre.tables[t as int];
                    let newt = post.tables[t as int];
                    assert(newt.ids == oldt.ids);
                    assert(newt.entities == oldt.entities);
                    assert forall|id2: u64| #[trigger]
                        spec_col_index_from(newt.cols@, id2, 0) == spec_col_index_from(
                            oldt.cols@,
                            id2,
                            0,
                        ) by {
                        lemma_col_index_same_ids(newt.cols@, oldt.cols@, id2, 0);
                    }
                    assert(newt.wf(post.registry)) by {
                        assert forall|cc: int, rr: int|
                            0 <= cc < newt.cols.len() && 0 <= rr
                                < newt.entities.len() implies (#[trigger] newt.cols[cc].rows[rr]).len()
                            == newt.cols[cc].words by {
                            if cc == ci && rr == r as int {
                            } else {
                                assert(newt.cols[cc].rows[rr] == oldt.cols[cc].rows[rr]);
                            }
                        }
                    }
                    assert forall|tt: int, rr: int|
                        0 <= tt < post.tables.len() && 0 <= rr
                            < post.tables[tt].entities.len() implies #[trigger] post.row_backed(
                        tt,
                        rr,
                    ) by {
                        assert(pre.row_backed(tt, rr));
                    }
                    assert(post.wf());
                    assert(post.spec_value(e, id) == data@);
                    assert forall|c2: u64| c2 != id implies #[trigger] post.spec_value(e, c2)
                        == pre.spec_value(e, c2) by {
                        match spec_col_index_from(oldt.cols@, c2, 0) {
                            Some(cc) => {
                                lemma_col_index_props(oldt.cols@, c2, 0);
                                assert(cc != ci);
                                assert(newt.cols[cc].rows[r as int] == oldt.cols[cc].rows[
                                r as int]);
                            },
                            None => {},
                        }
                    }
                    assert forall|x: u64, c2: u64|
                        pre.spec_alive(x) && spec_index_part(x)
                            != idx as int implies #[trigger] post.spec_value(x, c2)
                        == pre.spec_value(x, c2) by {
                        let xt = pre.spec_table_of(x);
                        let xr = pre.spec_row_of(x);
                        assert(pre.row_backed(xt, xr));
                        if xt == t as int {
                            assert(xr != r as int) by {
                                if xr == r as int {
                                    assert(pre.row_backed(t as int, r as int));
                                }
                            }
                            match spec_col_index_from(oldt.cols@, c2, 0) {
                                Some(cc) => {
                                    lemma_col_index_props(oldt.cols@, c2, 0);
                                    assert(newt.cols[cc].rows[xr] == oldt.cols[cc].rows[xr]);
                                },
                                None => {},
                            }
                        }
                    }
                }
            },
            None => {
                proof {
                    assert(false);
                }
            },
        }
    }
}

/// A pair already on the entity that the exclusivity of `id`'s relationship
/// displaces: same relationship half, different pair.
pub open spec fn spec_conflicting(id: u64, p: u64) -> bool {
    spec_is_pair(p) && spec_pair_first(p) == spec_pair_first(id) && p != id
}

/// The mirrored pair that a symmetric relationship adds to the target.
pub open spec fn spec_mirror_id(e: u64, id: u64) -> u64 {
    spec_pair(spec_pair_first(id) as u64, e) as u64
}

/// The entity that receives the mirrored pair when `id` is added to `e`:
/// the pair's target, when the relationship is symmetric, the target is
/// alive and distinct from `e`, and the mirror is not already present.
pub open spec fn spec_mirror_target(pre: World, e: u64, id: u64) -> Option<u64> {
    if spec_is_pair(id) && pre.spec_has_trait(spec_pair_first(id), SYMMETRIC) {
        match pre.spec_entity_at(spec_pair_second(id)) {
            Some(t) => if spec_index_part(t) != spec_index_part(e) && !pre.spec_type_set(
                t,
            ).contains(spec_mirror_id(e, id)) {
                Some(t)
            } else {
                None
            },
            None => None,
        }
    } else {
        None
    }
}

/// Adding `id` to `e` would close a cycle of an acyclic relationship.
pub open spec fn spec_would_cycle(pre: World, e: u64, id: u64) -> bool {
    &&& spec_is_pair(id)
    &&& pre.spec_has_trait(spec_pair_first(id), ACYCLIC)
    &&& {
        ||| spec_pair_second(id) == spec_index_part(e)
        ||| match pre.spec_entity_at(spec_pair_second(id)) {
            Some(t) => pre.spec_reaches(
                spec_pair_first(id),
                t,
                spec_index_part(e),
                pre.recs.len() as nat,
            ),
            None => false,
        }
    }
}

/// The immediate effect of adding `id` to the alive entity `e`: pairs the
/// exclusivity of the relationship displaces leave, `id` arrives with a
/// zero-filled value when fresh, a symmetric relationship mirrors the pair
/// onto its target, and nothing else changes.
pub open spec fn spec_add_effect(pre: World, post: World, e: u64, id: u64) -> bool {
    let excl = spec_is_pair(id) && pre.spec_has_trait(spec_pair_first(id), EXCLUSIVE);
    &&& post.wf()
    &&& spec_same_support(pre, post)
    &&& post.recs.len() == pre.recs.len()
    &&& forall|j: int|
        0 <= j < pre.recs.len() ==> {
            &&& (#[trigger] post.recs[j]).alive == pre.recs[j].alive
            &&& post.recs[j].gen == pre.recs[j].gen
            &&& post.recs[j].name == pre.recs[j].name
            &&& post.recs[j].enabled == pre.recs[j].enabled
            &&& post.recs[j].disabled_ids == pre.recs[j].disabled_ids
        }
    &&& forall|x: u64| post.spec_alive(x) == pre.spec_alive(x)
    &&& forall|p: u64|
        #[trigger] post.spec_type_set(e).contains(p) == ((pre.spec_type_set(e).contains(p) && !(
        excl && spec_conflicting(id, p))) || p == id)
    &&& post.spec_value(e, id) == if pre.spec_type_set(e).contains(id) {
        pre.spec_value(e, id)
    } else {
        spec_zeros(pre.registry.spec_words_of_id(id))
    }
    &&& forall|c: u64|
        c != id && !(excl && spec_conflicting(id, c)) ==> #[trigger] post.spec_value(e, c)
            == pre.spec_value(e, c)
    &&& forall|c: u64|
        excl && spec_conflicting(id, c) ==> #[trigger] post.spec_value(e, c)
            == Seq::<u64>::empty()
    &&& match spec_mirror_target(pre, e, id) {
        Some(t) => {
            &&& forall|p: u64|
                #[trigger] post.spec_type_set(t).contains(p) == (pre.spec_type_set(t).contains(p)
                    || p == spec_mirror_id(e, id))
            &&& post.spec_value(t, spec_mirror_id(e, id)) == spec_zeros(
                pre.registry.spec_words_of_id(spec_mirror_id(e, id)),
            )
            &&& forall|c: u64|
                c != spec_mirror_id(e, id) ==> #[trigger] post.spec_value(t, c) == pre.spec_value(
                    t,
                    c,
                )
            &&& forall|x: u64|
                pre.spec_alive(x) && spec_index_part(x) != spec_index_part(e) && spec_index_part(x)
                    != spec_index_part(t) ==> #[trigger] post.spec_type_of(x) == pre.spec_type_of(
                    x,
                )
            &&& forall|x: u64, c: u64|
                pre.spec_alive(x) && spec_index_part(x) != spec_index_part(e) && spec_index_part(x)
                    != spec_index_part(t) ==> #[trigger] post.spec_value(x, c) == pre.spec_value(
                    x,
                    c,
                )
        },
        None => {
            &&& forall|x: u64|
                pre.spec_alive(x) && spec_index_part(x) != spec_index_part(e)
                    ==> #[trigger] post.spec_type_of(x) == pre.spec_type_of(x)
            &&& forall|x: u64, c: u64|
                pre.spec_alive(x) && spec_index_part(x) != spec_index_part(e)
                    ==> #[trigger] post.spec_value(x, c) == pre.spec_value(x, c)
        },
    }
    &&& pre.drop_log@.is_prefix_of(post.drop_log@)
    &&& post.free == pre.free
}

impl World {
    /// Finds a pair on table `t` that the exclusivity of `id` displaces.
    fn find_conflicting(&self, t: usize, id: u64) -> (r: Option<u64>)
        requires
            self.wf(),
            t < self.tables.len(),
        ensures
            match r {
                Some(p) => self.tables[t as int].ids@.contains(p) && spec_conflicting(id, p),
                None => forall|p: u64|
                    self.tables[t as int].ids@.contains(p) ==> !spec_conflicting(id, p),
            },
    {
        let ids = &self.tables[t].ids;
        let n = ids.len();
        let mut i: usize = 0;
        while i < n
            invariant
                t < self.tables.len(),
                ids == &self.tables[t as int].ids,
                i <= n,
                n == ids.len(),
                forall|j: int| 0 <= j < i ==> !spec_conflicting(id, ids@[j]),
            decreases n - i,
        {
            let p = ids[i];
            if crate::entity::is_pair(p) {
                let pf = crate::entity::pair_first(p);
                let idf = crate::entity::pair_first(id);
                if pf == idf && p != id {
                    return Some(p);
                }
            }
            i = i + 1;
        }
        proof {
            assert forall|p: u64| ids@.contains(p) implies !spec_conflicting(id, p) by {
                let j = choose|j: int| 0 <= j < ids@.len() && ids@[j] == p;
            }
        }
        None
    }

    /// Removes every pair on `e` that the exclusivity of `id`'s
    /// relationship displaces, running destructor hooks on dropped values.
    fn displace_conflicting(&mut self, e: u64, id: u64)
        requires
            old(self).wf(),
            old(self).spec_alive(e),
            spec_is_pair(id),
        ensures
            Self::spec_frame_except(*old(self), *final(self), spec_index_part(e)),
            final(self).spec_alive(e),
            forall|p: u64|
                #[trigger] final(self).spec_type_set(e).contains(p) ==> old(self).spec_type_set(
                    e,
                ).contains(p) && !spec_conflicting(id, p),
            forall|p: u64|
                !spec_conflicting(id, p) ==> #[trigger] final(self).spec_type_set(e).contains(p)
                    == old(self).spec_type_set(e).contains(p),
            forall|c: u64|
                !spec_conflicting(id, c) ==> #[trigger] final(self).spec_value(e, c) == old(
                    self,
                ).spec_value(e, c),
            forall|c: u64|
                spec_conflicting(id, c) ==> #[trigger] final(self).spec_value(e, c)
                    == Seq::<u64>::empty(),
            old(self).drop_log@.is_prefix_of(final(self).drop_log@),
    {
        let ghost pre = *old(self);
        let idx = crate::entity::index_part(e);
        proof {
            lemma_prefix_refl(pre.drop_log@);
            assert forall|c: u64| !pre.spec_type_of(e).contains(c) implies pre.spec_value(e, c)
                == Seq::<u64>::empty() by {
                lemma_col_iff_data_id(pre.tables[pre.spec_table_of(e)], pre.registry, c);
            }
        }
        loop
            invariant
                pre.wf(),
                pre.spec_alive(e),
                spec_is_pair(id),
                idx as int == spec_index_part(e),
                forall|c: u64|
                    !pre.spec_type_of(e).contains(c) ==> #[trigger] pre.spec_value(e, c)
                        == Seq::<u64>::empty(),
                Self::spec_frame_except(pre, *self, spec_index_part(e)),
                self.spec_alive(e),
                forall|p: u64|
                    #[trigger] self.spec_type_set(e).contains(p) ==> pre.spec_type_set(
                        e,
                    ).contains(p),
                forall|p: u64|
                    !spec_conflicting(id, p) ==> #[trigger] self.spec_type_set(e).contains(p)
                        == pre.spec_type_set(e).contains(p),
                forall|c: u64|
                    !spec_conflicting(id, c) ==> #[trigger] self.spec_value(e, c)
                        == pre.spec_value(e, c),
                forall|c: u64|
                    spec_conflicting(id, c) && self.spec_type_set(e).contains(c)
                        ==> #[trigger] self.spec_value(e, c) == pre.spec_value(e, c),
                forall|c: u64|
                    spec_conflicting(id, c) && !self.spec_type_set(e).contains(c)
                        ==> #[trigger] self.spec_value(e, c) == Seq::<u64>::empty(),
                pre.drop_log@.is_prefix_of(self.drop_log@),
            ensures
                Self::spec_frame_except(pre, *self, spec_index_part(e)),
                self.spec_alive(e),
                forall|p: u64|
                    #[trigger] self.spec_type_set(e).contains(p) ==> pre.spec_type_set(
                        e,
                    ).contains(p) && !spec_conflicting(id, p),
                forall|p: u64|
                    !spec_conflicting(id, p) ==> #[trigger] self.spec_type_set(e).contains(p)
                        == pre.spec_type_set(e).contains(p),
                forall|c: u64|
                    !spec_conflicting(id, c) ==> #[trigger] self.spec_value(e, c)
                        == pre.spec_value(e, c),
                forall|c: u64|
                    spec_conflicting(id, c) ==> #[trigger] self.spec_value(e, c)
                        == Seq::<u64>::empty(),
                pre.drop_log@.is_prefix_of(self.drop_log@),
            decreases self.spec_type_of(e).len(),
        {
            let t = self.recs[idx as usize].table;
            proof {
                assert(t as int == self.spec_table_of(e));
            }
            match self.find_conflicting(t, id) {
                Some(p) => {
                    let ghost mid = *self;
                    self.remove_plain(e, p);
                    proof {
                        lemma_frame_except_trans(pre, mid, *self, spec_index_part(e));
                        lemma_prefix_trans(pre.drop_log@, mid.drop_log@, self.drop_log@);
                        assert(self.spec_type_of(e).len() < mid.spec_type_of(e).len()) by {
                            assert(self.spec_type_set(e) == mid.spec_type_set(e).remove(p));
                            lemma_type_len_decreases(mid, *self, e, p);
                        }
                    }
                },
                None => {
                    proof {
                        assert forall|p: u64| #[trigger] self.spec_type_set(e).contains(
                            p,
                        ) implies pre.spec_type_set(e).contains(p) && !spec_conflicting(
                            id,
                            p,
                        ) by {
                            assert(self.spec_type_of(e).contains(p));
                        }
                        assert forall|c: u64| spec_conflicting(id, c) implies #[trigger] self.spec_value(
                            e,
                            c,
                        ) == Seq::<u64>::empty() by {
                            assert(!self.spec_type_set(e).contains(c)) by {
                                if self.spec_type_of(e).contains(c) {
                                }
                            }
                        }
                    }
                    break ;
                },
            }
        }
    }

    /// Ensures an alive entity carries `id`: a fresh data id arrives
    /// zero-filled, a present one keeps its value.
    fn add_present_or_plain(&mut self, e: u64, id: u64)
        requires
            old(self).wf(),
            old(self).spec_alive(e),
        ensures
            Self::spec_frame_except(*old(self), *final(self), spec_index_part(e)),
            final(self).spec_alive(e),
            forall|p: u64|
                #[trigger] final(self).spec_type_set(e).contains(p) == (old(self).spec_type_set(
                    e,
                ).contains(p) || p == id),
            final(self).spec_value(e, id) == (if old(self).spec_type_set(e).contains(id) {
                old(self).spec_value(e, id)
            } else {
                spec_zeros(old(self).registry.spec_words_of_id(id))
            }),
            forall|c: u64|
                c != id ==> #[trigger] final(self).spec_value(e, c) == old(self).spec_value(e, c),
            final(self).drop_log == old(self).drop_log,
    {
        let ghost pre = *old(self);
        let idx = crate::entity::index_part(e);
        let t = self.recs[idx as usize].table;
        proof {
            assert(t as int == self.spec_table_of(e));
        }
        if !crate::table::vec_contains(&self.tables[t].ids, id) {
            self.add_plain(e, id);
            proof {
                assert forall|p: u64| #[trigger] self.spec_type_set(e).contains(p) == (
                pre.spec_type_set(e).contains(p) || p == id) by {}
            }
        } else {
            proof {
                assert(pre.spec_type_set(e).contains(id));
                assert forall|p: u64| #[trigger] self.spec_type_set(e).contains(p) == (
                pre.spec_type_set(e).contains(p) || p == id) by {}
            }
        }
    }

    /// Adds an id — a component, tag or pair — to an entity.
    ///
    /// On a dead entity nothing happens.  In deferred mode the operation is
    /// buffered.  An edge of an acyclic relationship that would close a
    /// cycle is rejected.  Otherwise, pairs displaced by an exclusive
    /// relationship leave first, the id arrives (fresh data zero-filled),
    /// and a symmetric relationship mirrors the pair onto its target.
    #[verifier::spinoff_prover]
    #[verifier::rlimit(100)]
    pub fn add_id(&mut self, e: u64, id: u64) -> (r: Result<(), EcsError>)
        requires
            old(self).wf(),
        ensures
            final(self).wf(),
            match r {
                Ok(()) => if old(self).spec_deferred() {
                    spec_queued(*old(self), *final(self), DeferOp::AddOp(e, id))
                } else if !old(self).spec_alive(e) {
                    *final(self) == *old(self)
                } else {
                    !spec_would_cycle(*old(self), e, id) && spec_add_effect(
                        *old(self),
                        *final(self),
                        e,
                        id,
                    )
                },
                Err(EcsError::CycleDetected) => {
                    &&& !old(self).spec_deferred()
                    &&& old(self).spec_alive(e)
                    &&& spec_would_cycle(*old(self), e, id)
                    &&& *final(self) == *old(self)
                },
                Err(_) => false,
            },
            !old(self).spec_deferred() && old(self).spec_alive(e) && spec_would_cycle(
                *old(self),
                e,
                id,
            ) ==> r is Err,
    {
        let ghost pre = *old(self);
        if self.defer_depth > 0 && self.defer_suspend == 0 {
            self.defer_queue.push(DeferOp::AddOp(e, id));
            proof {
                crate::world::lemma_wf_same_core(pre, *self);
            }
            return Ok(());
        }
        if !self.is_alive(e) {
            return Ok(());
        }
        let idx = crate::entity::index_part(e);
        let mut excl = false;
        let mut sym = false;
        if crate::entity::is_pair(id) {
            let rel = crate::entity::pair_first(id);
            excl = self.has_trait_rel(rel, EXCLUSIVE);
            sym = self.has_trait_rel(rel, SYMMETRIC);
            // Reject an edge that would close a cycle on an acyclic
            // relationship.
            if self.has_trait_rel(rel, ACYCLIC) {
                let tgt = crate::entity::pair_second(id);
                if tgt == idx {
                    return Err(EcsError::CycleDetected);
                }
                match self.entity_at(tgt) {
                    Some(te) => {
                        let fuel = self.recs.len() as u64;
                        if self.reaches(rel, te, idx, fuel) {
                            return Err(EcsError::CycleDetected);
                        }
                    },
                    None => {},
                }
            }
        }
        proof {
            assert(excl == (spec_is_pair(id) && pre.spec_has_trait(
                spec_pair_first(id),
                EXCLUSIVE,
            )));
            assert(!spec_would_cycle(pre, e, id));
        }
        // An exclusive relationship keeps at most one target: the pairs
        // that conflict leave first.
        if excl {
            self.displace_conflicting(e, id);
        }
        // The id arrives; a present one stays put.
        let ghost before_add = *self;
        self.add_present_or_plain(e, id);
        proof {
            lemma_frame_except_trans(pre, before_add, *self, spec_index_part(e));
            lemma_prefix_refl(before_add.drop_log@);
            lemma_prefix_trans(pre.drop_log@, before_add.drop_log@, self.drop_log@);
        }
        let ghost after_add = *self;
        proof {
            assert forall|p: u64| #[trigger] after_add.spec_type_set(e).contains(p) == ((
            pre.spec_type_set(e).contains(p) && !(excl && spec_conflicting(id, p))) || p
                == id) by {
                let bp = before_add.spec_type_set(e).contains(p);
                if !excl {
                    assert(before_add.spec_type_set(e) == pre.spec_type_set(e));
                }
            }
            assert(after_add.spec_value(e, id) == if pre.spec_type_set(e).contains(id) {
                pre.spec_value(e, id)
            } else {
                spec_zeros(pre.registry.spec_words_of_id(id))
            }) by {
                assert(before_add.spec_type_set(e).contains(id) == pre.spec_type_set(e).contains(
                    id,
                ));
                assert(before_add.spec_value(e, id) == pre.spec_value(e, id));
            }
        }
        // A symmetric relationship mirrors the pair onto its target.
        if sym {
            let rel = crate::entity::pair_first(id);
            let tgt = crate::entity::pair_second(id);
            match self.entity_at(tgt) {
                Some(te) => {
                    proof {
                        assert(self.spec_entity_at(tgt as int) == pre.spec_entity_at(tgt as int));
                    }
                    if crate::entity::index_part(te) != idx {
                        let mirror = crate::entity::make_pair(rel, e);
                        proof {
                            assert(mirror == spec_mirror_id(e, id));
                        }
                        let tt = self.recs[crate::entity::index_part(te) as usize].table;
                        proof {
                            assert(tt as int == self.spec_table_of(te));
                            assert(self.spec_type_of(te) == pre.spec_type_of(te));
                        }
                        if !crate::table::vec_contains(&self.tables[tt].ids, mirror) {
                            proof {
                                assert(spec_mirror_target(pre, e, id) == Some(te));
                            }
                            self.add_plain(te, mirror);
                            proof {
                                lemma_frame_except_union(
                                    pre,
                                    after_add,
                                    *self,
                                    spec_index_part(e),
                                    spec_index_part(te),
                                );
                                lemma_prefix_refl(after_add.drop_log@);
                                lemma_prefix_trans(
                                    pre.drop_log@,
                                    after_add.drop_log@,
                                    self.drop_log@,
                                );
                                assert(self.spec_type_set(te) =~= pre.spec_type_set(te).insert(
                                    mirror,
                                ));
                                assert(self.spec_type_set(e) == after_add.spec_type_set(e));
                                assert(self.spec_value(e, id) == after_add.spec_value(e, id));
                            }
                            return Ok(());
                        } else {
                            proof {
                                assert(spec_mirror_target(pre, e, id) is None);
                            }
                        }
                    } else {
                        proof {
                            assert(spec_mirror_target(pre, e, id) is None);
                        }
                    }
                },
                None => {
                    proof {
                        assert(self.spec_entity_at(tgt as int) == pre.spec_entity_at(tgt as int));
                        assert(spec_mirror_target(pre, e, id) is None);
                    }
                },
            }
        } else {
            proof {
                assert(spec_mirror_target(pre, e, id) is None);
            }
        }
        Ok(())
    }
}

/// The immediate effect of removing a present `id` from the alive entity
/// `e`: the id and its value leave, the destructor hook is logged for a
/// dropped data value, and nothing else changes.
pub open spec fn spec_remove_effect(pre: World, post: World, e: u64, id: u64) -> bool {
    &&& World::spec_frame_except(pre, post, spec_index_part(e))
    &&& forall|p: u64|
        #[trigger] post.spec_type_set(e).contains(p) == (pre.spec_type_set(e).contains(p) && p
            != id)
    &&& post.spec_value(e, id) == Seq::<u64>::empty()
    &&& forall|c: u64|
        c != id ==> #[trigger] post.spec_value(e, c) == pre.spec_value(e, c)
    &&& if pre.registry.spec_dtor_of_id(id) && pre.registry.spec_words_of_id(id) > 0
        && pre.spec_type_of(e).contains(id) {
        &&& post.drop_log@.len() == pre.drop_log@.len() + 1
        &&& post.drop_log@.drop_last() == pre.drop_log@
        &&& post.drop_log@.last().comp == id
        &&& post.drop_log@.last().value@ == pre.spec_value(e, id)
    } else {
        post.drop_log@ == pre.drop_log@
    }
}

impl World {
    /// Removes an id from an entity.  On a dead entity, or when the id is
    /// absent, nothing happens; in deferred mode the operation is buffered;
    /// otherwise the id and its value leave, and a registered destructor
    /// hook runs on the dropped value.
    pub fn remove_id(&mut self, e: u64, id: u64) -> (r: Result<(), EcsError>)
        requires
            old(self).wf(),
        ensures
            final(self).wf(),
            r is Ok,
            if old(self).spec_deferred() {
                spec_queued(*old(self), *final(self), DeferOp::RemoveOp(e, id))
            } else if !old(self).spec_alive(e) || !old(self).spec_type_of(e).contains(id) {
                *final(self) == *old(self)
            } else {
                spec_remove_effect(*old(self), *final(self), e, id)
            },
    {
        let ghost pre = *old(self);
        if self.defer_depth > 0 && self.defer_suspend == 0 {
            self.defer_queue.push(DeferOp::RemoveOp(e, id));
            proof {
                crate::world::lemma_wf_same_core(pre, *self);
            }
            return Ok(());
        }
        if !self.is_alive(e) {
            return Ok(());
        }
        let idx = crate::entity::index_part(e);
        let t = self.recs[idx as usize].table;
        proof {
            assert(t as int == self.spec_table_of(e));
        }
        if !crate::table::vec_contains(&self.tables[t].ids, id) {
            return Ok(());
        }
        self.remove_plain(e, id);
        Ok(())
    }

    /// Writes a component value on an entity, adding the id first when it is
    /// absent.  The value's width must match the component's registered
    /// size, and a tag takes no value.  On a dead entity nothing happens; in
    /// deferred mode the operation is buffered.
    pub fn set_id(&mut self, e: u64, id: u64, data: Vec<u64>) -> (r: Result<(), EcsError>)
        requires
            old(self).wf(),
        ensures
            final(self).wf(),
            match r {
                Ok(()) => {
                    &&& old(self).registry.spec_words_of_id(id) > 0
                    &&& data.len() as int == old(self).registry.spec_words_of_id(id)
                    &&& if old(self).spec_deferred() {
                        spec_queued(*old(self), *final(self), DeferOp::SetOp(e, id, data))
                    } else if !old(self).spec_alive(e) {
                        *final(self) == *old(self)
                    } else {
                        &&& Self::spec_frame_except(*old(self), *final(self), spec_index_part(e))
                        &&& forall|p: u64|
                            #[trigger] final(self).spec_type_set(e).contains(p) == (old(
                                self,
                            ).spec_type_set(e).contains(p) || p == id)
                        &&& final(self).spec_value(e, id) == data@
                        &&& forall|c: u64|
                            c != id ==> #[trigger] final(self).spec_value(e, c) == old(
                                self,
                            ).spec_value(e, c)
                        &&& final(self).drop_log == old(self).drop_log
                    }
                },
                Err(EcsError::SizeMismatch) => {
                    &&& *final(self) == *old(self)
                    &&& (old(self).registry.spec_words_of_id(id) == 0 || data.len() as int != old(
                        self,
                    ).registry.spec_words_of_id(id))
                },
                Err(_) => false,
            },
    {
        let ghost pre = *old(self);
        let words = self.registry.words_of_id(id);
        if words == 0 || data.len() != words {
            return Err(EcsError::SizeMismatch);
        }
        if self.defer_depth > 0 && self.defer_suspend == 0 {
            self.defer_queue.push(DeferOp::SetOp(e, id, data));
            proof {
                crate::world::lemma_wf_same_core(pre, *self);
            }
            return Ok(());
        }
        if !self.is_alive(e) {
            return Ok(());
        }
        let idx = crate::entity::index_part(e);
        let t = self.recs[idx as usize].table;
        proof {
            assert(t as int == self.spec_table_of(e));
        }
        let ghost before = *self;
        if !crate::table::vec_contains(&self.tables[t].ids, id) {
            self.add_plain(e, id);
            proof {
                assert(self.spec_type_of(e).contains(id)) by {
                    assert(self.spec_type_set(e).contains(id));
                }
            }
        }
        let ghost mid = *self;
        self.write_value(e, id, data);
        proof {
            lemma_frame_except_trans(pre, mid, *self, spec_index_part(e));
            assert forall|p: u64| #[trigger] self.spec_type_set(e).contains(p) == (
            pre.spec_type_set(e).contains(p) || p == id) by {
                let bp = mid.spec_type_set(e).contains(p);
            }
        }
        Ok(())
    }

    /// Reads the value a component or pair stores on an entity; nothing for
    /// a dead entity, an absent id or a tag.
    pub fn get_id(&self, e: u64, id: u64) -> (r: Option<Vec<u64>>)
        requires
            self.wf(),
        ensures
            match r {
                Some(v) => {
                    &&& self.spec_alive(e)
                    &&& self.spec_type_of(e).contains(id)
                    &&& self.registry.spec_words_of_id(id) > 0
                    &&& v@ == self.spec_value(e, id)
                },
                None => !self.spec_alive(e) || !self.spec_type_of(e).contains(id)
                    || self.registry.spec_words_of_id(id) == 0,
            },
    {
        if !self.is_alive(e) {
            return None;
        }
        let idx = crate::entity::index_part(e);
        let t = self.recs[idx as usize].table;
        let row = self.recs[idx as usize].row;
        proof {
            assert(t as int == self.spec_table_of(e));
            assert(row as int == self.spec_row_of(e));
            assert(self.tables[t as int].wf(self.registry));
            lemma_col_iff_data_id(self.tables[t as int], self.registry, id);
        }
        match self.tables[t].find_col(id) {
            Some(c) => Some(copy_words(&self.tables[t].cols[c].rows[row])),
            None => None,
        }
    }

    /// Whether an alive entity's id-set holds a match for the pattern:
    /// exact ids, the wildcard, or a pair pattern with wildcard halves.
    pub fn has_id(&self, e: u64, pattern: u64) -> (r: bool)
        requires
            self.wf(),
        ensures
            r == (self.spec_alive(e) && exists|j: int|
                0 <= j < self.spec_type_of(e).len() && crate::query::spec_id_matches(
                    pattern,
                    #[trigger] self.spec_type_of(e)[j],
                )),
    {
        if !self.is_alive(e) {
            return false;
        }
        let idx = crate::entity::index_part(e);
        let t = self.recs[idx as usize].table;
        proof {
            assert(t as int == self.spec_table_of(e));
        }
        let ids = &self.tables[t].ids;
        let n = ids.len();
        let mut j: usize = 0;
        while j < n
            invariant
                self.wf(),
                self.spec_alive(e),
                t as int == self.spec_table_of(e),
                ids == &self.tables[t as int].ids,
                j <= n,
                n == ids.len(),
                forall|jj: int|
                    0 <= jj < j ==> !crate::query::spec_id_matches(
                        pattern,
                        #[trigger] ids@[jj],
                    ),
            decreases n - j,
        {
            if crate::query::id_matches(pattern, ids[j]) {
                proof {
                    assert(crate::query::spec_id_matches(
                        pattern,
                        self.spec_type_of(e)[j as int],
                    ));
                }
                return true;
            }
            j = j + 1;
        }
        false
    }
}

/// Removing a present id shortens the type sequence.
pub proof fn lemma_type_len_decreases(a: World, b: World, e: u64, p: u64)
    requires
        a.wf(),
        b.wf(),
        a.spec_alive(e),
        b.spec_alive(e),
        a.spec_type_of(e).contains(p),
        b.spec_type_set(e) == a.spec_type_set(e).remove(p),
    ensures
        b.spec_type_of(e).len() < a.spec_type_of(e).len(),
{
    let sa = a.spec_type_of(e);
    let sb = b.spec_type_of(e);
    lemma_sorted_distinct_card(sa, a, e);
    lemma_sorted_distinct_card(sb, b, e);
    assert(sb.to_set().len() < sa.to_set().len()) by {
        assert(sa.to_set().contains(p));
        vstd::set_lib::lemma_len_subset(sb.to_set(), sa.to_set());
        assert(sb.to_set() == sa.to_set().remove(p));
        assert(sa.to_set().remove(p).len() == sa.to_set().len() - 1);
    }
}

/// A strictly sorted sequence has as many members as elements.
pub proof fn lemma_sorted_distinct_card(s: Seq<u64>, w: World, e: u64)
    requires
        w.wf(),
        w.spec_alive(e),
        s == w.spec_type_of(e),
    ensures
        s.to_set().len() == s.len(),
{
    assert(crate::table::spec_sorted_strict(s)) by {
        assert(w.tables[w.spec_table_of(e)].wf(w.registry));
    }
    lemma_sorted_card(s);
}

/// A strictly sorted sequence has no repeated elements, so its member set
/// has the sequence's length.
pub proof fn lemma_sorted_card(s: Seq<u64>)
    requires
        crate::table::spec_sorted_strict(s),
    ensures
        s.to_set().len() == s.len(),
    decreases s.len(),
{
    if s.len() > 0 {
        let rest = s.drop_last();
        assert(crate::table::spec_sorted_strict(rest));
        lemma_sorted_card(rest);
        assert(s.to_set() =~= rest.to_set().insert(s.last())) by {
            assert forall|x: u64| #[trigger] s.to_set().contains(x) implies rest.to_set().insert(
                s.last(),
            ).contains(x) by {
                let j = choose|j: int| 0 <= j < s.len() && s[j] == x;
                if j < s.len() - 1 {
                    assert(rest[j] == x);
                    assert(rest.to_set().contains(x));
                }
            }
            assert forall|x: u64| rest.to_set().insert(s.last()).contains(x) implies #[trigger] s.to_set().contains(
                x,
            ) by {
                if rest.to_set().contains(x) {
                    let j = choose|j: int| 0 <= j < rest.len() && rest[j] == x;
                    assert(s[j] == x);
                }
            }
        }
        assert(!rest.to_set().contains(s.last())) by {
            if rest.to_set().contains(s.last()) {
                let j = choose|j: int| 0 <= j < rest.len() && rest[j] == s.last();
                assert(s[j] < s[s.len() - 1]);
            }
        }
    } else {
        assert(s.to_set() =~= Set::<u64>::empty());
    }
}

/// Appending one buffered operation, touching nothing else.
pub open spec fn spec_queued(pre: World, post: World, op: DeferOp) -> bool {
    &&& post.recs == pre.recs
    &&& post.free == pre.free
    &&& post.tables == pre.tables
    &&& post.registry == pre.registry
    &&& post.drop_log == pre.drop_log
    &&& post.systems == pre.systems
    &&& post.frame == pre.frame
    &&& post.defer_depth == pre.defer_depth
    &&& post.defer_suspend == pre.defer_suspend
    &&& post.defer_queue@ == pre.defer_queue@.push(op)
}

/// The frame relation composes.
pub proof fn lemma_frame_except_trans(a: World, b: World, c: World, idx: int)
    requires
        World::spec_frame_except(a, b, idx),
        World::spec_frame_except(b, c, idx),
    ensures
        World::spec_frame_except(a, c, idx),
{
}

/// Two frames around different indices compose into joint preservation of
/// everything but those two indices.
pub proof fn lemma_frame_except_union(a: World, b: World, c: World, i1: int, i2: int)
    requires
        World::spec_frame_except(a, b, i1),
        World::spec_frame_except(b, c, i2),
    ensures
        c.wf(),
        spec_same_support(a, c),
        c.recs.len() == a.recs.len(),
        forall|j: int|
            0 <= j < a.recs.len() ==> {
                &&& (#[trigger] c.recs[j]).alive == a.recs[j].alive
                &&& c.recs[j].gen == a.recs[j].gen
                &&& c.recs[j].name == a.recs[j].name
                &&& c.recs[j].enabled == a.recs[j].enabled
                &&& c.recs[j].disabled_ids == a.recs[j].disabled_ids
            },
        forall|x: u64| c.spec_alive(x) == a.spec_alive(x),
        forall|x: u64|
            a.spec_alive(x) && spec_index_part(x) != i1 && spec_index_part(x) != i2
                ==> #[trigger] c.spec_type_of(x) == a.spec_type_of(x),
        forall|x: u64, id: u64|
            a.spec_alive(x) && spec_index_part(x) != i1 && spec_index_part(x) != i2
                ==> #[trigger] c.spec_value(x, id) == a.spec_value(x, id),
        c.free == a.free,
{
}

/// A sequence is a prefix of itself.
pub proof fn lemma_prefix_refl(s: Seq<crate::world::DropRecord>)
    ensures
        s.is_prefix_of(s),
{
    assert(s =~= s.subrange(0, s.len() as int));
}

/// Prefixes compose.
pub proof fn lemma_prefix_trans(
    a: Seq<crate::world::DropRecord>,
    b: Seq<crate::world::DropRecord>,
    c: Seq<crate::world::DropRecord>,
)
    requires
        a.is_prefix_of(b),
        b.is_prefix_of(c),
    ensures
        a.is_prefix_of(c),
{
    assert(a =~= c.subrange(0, a.len() as int));
}

} // verus!
