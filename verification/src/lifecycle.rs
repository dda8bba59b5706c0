//! Entity deletion.
//!
//! Deleting an entity first computes the deletion closure: every holder of
//! a pair whose target is already doomed joins it when the pair's
//! relationship carries the cascading delete policy.  A pair to a doomed
//! target under the panic policy makes the whole deletion fail before
//! anything changes.  Survivors are then stripped of every id that refers
//! to a doomed entity, each doomed entity's values run their destructor
//! hooks, its row leaves its table, and its index is recycled with a bumped
//! generation.

use vstd::prelude::*;

use crate::entity::{
    spec_entity_id, spec_gen_part, spec_index_part, spec_is_pair, spec_pair_first,
    spec_pair_second, GEN_LIMIT,
};
use crate::flecs::{FIRST_USER_INDEX, POLICY_DELETE, POLICY_PANIC};
use crate::ops::{lemma_frame_except_trans, lemma_prefix_refl, lemma_prefix_trans};
use crate::world::{spec_same_support, DeferOp, EcsError, World};

verus! {

impl World {
    /// Whether the alive entity at index `i` holds a pair to a doomed
    /// target whose relationship carries deletion policy `pol`.
    pub open spec fn spec_policy_pair_to(self, i: int, vs: Set<int>, pol: int) -> bool {
        let ty = self.tables[self.recs[i].table as int].ids@;
        exists|j: int|
            {
                &&& 0 <= j < ty.len()
                &&& spec_is_pair(#[trigger] ty[j])
                &&& vs.contains(spec_pair_second(ty[j]))
                &&& self.spec_policy(spec_pair_first(ty[j])) == pol
            }
    }

    /// One widening step of the deletion closure.
    pub open spec fn spec_victims_step(self, vs: Set<int>) -> Set<int> {
        Set::new(
            |i: int|
                vs.contains(i) || (0 <= i < self.recs.len() && self.recs[i].alive
                    && self.spec_policy_pair_to(i, vs, POLICY_DELETE as int)),
        )
    }

    /// The deletion closure after `k` widening steps from `e` alone.
    pub open spec fn spec_victims(self, e: u64, k: nat) -> Set<int>
        decreases k,
    {
        if k == 0 {
            Set::empty().insert(spec_index_part(e))
        } else {
            self.spec_victims_step(self.spec_victims(e, (k - 1) as nat))
        }
    }

    /// An id that refers to a doomed entity: the doomed entity's own id, or
    /// a pair with a doomed half.
    pub open spec fn spec_dangling(self, vs: Set<int>, id: u64) -> bool {
        if spec_is_pair(id) {
            vs.contains(spec_pair_first(id)) || vs.contains(spec_pair_second(id))
        } else {
            &&& 0 < spec_index_part(id) < self.recs.len()
            &&& vs.contains(spec_index_part(id))
            &&& spec_gen_part(id) == self.recs[spec_index_part(id)].gen as int
        }
    }
    /// The doomed indices a mark vector denotes.
    pub open spec fn spec_marks_set(marks: Seq<bool>) -> Set<int> {
        Set::new(|i: int| 0 <= i < marks.len() && marks[i])
    }

    /// The records a full clear of `e` appends to the drop log: one per
    /// destructor-bearing data component among the first `k` ids of `e`'s
    /// type, highest id first, carrying the value stored at the time of
    /// the call.
    pub open spec fn spec_clear_drops(self, e: u64, k: int) -> Seq<(u64, Seq<u64>)>
        decreases k,
    {
        if k <= 0 {
            Seq::empty()
        } else {
            let id = self.spec_type_of(e)[k - 1];
            (if self.registry.spec_dtor_of_id(id) && self.registry.spec_words_of_id(id) > 0 {
                seq![(id, self.spec_value(e, id))]
            } else {
                Seq::empty()
            }) + self.spec_clear_drops(e, k - 1)
        }
    }

    /// Removes the row of the alive, component-free entity at index `idx`
    /// from its table, marks the slot dead with a bumped generation, and
    /// recycles the index.
    #[verifier::spinoff_prover]
    #[verifier::rlimit(100)]
    fn despawn_empty(&mut self, idx: usize)
        requires
            old(self).wf(),
            0 < idx < old(self).recs.len(),
            old(self).recs[idx as int].alive,
            old(self).tables[old(self).recs[idx as int].table as int].ids.len() == 0,
        ensures
            final(self).wf(),
            spec_same_support(*old(self), *final(self)),
            final(self).drop_log == old(self).drop_log,
            final(self).recs.len() == old(self).recs.len(),
            !final(self).recs[idx as int].alive,
            final(self).recs[idx as int].gen as int == (old(self).recs[idx as int].gen + 1) % (
            GEN_LIMIT as int),
            forall|j: int|
                0 <= j < old(self).recs.len() && j != idx ==> {
                    &&& (#[trigger] final(self).recs[j]).alive == old(self).recs[j].alive
                    &&& final(self).recs[j].gen == old(self).recs[j].gen
                    &&& final(self).recs[j].name == old(self).recs[j].name
                    &&& final(self).recs[j].enabled == old(self).recs[j].enabled
                    &&& final(self).recs[j].disabled_ids == old(self).recs[j].disabled_ids
                },
            forall|x: u64|
                #[trigger] final(self).spec_alive(x) == (old(self).spec_alive(x)
                    && spec_index_part(x) != idx as int),
            forall|x: u64|
                old(self).spec_alive(x) && spec_index_part(x) != idx as int
                    ==> #[trigger] final(self).spec_type_of(x) == old(self).spec_type_of(x),
            forall|x: u64, c: u64|
                old(self).spec_alive(x) && spec_index_part(x) != idx as int
                    ==> #[trigger] final(self).spec_value(x, c) == old(self).spec_value(x, c),
    {
        let ghost pre = *old(self);
        let t = self.recs[idx].table;
        let r1 = self.recs[idx].row;
        proof {
            assert(pre.recs[idx as int].alive);
            let e = pre.tables[t as int].entities[r1 as int];
            assert(pre.row_backed(t as int, r1 as int));
        }
        let last_r = self.tables[t].entities.len() - 1;
        let moved_e = self.tables[t].entities[last_r];
        proof {
            assert(pre.row_backed(t as int, last_r as int));
            assert(pre.tables[t as int].wf(pre.registry));
            assert(pre.tables[t as int].cols.len() == 0) by {
                if pre.tables[t as int].cols.len() > 0 {
                    assert(pre.tables[t as int].ids@.contains(
                        pre.tables[t as int].cols[0].id,
                    ));
                }
            }
        }
        self.tables[t].swap_remove_row(r1);
        let gen = self.recs[idx].gen;
        self.recs[idx].alive = false;
        self.recs[idx].gen = (gen + 1) % GEN_LIMIT;
        if r1 < self.tables[t].entities.len() {
            let mi = crate::entity::index_part(moved_e);
            proof {
                assert(spec_index_part(moved_e) == mi as int);
                assert(mi as int != idx as int);
            }
            self.recs[mi as usize].row = r1;
        }
        if idx as u64 >= FIRST_USER_INDEX {
            self.free.push(idx as u64);
        }
        proof {
            let post = *self;
            let ti = t as int;
            let r1i = r1 as int;
            let lastr = last_r as int;
            let swapped = r1i < post.tables[ti].entities.len();
            let mi = spec_index_part(moved_e);
            assert(post.tables[ti].cols.len() == 0);
            assert(post.tables[ti].wf(post.registry));
            assert forall|tt: int, rr: int|
                0 <= tt < post.tables.len() && 0 <= rr
                    < post.tables[tt].entities.len() implies #[trigger] post.row_backed(
                tt,
                rr,
            ) by {
                if tt == ti && swapped && rr == r1i {
                    assert(post.tables[ti].entities[rr] == moved_e);
                    assert(pre.row_backed(ti, lastr));
                } else {
                    let x = post.tables[tt].entities[rr];
                    if tt == ti {
                        assert(x == pre.tables[ti].entities[rr]);
                    }
                    assert(pre.row_backed(tt, rr));
                    let ix = spec_index_part(x);
                    assert(ix != idx as int) by {
                        if ix == idx as int {
                            assert(pre.recs[idx as int].table as int == tt && pre.recs[
                            idx as int].row as int == rr);
                            assert(tt == ti && rr == r1i);
                        }
                    }
                    if swapped && ix == mi {
                        assert(pre.recs[mi].table as int == ti && pre.recs[mi].row as int
                            == lastr);
                        assert(false);
                    }
                }
            }
            assert forall|i: int|
                0 <= i < post.recs.len() && (#[trigger] post.recs[i]).alive implies {
                &&& post.recs[i].table < post.tables.len()
                &&& post.recs[i].row < post.tables[post.recs[i].table as int].entities.len()
                &&& post.tables[post.recs[i].table as int].entities[post.recs[i].row as int]
                    == spec_entity_id(post.recs[i].gen as int, i) as u64
            } by {
                if swapped && i == mi {
                    assert(post.tables[ti].entities[r1i] == moved_e);
                } else {
                    assert(post.recs[i] == pre.recs[i]);
                    let tt = pre.recs[i].table as int;
                    let rr = pre.recs[i].row as int;
                    assert(pre.row_backed(tt, rr));
                    if tt == ti {
                        assert(rr != r1i) by {
                            if rr == r1i {
                                assert(pre.row_backed(ti, r1i));
                            }
                        }
                        assert(rr != lastr) by {
                            if rr == lastr {
                                assert(spec_index_part(moved_e) == i);
                            }
                        }
                    }
                }
            }
            assert forall|i: int|
                0 <= i < self.free.len() implies FIRST_USER_INDEX as int <= (
            #[trigger] self.free[i]) as int && (self.free[i] as int) < self.recs.len() as int
                && !self.recs[self.free[i] as int].alive by {
                if i < pre.free.len() {
                    assert(self.free[i] == pre.free[i]);
                    assert(pre.free[i] as int != idx as int || !pre.recs[idx as int].alive);
                }
            }
            assert forall|i: int, j: int| 0 <= i < j < self.free.len() implies self.free[i]
                != self.free[j] by {
                if j < pre.free.len() {
                } else {
                    assert(i < pre.free.len());
                    assert(self.free[j] == idx as u64);
                    assert(!pre.recs[pre.free[i] as int].alive);
                }
            }
            assert(post.wf());
            assert forall|x: u64| #[trigger] post.spec_alive(x) == (pre.spec_alive(x)
                && spec_index_part(x) != idx as int) by {}
            assert forall|x: u64, c: u64|
                pre.spec_alive(x) && spec_index_part(x)
                    != idx as int implies #[trigger] post.spec_value(x, c) == pre.spec_value(
                x,
                c,
            ) by {
                let xt = pre.spec_table_of(x);
                if xt == ti {
                    assert(post.tables[ti].cols.len() == 0);
                    assert(pre.tables[ti].cols.len() == 0);
                }
            }
        }
    }

    /// Strips every id from an entity, running destructor hooks on its data
    /// values.  On a dead entity nothing happens; in deferred mode the
    /// operation is buffered.
    pub fn clear(&mut self, e: u64) -> (r: Result<(), EcsError>)
        requires
            old(self).wf(),
        ensures
            final(self).wf(),
            r is Ok,
            if old(self).spec_deferred() {
                crate::ops::spec_queued(*old(self), *final(self), DeferOp::ClearOp(e))
            } else if !old(self).spec_alive(e) {
                *final(self) == *old(self)
            } else {
                &&& Self::spec_frame_except(*old(self), *final(self), spec_index_part(e))
                &&& final(self).spec_type_of(e).len() == 0
                &&& old(self).drop_log@.is_prefix_of(final(self).drop_log@)
                &&& crate::world::spec_drops_view(final(self).drop_log@)
                    == crate::world::spec_drops_view(old(self).drop_log@) + old(
                    self,
                ).spec_clear_drops(e, old(self).spec_type_of(e).len() as int)
            },
    {
        let ghost pre = *old(self);
        if self.defer_depth > 0 && self.defer_suspend == 0 {
            self.defer_queue.push(DeferOp::ClearOp(e));
            proof {
                crate::world::lemma_wf_same_core(pre, *self);
            }
            return Ok(());
        }
        if !self.is_alive(e) {
            return Ok(());
        }
        self.clear_alive(e);
        Ok(())
    }

    /// Strips every id from an alive entity.
    fn clear_alive(&mut self, e: u64)
        requires
            old(self).wf(),
            old(self).spec_alive(e),
        ensures
            Self::spec_frame_except(*old(self), *final(self), spec_index_part(e)),
            final(self).spec_alive(e),
            final(self).spec_type_of(e).len() == 0,
            old(self).drop_log@.is_prefix_of(final(self).drop_log@),
            crate::world::spec_drops_view(final(self).drop_log@) == crate::world::spec_drops_view(
                old(self).drop_log@,
            ) + old(self).spec_clear_drops(e, old(self).spec_type_of(e).len() as int),
    {
        let ghost pre = *old(self);
        let ghost full = pre.spec_type_of(e);
        let idx = crate::entity::index_part(e);
        proof {
            lemma_prefix_refl(pre.drop_log@);
            assert(full.take(full.len() as int) =~= full);
        }
        loop
            invariant
                pre.wf(),
                pre.spec_alive(e),
                idx as int == spec_index_part(e),
                full == pre.spec_type_of(e),
                Self::spec_frame_except(pre, *self, spec_index_part(e)),
                self.spec_alive(e),
                pre.drop_log@.is_prefix_of(self.drop_log@),
                self.spec_type_of(e).len() <= full.len(),
                self.spec_type_of(e) == full.take(self.spec_type_of(e).len() as int),
                forall|c: u64|
                    self.spec_type_of(e).contains(c) ==> #[trigger] self.spec_value(e, c)
                        == pre.spec_value(e, c),
                crate::world::spec_drops_view(self.drop_log@) + pre.spec_clear_drops(
                    e,
                    self.spec_type_of(e).len() as int,
                ) == crate::world::spec_drops_view(pre.drop_log@) + pre.spec_clear_drops(
                    e,
                    full.len() as int,
                ),
            ensures
                Self::spec_frame_except(pre, *self, spec_index_part(e)),
                self.spec_alive(e),
                self.spec_type_of(e).len() == 0,
                pre.drop_log@.is_prefix_of(self.drop_log@),
                crate::world::spec_drops_view(self.drop_log@) == crate::world::spec_drops_view(
                    pre.drop_log@,
                ) + pre.spec_clear_drops(e, full.len() as int),
            decreases self.spec_type_of(e).len(),
        {
            let t = self.recs[idx as usize].table;
            proof {
                assert(t as int == self.spec_table_of(e));
            }
            let n = self.tables[t].ids.len();
            if n == 0 {
                proof {
                    assert(pre.spec_clear_drops(e, 0) =~= Seq::<(u64, Seq<u64>)>::empty());
                    assert(crate::world::spec_drops_view(self.drop_log@)
                        + Seq::<(u64, Seq<u64>)>::empty() =~= crate::world::spec_drops_view(
                        self.drop_log@,
                    ));
                }
                break;
            }
            let id = self.tables[t].ids[n - 1];
            proof {
                assert(n as int == self.spec_type_of(e).len());
                assert(n as int <= full.len());
                assert(self.spec_type_of(e).contains(id)) by {
                    assert(self.spec_type_of(e)[n - 1] == id);
                }
                assert(id == full[n - 1]) by {
                    assert(self.spec_type_of(e)[n - 1] == full.take(n as int)[n - 1]);
                }
            }
            let ghost mid = *self;
            self.remove_plain(e, id);
            proof {
                lemma_frame_except_trans(pre, mid, *self, spec_index_part(e));
                lemma_prefix_trans(pre.drop_log@, mid.drop_log@, self.drop_log@);
                assert(self.spec_type_of(e).len() < mid.spec_type_of(e).len()) by {
                    assert(self.spec_type_set(e) == mid.spec_type_set(e).remove(id));
                    crate::ops::lemma_type_len_decreases(mid, *self, e, id);
                }
                // The shrunken type is the next shorter prefix of the
                // original type.
                assert(crate::table::spec_sorted_strict(full)) by {
                    assert(pre.tables[pre.spec_table_of(e)].wf(pre.registry));
                }
                assert(crate::table::spec_sorted_strict(self.spec_type_of(e))) by {
                    assert(self.tables[self.spec_table_of(e)].wf(self.registry));
                }
                assert(crate::table::spec_sorted_strict(full.take(n as int - 1)));
                assert forall|x: u64| self.spec_type_of(e).contains(x) == full.take(
                    n as int - 1,
                ).contains(x) by {
                    assert(self.spec_type_of(e).contains(x) == self.spec_type_set(e).contains(x));
                    assert(mid.spec_type_of(e).contains(x) == mid.spec_type_set(e).contains(x));
                    assert(self.spec_type_set(e).contains(x) == (mid.spec_type_set(e).contains(x)
                        && x != id));
                    assert(mid.spec_type_of(e) == full.take(n as int));
                    if full.take(n as int - 1).contains(x) {
                        let j = choose|j: int|
                            0 <= j < n - 1 && #[trigger] full.take(n as int - 1)[j] == x;
                        assert(full.take(n as int)[j] == x);
                        assert(x != id) by {
                            assert(full[j] == x && full[n - 1] == id);
                        }
                    }
                    if mid.spec_type_of(e).contains(x) && x != id {
                        let j = choose|j: int|
                            0 <= j < n && #[trigger] full.take(n as int)[j] == x;
                        assert(j != n - 1);
                        assert(full.take(n as int - 1)[j] == x);
                    }
                }
                crate::table::lemma_sorted_same_set(
                    self.spec_type_of(e),
                    full.take(n as int - 1),
                );
                assert(self.spec_type_of(e).len() == n - 1);
                // Values of the ids still present carried over.
                assert forall|c: u64| self.spec_type_of(e).contains(c) implies #[trigger] self.spec_value(
                    e,
                    c,
                ) == pre.spec_value(e, c) by {
                    assert(c != id);
                    assert(mid.spec_type_of(e).contains(c)) by {
                        let j = choose|j: int|
                            0 <= j < n - 1 && #[trigger] full.take(n as int - 1)[j] == c;
                        assert(full.take(n as int)[j] == c);
                    }
                    assert(self.spec_value(e, c) == mid.spec_value(e, c));
                }
                // One step of the drop-record accounting.
                assert(mid.registry == pre.registry);
                assert(pre.spec_clear_drops(e, n as int) == (if pre.registry.spec_dtor_of_id(id)
                    && pre.registry.spec_words_of_id(id) > 0 {
                    seq![(id, pre.spec_value(e, id))]
                } else {
                    Seq::<(u64, Seq<u64>)>::empty()
                }) + pre.spec_clear_drops(e, n as int - 1));
                if pre.registry.spec_dtor_of_id(id) && pre.registry.spec_words_of_id(id) > 0 {
                    assert(self.drop_log@.last().comp == id);
                    assert(self.drop_log@.last().value@ == mid.spec_value(e, id));
                    assert(mid.spec_value(e, id) == pre.spec_value(e, id)) by {
                        assert(mid.spec_type_of(e).contains(id));
                    }
                    assert(crate::world::spec_drops_view(self.drop_log@)
                        =~= crate::world::spec_drops_view(mid.drop_log@).push(
                        (id, pre.spec_value(e, id)),
                    )) by {
                        assert(self.drop_log@.drop_last() == mid.drop_log@);
                        assert(self.drop_log@ =~= mid.drop_log@.push(self.drop_log@.last()));
                    }
                    assert(crate::world::spec_drops_view(self.drop_log@) + pre.spec_clear_drops(
                        e,
                        n as int - 1,
                    ) =~= crate::world::spec_drops_view(mid.drop_log@) + pre.spec_clear_drops(
                        e,
                        n as int,
                    ));
                } else {
                    assert(self.drop_log@ == mid.drop_log@);
                    assert(crate::world::spec_drops_view(self.drop_log@) + pre.spec_clear_drops(
                        e,
                        n as int - 1,
                    ) =~= crate::world::spec_drops_view(mid.drop_log@) + pre.spec_clear_drops(
                        e,
                        n as int,
                    )) by {
                        assert(pre.spec_clear_drops(e, n as int) =~= Seq::<(u64, Seq<u64>)>::empty()
                            + pre.spec_clear_drops(e, n as int - 1));
                    }
                }
            }
        }
    }
    /// Whether the alive entity at index `i` holds a pair to a marked
    /// target under deletion policy `pol`.
    fn policy_pair_scan(&self, i: usize, marks: &Vec<bool>, pol: u64) -> (b: bool)
        requires
            self.wf(),
            i < self.recs.len(),
            self.recs[i as int].alive,
            marks.len() == self.recs.len(),
        ensures
            b == self.spec_policy_pair_to(i as int, Self::spec_marks_set(marks@), pol as int),
    {
        let t = self.recs[i].table;
        let ids = &self.tables[t].ids;
        let n = ids.len();
        let mut j: usize = 0;
        while j < n
            invariant
                self.wf(),
                i < self.recs.len(),
                self.recs[i as int].alive,
                marks.len() == self.recs.len(),
                t == self.recs[i as int].table,
                ids == &self.tables[t as int].ids,
                j <= n,
                n == ids.len(),
                forall|jj: int|
                    0 <= jj < j ==> !{
                        &&& spec_is_pair(#[trigger] ids@[jj])
                        &&& Self::spec_marks_set(marks@).contains(spec_pair_second(ids@[jj]))
                        &&& self.spec_policy(spec_pair_first(ids@[jj])) == pol as int
                    },
            decreases n - j,
        {
            let p = ids[j];
            if crate::entity::is_pair(p) {
                let second = crate::entity::pair_second(p);
                if second < marks.len() as u64 && marks[second as usize] {
                    let first = crate::entity::pair_first(p);
                    if self.policy_of_rel(first) == pol {
                        return true;
                    }
                }
            }
            j = j + 1;
        }
        false
    }

    /// Marks the deletion closure of `e`: the entity itself and, repeatedly,
    /// every alive holder of a cascading-delete pair to a marked target.
    fn compute_victims(&self, e: u64) -> (marks: Vec<bool>)
        requires
            self.wf(),
            self.spec_alive(e),
        ensures
            marks.len() == self.recs.len(),
            Self::spec_marks_set(marks@) == self.spec_victims(e, self.recs.len() as nat),
    {
        let n = self.recs.len();
        let idx = crate::entity::index_part(e) as usize;
        let mut marks: Vec<bool> = Vec::new();
        let mut i: usize = 0;
        while i < n
            invariant
                i <= n,
                marks.len() == i,
                forall|j: int| 0 <= j < i ==> !marks@[j],
            decreases n - i,
        {
            marks.push(false);
            i = i + 1;
        }
        marks[idx] = true;
        proof {
            assert(Self::spec_marks_set(marks@) =~= self.spec_victims(e, 0));
        }
        let mut k: usize = 0;
        while k < n
            invariant
                self.wf(),
                self.spec_alive(e),
                n == self.recs.len(),
                k <= n,
                marks.len() == n,
                Self::spec_marks_set(marks@) == self.spec_victims(e, k as nat),
            decreases n - k,
        {
            let ghost vs = Self::spec_marks_set(marks@);
            let mut next: Vec<bool> = Vec::new();
            let mut i2: usize = 0;
            while i2 < n
                invariant
                    self.wf(),
                    n == self.recs.len(),
                    marks.len() == n,
                    vs == Self::spec_marks_set(marks@),
                    i2 <= n,
                    next.len() == i2,
                    forall|j: int|
                        0 <= j < i2 ==> next@[j] == (vs.contains(j) || (self.recs[j].alive
                            && self.spec_policy_pair_to(j, vs, POLICY_DELETE as int))),
                decreases n - i2,
            {
                let mut v = marks[i2];
                if !v && self.recs[i2].alive {
                    v = self.policy_pair_scan(i2, &marks, POLICY_DELETE);
                }
                next.push(v);
                i2 = i2 + 1;
            }
            proof {
                assert(Self::spec_marks_set(next@) =~= self.spec_victims_step(vs));
            }
            marks = next;
            k = k + 1;
        }
        marks
    }

    /// Finds an id on table `t` that refers to a marked entity.
    fn find_dangling(&self, t: usize, marks: &Vec<bool>) -> (r: Option<u64>)
        requires
            self.wf(),
            t < self.tables.len(),
            marks.len() == self.recs.len(),
        ensures
            match r {
                Some(id) => self.tables[t as int].ids@.contains(id) && self.spec_dangling(
                    Self::spec_marks_set(marks@),
                    id,
                ),
                None => forall|id: u64|
                    self.tables[t as int].ids@.contains(id) ==> !self.spec_dangling(
                        Self::spec_marks_set(marks@),
                        id,
                    ),
            },
    {
        let ids = &self.tables[t].ids;
        let n = ids.len();
        let mut j: usize = 0;
        while j < n
            invariant
                self.wf(),
                t < self.tables.len(),
                marks.len() == self.recs.len(),
                ids == &self.tables[t as int].ids,
                j <= n,
                n == ids.len(),
                forall|jj: int|
                    0 <= jj < j ==> !self.spec_dangling(
                        Self::spec_marks_set(marks@),
                        #[trigger] ids@[jj],
                    ),
            decreases n - j,
        {
            let id = ids[j];
            if crate::entity::is_pair(id) {
                let first = crate::entity::pair_first(id);
                let second = crate::entity::pair_second(id);
                if (first < marks.len() as u64 && marks[first as usize]) || (second < marks.len()
                    as u64 && marks[second as usize]) {
                    return Some(id);
                }
            } else {
                let ii = crate::entity::index_part(id);
                if ii > 0 && ii < marks.len() as u64 && marks[ii as usize] {
                    let g = crate::entity::gen_part(id);
                    if g == self.recs[ii as usize].gen {
                        return Some(id);
                    }
                }
            }
            j = j + 1;
        }
        proof {
            assert forall|id: u64| ids@.contains(id) implies !self.spec_dangling(
                Self::spec_marks_set(marks@),
                id,
            ) by {
                let jj = choose|jj: int| 0 <= jj < ids@.len() && ids@[jj] == id;
            }
        }
        None
    }

    /// Deletes an entity.  The deletion cascades to every entity reachable
    /// through pairs whose relationship carries the cascading delete
    /// policy; a pair to a doomed target under the panic policy makes the
    /// whole deletion fail with nothing changed.  Surviving entities lose
    /// every id that refers to a doomed one.  On a dead entity nothing
    /// happens; in deferred mode the operation is buffered.
    #[verifier::rlimit(100)]
    pub fn delete(&mut self, e: u64) -> (r: Result<(), EcsError>)
        requires
            old(self).wf(),
        ensures
            final(self).wf(),
            match r {
                Ok(()) => if old(self).spec_deferred() {
                    crate::ops::spec_queued(*old(self), *final(self), DeferOp::DeleteOp(e))
                } else if !old(self).spec_alive(e) {
                    *final(self) == *old(self)
                } else {
                    spec_delete_effect(*old(self), *final(self), e)
                },
                Err(EcsError::ProtectedTarget) => {
                    &&& !old(self).spec_deferred()
                    &&& old(self).spec_alive(e)
                    &&& *final(self) == *old(self)
                    &&& exists|i: int|
                        0 <= i < old(self).recs.len() && old(self).recs[i].alive && !old(
                            self,
                        ).spec_victims(e, old(self).recs.len() as nat).contains(i) && old(
                            self,
                        ).spec_policy_pair_to(
                            i,
                            old(self).spec_victims(e, old(self).recs.len() as nat),
                            POLICY_PANIC as int,
                        )
                },
                Err(_) => false,
            },
    {
        let ghost pre = *old(self);
        if self.defer_depth > 0 && self.defer_suspend == 0 {
            self.defer_queue.push(DeferOp::DeleteOp(e));
            proof {
                crate::world::lemma_wf_same_core(pre, *self);
            }
            return Ok(());
        }
        if !self.is_alive(e) {
            return Ok(());
        }
        let n = self.recs.len();
        let marks = self.compute_victims(e);
        let ghost vs = Self::spec_marks_set(marks@);
        // A pair to a doomed target under the panic policy blocks the whole
        // deletion.
        let mut i: usize = 0;
        while i < n
            invariant
                *self == pre,
                pre == *old(self),
                !pre.spec_deferred(),
                pre.wf(),
                pre.spec_alive(e),
                n == self.recs.len(),
                marks.len() == n,
                vs == Self::spec_marks_set(marks@),
                vs == pre.spec_victims(e, n as nat),
                forall|j: int|
                    0 <= j < i && self.recs[j].alive && !vs.contains(j)
                        ==> !self.spec_policy_pair_to(j, vs, POLICY_PANIC as int),
            decreases n - i,
        {
            if self.recs[i].alive && !marks[i] {
                if self.policy_pair_scan(i, &marks, POLICY_PANIC) {
                    proof {
                        assert(!vs.contains(i as int));
                        assert(0 <= i as int && (i as int) < pre.recs.len() && pre.recs[i as int].alive
                            && !pre.spec_victims(e, pre.recs.len() as nat).contains(i as int)
                            && pre.spec_policy_pair_to(
                            i as int,
                            pre.spec_victims(e, pre.recs.len() as nat),
                            POLICY_PANIC as int,
                        ));
                    }
                    return Err(EcsError::ProtectedTarget);
                }
            }
            i = i + 1;
        }
        // Survivors lose every id that refers to a doomed entity.
        proof {
            lemma_prefix_refl(pre.drop_log@);
        }
        let mut i: usize = 0;
        while i < n
            invariant
                pre.wf(),
                pre.spec_alive(e),
                n == self.recs.len(),
                n == pre.recs.len(),
                marks.len() == n,
                vs == Self::spec_marks_set(marks@),
                vs == pre.spec_victims(e, n as nat),
                i <= n,
                self.wf(),
                spec_same_support(pre, *self),
                self.free == pre.free,
                pre.drop_log@.is_prefix_of(self.drop_log@),
                forall|j: int|
                    0 <= j < n ==> {
                        &&& (#[trigger] self.recs[j]).alive == pre.recs[j].alive
                        &&& self.recs[j].gen == pre.recs[j].gen
                        &&& self.recs[j].name == pre.recs[j].name
                        &&& self.recs[j].enabled == pre.recs[j].enabled
                        &&& self.recs[j].disabled_ids == pre.recs[j].disabled_ids
                    },
                forall|x: u64| self.spec_alive(x) == pre.spec_alive(x),
                forall|x: u64, p: u64|
                    pre.spec_alive(x) && spec_index_part(x) < i && !vs.contains(spec_index_part(x))
                        ==> #[trigger] self.spec_type_set(x).contains(p) == (pre.spec_type_set(
                        x,
                    ).contains(p) && !pre.spec_dangling(vs, p)),
                forall|x: u64, c: u64|
                    pre.spec_alive(x) && spec_index_part(x) < i && !vs.contains(spec_index_part(x))
                        && !pre.spec_dangling(vs, c) ==> #[trigger] self.spec_value(x, c)
                        == pre.spec_value(x, c),
                forall|x: u64|
                    pre.spec_alive(x) && (spec_index_part(x) >= i || vs.contains(
                        spec_index_part(x),
                    )) ==> #[trigger] self.spec_type_of(x) == pre.spec_type_of(x),
                forall|x: u64, c: u64|
                    pre.spec_alive(x) && (spec_index_part(x) >= i || vs.contains(
                        spec_index_part(x),
                    )) ==> #[trigger] self.spec_value(x, c) == pre.spec_value(x, c),
            decreases n - i,
        {
            if self.recs[i].alive && !marks[i] {
                let gen = self.recs[i].gen;
                let ei = crate::entity::entity_id(gen, i as u64);
                proof {
                    assert(self.spec_alive(ei));
                    assert(spec_index_part(ei) == i as int);
                }
                let ghost w0 = *self;
                self.strip_dangling(ei, &marks);
                proof {
                    lemma_prefix_trans(pre.drop_log@, w0.drop_log@, self.drop_log@);
                    assert forall|x: u64, p: u64|
                        pre.spec_alive(x) && spec_index_part(x) < i + 1 && !vs.contains(
                            spec_index_part(x),
                        ) implies #[trigger] self.spec_type_set(x).contains(p) == (
                    pre.spec_type_set(x).contains(p) && !pre.spec_dangling(vs, p)) by {
                        let w0c = w0.spec_type_set(x).contains(p);
                        if spec_index_part(x) == i as int {
                            assert(w0.spec_type_of(x) == pre.spec_type_of(x));
                            assert(w0.spec_dangling(vs, p) == pre.spec_dangling(vs, p));
                        }
                    }
                    assert forall|x: u64, c: u64|
                        pre.spec_alive(x) && spec_index_part(x) < i + 1 && !vs.contains(
                            spec_index_part(x),
                        ) && !pre.spec_dangling(vs, c) implies #[trigger] self.spec_value(x, c)
                        == pre.spec_value(x, c) by {
                        let w0v = w0.spec_value(x, c);
                        if spec_index_part(x) == i as int {
                            assert(w0.spec_dangling(vs, c) == pre.spec_dangling(vs, c));
                        }
                    }
                }
            } else {
                proof {
                    assert forall|x: u64|
                        pre.spec_alive(x) && spec_index_part(x) < i + 1 && !vs.contains(
                            spec_index_part(x),
                        ) implies spec_index_part(x) < i || spec_index_part(x) != i as int by {
                        if spec_index_part(x) == i as int {
                            assert(self.recs[i as int].alive);
                            assert(vs.contains(i as int) == marks@[i as int]);
                        }
                    }
                }
            }
            i = i + 1;
        }
        // Doomed entities run their destructor hooks, leave their tables
        // and recycle their indices with a bumped generation.
        let ghost wa = *self;
        let mut i: usize = 0;
        while i < n
            invariant
                pre.wf(),
                wa.wf(),
                n == self.recs.len(),
                n == pre.recs.len(),
                n == wa.recs.len(),
                marks.len() == n,
                vs == Self::spec_marks_set(marks@),
                i <= n,
                self.wf(),
                spec_same_support(pre, *self),
                pre.drop_log@.is_prefix_of(self.drop_log@),
                forall|j: int|
                    0 <= j < n && !(vs.contains(j) && j < i && pre.recs[j].alive) ==> {
                        &&& (#[trigger] self.recs[j]).alive == pre.recs[j].alive
                        &&& self.recs[j].gen == pre.recs[j].gen
                        &&& self.recs[j].name == pre.recs[j].name
                        &&& self.recs[j].enabled == pre.recs[j].enabled
                        &&& self.recs[j].disabled_ids == pre.recs[j].disabled_ids
                    },
                forall|j: int|
                    0 <= j < n && vs.contains(j) && j < i && pre.recs[j].alive ==> {
                        &&& !(#[trigger] self.recs[j]).alive
                        &&& self.recs[j].gen as int == (pre.recs[j].gen + 1) % (GEN_LIMIT as int)
                    },
                forall|x: u64|
                    #[trigger] self.spec_alive(x) == (pre.spec_alive(x) && !(vs.contains(
                        spec_index_part(x),
                    ) && spec_index_part(x) < i)),
                forall|x: u64|
                    pre.spec_alive(x) && !vs.contains(spec_index_part(x))
                        ==> #[trigger] self.spec_type_of(x) == wa.spec_type_of(x),
                forall|x: u64, c: u64|
                    pre.spec_alive(x) && !vs.contains(spec_index_part(x))
                        ==> #[trigger] self.spec_value(x, c) == wa.spec_value(x, c),
                forall|x: u64|
                    pre.spec_alive(x) && vs.contains(spec_index_part(x)) && spec_index_part(x) >= i
                        ==> #[trigger] self.spec_type_of(x) == wa.spec_type_of(x),
            decreases n - i,
        {
            if marks[i] && self.recs[i].alive {
                proof {
                    assert(i > 0) by {
                        if i == 0 {
                            assert(!pre.recs[0].alive);
                            assert(!self.recs[0].alive);
                        }
                    }
                }
                let gen = self.recs[i].gen;
                let ei = crate::entity::entity_id(gen, i as u64);
                proof {
                    assert(self.spec_alive(ei));
                    assert(spec_index_part(ei) == i as int);
                    assert(pre.spec_alive(ei)) by {
                        assert(self.recs[i as int].gen == pre.recs[i as int].gen);
                    }
                }
                let ghost w0 = *self;
                self.clear_alive(ei);
                proof {
                    lemma_prefix_trans(pre.drop_log@, w0.drop_log@, self.drop_log@);
                }
                let ghost w1 = *self;
                self.despawn_empty(i);
                proof {
                    assert(self.recs[i as int].gen as int == (pre.recs[i as int].gen + 1) % (
                    GEN_LIMIT as int));
                }
            }
            i = i + 1;
        }
        proof {
            let post = *self;
            lemma_victims_monotone_start(pre, e, n as nat);
            assert(vs.contains(spec_index_part(e)));
            assert(!post.spec_alive(e));
            assert forall|x: u64| #[trigger] post.spec_alive(x) == (pre.spec_alive(x)
                && !vs.contains(spec_index_part(x))) by {
                if pre.spec_alive(x) {
                    assert(spec_index_part(x) < n as int);
                }
            }
            assert forall|x: u64, p: u64|
                pre.spec_alive(x) && !vs.contains(
                    spec_index_part(x),
                ) implies #[trigger] post.spec_type_set(x).contains(p) == (pre.spec_type_set(
                x,
            ).contains(p) && !pre.spec_dangling(vs, p)) by {
                assert(spec_index_part(x) < n as int);
                assert(post.spec_type_of(x) == wa.spec_type_of(x));
                assert(wa.spec_type_set(x).contains(p) == (pre.spec_type_set(x).contains(p)
                    && !pre.spec_dangling(vs, p)));
            }
            assert forall|x: u64, c: u64|
                pre.spec_alive(x) && !vs.contains(spec_index_part(x)) && !pre.spec_dangling(
                    vs,
                    c,
                ) implies #[trigger] post.spec_value(x, c) == pre.spec_value(x, c) by {
                assert(spec_index_part(x) < n as int);
                assert(post.spec_value(x, c) == wa.spec_value(x, c));
                assert(wa.spec_value(x, c) == pre.spec_value(x, c));
            }
            assert(spec_delete_effect(pre, post, e));
        }
        Ok(())
    }

    /// Removes from the alive entity `e` every id that refers to a marked
    /// entity.
    fn strip_dangling(&mut self, e: u64, marks: &Vec<bool>)
        requires
            old(self).wf(),
            old(self).spec_alive(e),
            marks.len() == old(self).recs.len(),
        ensures
            Self::spec_frame_except(*old(self), *final(self), spec_index_part(e)),
            final(self).spec_alive(e),
            forall|p: u64|
                #[trigger] final(self).spec_type_set(e).contains(p) == (old(self).spec_type_set(
                    e,
                ).contains(p) && !old(self).spec_dangling(Self::spec_marks_set(marks@), p)),
            forall|c: u64|
                !old(self).spec_dangling(Self::spec_marks_set(marks@), c)
                    ==> #[trigger] final(self).spec_value(e, c) == old(self).spec_value(e, c),
            old(self).drop_log@.is_prefix_of(final(self).drop_log@),
    {
        let ghost pre = *old(self);
        let ghost vs = Self::spec_marks_set(marks@);
        let idx = crate::entity::index_part(e);
        proof {
            lemma_prefix_refl(pre.drop_log@);
        }
        loop
            invariant
                pre.wf(),
                pre.spec_alive(e),
                marks.len() == pre.recs.len(),
                vs == Self::spec_marks_set(marks@),
                idx as int == spec_index_part(e),
                Self::spec_frame_except(pre, *self, spec_index_part(e)),
                self.spec_alive(e),
                forall|p: u64|
                    #[trigger] self.spec_type_set(e).contains(p) ==> pre.spec_type_set(e).contains(
                        p,
                    ),
                forall|p: u64|
                    !pre.spec_dangling(vs, p) ==> #[trigger] self.spec_type_set(e).contains(p)
                        == pre.spec_type_set(e).contains(p),
                forall|c: u64|
                    !pre.spec_dangling(vs, c) ==> #[trigger] self.spec_value(e, c)
                        == pre.spec_value(e, c),
                pre.drop_log@.is_prefix_of(self.drop_log@),
            ensures
                Self::spec_frame_except(pre, *self, spec_index_part(e)),
                self.spec_alive(e),
                forall|p: u64|
                    #[trigger] self.spec_type_set(e).contains(p) == (pre.spec_type_set(e).contains(
                        p,
                    ) && !pre.spec_dangling(vs, p)),
                forall|c: u64|
                    !pre.spec_dangling(vs, c) ==> #[trigger] self.spec_value(e, c)
                        == pre.spec_value(e, c),
                pre.drop_log@.is_prefix_of(self.drop_log@),
            decreases self.spec_type_of(e).len(),
        {
            let t = self.recs[idx as usize].table;
            proof {
                assert(t as int == self.spec_table_of(e));
                assert forall|id: u64| #[trigger] self.spec_dangling(vs, id) == pre.spec_dangling(
                    vs,
                    id,
                ) by {}
            }
            match self.find_dangling(t, marks) {
                Some(p) => {
                    proof {
                        assert(self.spec_type_of(e).contains(p));
                    }
                    let ghost mid = *self;
                    self.remove_plain(e, p);
                    proof {
                        lemma_frame_except_trans(pre, mid, *self, spec_index_part(e));
                        lemma_prefix_trans(pre.drop_log@, mid.drop_log@, self.drop_log@);
                        assert(self.spec_type_of(e).len() < mid.spec_type_of(e).len()) by {
                            assert(self.spec_type_set(e) == mid.spec_type_set(e).remove(p));
                            crate::ops::lemma_type_len_decreases(mid, *self, e, p);
                        }
                    }
                },
                None => {
                    proof {
                        assert forall|p: u64| #[trigger] self.spec_type_set(e).contains(p) == (
                        pre.spec_type_set(e).contains(p) && !pre.spec_dangling(vs, p)) by {
                            if self.spec_type_set(e).contains(p) {
                                assert(self.spec_type_of(e).contains(p));
                                assert(!self.spec_dangling(vs, p));
                            }
                        }
                    }
                    break;
                },
            }
        }
    }
}

/// The effect of an immediate, unblocked deletion of the alive entity `e`.
pub open spec fn spec_delete_effect(pre: World, post: World, e: u64) -> bool {
    let vs = pre.spec_victims(e, pre.recs.len() as nat);
    &&& post.wf()
    &&& spec_same_support(pre, post)
    &&& post.recs.len() == pre.recs.len()
    &&& !post.spec_alive(e)
    &&& forall|x: u64|
        #[trigger] post.spec_alive(x) == (pre.spec_alive(x) && !vs.contains(spec_index_part(x)))
    &&& forall|i: int|
        0 <= i < pre.recs.len() && pre.recs[i].alive && vs.contains(i) ==> !(
        #[trigger] post.recs[i]).alive && post.recs[i].gen as int == (pre.recs[i].gen + 1) % (
        GEN_LIMIT as int)
    &&& forall|i: int|
        0 <= i < pre.recs.len() && !(pre.recs[i].alive && vs.contains(i)) ==> {
            &&& (#[trigger] post.recs[i]).alive == pre.recs[i].alive
            &&& post.recs[i].gen == pre.recs[i].gen
            &&& post.recs[i].name == pre.recs[i].name
            &&& post.recs[i].enabled == pre.recs[i].enabled
        }
    &&& forall|x: u64, p: u64|
        pre.spec_alive(x) && !vs.contains(spec_index_part(x))
            ==> #[trigger] post.spec_type_set(x).contains(p) == (pre.spec_type_set(x).contains(p)
            && !pre.spec_dangling(vs, p))
    &&& forall|x: u64, c: u64|
        pre.spec_alive(x) && !vs.contains(spec_index_part(x)) && !pre.spec_dangling(vs, c)
            ==> #[trigger] post.spec_value(x, c) == pre.spec_value(x, c)
    &&& pre.drop_log@.is_prefix_of(post.drop_log@)
}

/// The deleted entity's own index is in every stage of its closure.
pub proof fn lemma_victims_monotone_start(w: World, e: u64, k: nat)
    ensures
        w.spec_victims(e, k).contains(spec_index_part(e)),
    decreases k,
{
    if k > 0 {
        lemma_victims_monotone_start(w, e, (k - 1) as nat);
    }
}

} // verus!
