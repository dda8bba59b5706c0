//! Deferred mode.
//!
//! While deferred, structural mutations are buffered instead of applied, so
//! entities can be mutated safely during iteration.  Leaving the outermost
//! deferred scope flushes the buffer: every queued operation is applied in
//! submission order with the same meaning it has immediately — a dead
//! target, a cycle or a protected deletion turns into a silent skip.
//! Suspension drops back to immediate mode inside a deferred scope.

use vstd::prelude::*;

use crate::lifecycle::spec_delete_effect;
use crate::ops::{spec_add_effect, spec_remove_effect, spec_would_cycle};
use crate::world::{DeferOp, EcsError, World};

verus! {

/// The immediate meaning of one buffered operation.
pub open spec fn spec_op_applied(pre: World, post: World, op: DeferOp) -> bool {
    match op {
        DeferOp::AddOp(e, id) => if !pre.spec_alive(e) || spec_would_cycle(pre, e, id) {
            post == pre
        } else {
            spec_add_effect(pre, post, e, id)
        },
        DeferOp::RemoveOp(e, id) => if !pre.spec_alive(e) || !pre.spec_type_of(e).contains(id) {
            post == pre
        } else {
            spec_remove_effect(pre, post, e, id)
        },
        DeferOp::SetOp(e, id, data) => if pre.registry.spec_words_of_id(id) == 0 || data.len()
            as int != pre.registry.spec_words_of_id(id) || !pre.spec_alive(e) {
            post == pre
        } else {
            spec_set_effect(pre, post, e, id, data@)
        },
        DeferOp::DeleteOp(e) => if !pre.spec_alive(e) {
            post == pre
        } else {
            (spec_delete_blocked(pre, e) && post == pre) || spec_delete_effect(pre, post, e)
        },
        DeferOp::ClearOp(e) => if !pre.spec_alive(e) {
            post == pre
        } else {
            &&& World::spec_frame_except(pre, post, crate::entity::spec_index_part(e))
            &&& post.spec_type_of(e).len() == 0
            &&& pre.drop_log@.is_prefix_of(post.drop_log@)
            &&& crate::world::spec_drops_view(post.drop_log@) == crate::world::spec_drops_view(
                pre.drop_log@,
            ) + pre.spec_clear_drops(e, pre.spec_type_of(e).len() as int)
        },
    }
}

/// The immediate effect of writing a value: the id joins the entity's
/// id-set if absent, and holds exactly the written words afterwards.
pub open spec fn spec_set_effect(
    pre: World,
    post: World,
    e: u64,
    id: u64,
    data: Seq<u64>,
) -> bool {
    &&& World::spec_frame_except(pre, post, crate::entity::spec_index_part(e))
    &&& forall|p: u64|
        #[trigger] post.spec_type_set(e).contains(p) == (pre.spec_type_set(e).contains(p) || p
            == id)
    &&& post.spec_value(e, id) == data
    &&& forall|c: u64| c != id ==> #[trigger] post.spec_value(e, c) == pre.spec_value(e, c)
    &&& post.drop_log == pre.drop_log
}

/// A deletion is blocked when some survivor holds a panic-policy pair to a
/// doomed entity.
pub open spec fn spec_delete_blocked(pre: World, e: u64) -> bool {
    exists|i: int|
        0 <= i < pre.recs.len() && pre.recs[i].alive && !pre.spec_victims(
            e,
            pre.recs.len() as nat,
        ).contains(i) && pre.spec_policy_pair_to(
            i,
            pre.spec_victims(e, pre.recs.len() as nat),
            crate::flecs::POLICY_PANIC as int,
        )
}

/// The fold of buffered operations, in submission order.
pub open spec fn spec_ops_applied(pre: World, ops: Seq<DeferOp>, post: World) -> bool
    decreases ops.len(),
{
    if ops.len() == 0 {
        post == pre
    } else {
        exists|mid: World|
            #[trigger] spec_op_applied(pre, mid, ops[0]) && spec_ops_applied(
                mid,
                ops.drop_first(),
                post,
            )
    }
}

/// The fold extends by one operation at its end.
pub proof fn lemma_ops_snoc(pre: World, ops: Seq<DeferOp>, mid: World, op: DeferOp, post: World)
    requires
        spec_ops_applied(pre, ops, mid),
        spec_op_applied(mid, post, op),
    ensures
        spec_ops_applied(pre, ops.push(op), post),
    decreases ops.len(),
{
    if ops.len() == 0 {
        assert(ops.push(op)[0] == op);
        assert(ops.push(op).drop_first() =~= Seq::<DeferOp>::empty());
        assert(spec_op_applied(pre, post, ops.push(op)[0]));
        assert(spec_ops_applied(post, ops.push(op).drop_first(), post));
    } else {
        let m1 = choose|m1: World|
            #[trigger] spec_op_applied(pre, m1, ops[0]) && spec_ops_applied(
                m1,
                ops.drop_first(),
                mid,
            );
        lemma_ops_snoc(m1, ops.drop_first(), mid, op, post);
        assert(ops.push(op)[0] == ops[0]);
        assert(ops.push(op).drop_first() =~= ops.drop_first().push(op));
        assert(spec_op_applied(pre, m1, ops.push(op)[0]));
    }
}

impl World {
    /// Enters deferred mode: structural mutations are buffered until the
    /// matching `defer_end`.
    pub fn defer_begin(&mut self)
        requires
            old(self).wf(),
            old(self).defer_depth < u64::MAX,
        ensures
            final(self).wf(),
            final(self).defer_depth == old(self).defer_depth + 1,
            final(self).recs == old(self).recs,
            final(self).tables == old(self).tables,
            final(self).free == old(self).free,
            final(self).registry == old(self).registry,
            final(self).drop_log == old(self).drop_log,
            final(self).systems == old(self).systems,
            final(self).defer_suspend == old(self).defer_suspend,
            final(self).defer_queue == old(self).defer_queue,
    {
        let ghost pre = *self;
        self.defer_depth = self.defer_depth + 1;
        proof {
            crate::world::lemma_wf_same_core(pre, *self);
        }
    }

    /// Suspends deferred mode: mutations apply immediately again until the
    /// matching `defer_resume`.
    pub fn defer_suspend(&mut self)
        requires
            old(self).wf(),
            old(self).defer_suspend < u64::MAX,
        ensures
            final(self).wf(),
            final(self).defer_suspend == old(self).defer_suspend + 1,
            final(self).recs == old(self).recs,
            final(self).tables == old(self).tables,
            final(self).defer_depth == old(self).defer_depth,
            final(self).defer_queue == old(self).defer_queue,
            final(self).drop_log == old(self).drop_log,
    {
        let ghost pre = *self;
        self.defer_suspend = self.defer_suspend + 1;
        proof {
            crate::world::lemma_wf_same_core(pre, *self);
        }
    }

    /// Resumes buffering after a suspension.
    pub fn defer_resume(&mut self)
        requires
            old(self).wf(),
        ensures
            final(self).wf(),
            old(self).defer_suspend > 0 ==> final(self).defer_suspend == old(
                self,
            ).defer_suspend - 1,
            old(self).defer_suspend == 0 ==> final(self).defer_suspend == 0,
            final(self).recs == old(self).recs,
            final(self).tables == old(self).tables,
            final(self).defer_depth == old(self).defer_depth,
            final(self).defer_queue == old(self).defer_queue,
            final(self).drop_log == old(self).drop_log,
    {
        let ghost pre = *self;
        if self.defer_suspend > 0 {
            self.defer_suspend = self.defer_suspend - 1;
        }
        proof {
            crate::world::lemma_wf_same_core(pre, *self);
        }
    }

    /// Leaves a deferred scope.  Leaving the outermost scope flushes the
    /// buffer: every queued operation is applied in submission order with
    /// its immediate meaning.
    pub fn defer_end(&mut self) -> (r: Result<(), EcsError>)
        requires
            old(self).wf(),
        ensures
            final(self).wf(),
            r is Ok,
            old(self).defer_depth == 0 ==> *final(self) == *old(self),
            old(self).defer_depth > 1 ==> {
                &&& final(self).defer_depth == old(self).defer_depth - 1
                &&& final(self).recs == old(self).recs
                &&& final(self).tables == old(self).tables
                &&& final(self).defer_queue == old(self).defer_queue
                &&& final(self).drop_log == old(self).drop_log
            },
            old(self).defer_depth == 1 ==> {
                &&& final(self).defer_depth == 0
                &&& final(self).defer_queue.len() == 0
                &&& exists|start: World|
                    {
                        &&& start.recs == old(self).recs
                        &&& start.tables == old(self).tables
                        &&& start.free == old(self).free
                        &&& start.registry == old(self).registry
                        &&& start.drop_log == old(self).drop_log
                        &&& start.systems == old(self).systems
                        &&& start.defer_depth == 0
                        &&& start.defer_queue.len() == 0
                        &&& #[trigger] spec_ops_applied(start, old(self).defer_queue@, *final(self))
                    }
            },
    {
        if self.defer_depth == 0 {
            return Ok(());
        }
        let ghost pre = *self;
        let d = self.defer_depth;
        self.defer_depth = d - 1;
        proof {
            crate::world::lemma_wf_same_core(pre, *self);
        }
        if d > 1 {
            return Ok(());
        }
        // Drain the buffer, then apply each operation immediately.
        let ghost all = self.defer_queue@;
        let mut ops: Vec<DeferOp> = Vec::new();
        while self.defer_queue.len() > 0
            invariant
                pre.wf(),
                self.wf(),
                ops@ + self.defer_queue@ == all,
                self.recs == pre.recs,
                self.tables == pre.tables,
                self.free == pre.free,
                self.registry == pre.registry,
                self.drop_log == pre.drop_log,
                self.systems == pre.systems,
                self.defer_depth == 0,
                self.defer_suspend == pre.defer_suspend,
            decreases self.defer_queue.len(),
        {
            let ghost q0 = self.defer_queue@;
            let op = self.defer_queue.remove(0);
            ops.push(op);
            proof {
                assert(ops@ + self.defer_queue@ =~= all);
                crate::world::lemma_wf_same_core(pre, *self);
            }
        }
        proof {
            assert(self.defer_queue@ =~= Seq::<DeferOp>::empty());
            assert(ops@ + self.defer_queue@ =~= ops@);
            assert(ops@ =~= all);
        }
        let ghost start = *self;
        let mut k: usize = 0;
        let n = ops.len();
        let mut ops = ops;
        while k < n
            invariant
                self.wf(),
                all.len() == n,
                k <= n,
                n == ops.len() + k,
                ops@ == all.skip(k as int),
                spec_ops_applied(start, all.take(k as int), *self),
                self.defer_depth == 0,
                self.defer_suspend == start.defer_suspend,
                self.defer_queue@.len() == 0,
            decreases n - k,
        {
            let ghost cur = *self;
            proof {
                assert(all.skip(k as int).len() == n - k);
                assert(all.skip(k as int)[0] == all[k as int]);
            }
            let op = ops.remove(0);
            proof {
                assert(op == all[k as int]);
                assert(ops@ =~= all.skip(k as int + 1));
            }
            let applied = self.apply_op(op);
            proof {
                lemma_ops_snoc(start, all.take(k as int), cur, all[k as int], *self);
                assert(all.take(k as int).push(all[k as int]) =~= all.take(k as int + 1));
            }
            k = k + 1;
        }
        proof {
            assert(all.take(n as int) =~= all);
        }
        Ok(())
    }

    /// Applies one buffered operation immediately.
    fn apply_op(&mut self, op: DeferOp) -> (r: bool)
        requires
            old(self).wf(),
            !old(self).spec_deferred(),
        ensures
            final(self).wf(),
            spec_op_applied(*old(self), *final(self), op),
            final(self).defer_depth == old(self).defer_depth,
            final(self).defer_suspend == old(self).defer_suspend,
            final(self).defer_queue == old(self).defer_queue,
    {
        match op {
            DeferOp::AddOp(e, id) => {
                let r = self.add_id(e, id);
                proof {
                    assert(spec_op_applied(*old(self), *self, op));
                }
                true
            },
            DeferOp::RemoveOp(e, id) => {
                let r = self.remove_id(e, id);
                proof {
                    assert(spec_op_applied(*old(self), *self, op));
                }
                true
            },
            DeferOp::SetOp(e, id, data) => {
                let ghost data0 = data@;
                let r = self.set_id(e, id, data);
                proof {
                    assert(spec_op_applied(*old(self), *self, op));
                }
                true
            },
            DeferOp::DeleteOp(e) => {
                let r = self.delete(e);
                proof {
                    assert(spec_op_applied(*old(self), *self, op));
                }
                true
            },
            DeferOp::ClearOp(e) => {
                let r = self.clear(e);
                proof {
                    assert(spec_op_applied(*old(self), *self, op));
                }
                true
            },
        }
    }
}

} // verus!
