//! Systems and the scheduler.
//!
//! A system is an entity carrying a query, a phase, and optional rate or
//! interval throttling.  The scheduler's `progress` call advances every
//! system's tick counter once and returns, in phase order, the systems due
//! to run this frame; the caller drives each returned system's query.

use vstd::prelude::*;

use crate::entity::spec_index_part;
use crate::flecs::{spec_phase_rank, DEPENDS_ON, ON_UPDATE, SYSTEM};
use crate::query::Term;
use crate::world::{EcsError, World};

verus! {

/// A registered system.
pub struct SystemDef {
    /// The entity that names the system.
    pub entity: u64,
    /// The system's compiled query terms.
    pub terms: Vec<Term>,
    /// Query flags (prefab, disabled, empty-table matching).
    pub flags: u8,
    /// The phase the system runs in.
    pub phase: u64,
    /// Runs once every `rate` frames; zero and one mean every frame.
    pub rate: u32,
    /// Runs only after this much time accumulated; zero means every frame.
    pub interval: u64,
    /// Tick counter: progress calls seen since registration.
    pub ticks: u64,
    /// Time accumulated towards the next interval run.
    pub accumulated: u64,
}

/// The tick counter after one frame; saturation restarts the count.
pub open spec fn spec_ticks_after(s: SystemDef) -> u64 {
    if s.ticks < u64::MAX {
        (s.ticks + 1) as u64
    } else {
        1u64
    }
}

/// The time accumulated after one frame of `delta`, saturating.
pub open spec fn spec_acc_gained(s: SystemDef, delta: u64) -> u64 {
    if s.accumulated <= u64::MAX - delta {
        (s.accumulated + delta) as u64
    } else {
        s.accumulated
    }
}

/// Whether a system is due in the coming frame: its rate divides the
/// advanced tick count, and at least its interval has accumulated since
/// its last run.
pub open spec fn spec_due_frame(s: SystemDef, delta: u64) -> bool {
    &&& (s.rate <= 1 || spec_ticks_after(s) as int % (s.rate as int) == 0)
    &&& (s.interval == 0 || spec_acc_gained(s, delta) >= s.interval)
}

/// A system's counters after one frame: the tick advances, time
/// accumulates, and a due interval-throttled system consumes one interval
/// so that it must wait that long again before its next run.
pub open spec fn spec_sys_after(s: SystemDef, delta: u64) -> SystemDef {
    SystemDef {
        entity: s.entity,
        terms: s.terms,
        flags: s.flags,
        phase: s.phase,
        rate: s.rate,
        interval: s.interval,
        ticks: spec_ticks_after(s),
        accumulated: if spec_due_frame(s, delta) && s.interval > 0 {
            (spec_acc_gained(s, delta) - s.interval) as u64
        } else {
            spec_acc_gained(s, delta)
        },
    }
}

/// A system under construction.
pub struct SystemBuilder {
    /// Structured terms, used when no expression is set.
    pub terms: Vec<Term>,
    /// Textual expression, parsed at registration.
    pub expr: Option<String>,
    /// Matching flags.
    pub flags: u8,
    /// Ordering component.
    pub order_by: Option<u64>,
    /// The phase the system runs in; zero selects the default phase.
    pub kind: u64,
    /// Runs once every this many frames.
    pub rate: u32,
    /// Runs only once this much time accumulated.
    pub interval: u64,
}

impl World {
    /// Starts an empty system builder.
    pub fn system(&self) -> (b: SystemBuilder)
        ensures
            b.terms.len() == 0,
            b.expr is None,
            b.kind == 0,
            b.rate == 0,
            b.interval == 0,
    {
        SystemBuilder {
            terms: Vec::new(),
            expr: None,
            flags: 0,
            order_by: None,
            kind: 0,
            rate: 0,
            interval: 0,
        }
    }

    /// Starts a system builder from a textual expression.
    pub fn system_expr(&self, expr: &str) -> (b: SystemBuilder)
        ensures
            b.terms.len() == 0,
            match b.expr {
                Some(s) => s@ == expr@,
                None => false,
            },
            b.kind == 0,
            b.rate == 0,
            b.interval == 0,
    {
        SystemBuilder {
            terms: Vec::new(),
            expr: Some(expr.to_owned()),
            flags: 0,
            order_by: None,
            kind: 0,
            rate: 0,
            interval: 0,
        }
    }

    /// Advances every system's counters by one frame and the given time,
    /// and returns the systems due this frame — each exactly once, ordered
    /// by phase rank with registration order preserved inside a rank.  A
    /// due interval-throttled system consumes one interval's worth of
    /// accumulated time.
    pub fn progress_delta(&mut self, delta: u64) -> (r: Vec<u64>)
        requires
            old(self).wf(),
        ensures
            final(self).wf(),
            final(self).systems.len() == old(self).systems.len(),
            forall|i: int|
                0 <= i < old(self).systems.len() ==> #[trigger] final(self).systems[i]
                    == spec_sys_after(old(self).systems[i], delta),
            final(self).recs == old(self).recs,
            final(self).tables == old(self).tables,
            final(self).free == old(self).free,
            final(self).registry == old(self).registry,
            final(self).drop_log == old(self).drop_log,
            final(self).frame as int == old(self).frame as int + 1 || final(self).frame == old(
                self,
            ).frame,
            r@ == spec_schedule(*old(self), delta),
    {
        let ghost pre = *self;
        // Advance every system's counters once, remembering which systems
        // come due.
        let n = self.systems.len();
        let mut dues: Vec<bool> = Vec::new();
        let mut i: usize = 0;
        while i < n
            invariant
                pre.wf(),
                i <= n,
                n == self.systems.len(),
                n == pre.systems.len(),
                self.recs == pre.recs,
                self.tables == pre.tables,
                self.free == pre.free,
                self.registry == pre.registry,
                self.drop_log == pre.drop_log,
                self.frame == pre.frame,
                self.defer_depth == pre.defer_depth,
                self.defer_suspend == pre.defer_suspend,
                self.defer_queue == pre.defer_queue,
                dues.len() == i,
                forall|j: int|
                    0 <= j < i ==> #[trigger] dues@[j] == spec_due_frame(pre.systems[j], delta),
                forall|j: int|
                    0 <= j < i ==> #[trigger] self.systems[j] == spec_sys_after(
                        pre.systems[j],
                        delta,
                    ),
                forall|j: int| i <= j < n ==> #[trigger] self.systems[j] == pre.systems[j],
            decreases n - i,
        {
            let t = self.systems[i].ticks;
            let new_ticks: u64 = if t < u64::MAX {
                t + 1
            } else {
                1
            };
            self.systems[i].ticks = new_ticks;
            let a = self.systems[i].accumulated;
            let gained: u64 = if a <= u64::MAX - delta {
                a + delta
            } else {
                a
            };
            let rate = self.systems[i].rate;
            let interval = self.systems[i].interval;
            let rate_ok = rate <= 1 || new_ticks % (rate as u64) == 0;
            let due = rate_ok && (interval == 0 || gained >= interval);
            self.systems[i].accumulated = if due && interval > 0 {
                gained - interval
            } else {
                gained
            };
            dues.push(due);
            proof {
                assert(self.systems[i as int] == spec_sys_after(pre.systems[i as int], delta));
            }
            i = i + 1;
        }
        if self.frame < u64::MAX {
            self.frame = self.frame + 1;
        }
        proof {
            crate::world::lemma_wf_same_core(pre, *self);
        }
        // Collect due systems rank by rank, keeping registration order.
        let mut out: Vec<u64> = Vec::new();
        let mut rank: u64 = 0;
        while rank < 8
            invariant
                rank <= 8,
                n == pre.systems.len(),
                dues.len() == n,
                forall|j: int|
                    0 <= j < n ==> #[trigger] dues@[j] == spec_due_frame(pre.systems[j], delta),
                out@ == spec_schedule_upto(pre, rank as int, delta),
                self.systems.len() == n,
                forall|j: int|
                    0 <= j < n ==> #[trigger] self.systems[j] == spec_sys_after(
                        pre.systems[j],
                        delta,
                    ),
            decreases 8 - rank,
        {
            let mut j: usize = 0;
            while j < n
                invariant
                    rank < 8,
                    j <= n,
                    n == pre.systems.len(),
                    dues.len() == n,
                    forall|jj: int|
                        0 <= jj < n ==> #[trigger] dues@[jj] == spec_due_frame(
                            pre.systems[jj],
                            delta,
                        ),
                    self.systems.len() == n,
                    forall|jj: int|
                        0 <= jj < n ==> #[trigger] self.systems[jj] == spec_sys_after(
                            pre.systems[jj],
                            delta,
                        ),
                    out@ == spec_schedule_upto(pre, rank as int, delta) + spec_rank_list(
                        pre.systems@.take(j as int),
                        rank as int,
                        delta,
                    ),
                decreases n - j,
            {
                let due = dues[j];
                let r = crate::flecs::phase_rank(self.systems[j].phase);
                proof {
                    assert(self.systems[j as int].phase == pre.systems[j as int].phase);
                    let f = spec_rank_pred(rank as int, delta);
                    let taken = pre.systems@.take(j as int + 1);
                    assert(taken.drop_last() =~= pre.systems@.take(j as int));
                    assert(taken.last() == pre.systems@[j as int]);
                    reveal_with_fuel(Seq::filter, 2);
                }
                if due && r == rank {
                    let ghost out0 = out@;
                    out.push(self.systems[j].entity);
                    proof {
                        assert(self.systems[j as int].entity == pre.systems[j as int].entity);
                        assert(out@ =~= out0.push(pre.systems@[j as int].entity));
                        assert(spec_rank_list(pre.systems@.take(j as int + 1), rank as int, delta)
                            =~= spec_rank_list(
                            pre.systems@.take(j as int),
                            rank as int,
                            delta,
                        ).push(pre.systems@[j as int].entity));
                        assert(out@ =~= spec_schedule_upto(pre, rank as int, delta)
                            + spec_rank_list(
                            pre.systems@.take(j as int + 1),
                            rank as int,
                            delta,
                        ));
                    }
                } else {
                    proof {
                        assert(spec_rank_list(pre.systems@.take(j as int + 1), rank as int, delta)
                            =~= spec_rank_list(pre.systems@.take(j as int), rank as int, delta));
                    }
                }
                j = j + 1;
            }
            proof {
                assert(pre.systems@.take(n as int) =~= pre.systems@);
            }
            rank = rank + 1;
        }
        out
    }

    /// Advances one frame without elapsed time.
    pub fn progress(&mut self) -> (r: Vec<u64>)
        requires
            old(self).wf(),
        ensures
            final(self).wf(),
            r@ == spec_schedule(*old(self), 0),
            final(self).systems.len() == old(self).systems.len(),
            forall|i: int|
                0 <= i < old(self).systems.len() ==> #[trigger] final(self).systems[i]
                    == spec_sys_after(old(self).systems[i], 0),
            final(self).recs == old(self).recs,
            final(self).tables == old(self).tables,
            final(self).registry == old(self).registry,
            final(self).drop_log == old(self).drop_log,
    {
        self.progress_delta(0)
    }
}

/// Whether systems of this rank come due under the given rank filter.
pub open spec fn spec_rank_pred(rank: int, delta: u64) -> spec_fn(SystemDef) -> bool {
    |s: SystemDef| spec_phase_rank(s.phase) == rank && spec_due_frame(s, delta)
}

/// The due systems of one rank, in registration order.
pub open spec fn spec_rank_list(systems: Seq<SystemDef>, rank: int, delta: u64) -> Seq<u64> {
    systems.filter(spec_rank_pred(rank, delta)).map_values(|s: SystemDef| s.entity)
}

/// The schedule of the ranks below `rank`, concatenated in rank order.
pub open spec fn spec_schedule_upto(w: World, rank: int, delta: u64) -> Seq<u64>
    decreases rank,
{
    if rank <= 0 {
        Seq::empty()
    } else {
        spec_schedule_upto(w, rank - 1, delta) + spec_rank_list(w.systems@, rank - 1, delta)
    }
}

/// The frame's schedule, as a function of the systems before the call: the
/// systems due this frame, every rank in order with registration order
/// inside a rank.
pub open spec fn spec_schedule(w: World, delta: u64) -> Seq<u64> {
    spec_schedule_upto(w, 8, delta)
}

impl SystemBuilder {
    /// Sets a textual expression as the system's query.
    pub fn expression(self, expr: &str) -> (b: SystemBuilder)
        ensures
            match b.expr {
                Some(s) => s@ == expr@,
                None => false,
            },
            b.kind == self.kind,
            b.rate == self.rate,
            b.interval == self.interval,
    {
        SystemBuilder { expr: Some(expr.to_owned()), ..self }
    }

    /// Also matches prefab entities.
    pub fn match_prefabs(self) -> (b: SystemBuilder)
        ensures
            b.flags == self.flags | crate::query::FLAG_MATCH_PREFAB,
    {
        SystemBuilder { flags: self.flags | crate::query::FLAG_MATCH_PREFAB, ..self }
    }

    /// Also matches disabled entities.
    pub fn match_disabled(self) -> (b: SystemBuilder)
        ensures
            b.flags == self.flags | crate::query::FLAG_MATCH_DISABLED,
    {
        SystemBuilder { flags: self.flags | crate::query::FLAG_MATCH_DISABLED, ..self }
    }

    /// Also matches tables without entities.
    pub fn match_empty_tables(self) -> (b: SystemBuilder)
        ensures
            b.flags == self.flags | crate::query::FLAG_MATCH_EMPTY,
    {
        SystemBuilder { flags: self.flags | crate::query::FLAG_MATCH_EMPTY, ..self }
    }

    /// Orders each matched table's rows by a component's leading value.
    pub fn order_by(self, comp: u64) -> (b: SystemBuilder)
        ensures
            b.order_by == Some(comp),
    {
        SystemBuilder { order_by: Some(comp), ..self }
    }

    /// Sets the system's phase.
    pub fn kind(self, phase: u64) -> (b: SystemBuilder)
        ensures
            b.kind == phase,
            b.rate == self.rate,
            b.interval == self.interval,
            b.expr == self.expr,
    {
        SystemBuilder { kind: phase, ..self }
    }

    /// Runs the system once every `rate` frames.
    pub fn rate(self, rate: u32) -> (b: SystemBuilder)
        ensures
            b.rate == rate,
            b.kind == self.kind,
            b.interval == self.interval,
            b.expr == self.expr,
    {
        SystemBuilder { rate, ..self }
    }

    /// Runs the system only after this much time accumulated.
    pub fn interval(self, interval: u64) -> (b: SystemBuilder)
        ensures
            b.interval == interval,
            b.kind == self.kind,
            b.rate == self.rate,
            b.expr == self.expr,
    {
        SystemBuilder { interval, ..self }
    }

    /// Registers the system under a fresh entity.  Registration is refused
    /// exactly when the query expression fails to compile, and then
    /// nothing changes.
    pub fn build(self, w: &mut World) -> (r: Result<u64, EcsError>)
        requires
            old(w).wf(),
            old(w).spec_can_alloc(),
        ensures
            final(w).wf(),
            (r is Err) == crate::builder::spec_build_refused(spec_sys_qb(self), *old(w)),
            match r {
                Ok(e) => spec_system_build_ok(self, *old(w), *final(w), e) && final(w).spec_name(
                    e,
                ) is None && !old(w).spec_alive(e),
                Err(_) => *final(w) == *old(w),
            },
    {
        self.register(w, None)
    }

    /// Registers the system under a fresh named entity — or the existing
    /// root entity of that name.  Registration is refused exactly when the
    /// query expression fails to compile, and then nothing changes.
    pub fn build_named(self, w: &mut World, name: &str) -> (r: Result<u64, EcsError>)
        requires
            old(w).wf(),
            old(w).spec_can_alloc(),
        ensures
            final(w).wf(),
            (r is Err) == crate::builder::spec_build_refused(spec_sys_qb(self), *old(w)),
            match r {
                Ok(e) => spec_system_build_ok(self, *old(w), *final(w), e) && final(w).spec_name(
                    e,
                ) == Some(name@),
                Err(_) => *final(w) == *old(w),
            },
    {
        self.register(w, Some(name))
    }

    /// Shared registration: compiles the query, creates (or finds) the
    /// system's entity, tags it, wires its phase dependency, and records
    /// it.
    fn register(self, w: &mut World, name: Option<&str>) -> (r: Result<u64, EcsError>)
        requires
            old(w).wf(),
            old(w).spec_can_alloc(),
        ensures
            final(w).wf(),
            (r is Err) == crate::builder::spec_build_refused(spec_sys_qb(self), *old(w)),
            match r {
                Ok(e) => {
                    &&& spec_system_build_ok(self, *old(w), *final(w), e)
                    &&& match name {
                        Some(n) => final(w).spec_name(e) == Some(n@),
                        None => final(w).spec_name(e) is None && !old(w).spec_alive(e),
                    }
                },
                Err(_) => *final(w) == *old(w),
            },
    {
        let ghost pre = *old(w);
        // Compile the query first, so a refused expression registers
        // nothing.
        let qb = QueryBuilder {
            terms: self.terms,
            expr: self.expr,
            flags: self.flags,
            order_by: self.order_by,
            cache_kind: 0,
        };
        let ghost qb0 = qb;
        let rate = self.rate;
        let interval = self.interval;
        let kind = self.kind;
        let q = match qb.build(w) {
            Ok(q) => q,
            Err(er) => {
                return Err(er);
            },
        };
        let e = match name {
            Some(n) => {
                let r = w.entity_named(n);
                proof {
                    match pre.spec_find_named_from(n@, 0, 0) {
                        Some(i) => {
                            assert(*w == pre);
                            assert(pre.spec_alive(r));
                        },
                        None => {
                            let mid = choose|mid: World|
                                crate::world::spec_alloc_effect(pre, mid, r)
                                    && #[trigger] crate::api::spec_rename_effect(mid, *w, r);
                            lemma_ready_after_rename(pre, mid, *w, r);
                        },
                    }
                    assert(spec_sys_entity_ready(pre, *w, r));
                }
                r
            },
            None => {
                let r = w.entity();
                proof {
                    lemma_ready_after_alloc(pre, *w, r);
                    assert(spec_sys_entity_ready(pre, *w, r));
                }
                r
            },
        };
        let ghost w1 = *w;
        let phase = if kind == 0 {
            ON_UPDATE
        } else {
            kind
        };
        let dep = crate::entity::make_pair(DEPENDS_ON, phase);
        w.ensure_tag(e, dep);
        let ghost w2 = *w;
        w.ensure_tag(e, SYSTEM);
        let ghost w3 = *w;
        proof {
            assert(w3.spec_has(e, SYSTEM));
            assert(w3.spec_has(e, dep)) by {
                assert(w3.spec_type_set(e).contains(dep));
                assert(w3.spec_type_of(e).contains(dep));
            }
            assert(w3.systems == pre.systems);
            crate::ops::lemma_frame_except_trans(w1, w2, w3, spec_index_part(e));
        }
        let ghost before_push = *w;
        let def = SystemDef {
            entity: e,
            terms: q.terms,
            flags: q.flags,
            phase,
            rate,
            interval,
            ticks: 0,
            accumulated: 0,
        };
        w.systems.push(def);
        proof {
            crate::world::lemma_wf_same_core(before_push, *w);
            assert(w.systems@.drop_last() =~= pre.systems@);
            assert(w.spec_alive(e));
            assert(w.spec_has(e, SYSTEM));
            assert(w.spec_has(e, crate::entity::spec_pair(DEPENDS_ON, phase) as u64));
            assert(match name {
                Some(n) => w.spec_name(e) == Some(n@),
                None => w.spec_name(e) is None && !pre.spec_alive(e),
            }) by {
                assert(w2.spec_name(e) == w1.spec_name(e));
                assert(w3.spec_name(e) == w2.spec_name(e));
            }
            // Everything outside the system's entity and the appended
            // definition is framed through the tagging steps.
            let idx = spec_index_part(e);
            assert(w.recs == w3.recs && w.tables == w3.tables);
            assert(World::spec_frame_except(w1, w3, idx));
            assert forall|p: u64| #[trigger] w.spec_type_set(e).contains(p) == ((pre.spec_alive(e)
                && pre.spec_type_set(e).contains(p)) || p == SYSTEM || p == dep) by {
                assert(w.spec_type_set(e).contains(p) == w3.spec_type_set(e).contains(p));
                assert(w3.spec_type_set(e).contains(p) == (w2.spec_type_set(e).contains(p) || p
                    == SYSTEM));
                assert(w2.spec_type_set(e).contains(p) == (w1.spec_type_set(e).contains(p) || p
                    == dep));
                assert(w1.spec_type_set(e).contains(p) == (pre.spec_alive(e)
                    && pre.spec_type_set(e).contains(p)));
            }
            assert forall|x: u64| pre.spec_alive(x) implies #[trigger] w.spec_alive(x) by {
                assert(w1.spec_alive(x));
                assert(w3.spec_alive(x) == w1.spec_alive(x));
            }
            assert forall|x: u64|
                #[trigger] w.spec_alive(x) && spec_index_part(x) != idx implies pre.spec_alive(
                x,
            ) by {
                assert(w3.spec_alive(x) == w1.spec_alive(x));
            }
            assert forall|x: u64|
                pre.spec_alive(x) && spec_index_part(x) != idx implies {
                &&& #[trigger] w.spec_name(x) == pre.spec_name(x)
                &&& w.spec_enabled(x) == pre.spec_enabled(x)
                &&& w.spec_type_of(x) == pre.spec_type_of(x)
            } by {
                assert(w1.spec_alive(x));
                assert(w1.spec_name(x) == pre.spec_name(x) && w1.spec_enabled(x)
                    == pre.spec_enabled(x) && w1.spec_type_of(x) == pre.spec_type_of(x));
                assert(w3.recs[spec_index_part(x)].name == w1.recs[spec_index_part(x)].name);
                assert(w3.recs[spec_index_part(x)].enabled == w1.recs[spec_index_part(
                    x,
                )].enabled);
                assert(w3.spec_type_of(x) == w1.spec_type_of(x));
            }
            assert forall|x: u64, c: u64|
                pre.spec_alive(x) && spec_index_part(x) != idx implies #[trigger] w.spec_value(
                x,
                c,
            ) == pre.spec_value(x, c) by {
                assert(w1.spec_alive(x));
                assert(w1.spec_value(x, c) == pre.spec_value(x, c));
                assert(w3.spec_value(x, c) == w1.spec_value(x, c));
            }
            assert(w.registry == pre.registry && w.drop_log == pre.drop_log);
            assert(w.frame == pre.frame && w.defer_depth == pre.defer_depth && w.defer_suspend
                == pre.defer_suspend && w.defer_queue == pre.defer_queue);
        }
        Ok(e)
    }

}

impl World {
    /// Adds a tag to an alive entity unless it already carries it.
    fn ensure_tag(&mut self, e: u64, id: u64)
        requires
            old(self).wf(),
            old(self).spec_alive(e),
        ensures
            Self::spec_frame_except(*old(self), *final(self), spec_index_part(e)),
            final(self).spec_alive(e),
            final(self).spec_type_set(e).contains(id),
            forall|p: u64|
                #[trigger] final(self).spec_type_set(e).contains(p) == (old(self).spec_type_set(
                    e,
                ).contains(p) || p == id),
            forall|c: u64|
                c != id ==> #[trigger] final(self).spec_value(e, c) == old(self).spec_value(e, c),
            final(self).drop_log == old(self).drop_log,
    {
        let idx = crate::entity::index_part(e) as usize;
        let t = self.recs[idx].table;
        proof {
            assert(t as int == self.spec_table_of(e));
        }
        if !crate::table::vec_contains(&self.tables[t].ids, id) {
            self.add_plain(e, id);
        } else {
            proof {
                assert(self.spec_type_set(e).contains(id));
            }
        }
    }
}

/// The world after creating — or finding, by name at the root scope — the
/// entity a system registers under: the entity is alive with its old
/// id-set (empty when fresh), and everything else is framed.
spec fn spec_sys_entity_ready(pre: World, post: World, e: u64) -> bool {
    &&& post.wf()
    &&& crate::world::spec_same_support(pre, post)
    &&& post.drop_log == pre.drop_log
    &&& post.spec_alive(e)
    &&& pre.spec_alive(e) ==> post == pre
    &&& !pre.spec_alive(e) ==> e == pre.spec_next_id()
    &&& post.recs.len() <= pre.recs.len() + 1
    &&& forall|p: u64|
        #[trigger] post.spec_type_set(e).contains(p) == (pre.spec_alive(e)
            && pre.spec_type_set(e).contains(p))
    &&& forall|x: u64| pre.spec_alive(x) ==> #[trigger] post.spec_alive(x)
    &&& forall|x: u64|
        #[trigger] post.spec_alive(x) && spec_index_part(x) != spec_index_part(e)
            ==> pre.spec_alive(x)
    &&& forall|x: u64|
        pre.spec_alive(x) && spec_index_part(x) != spec_index_part(e) ==> {
            &&& #[trigger] post.spec_name(x) == pre.spec_name(x)
            &&& post.spec_enabled(x) == pre.spec_enabled(x)
            &&& post.spec_type_of(x) == pre.spec_type_of(x)
        }
    &&& forall|x: u64, c: u64|
        pre.spec_alive(x) && spec_index_part(x) != spec_index_part(e)
            ==> #[trigger] post.spec_value(x, c) == pre.spec_value(x, c)
}

/// A fresh allocation leaves the world ready for registering a system
/// under the new entity.
proof fn lemma_ready_after_alloc(pre: World, post: World, e: u64)
    requires
        pre.wf(),
        crate::world::spec_alloc_effect(pre, post, e),
    ensures
        spec_sys_entity_ready(pre, post, e),
{
    assert forall|p: u64| !(#[trigger] post.spec_type_set(e).contains(p)) by {
        if post.spec_type_set(e).contains(p) {
            assert(post.spec_type_of(e).contains(p));
        }
    }
    assert(post.wf());
    assert(crate::world::spec_same_support(pre, post));
    assert(post.drop_log == pre.drop_log);
    assert(post.spec_alive(e));
    assert(!pre.spec_alive(e));
    assert(e == pre.spec_next_id());
    assert forall|x: u64| pre.spec_alive(x) implies #[trigger] post.spec_alive(x) by {}
    assert forall|x: u64|
        #[trigger] post.spec_alive(x) && spec_index_part(x) != spec_index_part(e) implies pre.spec_alive(
        x,
    ) by {}
    assert forall|x: u64|
        pre.spec_alive(x) && spec_index_part(x) != spec_index_part(e) implies {
        &&& #[trigger] post.spec_name(x) == pre.spec_name(x)
        &&& post.spec_enabled(x) == pre.spec_enabled(x)
        &&& post.spec_type_of(x) == pre.spec_type_of(x)
    } by {
        assert(post.spec_type_of(x) == pre.spec_type_of(x));
    }
    assert forall|x: u64, c: u64|
        pre.spec_alive(x) && spec_index_part(x) != spec_index_part(e) implies #[trigger] post.spec_value(
        x,
        c,
    ) == pre.spec_value(x, c) by {
        assert(post.spec_value(x, c) == pre.spec_value(x, c));
    }
}

/// Allocating and then renaming the fresh entity leaves the world ready
/// for registering a system under it.
proof fn lemma_ready_after_rename(pre: World, mid: World, post: World, e: u64)
    requires
        pre.wf(),
        crate::world::spec_alloc_effect(pre, mid, e),
        crate::api::spec_rename_effect(mid, post, e),
    ensures
        spec_sys_entity_ready(pre, post, e),
{
    let idx = spec_index_part(e);
    assert forall|x: u64| #[trigger] post.spec_alive(x) == mid.spec_alive(x) by {
        let ix = spec_index_part(x);
        if 0 < ix < mid.recs.len() && ix != idx {
            assert(post.recs[ix] == mid.recs[ix]);
        }
    }
    assert forall|x: u64|
        mid.spec_alive(x) implies #[trigger] post.spec_type_of(x) == mid.spec_type_of(x)
            && post.spec_enabled(x) == mid.spec_enabled(x) by {
        if spec_index_part(x) != idx {
            assert(post.recs[spec_index_part(x)] == mid.recs[spec_index_part(x)]);
        }
    }
    assert forall|x: u64, c: u64|
        mid.spec_alive(x) implies #[trigger] post.spec_value(x, c) == mid.spec_value(x, c) by {
        if spec_index_part(x) != idx {
            assert(post.recs[spec_index_part(x)] == mid.recs[spec_index_part(x)]);
        }
    }
    assert forall|x: u64|
        mid.spec_alive(x) && spec_index_part(x) != idx implies #[trigger] post.spec_name(x)
            == mid.spec_name(x) by {
        assert(post.recs[spec_index_part(x)] == mid.recs[spec_index_part(x)]);
    }
    assert(post.spec_alive(e));
    assert forall|p: u64| !(#[trigger] post.spec_type_set(e).contains(p)) by {
        if post.spec_type_set(e).contains(p) {
            assert(post.spec_type_of(e).contains(p));
            assert(post.spec_type_of(e) == mid.spec_type_of(e));
        }
    }
    assert(post.wf());
    assert(crate::world::spec_same_support(pre, post));
    assert(post.drop_log == pre.drop_log);
    assert(!pre.spec_alive(e));
    assert(e == pre.spec_next_id());
    assert forall|x: u64| pre.spec_alive(x) implies #[trigger] post.spec_alive(x) by {
        assert(mid.spec_alive(x));
    }
    assert forall|x: u64|
        #[trigger] post.spec_alive(x) && spec_index_part(x) != idx implies pre.spec_alive(x) by {
        assert(mid.spec_alive(x));
    }
    assert forall|x: u64|
        pre.spec_alive(x) && spec_index_part(x) != idx implies {
        &&& #[trigger] post.spec_name(x) == pre.spec_name(x)
        &&& post.spec_enabled(x) == pre.spec_enabled(x)
        &&& post.spec_type_of(x) == pre.spec_type_of(x)
    } by {
        assert(mid.spec_alive(x));
        assert(mid.spec_type_of(x) == pre.spec_type_of(x));
        assert(mid.spec_name(x) == pre.spec_name(x));
        assert(mid.spec_enabled(x) == pre.spec_enabled(x));
        assert(post.spec_name(x) == mid.spec_name(x));
    }
    assert forall|x: u64, c: u64|
        pre.spec_alive(x) && spec_index_part(x) != idx implies #[trigger] post.spec_value(x, c)
            == pre.spec_value(x, c) by {
        assert(mid.spec_alive(x));
        assert(mid.spec_value(x, c) == pre.spec_value(x, c));
        assert(post.spec_value(x, c) == mid.spec_value(x, c));
    }
}

/// The query builder a system builder compiles through.
pub open spec fn spec_sys_qb(b: SystemBuilder) -> QueryBuilder {
    QueryBuilder {
        terms: b.terms,
        expr: b.expr,
        flags: b.flags,
        order_by: b.order_by,
        cache_kind: 0,
    }
}

/// What a successful system registration owes: the definition is appended
/// with the builder's throttling, the phase (defaulting to the update
/// phase), and the compiled terms of its expression; the system's entity
/// is alive, carries exactly its old ids plus the system tag and its phase
/// dependency — so a fresh one is root-scoped — and every other entity
/// keeps its liveness, name, enable flag, id-set and values.
pub open spec fn spec_system_build_ok(b: SystemBuilder, pre: World, post: World, e: u64) -> bool {
    let phase = if b.kind == 0 {
        ON_UPDATE
    } else {
        b.kind
    };
    let dep = crate::entity::spec_pair(DEPENDS_ON, phase) as u64;
    &&& post.systems.len() == pre.systems.len() + 1
    &&& post.systems@.drop_last() == pre.systems@
    &&& post.systems@.last().entity == e
    &&& post.systems@.last().rate == b.rate
    &&& post.systems@.last().interval == b.interval
    &&& post.systems@.last().ticks == 0
    &&& post.systems@.last().accumulated == 0
    &&& post.systems@.last().flags == b.flags
    &&& post.systems@.last().phase == phase
    &&& match b.expr {
        Some(s) => match crate::expr::spec_parse_expr(s@, 0, s@.len() as nat) {
            Some(parts) => crate::builder::spec_terms_resolved(
                pre,
                parts,
                post.systems@.last().terms@,
            ),
            None => false,
        },
        None => post.systems@.last().terms == b.terms,
    }
    &&& post.spec_alive(e)
    &&& post.spec_has(e, crate::flecs::SYSTEM)
    &&& post.spec_has(e, dep)
    &&& forall|p: u64|
        #[trigger] post.spec_type_set(e).contains(p) == ((pre.spec_alive(e)
            && pre.spec_type_set(e).contains(p)) || p == crate::flecs::SYSTEM || p == dep)
    &&& !pre.spec_alive(e) ==> e == pre.spec_next_id()
    &&& post.recs.len() <= pre.recs.len() + 1
    &&& post.registry == pre.registry
    &&& post.drop_log == pre.drop_log
    &&& post.frame == pre.frame
    &&& post.defer_depth == pre.defer_depth
    &&& post.defer_suspend == pre.defer_suspend
    &&& post.defer_queue == pre.defer_queue
    &&& forall|x: u64| pre.spec_alive(x) ==> #[trigger] post.spec_alive(x)
    &&& forall|x: u64|
        #[trigger] post.spec_alive(x) && spec_index_part(x) != spec_index_part(e)
            ==> pre.spec_alive(x)
    &&& forall|x: u64|
        pre.spec_alive(x) && spec_index_part(x) != spec_index_part(e) ==> {
            &&& #[trigger] post.spec_name(x) == pre.spec_name(x)
            &&& post.spec_enabled(x) == pre.spec_enabled(x)
            &&& post.spec_type_of(x) == pre.spec_type_of(x)
        }
    &&& forall|x: u64, c: u64|
        pre.spec_alive(x) && spec_index_part(x) != spec_index_part(e)
            ==> #[trigger] post.spec_value(x, c) == pre.spec_value(x, c)
}

use crate::builder::QueryBuilder;

} // verus!
