//! Relationship traits and traversal.
//!
//! Traits are tags on a relationship's own entity: exclusivity, symmetry,
//! acyclicity, and the deletion policy carried by an `ON_DELETE_TARGET`
//! pair.  The hierarchy relationship is exclusive and acyclic with a delete
//! policy out of the box.  Traversal follows pair edges upward and backs the
//! cycle check that guards acyclic relationships.

use vstd::prelude::*;

use crate::entity::{
    spec_is_pair, spec_pair_first, spec_pair_second,
};
use crate::flecs::{
    ACYCLIC, CHILD_OF, DEPENDS_ON, EXCLUSIVE, ON_DELETE_TARGET, POLICY_DELETE, POLICY_REMOVE,
};
use crate::world::World;

verus! {

/// First pair at or after `k` in an id list whose relationship half is
/// `rel`; yields the pair's target half.
pub open spec fn spec_find_pair_target_from(s: Seq<u64>, rel: int, k: int) -> Option<int>
    decreases s.len() - k,
{
    if k < 0 || k >= s.len() {
        None
    } else if spec_is_pair(s[k]) && spec_pair_first(s[k]) == rel {
        Some(spec_pair_second(s[k]))
    } else {
        spec_find_pair_target_from(s, rel, k + 1)
    }
}

impl World {
    /// Whether the relationship occupying index `rel` carries trait `tr`.
    /// The built-in hierarchy and ordering relationships are exclusive and
    /// acyclic without registration.
    pub open spec fn spec_has_trait(self, rel: int, tr: u64) -> bool {
        ||| (rel == CHILD_OF as int && (tr == EXCLUSIVE || tr == ACYCLIC))
        ||| (rel == DEPENDS_ON as int && tr == ACYCLIC)
        ||| match self.spec_entity_at(rel) {
            Some(re) => self.spec_type_of(re).contains(tr),
            None => false,
        }
    }

    /// The deletion policy of the relationship occupying index `rel`: the
    /// target of its `ON_DELETE_TARGET` pair, with removal the default and
    /// cascading deletion built in for the hierarchy relationship.
    pub open spec fn spec_policy(self, rel: int) -> int {
        match self.spec_entity_at(rel) {
            Some(re) => match spec_find_pair_target_from(
                self.spec_type_of(re),
                ON_DELETE_TARGET as int,
                0,
            ) {
                Some(p) => p,
                None => if rel == CHILD_OF as int {
                    POLICY_DELETE as int
                } else {
                    POLICY_REMOVE as int
                },
            },
            None => if rel == CHILD_OF as int {
                POLICY_DELETE as int
            } else {
                POLICY_REMOVE as int
            },
        }
    }

    /// Whether `needle` is reachable from `cur` by following the targets of
    /// `rel` pairs upward, in at most `fuel` steps.
    pub open spec fn spec_reaches(self, rel: int, cur: u64, needle: int, fuel: nat) -> bool
        decreases fuel,
    {
        if fuel == 0 || !self.spec_alive(cur) {
            false
        } else {
            exists|j: int|
                {
                    &&& 0 <= j < self.spec_type_of(cur).len()
                    &&& spec_is_pair(#[trigger] self.spec_type_of(cur)[j])
                    &&& spec_pair_first(self.spec_type_of(cur)[j]) == rel
                    &&& {
                        let tgt = spec_pair_second(self.spec_type_of(cur)[j]);
                        ||| tgt == needle
                        ||| match self.spec_entity_at(tgt) {
                            Some(t) => self.spec_reaches(rel, t, needle, (fuel - 1) as nat),
                            None => false,
                        }
                    }
                }
        }
    }

    /// The alive entity occupying index `idx`, if any.
    pub fn entity_at(&self, idx: u64) -> (r: Option<u64>)
        requires
            self.wf(),
        ensures
            r == self.spec_entity_at(idx as int),
    {
        if idx == 0 || idx >= self.recs.len() as u64 {
            return None;
        }
        let rec = &self.recs[idx as usize];
        if rec.alive {
            Some(crate::entity::entity_id(rec.gen, idx))
        } else {
            None
        }
    }

    /// Whether the relationship occupying index `rel` carries trait `tr`.
    pub fn has_trait_rel(&self, rel: u64, tr: u64) -> (r: bool)
        requires
            self.wf(),
        ensures
            r == self.spec_has_trait(rel as int, tr),
    {
        if rel == CHILD_OF && (tr == EXCLUSIVE || tr == ACYCLIC) {
            return true;
        }
        if rel == DEPENDS_ON && tr == ACYCLIC {
            return true;
        }
        match self.entity_at(rel) {
            Some(re) => {
                let t = self.recs[rel as usize].table;
                crate::table::vec_contains(&self.tables[t].ids, tr)
            },
            None => false,
        }
    }

    /// The deletion policy of the relationship occupying index `rel`.
    pub fn policy_of_rel(&self, rel: u64) -> (r: u64)
        requires
            self.wf(),
        ensures
            r as int == self.spec_policy(rel as int),
    {
        let fallback: u64 = if rel == CHILD_OF {
            POLICY_DELETE
        } else {
            POLICY_REMOVE
        };
        match self.entity_at(rel) {
            Some(re) => {
                let t = self.recs[rel as usize].table;
                proof {
                    crate::entity::lemma_parts_of_entity_id(
                        self.recs[rel as int].gen as int,
                        rel as int,
                    );
                    assert(t as int == self.spec_table_of(re));
                }
                match self.find_pair_target(t, ON_DELETE_TARGET) {
                    Some(tgt) => tgt,
                    None => fallback,
                }
            },
            None => fallback,
        }
    }

    /// Whether `needle` is reachable from `cur` along `rel` pairs in at most
    /// `fuel` steps.
    pub fn reaches(&self, rel: u64, cur: u64, needle: u64, fuel: u64) -> (b: bool)
        requires
            self.wf(),
            rel < crate::entity::REL_LIMIT,
        ensures
            b == self.spec_reaches(rel as int, cur, needle as int, fuel as nat),
        decreases fuel,
    {
        if fuel == 0 {
            return false;
        }
        if !self.is_alive(cur) {
            return false;
        }
        let t = self.recs[crate::entity::index_part(cur) as usize].table;
        let n = self.tables[t].ids.len();
        let mut j: usize = 0;
        while j < n
            invariant
                self.wf(),
                rel < crate::entity::REL_LIMIT,
                fuel >= 1,
                self.spec_alive(cur),
                t as int == self.spec_table_of(cur),
                j <= n,
                n == self.spec_type_of(cur).len(),
                forall|jj: int|
                    0 <= jj < j ==> !{
                        &&& spec_is_pair(#[trigger] self.spec_type_of(cur)[jj])
                        &&& spec_pair_first(self.spec_type_of(cur)[jj]) == rel as int
                        &&& {
                            let tgt = spec_pair_second(self.spec_type_of(cur)[jj]);
                            ||| tgt == needle as int
                            ||| match self.spec_entity_at(tgt) {
                                Some(tt) => self.spec_reaches(
                                    rel as int,
                                    tt,
                                    needle as int,
                                    (fuel - 1) as nat,
                                ),
                                None => false,
                            }
                        }
                    },
            decreases n - j,
        {
            let p = self.tables[t].ids[j];
            if crate::entity::is_pair(p) {
                let first = crate::entity::pair_first(p);
                if first == rel {
                    let tgt = crate::entity::pair_second(p);
                    if tgt == needle {
                        return true;
                    }
                    match self.entity_at(tgt) {
                        Some(te) => {
                            if self.reaches(rel, te, needle, fuel - 1) {
                                return true;
                            }
                        },
                        None => {},
                    }
                }
            }
            j = j + 1;
        }
        false
    }

    /// The entities reachable from `e` by following `rel` targets upward:
    /// the chain of first targets, nearest first.  A finite sequence; cut
    /// off after as many steps as there are entity slots, which an acyclic
    /// relationship never exhausts.
    pub fn traverse_up(&self, e: u64, rel: u64) -> (r: Vec<u64>)
        requires
            self.wf(),
        ensures
            r@ == self.spec_chain_up(e, rel as int, self.recs.len() as nat),
    {
        let ghost total = self.spec_chain_up(e, rel as int, self.recs.len() as nat);
        let mut out: Vec<u64> = Vec::new();
        let mut cur = e;
        let mut fuel: usize = self.recs.len();
        while fuel > 0
            invariant
                self.wf(),
                total == self.spec_chain_up(e, rel as int, self.recs.len() as nat),
                out@ + self.spec_chain_up(cur, rel as int, fuel as nat) == total,
            decreases fuel,
        {
            let ghost tail = self.spec_chain_up(cur, rel as int, fuel as nat);
            if !self.is_alive(cur) {
                proof {
                    assert(out@ + tail =~= out@);
                }
                return out;
            }
            let t = self.recs[crate::entity::index_part(cur) as usize].table;
            proof {
                assert(t as int == self.spec_table_of(cur));
            }
            match self.find_pair_target(t, rel) {
                Some(tgt) => {
                    match self.entity_at(tgt) {
                        Some(te) => {
                            let ghost out0 = out@;
                            out.push(te);
                            proof {
                                assert(tail == seq![te] + self.spec_chain_up(
                                    te,
                                    rel as int,
                                    (fuel - 1) as nat,
                                ));
                                assert(out@ + self.spec_chain_up(te, rel as int, (fuel - 1) as nat)
                                    =~= out0 + tail);
                            }
                            cur = te;
                        },
                        None => {
                            proof {
                                assert(out@ + tail =~= out@);
                            }
                            return out;
                        },
                    }
                },
                None => {
                    proof {
                        assert(out@ + tail =~= out@);
                    }
                    return out;
                },
            }
            fuel = fuel - 1;
        }
        proof {
            assert(out@ + Seq::<u64>::empty() =~= out@);
        }
        out
    }

    /// The chain of entities reached from `e` by following the first `rel`
    /// target repeatedly, nearest first, cut off after `fuel` steps.
    pub open spec fn spec_chain_up(self, e: u64, rel: int, fuel: nat) -> Seq<u64>
        decreases fuel,
    {
        if fuel == 0 || !self.spec_alive(e) {
            Seq::empty()
        } else {
            match spec_find_pair_target_from(self.spec_type_of(e), rel, 0) {
                Some(tgt) => match self.spec_entity_at(tgt) {
                    Some(te) => seq![te] + self.spec_chain_up(te, rel, (fuel - 1) as nat),
                    None => Seq::empty(),
                },
                None => Seq::empty(),
            }
        }
    }

    /// Finds the target of the first `rel` pair in table `t`'s type.
    pub fn find_pair_target(&self, t: usize, rel: u64) -> (r: Option<u64>)
        requires
            self.wf(),
            t < self.tables.len(),
        ensures
            match r {
                Some(tgt) => spec_find_pair_target_from(self.tables[t as int].ids@, rel as int, 0)
                    == Some(tgt as int),
                None => spec_find_pair_target_from(self.tables[t as int].ids@, rel as int, 0)
                    is None,
            },
    {
        let ids = &self.tables[t].ids;
        let n = ids.len();
        let mut i: usize = 0;
        while i < n
            invariant
                t < self.tables.len(),
                ids == &self.tables[t as int].ids,
                i <= n,
                n == ids.len(),
                spec_find_pair_target_from(ids@, rel as int, 0) == spec_find_pair_target_from(
                    ids@,
                    rel as int,
                    i as int,
                ),
            decreases n - i,
        {
            let p = ids[i];
            if crate::entity::is_pair(p) {
                let first = crate::entity::pair_first(p);
                if first == rel {
                    return Some(crate::entity::pair_second(p));
                }
            }
            i = i + 1;
        }
        None
    }
}

} // verus!
