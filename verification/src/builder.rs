//! Query building and name resolution.
//!
//! A builder collects terms — structured, or parsed from a textual
//! expression — together with matching flags and an ordering component,
//! and compiles them against a world into an immutable query.  Identifiers
//! resolve to root-scope entities by name; `*` resolves to the wildcard; a
//! `($)` source binds the term to its component's own entity.

use vstd::prelude::*;

use crate::expr::{spec_parse_expr, RawTerm};
use crate::flecs::WILDCARD;
use crate::query::{
    Query, Term, TermSrc, FLAG_MATCH_DISABLED, FLAG_MATCH_EMPTY, FLAG_MATCH_PREFAB,
};
use crate::world::{EcsError, World};

verus! {

/// A query under construction.
pub struct QueryBuilder {
    /// Structured terms, used when no expression is set.
    pub terms: Vec<Term>,
    /// Textual expression, parsed at build time.
    pub expr: Option<String>,
    /// Matching flags.
    pub flags: u8,
    /// Ordering component.
    pub order_by: Option<u64>,
    /// Requested cache kind; matching is always computed against the live
    /// table list, so this is descriptive only.
    pub cache_kind: u8,
}

impl World {
    /// What one identifier resolves to: the wildcard for `*`, otherwise the
    /// lowest-indexed alive root-scope entity of that name.
    pub open spec fn spec_resolve_name(self, n: Seq<char>) -> Option<u64> {
        if n =~= seq!['*'] {
            Some(WILDCARD)
        } else {
            match self.spec_find_named_from(n, 0, 0) {
                Some(i) => Some(crate::api::spec_entity_of_rec(self, i)),
                None => None,
            }
        }
    }

    /// Resolves one identifier.
    pub fn resolve_name(&self, n: &Vec<char>) -> (r: Option<u64>)
        requires
            self.wf(),
        ensures
            r == self.spec_resolve_name(n@),
    {
        if n.len() == 1 && n[0] == '*' {
            proof {
                assert(n@ =~= seq!['*']);
            }
            return Some(WILDCARD);
        }
        proof {
            assert(!(n@ =~= seq!['*'])) by {
                if n@ =~= seq!['*'] {
                    assert(n@.len() == 1 && n@[0] == '*');
                }
            }
        }
        self.find_named(n, 0)
    }

    /// Compiles raw terms by resolving every identifier.
    pub fn resolve_terms(&self, raw: &Vec<RawTerm>) -> (r: Result<Vec<Term>, EcsError>)
        requires
            self.wf(),
        ensures
            match r {
                Ok(ts) => {
                    &&& ts.len() == raw.len()
                    &&& forall|i: int|
                        0 <= i < raw.len() ==> {
                            &&& (#[trigger] ts@[i]).ids.len() == raw@[i].names.len()
                            &&& forall|k: int|
                                0 <= k < raw@[i].names.len() ==> Some(
                                    #[trigger] ts@[i].ids@[k],
                                ) == self.spec_resolve_name(raw@[i].names@[k]@)
                            &&& ts@[i].access == raw@[i].access
                            &&& ts@[i].oper == raw@[i].oper
                            &&& ts@[i].src == (if raw@[i].singleton && raw@[i].names.len() > 0 {
                                TermSrc::SrcFixed(ts@[i].ids@[0])
                            } else {
                                TermSrc::SrcThis
                            })
                        }
                },
                Err(EcsError::UnknownName) => exists|i: int, k: int|
                    0 <= i < raw.len() && 0 <= k < raw@[i].names.len()
                        && self.spec_resolve_name(#[trigger] raw@[i].names@[k]@) is None,
                Err(_) => false,
            },
    {
        let mut out: Vec<Term> = Vec::new();
        let n = raw.len();
        let mut i: usize = 0;
        while i < n
            invariant
                self.wf(),
                i <= n,
                n == raw.len(),
                out.len() == i,
                forall|i2: int|
                    0 <= i2 < i ==> {
                        &&& (#[trigger] out@[i2]).ids.len() == raw@[i2].names.len()
                        &&& forall|k: int|
                            0 <= k < raw@[i2].names.len() ==> Some(
                                #[trigger] out@[i2].ids@[k],
                            ) == self.spec_resolve_name(raw@[i2].names@[k]@)
                        &&& out@[i2].access == raw@[i2].access
                        &&& out@[i2].oper == raw@[i2].oper
                        &&& out@[i2].src == (if raw@[i2].singleton && raw@[i2].names.len() > 0 {
                            TermSrc::SrcFixed(out@[i2].ids@[0])
                        } else {
                            TermSrc::SrcThis
                        })
                    },
            decreases n - i,
        {
            let rt = &raw[i];
            let mut ids: Vec<u64> = Vec::new();
            let m = rt.names.len();
            let mut k: usize = 0;
            while k < m
                invariant
                    self.wf(),
                    k <= m,
                    m == rt.names.len(),
                    rt == &raw@[i as int],
                    i < raw.len(),
                    ids.len() == k,
                    forall|k2: int|
                        0 <= k2 < k ==> Some(#[trigger] ids@[k2]) == self.spec_resolve_name(
                            rt.names@[k2]@,
                        ),
                decreases m - k,
            {
                match self.resolve_name(&rt.names[k]) {
                    Some(id) => {
                        ids.push(id);
                    },
                    None => {
                        return Err(EcsError::UnknownName);
                    },
                }
                k = k + 1;
            }
            let src = if rt.singleton && ids.len() > 0 {
                TermSrc::SrcFixed(ids[0])
            } else {
                TermSrc::SrcThis
            };
            out.push(Term { ids, src, access: rt.access, oper: rt.oper });
            i = i + 1;
        }
        Ok(out)
    }

    /// Starts an empty query builder.
    pub fn query(&self) -> (b: QueryBuilder)
        ensures
            b.terms.len() == 0,
            b.expr is None,
            b.flags == 0,
            b.order_by is None,
    {
        QueryBuilder { terms: Vec::new(), expr: None, flags: 0, order_by: None, cache_kind: 0 }
    }

    /// Starts a query builder from a textual expression.
    pub fn query_expr(&self, expr: &str) -> (b: QueryBuilder)
        ensures
            b.terms.len() == 0,
            match b.expr {
                Some(s) => s@ == expr@,
                None => false,
            },
            b.flags == 0,
            b.order_by is None,
    {
        QueryBuilder {
            terms: Vec::new(),
            expr: Some(expr.to_owned()),
            flags: 0,
            order_by: None,
            cache_kind: 0,
        }
    }
}

impl QueryBuilder {
    /// Sets a textual expression as the query's source.
    pub fn expression(self, expr: &str) -> (b: QueryBuilder)
        ensures
            match b.expr {
                Some(s) => s@ == expr@,
                None => false,
            },
            b.terms == self.terms,
            b.flags == self.flags,
            b.order_by == self.order_by,
    {
        QueryBuilder { expr: Some(expr.to_owned()), ..self }
    }

    /// Appends one structured term.
    pub fn term(self, t: Term) -> (b: QueryBuilder)
        ensures
            b.terms@ == self.terms@.push(t),
            b.expr == self.expr,
            b.flags == self.flags,
            b.order_by == self.order_by,
    {
        let mut this = self;
        this.terms.push(t);
        this
    }

    /// Selects the cache kind; descriptive only.
    pub fn set_cache(self, kind: u8) -> (b: QueryBuilder)
        ensures
            b.terms == self.terms,
            b.expr == self.expr,
            b.flags == self.flags,
            b.order_by == self.order_by,
            b.cache_kind == kind,
    {
        QueryBuilder { cache_kind: kind, ..self }
    }

    /// Also matches prefab entities.
    pub fn match_prefabs(self) -> (b: QueryBuilder)
        ensures
            b.flags == self.flags | FLAG_MATCH_PREFAB,
            b.terms == self.terms,
            b.expr == self.expr,
            b.order_by == self.order_by,
    {
        QueryBuilder { flags: self.flags | FLAG_MATCH_PREFAB, ..self }
    }

    /// Also matches disabled entities.
    pub fn match_disabled(self) -> (b: QueryBuilder)
        ensures
            b.flags == self.flags | FLAG_MATCH_DISABLED,
            b.terms == self.terms,
            b.expr == self.expr,
            b.order_by == self.order_by,
    {
        QueryBuilder { flags: self.flags | FLAG_MATCH_DISABLED, ..self }
    }

    /// Also matches tables without entities.
    pub fn match_empty_tables(self) -> (b: QueryBuilder)
        ensures
            b.flags == self.flags | FLAG_MATCH_EMPTY,
            b.terms == self.terms,
            b.expr == self.expr,
            b.order_by == self.order_by,
    {
        QueryBuilder { flags: self.flags | FLAG_MATCH_EMPTY, ..self }
    }

    /// Orders each matched table's rows by a component's leading value.
    pub fn order_by(self, comp: u64) -> (b: QueryBuilder)
        ensures
            b.order_by == Some(comp),
            b.terms == self.terms,
            b.expr == self.expr,
            b.flags == self.flags,
    {
        QueryBuilder { order_by: Some(comp), ..self }
    }

    /// Compiles the query against a world.  A set expression must parse
    /// and every identifier in it must resolve — the compiled terms are
    /// exactly the resolved parse; without an expression the structured
    /// terms are taken as they are and compilation cannot fail.
    pub fn build(self, w: &World) -> (r: Result<Query, EcsError>)
        requires
            w.wf(),
        ensures
            (r is Err) == spec_build_refused(self, *w),
            match r {
                Ok(q) => spec_build_terms_ok(self, *w, q) && q.entity is None,
                Err(EcsError::ParseFailure) => match self.expr {
                    Some(s) => spec_parse_expr(s@, 0, s@.len() as nat) is None,
                    None => false,
                },
                Err(EcsError::UnknownName) => match self.expr {
                    Some(s) => match spec_parse_expr(s@, 0, s@.len() as nat) {
                        Some(parts) => spec_some_unresolvable(*w, parts),
                        None => false,
                    },
                    None => false,
                },
                Err(_) => false,
            },
    {
        let terms = match &self.expr {
            Some(s) => {
                let chars = crate::api::str_chars(s.as_str());
                match crate::expr::parse_expr(&chars) {
                    Some(raw) => {
                        let ghost parts = raw@.map_values(|t: RawTerm| t.parts());
                        match w.resolve_terms(&raw) {
                            Ok(ts) => {
                                proof {
                                    lemma_resolution_carries(*w, raw@, parts, ts@);
                                    assert forall|i: int, k: int|
                                        0 <= i < parts.len() && 0 <= k < parts[
                                        i].0.len() implies w.spec_resolve_name(
                                        #[trigger] parts[i].0[k],
                                    ) is Some by {
                                        assert(parts[i] == raw@[i].parts());
                                        assert(parts[i].0[k] == raw@[i].names@[k]@);
                                        assert(Some(ts@[i].ids@[k]) == w.spec_resolve_name(
                                            raw@[i].names@[k]@,
                                        ));
                                    }
                                    assert(!spec_some_unresolvable(*w, parts));
                                }
                                ts
                            },
                            Err(_) => {
                                proof {
                                    let (i, k) = choose|i: int, k: int|
                                        0 <= i < raw@.len() && 0 <= k < raw@[i].names.len()
                                            && w.spec_resolve_name(
                                            #[trigger] raw@[i].names@[k]@,
                                        ) is None;
                                    assert(parts[i].0[k] == raw@[i].names@[k]@);
                                    assert(0 <= k < parts[i].0.len());
                                    assert(spec_some_unresolvable(*w, parts));
                                }
                                return Err(EcsError::UnknownName);
                            },
                        }
                    },
                    None => {
                        return Err(EcsError::ParseFailure);
                    },
                }
            },
            None => self.terms,
        };
        Ok(Query { terms, flags: self.flags, order_by: self.order_by, entity: None })
    }

    /// Compiles the query and registers it under a fresh entity.  A
    /// refused compilation registers nothing.
    pub fn build_with_entity(self, w: &mut World) -> (r: Result<Query, EcsError>)
        requires
            old(w).wf(),
            old(w).spec_can_alloc(),
        ensures
            final(w).wf(),
            (r is Err) == spec_build_refused(self, *old(w)),
            match r {
                Ok(q) => {
                    &&& spec_build_terms_ok(self, *old(w), q)
                    &&& q.entity == Some(old(w).spec_next_id())
                    &&& crate::world::spec_alloc_effect(*old(w), *final(w), old(w).spec_next_id())
                },
                Err(_) => *final(w) == *old(w),
            },
    {
        match self.build(w) {
            Ok(q) => {
                let e = w.entity();
                Ok(Query { entity: Some(e), ..q })
            },
            Err(er) => Err(er),
        }
    }

    /// Compiles the query and registers it under a fresh named entity.  A
    /// refused compilation registers nothing.
    pub fn build_with_entity_named(self, w: &mut World, name: &str) -> (r: Result<
        Query,
        EcsError,
    >)
        requires
            old(w).wf(),
            old(w).spec_can_alloc(),
        ensures
            final(w).wf(),
            (r is Err) == spec_build_refused(self, *old(w)),
            match r {
                Ok(q) => {
                    &&& spec_build_terms_ok(self, *old(w), q)
                    &&& q.entity is Some
                    &&& final(w).spec_alive(q.entity->Some_0)
                    &&& final(w).spec_name(q.entity->Some_0) == Some(name@)
                },
                Err(_) => *final(w) == *old(w),
            },
    {
        match self.build(w) {
            Ok(q) => {
                let e = w.entity_named(name);
                Ok(Query { entity: Some(e), ..q })
            },
            Err(er) => Err(er),
        }
    }
}

/// The compiled terms a builder owes on success: the structured terms as
/// given, or — with an expression — the resolution of its parse, term by
/// term and alternative by alternative.
pub open spec fn spec_build_terms_ok(b: QueryBuilder, w: World, q: Query) -> bool {
    &&& q.flags == b.flags
    &&& q.order_by == b.order_by
    &&& match b.expr {
        Some(s) => match spec_parse_expr(s@, 0, s@.len() as nat) {
            Some(parts) => spec_terms_resolved(w, parts, q.terms@),
            None => false,
        },
        None => q.terms == b.terms,
    }
}

/// A compilation is refused exactly when the expression fails to parse or
/// some identifier in it resolves to nothing.
pub open spec fn spec_build_refused(b: QueryBuilder, w: World) -> bool {
    match b.expr {
        Some(s) => match spec_parse_expr(s@, 0, s@.len() as nat) {
            Some(parts) => spec_some_unresolvable(w, parts),
            None => true,
        },
        None => false,
    }
}

/// Some identifier of the parsed expression resolves to nothing.
pub open spec fn spec_some_unresolvable(
    w: World,
    parts: Seq<(Seq<Seq<char>>, bool, crate::query::Access, crate::query::TermOper)>,
) -> bool {
    exists|i: int, k: int|
        0 <= i < parts.len() && 0 <= k < parts[i].0.len() && w.spec_resolve_name(
            #[trigger] parts[i].0[k],
        ) is None
}

/// Terms are the resolution of parsed parts: each alternative's id is its
/// identifier's resolution, modifiers carry over, and a singleton source
/// binds to the first alternative.
pub open spec fn spec_terms_resolved(
    w: World,
    parts: Seq<(Seq<Seq<char>>, bool, crate::query::Access, crate::query::TermOper)>,
    ts: Seq<Term>,
) -> bool {
    &&& ts.len() == parts.len()
    &&& forall|i: int|
        0 <= i < parts.len() ==> {
            &&& (#[trigger] ts[i]).ids.len() == parts[i].0.len()
            &&& forall|k: int|
                0 <= k < parts[i].0.len() ==> Some(#[trigger] ts[i].ids@[k])
                    == w.spec_resolve_name(parts[i].0[k])
            &&& ts[i].access == parts[i].2
            &&& ts[i].oper == parts[i].3
            &&& ts[i].src == (if parts[i].1 && parts[i].0.len() > 0 {
                TermSrc::SrcFixed(ts[i].ids@[0])
            } else {
                TermSrc::SrcThis
            })
        }
}

/// The pointwise resolution contract of `resolve_terms`, restated over the
/// parse's part tuples.
pub proof fn lemma_resolution_carries(
    w: World,
    raw: Seq<RawTerm>,
    parts: Seq<(Seq<Seq<char>>, bool, crate::query::Access, crate::query::TermOper)>,
    ts: Seq<Term>,
)
    requires
        parts == raw.map_values(|t: RawTerm| t.parts()),
        ts.len() == raw.len(),
        forall|i: int|
            0 <= i < raw.len() ==> {
                &&& (#[trigger] ts[i]).ids.len() == raw[i].names.len()
                &&& forall|k: int|
                    0 <= k < raw[i].names.len() ==> Some(#[trigger] ts[i].ids@[k])
                        == w.spec_resolve_name(raw[i].names@[k]@)
                &&& ts[i].access == raw[i].access
                &&& ts[i].oper == raw[i].oper
                &&& ts[i].src == (if raw[i].singleton && raw[i].names.len() > 0 {
                    TermSrc::SrcFixed(ts[i].ids@[0])
                } else {
                    TermSrc::SrcThis
                })
            },
    ensures
        spec_terms_resolved(w, parts, ts),
{
    assert forall|i: int| 0 <= i < parts.len() implies {
        &&& (#[trigger] ts[i]).ids.len() == parts[i].0.len()
        &&& forall|k: int|
            0 <= k < parts[i].0.len() ==> Some(#[trigger] ts[i].ids@[k]) == w.spec_resolve_name(
                parts[i].0[k],
            )
        &&& ts[i].access == parts[i].2
        &&& ts[i].oper == parts[i].3
        &&& ts[i].src == (if parts[i].1 && parts[i].0.len() > 0 {
            TermSrc::SrcFixed(ts[i].ids@[0])
        } else {
            TermSrc::SrcThis
        })
    } by {
        assert(parts[i] == raw[i].parts());
        assert forall|k: int| 0 <= k < parts[i].0.len() implies Some(#[trigger] ts[i].ids@[k])
            == w.spec_resolve_name(parts[i].0[k]) by {
            assert(parts[i].0[k] == raw[i].names@[k]@);
        }
    }
}

} // verus!