//! Query terms.
//!
//! A query is a compiled, immutable list of terms matched against every
//! table's type.  A term names one id — or several alternatives forming an
//! Or-group — together with a source kind, an access mode, and an operator
//! for negation or optionality.

use vstd::prelude::*;

use crate::entity::{spec_is_pair, spec_pair_first, spec_pair_second};
use crate::flecs::WILDCARD;
use crate::table::spec_swap_removed;
use vstd::multiset::Multiset;

verus! {

/// Whether the id `id` satisfies the pattern `pattern`: equal ids match,
/// the wildcard matches anything, and a pair pattern matches a pair
/// half-by-half with the wildcard standing for either half.
pub open spec fn spec_id_matches(pattern: u64, id: u64) -> bool {
    if pattern == WILDCARD {
        true
    } else if spec_is_pair(pattern) && spec_is_pair(id) {
        &&& (spec_pair_first(pattern) == WILDCARD as int || spec_pair_first(pattern)
            == spec_pair_first(id))
        &&& (spec_pair_second(pattern) == WILDCARD as int || spec_pair_second(pattern)
            == spec_pair_second(id))
    } else {
        pattern == id
    }
}

/// Whether the id `id` satisfies the pattern `pattern`.
pub fn id_matches(pattern: u64, id: u64) -> (r: bool)
    ensures
        r == spec_id_matches(pattern, id),
{
    if pattern == WILDCARD {
        true
    } else if crate::entity::is_pair(pattern) && crate::entity::is_pair(id) {
        let pf = crate::entity::pair_first(pattern);
        let ps = crate::entity::pair_second(pattern);
        let f = crate::entity::pair_first(id);
        let s = crate::entity::pair_second(id);
        (pf == WILDCARD || pf == f) && (ps == WILDCARD || ps == s)
    } else {
        pattern == id
    }
}

/// How a term's fields may be accessed during iteration.
#[derive(Clone, Copy)]
pub enum Access {
    /// Read-only.
    AccessIn,
    /// Write-only.
    AccessOut,
    /// Read-write; the default.
    AccessInOut,
    /// No data access; the term only filters.
    AccessNone,
}

/// Where a term's id is looked for.
#[derive(Clone, Copy)]
pub enum TermSrc {
    /// On each entity of the matched table; the default.
    SrcThis,
    /// On one fixed entity, as for a singleton.
    SrcFixed(u64),
}

/// Term operator.
#[derive(Clone, Copy)]
pub enum TermOper {
    /// The id must be present.
    OperAnd,
    /// The id must be absent.
    OperNot,
    /// The id may be absent; iteration reports whether it was found.
    OperOptional,
}

/// One compiled query term.
pub struct Term {
    /// The id to match; more than one entry forms an Or-group of which at
    /// least one must be present.
    pub ids: Vec<u64>,
    /// Where the id is looked for.
    pub src: TermSrc,
    /// Access mode for the term's fields.
    pub access: Access,
    /// Presence operator; Or-groups always require presence.
    pub oper: TermOper,
}

/// Queries skip tables holding the prefab tag unless this flag is set.
pub const FLAG_MATCH_PREFAB: u8 = 1;

/// Queries skip disabled entities unless this flag is set.
pub const FLAG_MATCH_DISABLED: u8 = 2;

/// Queries skip tables without entities unless this flag is set.
pub const FLAG_MATCH_EMPTY: u8 = 4;

impl Term {
    /// A term is well-formed when it has at least one id and Or-groups are
    /// plain required terms.
    pub open spec fn wf(self) -> bool {
        &&& self.ids.len() >= 1
        &&& self.ids.len() > 1 ==> self.oper is OperAnd
    }
}

/// A compiled, immutable query: terms, flags and an optional ordering
/// component, possibly bound to an entity.
pub struct Query {
    /// The compiled terms.
    pub terms: Vec<Term>,
    /// Prefab, disabled and empty-table matching flags.
    pub flags: u8,
    /// Sort rows of each matched table by this component's leading value.
    pub order_by: Option<u64>,
    /// The entity the query was registered under, if any.
    pub entity: Option<u64>,
}

/// Whether a pattern finds a match inside a type sequence.
pub open spec fn spec_pattern_in(pattern: u64, ty: Seq<u64>) -> bool {
    exists|j: int| 0 <= j < ty.len() && spec_id_matches(pattern, #[trigger] ty[j])
}

/// The first id of a type sequence, at or after `j`, that satisfies the
/// pattern; zero when none does.
pub open spec fn spec_first_match_in(pattern: u64, ty: Seq<u64>, j: int) -> u64
    decreases ty.len() - j,
{
    if j < 0 || j >= ty.len() {
        0
    } else if spec_id_matches(pattern, ty[j]) {
        ty[j]
    } else {
        spec_first_match_in(pattern, ty, j + 1)
    }
}

/// The concrete id a term matched in a type: for the first alternative the
/// type satisfies, the first id of the type satisfying it — so a wildcard
/// or pair-wildcard alternative resolves to the id actually present.  Zero
/// when no alternative is satisfied.
pub open spec fn spec_matched_alt_from(ids: Seq<u64>, ty: Seq<u64>, k: int) -> u64
    decreases ids.len() - k,
{
    if k < 0 || k >= ids.len() {
        0
    } else if spec_pattern_in(ids[k], ty) {
        spec_first_match_in(ids[k], ty, 0)
    } else {
        spec_matched_alt_from(ids, ty, k + 1)
    }
}

/// Whether some alternative of a term finds a match inside a type.
pub open spec fn spec_some_alt_in(ids: Seq<u64>, ty: Seq<u64>) -> bool {
    exists|k: int| 0 <= k < ids.len() && spec_pattern_in(#[trigger] ids[k], ty)
}

/// Whether a term about the matched table itself accepts the type: a
/// required id (or one Or-group alternative) is present, a negated id is
/// absent, an optional id never gates.
pub open spec fn spec_term_accepts(t: Term, ty: Seq<u64>) -> bool {
    match t.oper {
        TermOper::OperAnd => spec_some_alt_in(t.ids@, ty),
        TermOper::OperNot => t.ids.len() == 0 || !spec_pattern_in(t.ids@[0], ty),
        TermOper::OperOptional => true,
    }
}

/// A nonzero matched id is an id of the type it was matched in, and it
/// satisfies one of the term's alternatives.
pub proof fn lemma_matched_in_ty(ids: Seq<u64>, ty: Seq<u64>, k: int)
    ensures
        ({
            let m = spec_matched_alt_from(ids, ty, k);
            m != 0 ==> ty.contains(m) && exists|a: int|
                0 <= a < ids.len() && spec_id_matches(#[trigger] ids[a], m)
        }),
    decreases ids.len() - k,
{
    if k < 0 || k >= ids.len() {
    } else if spec_pattern_in(ids[k], ty) {
        lemma_first_match_props(ids[k], ty, 0);
        let m = spec_first_match_in(ids[k], ty, 0);
        if m != 0 {
            assert(spec_id_matches(ids[k], m));
        }
    } else {
        lemma_matched_in_ty(ids, ty, k + 1);
    }
}

/// A nonzero first match is a matching id of the type; over a type without
/// the null id, a satisfied pattern yields a nonzero first match.
pub proof fn lemma_first_match_props(pattern: u64, ty: Seq<u64>, j: int)
    requires
        0 <= j,
    ensures
        ({
            let m = spec_first_match_in(pattern, ty, j);
            m != 0 ==> ty.contains(m) && spec_id_matches(pattern, m)
        }),
        ((forall|i: int| 0 <= i < ty.len() ==> ty[i] != 0) && exists|i: int|
            j <= i < ty.len() && spec_id_matches(pattern, #[trigger] ty[i]))
            ==> spec_first_match_in(pattern, ty, j) != 0,
    decreases ty.len() - j,
{
    if j < 0 || j >= ty.len() {
    } else if spec_id_matches(pattern, ty[j]) {
        assert(ty.contains(ty[j]));
    } else {
        lemma_first_match_props(pattern, ty, j + 1);
        if (forall|i: int| 0 <= i < ty.len() ==> ty[i] != 0) && exists|i: int|
            j <= i < ty.len() && spec_id_matches(pattern, #[trigger] ty[i]) {
            let i = choose|i: int| j <= i < ty.len() && spec_id_matches(pattern, #[trigger] ty[i]);
            assert(i > j);
        }
    }
}

/// Over a type without the null id, the matched slot is nonzero exactly
/// when some alternative is satisfied.
pub proof fn lemma_matched_alt_nonzero(ids: Seq<u64>, ty: Seq<u64>, k: int)
    requires
        0 <= k,
        forall|i: int| 0 <= i < ty.len() ==> ty[i] != 0,
    ensures
        (spec_matched_alt_from(ids, ty, k) != 0) <==> exists|a: int|
            k <= a < ids.len() && spec_pattern_in(#[trigger] ids[a], ty),
    decreases ids.len() - k,
{
    if k < 0 || k >= ids.len() {
    } else if spec_pattern_in(ids[k], ty) {
        lemma_first_match_props(ids[k], ty, 0);
        let i = choose|i: int| 0 <= i < ty.len() && spec_id_matches(ids[k], #[trigger] ty[i]);
        assert(spec_first_match_in(ids[k], ty, 0) != 0);
    } else {
        lemma_matched_alt_nonzero(ids, ty, k + 1);
        assert forall|a: int|
            k <= a < ids.len() && spec_pattern_in(#[trigger] ids[a], ty) implies a >= k + 1 by {}
    }
}

/// The type sequence a term is matched against: the table's own type for a
/// this-source term, the fixed entity's type otherwise.
pub open spec fn spec_term_ty(w: crate::world::World, t: Term, ty: Seq<u64>) -> Seq<u64> {
    match t.src {
        TermSrc::SrcThis => ty,
        TermSrc::SrcFixed(f) => if w.spec_alive(f) {
            w.spec_type_of(f)
        } else {
            Seq::empty()
        },
    }
}

/// Whether a table matches a query: every term accepts its type, prefab
/// tables need the prefab flag, and tables without entities need the
/// empty-table flag.
pub open spec fn spec_table_matches(
    w: crate::world::World,
    terms: Seq<Term>,
    flags: u8,
    t: int,
) -> bool {
    let ty = w.tables[t].ids@;
    &&& forall|i: int|
        0 <= i < terms.len() ==> spec_term_accepts(#[trigger] terms[i], spec_term_ty(w, terms[i], ty))
    &&& (flags & FLAG_MATCH_PREFAB != 0 || !ty.contains(crate::flecs::PREFAB))
    &&& (flags & FLAG_MATCH_EMPTY != 0 || w.tables[t].entities.len() > 0)
}

/// The visible rows of a table: every row when disabled entities are
/// matched, otherwise the rows of enabled entities, in ascending order.
pub open spec fn spec_visible_rows(w: crate::world::World, flags: u8, t: int) -> Seq<int> {
    Seq::new(w.tables[t].entities@.len(), |r: int| r).filter(
        |r: int| flags & FLAG_MATCH_DISABLED != 0 || w.spec_enabled(w.tables[t].entities@[r]),
    )
}

/// The sort key of a row under an ordering component: the leading word of
/// the component's value there, with keyless rows ordered first.
pub open spec fn spec_row_key(w: crate::world::World, t: int, comp: u64, r: int) -> u64 {
    match crate::table::spec_col_index_from(w.tables[t].cols@, comp, 0) {
        Some(c) => if w.tables[t].cols[c].rows[r]@.len() > 0 {
            w.tables[t].cols[c].rows[r]@[0]
        } else {
            0
        },
        None => 0,
    }
}

/// Whether a pattern finds a match inside an id vector.
pub fn pattern_in(pattern: u64, ids: &Vec<u64>) -> (r: bool)
    ensures
        r == spec_pattern_in(pattern, ids@),
{
    let n = ids.len();
    let mut j: usize = 0;
    while j < n
        invariant
            j <= n,
            n == ids.len(),
            forall|jj: int| 0 <= jj < j ==> !spec_id_matches(pattern, #[trigger] ids@[jj]),
        decreases n - j,
    {
        if id_matches(pattern, ids[j]) {
            proof {
                assert(spec_id_matches(pattern, ids@[j as int]));
            }
            return true;
        }
        j = j + 1;
    }
    false
}

/// The first id of a vector satisfying a pattern; zero if none does.
pub fn first_match_in(pattern: u64, ids: &Vec<u64>) -> (r: u64)
    ensures
        r == spec_first_match_in(pattern, ids@, 0),
{
    let n = ids.len();
    let mut j: usize = 0;
    while j < n
        invariant
            j <= n,
            n == ids.len(),
            spec_first_match_in(pattern, ids@, 0) == spec_first_match_in(pattern, ids@, j as int),
        decreases n - j,
    {
        if id_matches(pattern, ids[j]) {
            return ids[j];
        }
        j = j + 1;
    }
    0
}

/// The concrete id the first satisfied alternative matches in an id
/// vector; zero if no alternative is satisfied.
pub fn matched_alt(alts: &Vec<u64>, ids: &Vec<u64>) -> (r: u64)
    ensures
        r == spec_matched_alt_from(alts@, ids@, 0),
{
    let n = alts.len();
    let mut k: usize = 0;
    while k < n
        invariant
            k <= n,
            n == alts.len(),
            spec_matched_alt_from(alts@, ids@, 0) == spec_matched_alt_from(alts@, ids@, k as int),
        decreases n - k,
    {
        if pattern_in(alts[k], ids) {
            return first_match_in(alts[k], ids);
        }
        k = k + 1;
    }
    0
}

/// Whether some alternative finds a match inside an id vector.
pub fn some_alt_in(alts: &Vec<u64>, ids: &Vec<u64>) -> (r: bool)
    ensures
        r == spec_some_alt_in(alts@, ids@),
{
    let n = alts.len();
    let mut k: usize = 0;
    while k < n
        invariant
            k <= n,
            n == alts.len(),
            forall|kk: int| 0 <= kk < k ==> !spec_pattern_in(#[trigger] alts@[kk], ids@),
        decreases n - k,
    {
        if pattern_in(alts[k], ids) {
            return true;
        }
        k = k + 1;
    }
    false
}

/// A table iterator over a query's matching tables.
///
/// The iterator holds no reference to the world; every call takes the
/// world, and the iterator re-checks it.  Advancing moves to the next
/// matching table in creation order and loads its visible rows and the
/// concrete id each term matched.
pub struct Iter<'a> {
    /// The query being iterated.
    pub query: &'a Query,
    /// The next table index to examine.
    pub cursor: usize,
    /// Whether a matched table is loaded.
    pub active: bool,
    /// The loaded table.
    pub cur_table: usize,
    /// Visible rows of the loaded table.
    pub rows: Vec<usize>,
    /// Per term, the concrete id that matched the loaded table — a
    /// wildcard alternative resolves to the id actually present; zero when
    /// the term is optional and absent or negated.
    pub matched: Vec<u64>,
}

impl Query {
    /// Begins iteration.
    pub fn iter<'a>(&'a self) -> (it: Iter<'a>)
        ensures
            it.query == self,
            it.cursor == 0,
            !it.active,
    {
        Iter { query: self, cursor: 0, active: false, cur_table: 0, rows: Vec::new(), matched: Vec::new() }
    }
}

impl<'a> Iter<'a> {
    /// What a loaded table promises: the table matched the query against
    /// this world, the visible rows are exactly the loaded ones, and each
    /// term's matched slot is the concrete id that the first satisfied
    /// alternative matches in its type.
    pub open spec fn spec_loaded(self, w: crate::world::World) -> bool {
        &&& self.cur_table < w.tables.len()
        &&& spec_table_matches(w, self.query.terms@, self.query.flags, self.cur_table as int)
        &&& self.matched.len() == self.query.terms.len()
        &&& forall|i: int|
            0 <= i < self.query.terms.len() ==> #[trigger] self.matched@[i]
                == spec_matched_alt_from(
                self.query.terms@[i].ids@,
                spec_term_ty(w, self.query.terms@[i], w.tables[self.cur_table as int].ids@),
                0,
            )
        &&& forall|r: int|
            0 <= r < self.rows.len() ==> (#[trigger] self.rows@[r]) < w.tables[
            self.cur_table as int].entities.len()
        &&& self.query.order_by is None ==> self.rows@.map_values(|r: usize| r as int)
            == spec_visible_rows(w, self.query.flags, self.cur_table as int)
        &&& self.query.order_by is Some ==> self.rows@.map_values(|r: usize| r as int).to_multiset()
            == spec_visible_rows(w, self.query.flags, self.cur_table as int).to_multiset()
        &&& match self.query.order_by {
            Some(comp) => forall|a: int, b: int|
                0 <= a < b < self.rows.len() ==> spec_row_key(
                    w,
                    self.cur_table as int,
                    comp,
                    #[trigger] self.rows@[a] as int,
                ) <= spec_row_key(w, self.cur_table as int, comp, #[trigger] self.rows@[b] as int),
            None => true,
        }
    }

    /// Moves to the next matching table, loading its rows; reports whether
    /// one was found.  This is the sole suspension point of an iteration.
    pub fn advance(&mut self, w: &crate::world::World) -> (r: bool)
        requires
            w.wf(),
        ensures
            final(self).query == old(self).query,
            r == final(self).active,
            r ==> {
                &&& old(self).cursor <= final(self).cur_table < w.tables.len()
                &&& final(self).spec_loaded(*w)
                &&& final(self).cursor == final(self).cur_table + 1
                &&& forall|t: int|
                    old(self).cursor <= t < final(self).cur_table ==> !spec_table_matches(
                        *w,
                        old(self).query.terms@,
                        old(self).query.flags,
                        t,
                    )
            },
            !r ==> forall|t: int|
                old(self).cursor <= t < w.tables.len() ==> !spec_table_matches(
                    *w,
                    old(self).query.terms@,
                    old(self).query.flags,
                    t,
                ),
            !r ==> final(self).cursor == w.tables.len(),
    {
        let nt = w.tables.len();
        if self.cursor >= nt {
            self.active = false;
            self.cursor = nt;
            return false;
        }
        let mut t = self.cursor;
        while t < nt
            invariant
                w.wf(),
                t <= nt,
                nt == w.tables.len(),
                old(self).cursor <= t,
                self.query == old(self).query,
                forall|t2: int|
                    old(self).cursor <= t2 < t ==> !spec_table_matches(
                        *w,
                        old(self).query.terms@,
                        old(self).query.flags,
                        t2,
                    ),
            ensures
                self.query == old(self).query,
                t <= nt,
                nt == w.tables.len(),
                old(self).cursor <= t,
                forall|t2: int|
                    old(self).cursor <= t2 < t ==> !spec_table_matches(
                        *w,
                        old(self).query.terms@,
                        old(self).query.flags,
                        t2,
                    ),
                t < nt ==> spec_table_matches(
                    *w,
                    old(self).query.terms@,
                    old(self).query.flags,
                    t as int,
                ),
            decreases nt - t,
        {
            if self.table_matches(w, t) {
                break ;
            }
            t = t + 1;
        }
        if t >= nt {
            self.active = false;
            self.cursor = nt;
            return false;
        }
        // Load the matched table: matched id slots, then visible rows.
        let mut matched: Vec<u64> = Vec::new();
        let n_terms = self.query.terms.len();
        let mut i: usize = 0;
        while i < n_terms
            invariant
                w.wf(),
                t < w.tables.len(),
                n_terms == self.query.terms.len(),
                i <= n_terms,
                matched.len() == i,
                self.query == old(self).query,
                forall|i2: int|
                    0 <= i2 < i ==> #[trigger] matched@[i2] == spec_matched_alt_from(
                        self.query.terms@[i2].ids@,
                        spec_term_ty(*w, self.query.terms@[i2], w.tables[t as int].ids@),
                        0,
                    ),
            decreases n_terms - i,
        {
            let term = &self.query.terms[i];
            let m = match term.src {
                TermSrc::SrcThis => matched_alt(&term.ids, &w.tables[t].ids),
                TermSrc::SrcFixed(f) => {
                    if w.is_alive(f) {
                        let ft = w.recs[crate::entity::index_part(f) as usize].table;
                        proof {
                            assert(ft as int == w.spec_table_of(f));
                        }
                        matched_alt(&term.ids, &w.tables[ft].ids)
                    } else {
                        let empty_ids: Vec<u64> = Vec::new();
                        matched_alt(&term.ids, &empty_ids)
                    }
                },
            };
            matched.push(m);
            i = i + 1;
        }
        let rows = self.visible_rows(w, t);
        let rows = match self.query.order_by {
            Some(comp) => self.sort_rows(w, t, comp, rows),
            None => rows,
        };
        self.active = true;
        self.cur_table = t;
        self.cursor = t + 1;
        self.rows = rows;
        self.matched = matched;
        true
    }

    /// Whether table `t` matches the query in this world.
    fn table_matches(&self, w: &crate::world::World, t: usize) -> (r: bool)
        requires
            w.wf(),
            t < w.tables.len(),
        ensures
            r == spec_table_matches(*w, self.query.terms@, self.query.flags, t as int),
    {
        let ty = &w.tables[t].ids;
        if self.query.flags & FLAG_MATCH_PREFAB == 0 && crate::table::vec_contains(
            ty,
            crate::flecs::PREFAB,
        ) {
            return false;
        }
        if self.query.flags & FLAG_MATCH_EMPTY == 0 && w.tables[t].entities.len() == 0 {
            return false;
        }
        let n = self.query.terms.len();
        let mut i: usize = 0;
        while i < n
            invariant
                w.wf(),
                t < w.tables.len(),
                i <= n,
                n == self.query.terms.len(),
                ty == &w.tables[t as int].ids,
                forall|i2: int|
                    0 <= i2 < i ==> spec_term_accepts(
                        #[trigger] self.query.terms@[i2],
                        spec_term_ty(*w, self.query.terms@[i2], w.tables[t as int].ids@),
                    ),
            decreases n - i,
        {
            let term = &self.query.terms[i];
            let ok = match term.src {
                TermSrc::SrcThis => self.term_accepts(term, ty),
                TermSrc::SrcFixed(f) => {
                    if w.is_alive(f) {
                        let ft = w.recs[crate::entity::index_part(f) as usize].table;
                        proof {
                            assert(ft as int == w.spec_table_of(f));
                        }
                        self.term_accepts(term, &w.tables[ft].ids)
                    } else {
                        let empty_ids: Vec<u64> = Vec::new();
                        self.term_accepts(term, &empty_ids)
                    }
                },
            };
            if !ok {
                return false;
            }
            i = i + 1;
        }
        true
    }

    /// Whether one term accepts a type.
    fn term_accepts(&self, term: &Term, ty: &Vec<u64>) -> (r: bool)
        ensures
            r == spec_term_accepts(*term, ty@),
    {
        match term.oper {
            TermOper::OperAnd => some_alt_in(&term.ids, ty),
            TermOper::OperNot => term.ids.len() == 0 || !pattern_in(term.ids[0], ty),
            TermOper::OperOptional => true,
        }
    }

    /// The visible rows of table `t`.
    fn visible_rows(&self, w: &crate::world::World, t: usize) -> (rows: Vec<usize>)
        requires
            w.wf(),
            t < w.tables.len(),
        ensures
            rows@.map_values(|r: usize| r as int) == spec_visible_rows(
                *w,
                self.query.flags,
                t as int,
            ),
            forall|r: int|
                0 <= r < rows.len() ==> (#[trigger] rows@[r]) < w.tables[t as int].entities.len(),
    {
        let n = w.tables[t].entities.len();
        let mut rows: Vec<usize> = Vec::new();
        let mut r: usize = 0;
        while r < n
            invariant
                w.wf(),
                t < w.tables.len(),
                r <= n,
                n == w.tables[t as int].entities.len(),
                forall|j: int|
                    0 <= j < rows.len() ==> (#[trigger] rows@[j]) < r,
                rows@.map_values(|x: usize| x as int) == Seq::new(r as nat, |x: int| x).filter(
                    |x: int| self.query.flags & FLAG_MATCH_DISABLED != 0 || w.spec_enabled(
                        w.tables[t as int].entities@[x],
                    ),
                ),
            decreases n - r,
        {
            let keep = if self.query.flags & FLAG_MATCH_DISABLED != 0 {
                true
            } else {
                let e = w.tables[t].entities[r];
                proof {
                    assert(w.row_backed(t as int, r as int));
                }
                w.recs[crate::entity::index_part(e) as usize].enabled
            };
            proof {
                let f = |x: int| self.query.flags & FLAG_MATCH_DISABLED != 0 || w.spec_enabled(
                    w.tables[t as int].entities@[x],
                );
                let big = Seq::new(r as nat + 1, |x: int| x);
                assert(big.drop_last() =~= Seq::new(r as nat, |x: int| x));
                reveal_with_fuel(Seq::filter, 2);
                assert(big.filter(f) == if f(r as int) {
                    big.drop_last().filter(f).push(r as int)
                } else {
                    big.drop_last().filter(f)
                });
            }
            if keep {
                let ghost rows0 = rows@;
                rows.push(r);
                proof {
                    assert(rows@.map_values(|x: usize| x as int) =~= rows0.map_values(
                        |x: usize| x as int,
                    ).push(r as int));
                }
            }
            r = r + 1;
        }
        proof {
            assert(Seq::new(n as nat, |x: int| x) =~= Seq::new(
                w.tables[t as int].entities@.len(),
                |x: int| x,
            ));
        }
        rows
    }

    /// Sorts rows ascending by the leading word of the ordering component's
    /// value; rows keep exactly their membership.
    fn sort_rows(&self, w: &crate::world::World, t: usize, comp: u64, rows: Vec<usize>) -> (out:
        Vec<usize>)
        requires
            w.wf(),
            t < w.tables.len(),
            forall|r: int|
                0 <= r < rows.len() ==> (#[trigger] rows@[r]) < w.tables[t as int].entities.len(),
        ensures
            out@.map_values(|r: usize| r as int).to_multiset() == rows@.map_values(
                |r: usize| r as int,
            ).to_multiset(),
            forall|r: int|
                0 <= r < out.len() ==> (#[trigger] out@[r]) < w.tables[t as int].entities.len(),
            forall|a: int, b: int|
                0 <= a < b < out.len() ==> spec_row_key(
                    *w,
                    t as int,
                    comp,
                    #[trigger] out@[a] as int,
                ) <= spec_row_key(*w, t as int, comp, #[trigger] out@[b] as int),
    {
        let n = rows.len();
        let mut out: Vec<usize> = Vec::new();
        let mut rest = rows;
        proof {
            broadcast use vstd::multiset::group_multiset_axioms;
            broadcast use vstd::seq_lib::group_to_multiset_ensures;

            let mv = |r: usize| r as int;
            assert(out@.map_values(mv) =~= Seq::<int>::empty());
            assert(out@.map_values(mv).to_multiset().len() == 0);
            assert(out@.map_values(mv).to_multiset() =~= Multiset::<int>::empty());
            assert(out@.map_values(mv).to_multiset().add(rest@.map_values(mv).to_multiset())
                =~= rest@.map_values(mv).to_multiset());
        }
        // Selection sort by key: repeatedly move a minimal-key row over.
        while rest.len() > 0
            invariant
                w.wf(),
                t < w.tables.len(),
                forall|r: int|
                    0 <= r < rest.len() ==> (#[trigger] rest@[r]) < w.tables[
                    t as int].entities.len(),
                forall|r: int|
                    0 <= r < out.len() ==> (#[trigger] out@[r]) < w.tables[
                    t as int].entities.len(),
                out@.map_values(|r: usize| r as int).to_multiset().add(
                    rest@.map_values(|r: usize| r as int).to_multiset(),
                ) == rows@.map_values(|r: usize| r as int).to_multiset(),
                forall|a: int, b: int|
                    0 <= a < b < out.len() ==> spec_row_key(
                        *w,
                        t as int,
                        comp,
                        #[trigger] out@[a] as int,
                    ) <= spec_row_key(*w, t as int, comp, #[trigger] out@[b] as int),
                forall|a: int, b: int|
                    0 <= a < out.len() && 0 <= b < rest.len() ==> spec_row_key(
                        *w,
                        t as int,
                        comp,
                        #[trigger] out@[a] as int,
                    ) <= spec_row_key(*w, t as int, comp, #[trigger] rest@[b] as int),
            decreases rest.len(),
        {
            let mut best: usize = 0;
            let mut k: usize = 1;
            while k < rest.len()
                invariant
                    w.wf(),
                    t < w.tables.len(),
                    rest.len() > 0,
                    best < rest.len(),
                    k <= rest.len(),
                    forall|r: int|
                        0 <= r < rest.len() ==> (#[trigger] rest@[r]) < w.tables[
                        t as int].entities.len(),
                    forall|kk: int|
                        0 <= kk < k ==> spec_row_key(
                            *w,
                            t as int,
                            comp,
                            rest@[best as int] as int,
                        ) <= spec_row_key(*w, t as int, comp, #[trigger] rest@[kk] as int),
                decreases rest.len() - k,
            {
                if self.row_key(w, t, comp, rest[k]) < self.row_key(w, t, comp, rest[best]) {
                    best = k;
                }
                k = k + 1;
            }
            let ghost out0 = out@;
            let ghost rest0 = rest@;
            let picked = rest.swap_remove(best);
            out.push(picked);
            proof {
                assert forall|b: int| 0 <= b < rest.len() implies spec_row_key(
                    *w,
                    t as int,
                    comp,
                    rest0[best as int] as int,
                ) <= spec_row_key(*w, t as int, comp, #[trigger] rest@[b] as int) by {
                    if b == best as int {
                        assert(rest@[b] == rest0[rest0.len() - 1]);
                    } else {
                        assert(rest@[b] == rest0[b]);
                    }
                }
                assert forall|a: int, b: int|
                    0 <= a < b < out.len() implies spec_row_key(
                    *w,
                    t as int,
                    comp,
                    #[trigger] out@[a] as int,
                ) <= spec_row_key(*w, t as int, comp, #[trigger] out@[b] as int) by {
                    if b == out.len() - 1 {
                        assert(out@[b] == picked);
                        assert(out@[a] == out0[a]);
                    }
                }
            }
            proof {
                broadcast use vstd::seq_lib::group_to_multiset_ensures;

                let mv = |r: usize| r as int;
                lemma_swap_remove_multiset(rest0, best as int);
                assert(rest@.map_values(mv) =~= spec_swap_removed(rest0, best as int).map_values(
                    mv,
                ));
                assert(out@.map_values(mv) =~= out0.map_values(mv).push(picked as int));
                assert(out@.map_values(mv).to_multiset() == out0.map_values(
                    mv,
                ).to_multiset().insert(picked as int));
                assert(out@.map_values(mv).to_multiset().add(
                    rest@.map_values(mv).to_multiset(),
                ) =~= out0.map_values(mv).to_multiset().add(rest0.map_values(mv).to_multiset()));
            }
        }
        proof {
            broadcast use vstd::multiset::group_multiset_axioms;
            broadcast use vstd::seq_lib::group_to_multiset_ensures;

            let mv = |r: usize| r as int;
            assert(rest@.map_values(mv) =~= Seq::<int>::empty());
            assert(rest@.map_values(mv).to_multiset().len() == 0);
            assert(rest@.map_values(mv).to_multiset() =~= Multiset::<int>::empty());
            assert(out@.map_values(mv).to_multiset() =~= out@.map_values(mv).to_multiset().add(
                rest@.map_values(mv).to_multiset(),
            ));
        }
        out
    }

    /// The sort key of a row: the leading word of the ordering component's
    /// value, with keyless rows first.
    fn row_key(&self, w: &crate::world::World, t: usize, comp: u64, row: usize) -> (k: u64)
        requires
            w.wf(),
            t < w.tables.len(),
            row < w.tables[t as int].entities.len(),
        ensures
            k == spec_row_key(*w, t as int, comp, row as int),
    {
        match w.tables[t].find_col(comp) {
            Some(c) => {
                proof {
                    assert(w.tables[t as int].wf(w.registry));
                }
                let v = &w.tables[t].cols[c].rows[row];
                if v.len() > 0 {
                    v[0]
                } else {
                    0
                }
            },
            None => 0,
        }
    }

    /// Entities loaded in the current table.
    pub fn count(&self) -> (n: usize)
        ensures
            n == self.rows.len(),
    {
        self.rows.len()
    }

    /// The entity at a loaded row.
    pub fn entity(&self, w: &crate::world::World, i: usize) -> (r: Option<u64>)
        requires
            w.wf(),
        ensures
            self.active && self.spec_loaded(*w) && i < self.rows.len() ==> r == Some(
                w.tables[self.cur_table as int].entities@[self.rows@[i as int] as int],
            ) && w.spec_alive(r->Some_0),
            !self.active || i >= self.rows.len() ==> r is None,
            r is Some ==> self.active && i < self.rows.len(),
    {
        if !self.active || i >= self.rows.len() {
            return None;
        }
        if self.cur_table >= w.tables.len() {
            return None;
        }
        let row = self.rows[i];
        if row >= w.tables[self.cur_table].entities.len() {
            return None;
        }
        proof {
            if self.spec_loaded(*w) {
                assert(w.row_backed(self.cur_table as int, row as int));
                crate::entity::lemma_id_parts(
                    w.tables[self.cur_table as int].entities@[row as int],
                );
            }
        }
        Some(w.tables[self.cur_table].entities[row])
    }

    /// Whether the term at `index` matched the loaded table: an optional
    /// term that was absent, or a negated term, reports false.
    pub fn has(&self, index: usize) -> (r: bool)
        ensures
            r == (index < self.matched.len() && self.matched@[index as int] != 0),
    {
        index < self.matched.len() && self.matched[index] != 0
    }

    /// Whether the concrete id the term at `index` matched in the loaded
    /// table is `id` — for a wildcard term, the id actually present.
    pub fn check_id(&self, id: u64, index: usize) -> (r: bool)
        ensures
            r == (index < self.matched.len() && self.matched@[index as int] == id && id != 0),
    {
        index < self.matched.len() && self.matched[index] == id && id != 0
    }

    /// The fixed source entity of a term; nothing for a term matched on the
    /// table's own entities.
    pub fn source(&self, index: usize) -> (r: Option<u64>)
        ensures
            match r {
                Some(f) => index < self.query.terms.len() && self.query.terms@[index as int].src
                    == TermSrc::SrcFixed(f),
                None => index >= self.query.terms.len() || self.query.terms@[index as int].src
                    is SrcThis,
            },
    {
        if index >= self.query.terms.len() {
            return None;
        }
        match self.query.terms[index].src {
            TermSrc::SrcThis => None,
            TermSrc::SrcFixed(f) => Some(f),
        }
    }

    /// Reads the value the term at `index` yields for a loaded row: the
    /// matched component on the row's entity, or on the term's fixed
    /// source entity.  Nothing exactly when the term did not match the
    /// loaded table (optional and absent, or negated), which callers must
    /// check before use.  The iterator must hold a table loaded from this
    /// world, the term index and a this-source row must be in range, and a
    /// matched term must carry data — a tag's column cannot be read.
    pub fn field(&self, w: &crate::world::World, index: usize, i: usize) -> (r: Option<Vec<u64>>)
        requires
            w.wf(),
            self.active,
            self.spec_loaded(*w),
            index < self.query.terms.len(),
            self.query.terms@[index as int].src is SrcThis ==> i < self.rows.len(),
            self.matched@[index as int] != 0 ==> w.registry.spec_words_of_id(
                self.matched@[index as int],
            ) > 0,
        ensures
            (r is Some) == (self.matched@[index as int] != 0),
            match r {
                Some(v) => ({
                    let ent = self.spec_field_entity(*w, index as int, i as int);
                    let m = self.matched@[index as int];
                    &&& w.spec_has(ent, m)
                    &&& v@ == w.spec_value(ent, m)
                }),
                None => true,
            },
    {
        if !self.active || index >= self.matched.len() || index >= self.query.terms.len() {
            return None;
        }
        let m = self.matched[index];
        if m == 0 {
            return None;
        }
        let ghost tty = spec_term_ty(
            *w,
            self.query.terms@[index as int],
            w.tables[self.cur_table as int].ids@,
        );
        proof {
            assert(m == spec_matched_alt_from(self.query.terms@[index as int].ids@, tty, 0));
            lemma_matched_in_ty(self.query.terms@[index as int].ids@, tty, 0);
            assert(tty.contains(m));
        }
        match self.query.terms[index].src {
            TermSrc::SrcFixed(f) => {
                proof {
                    assert(w.spec_alive(f)) by {
                        if !w.spec_alive(f) {
                            assert(tty =~= Seq::<u64>::empty());
                        }
                    }
                    assert(w.spec_type_of(f).contains(m));
                }
                w.get_id(f, m)
            },
            TermSrc::SrcThis => {
                match self.entity(w, i) {
                    Some(e) => {
                        proof {
                            let row = self.rows@[i as int] as int;
                            assert(w.row_backed(self.cur_table as int, row));
                            assert(w.spec_table_of(e) == self.cur_table as int);
                            assert(w.spec_type_of(e).contains(m));
                        }
                        w.get_id(e, m)
                    },
                    None => {
                        proof {
                            assert(false);
                        }
                        None
                    },
                }
            },
        }
    }

    /// The entity a term's field at row `i` comes from.
    pub open spec fn spec_field_entity(self, w: crate::world::World, index: int, i: int) -> u64 {
        match self.query.terms@[index].src {
            TermSrc::SrcFixed(f) => f,
            TermSrc::SrcThis => w.tables[self.cur_table as int].entities@[self.rows@[i] as int],
        }
    }
}

/// Swap-removing an element splits a sequence's multiset.
pub proof fn lemma_swap_remove_multiset(s: Seq<usize>, i: int)
    requires
        0 <= i < s.len(),
    ensures
        s.map_values(|r: usize| r as int).to_multiset() == spec_swap_removed(s, i).map_values(
            |r: usize| r as int,
        ).to_multiset().insert(s[i] as int),
{
    broadcast use vstd::seq_lib::group_to_multiset_ensures;

    let mv = |r: usize| r as int;
    let m = s.map_values(mv);
    let srm = spec_swap_removed(s, i).map_values(mv);
    assert(srm =~= spec_swap_removed(m, i));
    let upd = m.update(i, m.last());
    lemma_to_multiset_update(m, i, m.last());
    assert(upd.drop_last() =~= spec_swap_removed(m, i));
    assert(upd =~= upd.drop_last().push(upd.last()));
    assert(upd.drop_last().push(upd.last()).to_multiset() == upd.drop_last().to_multiset().insert(
        upd.last(),
    ));
    assert(upd.last() == m.last());
    assert(m.to_multiset().contains(m[i])) by {
        assert(m.contains(m[i]));
    }
    assert(srm.to_multiset().insert(upd.last()) == m.to_multiset().remove(m[i]).insert(m.last()));
    assert(srm.to_multiset() =~= m.to_multiset().remove(m[i])) by {
        broadcast use vstd::multiset::group_multiset_axioms;

        assert forall|x: int| srm.to_multiset().count(x) == m.to_multiset().remove(m[i]).count(
            x,
        ) by {
            assert(srm.to_multiset().insert(m.last()).count(x) == m.to_multiset().remove(
                m[i],
            ).insert(m.last()).count(x));
        }
    }
    assert(srm.to_multiset().insert(m[i]) =~= m.to_multiset()) by {
        broadcast use vstd::multiset::group_multiset_axioms;

    }
}

/// The multiset of an updated sequence: one copy of the old element leaves,
/// one of the new arrives.
pub proof fn lemma_to_multiset_update(s: Seq<int>, i: int, v: int)
    requires
        0 <= i < s.len(),
    ensures
        s.update(i, v).to_multiset() =~= s.to_multiset().remove(s[i]).insert(v),
    decreases s.len(),
{
    broadcast use vstd::seq_lib::group_to_multiset_ensures;

    if i == s.len() - 1 {
        let d = s.drop_last();
        assert(s =~= d.push(s.last()));
        assert(s.update(i, v) =~= d.push(v));
        assert(s.to_multiset() == d.push(s.last()).to_multiset());
        assert(d.push(s.last()).to_multiset() == d.to_multiset().insert(s[i]));
        assert(d.push(v).to_multiset() == d.to_multiset().insert(v));
        assert(d.to_multiset().insert(v) =~= d.to_multiset().insert(s[i]).remove(s[i]).insert(v));
    } else {
        let d = s.drop_last();
        lemma_to_multiset_update(d, i, v);
        assert(s.update(i, v).drop_last() =~= d.update(i, v));
        assert(s.update(i, v) =~= d.update(i, v).push(s.last()));
        assert(d.update(i, v).push(s.last()).to_multiset() == d.update(i, v).to_multiset().insert(
            s.last(),
        ));
        assert(s =~= d.push(s.last()));
        assert(s.to_multiset() == d.to_multiset().insert(s.last()));
        assert(d[i] == s[i]);
        assert(d.to_multiset().remove(s[i]).insert(v).insert(s.last()) =~= d.to_multiset().insert(
            s.last(),
        ).remove(s[i]).insert(v)) by {
            assert(d.to_multiset().contains(d[i])) by {
                assert(d.contains(d[i]));
            }
        }
    }
}

} // verus!
