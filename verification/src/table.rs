//! Archetype tables.
//!
//! A table owns every entity whose component id-set equals the table's type:
//! an ordered, deduplicated id list.  Each id with a nonzero storage size
//! contributes one column; columns and the entity list stay in lockstep, so
//! one row index addresses an entity together with all of its values.  Rows
//! are removed by swapping with the last row, keeping columns dense.

use vstd::prelude::*;

use crate::component::Registry;

verus! {

/// One column of packed component values.
pub struct Column {
    /// The component or pair id the column stores values for.
    pub id: u64,
    /// Words per value.
    pub words: usize,
    /// One value per row, in lockstep with the table's entity list.
    pub rows: Vec<Vec<u64>>,
}

/// An archetype: the entities that share one exact component id-set.
pub struct Table {
    /// The table's type: its id-set, strictly sorted.
    pub ids: Vec<u64>,
    /// The stored entities; the row index is the position here.
    pub entities: Vec<u64>,
    /// One column per id of the type that carries data.
    pub cols: Vec<Column>,
}

/// Strictly ascending id sequence.
pub open spec fn spec_sorted_strict(s: Seq<u64>) -> bool {
    forall|i: int, j: int| 0 <= i < j < s.len() ==> s[i] < s[j]
}

/// Index of the first column at or after `k` that stores `id`.
pub open spec fn spec_col_index_from(cols: Seq<Column>, id: u64, k: int) -> Option<int>
    decreases cols.len() - k,
{
    if k < 0 || k >= cols.len() {
        None
    } else if cols[k].id == id {
        Some(k)
    } else {
        spec_col_index_from(cols, id, k + 1)
    }
}

/// A sequence after a swap-remove of position `r`.
pub open spec fn spec_swap_removed<T>(s: Seq<T>, r: int) -> Seq<T> {
    s.update(r, s.last()).drop_last()
}

impl Table {
    /// Table well-formedness against the registry that fixes which ids carry
    /// data: the type is strictly sorted, columns are exactly the data ids of
    /// the type in type order, and every column row has the column's width
    /// and the entity list's length.
    pub open spec fn wf(self, reg: Registry) -> bool {
        &&& spec_sorted_strict(self.ids@)
        &&& forall|c: int|
            0 <= c < self.cols.len() ==> {
                &&& self.ids@.contains((#[trigger] self.cols[c]).id)
                &&& self.cols[c].words == reg.spec_words_of_id(self.cols[c].id)
                &&& self.cols[c].words > 0
                &&& self.cols[c].rows.len() == self.entities.len()
            }
        &&& forall|c: int, r: int|
            0 <= c < self.cols.len() && 0 <= r < self.entities.len()
                ==> (#[trigger] self.cols[c].rows[r]).len() == self.cols[c].words
        &&& forall|c1: int, c2: int|
            0 <= c1 < c2 < self.cols.len() ==> self.cols[c1].id < self.cols[c2].id
        &&& forall|i: int|
            0 <= i < self.ids.len() && reg.spec_words_of_id(#[trigger] self.ids[i]) > 0
                ==> spec_col_index_from(self.cols@, self.ids[i], 0) is Some
    }

    /// The value stored for `id` at row `r`; empty when `id` has no column.
    pub open spec fn spec_value_at(self, id: u64, r: int) -> Seq<u64> {
        match spec_col_index_from(self.cols@, id, 0) {
            Some(c) => self.cols[c].rows[r]@,
            None => Seq::empty(),
        }
    }

    /// Whether the table's type contains `id`.
    pub open spec fn spec_has_id(self, id: u64) -> bool {
        self.ids@.contains(id)
    }

    /// The empty archetype: no ids, no columns.
    pub fn empty() -> (t: Table)
        ensures
            t.ids@ == Seq::<u64>::empty(),
            t.entities@ == Seq::<u64>::empty(),
            t.cols@ == Seq::<Column>::empty(),
            forall|reg: Registry| t.wf(reg),
    {
        Table { ids: Vec::new(), entities: Vec::new(), cols: Vec::new() }
    }

    /// Builds the table for a sorted id-set, with no entities yet.
    pub fn new(reg: &Registry, ids: Vec<u64>) -> (t: Table)
        requires
            spec_sorted_strict(ids@),
        ensures
            t.wf(*reg),
            t.ids@ == ids@,
            t.entities@ == Seq::<u64>::empty(),
            forall|c: int| 0 <= c < t.cols.len() ==> (#[trigger] t.cols[c]).rows.len() == 0,
    {
        let mut cols: Vec<Column> = Vec::new();
        let n = ids.len();
        let mut i: usize = 0;
        while i < n
            invariant
                i <= n,
                n == ids.len(),
                spec_sorted_strict(ids@),
                forall|c: int|
                    0 <= c < cols.len() ==> {
                        &&& ids@.take(i as int).contains((#[trigger] cols[c]).id)
                        &&& cols[c].words == reg.spec_words_of_id(cols[c].id)
                        &&& cols[c].words > 0
                        &&& cols[c].rows.len() == 0
                    },
                forall|c1: int, c2: int| 0 <= c1 < c2 < cols.len() ==> cols[c1].id < cols[c2].id,
                forall|c: int|
                    0 <= c < cols.len() ==> exists|j: int|
                        0 <= j < i && ids[j] == (#[trigger] cols[c]).id,
                forall|j: int|
                    0 <= j < i && reg.spec_words_of_id(#[trigger] ids@[j]) > 0
                        ==> spec_col_index_from(cols@, ids@[j], 0) is Some,
            decreases n - i,
        {
            let w = reg.words_of_id(ids[i]);
            if w > 0 {
                let ghost old_cols = cols@;
                cols.push(Column { id: ids[i], words: w, rows: Vec::new() });
                proof {
                    assert(ids@.take(i as int + 1).contains(ids@[i as int])) by {
                        assert(ids@.take(i as int + 1)[i as int] == ids@[i as int]);
                    }
                    assert forall|j: int|
                        0 <= j < i + 1 && reg.spec_words_of_id(#[trigger] ids@[j])
                            > 0 implies spec_col_index_from(cols@, ids@[j], 0) is Some by {
                        if j < i {
                            lemma_col_index_extend(old_cols, cols@.last(), ids@[j]);
                        } else {
                            lemma_col_index_found(cols@, ids@[j], cols@.len() - 1);
                        }
                    }
                }
            }
            proof {
                assert forall|c: int| 0 <= c < cols.len() implies ids@.take(i as int + 1).contains(
                    (#[trigger] cols[c]).id,
                ) by {
                    let j = choose|j: int| 0 <= j <= i && ids[j] == cols[c].id;
                    if ids@.take(i as int).contains(cols[c].id) {
                        let j2 = choose|j2: int|
                            0 <= j2 < i && ids@.take(i as int)[j2] == cols[c].id;
                        assert(ids@.take(i as int + 1)[j2] == cols[c].id);
                    }
                }
            }
            i = i + 1;
        }
        proof {
            assert(ids@.take(n as int) =~= ids@);
        }
        Table { ids, entities: Vec::new(), cols }
    }

    /// Finds the column storing `id`.
    pub fn find_col(&self, id: u64) -> (r: Option<usize>)
        ensures
            match r {
                Some(c) => c < self.cols.len() && self.cols[c as int].id == id
                    && spec_col_index_from(self.cols@, id, 0) == Some(c as int),
                None => spec_col_index_from(self.cols@, id, 0) is None,
            },
    {
        let n = self.cols.len();
        let mut i: usize = 0;
        while i < n
            invariant
                i <= n,
                n == self.cols.len(),
                spec_col_index_from(self.cols@, id, 0) == spec_col_index_from(
                    self.cols@,
                    id,
                    i as int,
                ),
            decreases n - i,
        {
            if self.cols[i].id == id {
                return Some(i);
            }
            i = i + 1;
        }
        None
    }
}

impl Table {
    /// Appends one row: an entity and one value per column.
    pub fn push_row(&mut self, e: u64, vals: Vec<Vec<u64>>)
        requires
            vals.len() == old(self).cols.len(),
        ensures
            final(self).ids == old(self).ids,
            final(self).entities@ == old(self).entities@.push(e),
            final(self).cols.len() == old(self).cols.len(),
            forall|c: int|
                0 <= c < old(self).cols.len() ==> {
                    &&& (#[trigger] final(self).cols[c]).id == old(self).cols[c].id
                    &&& final(self).cols[c].words == old(self).cols[c].words
                    &&& final(self).cols[c].rows@ == old(self).cols[c].rows@.push(vals@[c])
                },
    {
        self.entities.push(e);
        let ghost vals0 = vals@;
        let mut vals = vals;
        let mut c = self.cols.len();
        while c > 0
            invariant
                c <= self.cols.len(),
                vals.len() == c,
                vals0.len() == old(self).cols.len(),
                self.ids == old(self).ids,
                self.entities@ == old(self).entities@.push(e),
                self.cols.len() == old(self).cols.len(),
                vals@ == vals0.take(c as int),
                forall|j: int|
                    0 <= j < c ==> #[trigger] self.cols[j] == old(self).cols[j],
                forall|j: int|
                    c <= j < self.cols.len() ==> {
                        &&& (#[trigger] self.cols[j]).id == old(self).cols[j].id
                        &&& self.cols[j].words == old(self).cols[j].words
                        &&& self.cols[j].rows@ == old(self).cols[j].rows@.push(vals0[j])
                    },
            decreases c,
        {
            c = c - 1;
            match vals.pop() {
                Some(v) => {
                    proof {
                        assert(vals0.take(c as int + 1).last() == vals0[c as int]);
                        assert(vals0.take(c as int + 1).drop_last() =~= vals0.take(c as int));
                    }
                    self.cols[c].rows.push(v);
                },
                None => {
                    proof {
                        assert(false);
                    }
                },
            }
        }
    }

    /// Removes row `r` by swapping the last row into its place.
    pub fn swap_remove_row(&mut self, r: usize)
        requires
            r < old(self).entities.len(),
            forall|c: int|
                0 <= c < old(self).cols.len() ==> (#[trigger] old(self).cols[c]).rows.len() == old(
                    self,
                ).entities.len(),
        ensures
            final(self).ids == old(self).ids,
            final(self).entities@ == spec_swap_removed(old(self).entities@, r as int),
            final(self).cols.len() == old(self).cols.len(),
            forall|c: int|
                0 <= c < old(self).cols.len() ==> {
                    &&& (#[trigger] final(self).cols[c]).id == old(self).cols[c].id
                    &&& final(self).cols[c].words == old(self).cols[c].words
                    &&& final(self).cols[c].rows@ == spec_swap_removed(
                        old(self).cols[c].rows@,
                        r as int,
                    )
                },
    {
        self.entities.swap_remove(r);
        let n = self.cols.len();
        let mut c: usize = 0;
        while c < n
            invariant
                c <= n,
                n == self.cols.len(),
                r < old(self).entities.len(),
                forall|j: int|
                    0 <= j < old(self).cols.len() ==> (#[trigger] old(self).cols[j]).rows.len()
                        == old(self).entities.len(),
                self.ids == old(self).ids,
                self.entities@ == spec_swap_removed(old(self).entities@, r as int),
                self.cols.len() == old(self).cols.len(),
                forall|j: int|
                    0 <= j < c ==> {
                        &&& (#[trigger] self.cols[j]).id == old(self).cols[j].id
                        &&& self.cols[j].words == old(self).cols[j].words
                        &&& self.cols[j].rows@ == spec_swap_removed(
                            old(self).cols[j].rows@,
                            r as int,
                        )
                    },
                forall|j: int|
                    c <= j < n ==> #[trigger] self.cols[j] == old(self).cols[j],
            decreases n - c,
        {
            proof {
                assert(self.cols[c as int] == old(self).cols[c as int]);
                assert(old(self).cols[c as int].rows.len() == old(self).entities.len());
            }
            self.cols[c].rows.swap_remove(r);
            c = c + 1;
        }
    }
}

/// Inserts `id` into a strictly sorted sequence, keeping it sorted.
pub fn insert_sorted(v: &Vec<u64>, id: u64) -> (r: Vec<u64>)
    requires
        spec_sorted_strict(v@),
        !v@.contains(id),
    ensures
        spec_sorted_strict(r@),
        r@.len() == v@.len() + 1,
        forall|x: u64| r@.contains(x) == (v@.contains(x) || x == id),
{
    let n = v.len();
    let mut out: Vec<u64> = Vec::new();
    let mut i: usize = 0;
    while i < n && v[i] < id
        invariant
            i <= n,
            n == v.len(),
            out@ == v@.take(i as int),
            forall|j: int| 0 <= j < i ==> v@[j] < id,
        decreases n - i,
    {
        out.push(v[i]);
        proof {
            assert(out@ =~= v@.take(i as int + 1));
        }
        i = i + 1;
    }
    let ghost k = i as int;
    proof {
        assert forall|j: int| k <= j < n implies v@[j] > id by {
            assert(v@[k] >= id);
            assert(v@[k] != id) by {
                if v@[k] == id {
                    assert(v@.contains(id));
                }
            }
        }
    }
    out.push(id);
    proof {
        assert(out@ =~= v@.take(k) + seq![id] + v@.subrange(k, k));
    }
    while i < n
        invariant
            0 <= k <= i <= n,
            n == v.len(),
            out@ == v@.take(k) + seq![id] + v@.subrange(k, i as int),
        decreases n - i,
    {
        out.push(v[i]);
        proof {
            assert(out@ =~= v@.take(k) + seq![id] + v@.subrange(k, i as int + 1));
        }
        i = i + 1;
    }
    proof {
        let s = out@;
        assert(s =~= v@.take(k) + seq![id] + v@.subrange(k, n as int));
        assert forall|a: int, b: int| 0 <= a < b < s.len() implies s[a] < s[b] by {
            assert(forall|j: int| 0 <= j < k ==> s[j] == v@[j]);
            assert(s[k] == id);
            assert(forall|j: int| k < j < s.len() ==> s[j] == v@[j - 1]);
        }
        assert forall|x: u64| s.contains(x) == (v@.contains(x) || x == id) by {
            if s.contains(x) {
                let j = choose|j: int| 0 <= j < s.len() && s[j] == x;
                if j < k {
                    assert(v@[j] == x);
                } else if j == k {
                } else {
                    assert(v@[j - 1] == x);
                }
            }
            if x == id {
                assert(s[k] == x);
            }
            if v@.contains(x) {
                let j = choose|j: int| 0 <= j < v@.len() && v@[j] == x;
                if j < k {
                    assert(s[j] == x);
                } else {
                    assert(s[j + 1] == x);
                }
            }
        }
    }
    out
}

/// Removes `id` from a strictly sorted sequence.
pub fn remove_sorted(v: &Vec<u64>, id: u64) -> (r: Vec<u64>)
    requires
        spec_sorted_strict(v@),
    ensures
        spec_sorted_strict(r@),
        r@.len() == if v@.contains(id) {
            v@.len() - 1
        } else {
            v@.len() as int
        },
        forall|x: u64| r@.contains(x) == (v@.contains(x) && x != id),
{
    let n = v.len();
    let mut out: Vec<u64> = Vec::new();
    let mut i: usize = 0;
    while i < n
        invariant
            i <= n,
            n == v.len(),
            spec_sorted_strict(v@),
            out@ == v@.take(i as int).filter(|x: u64| x != id),
        decreases n - i,
    {
        proof {
            assert(v@.take(i as int + 1).drop_last() =~= v@.take(i as int));
            reveal_with_fuel(Seq::filter, 2);
            assert(v@.take(i as int + 1).filter(|x: u64| x != id) == if v@[i as int] != id {
                v@.take(i as int).filter(|x: u64| x != id).push(v@[i as int])
            } else {
                v@.take(i as int).filter(|x: u64| x != id)
            });
        }
        if v[i] != id {
            out.push(v[i]);
        }
        i = i + 1;
    }
    proof {
        broadcast use vstd::seq_lib::group_filter_ensures;

        assert(v@.take(n as int) =~= v@);
        let f = |x: u64| x != id;
        let s = v@;
        lemma_filter_subset(s, f);
        assert forall|x: u64| out@.contains(x) == (s.contains(x) && x != id) by {
            if s.contains(x) && x != id {
                let j = choose|j: int| 0 <= j < s.len() && s[j] == x;
                assert(f(s[j]));
            }
        }
        lemma_filter_sorted(s, f);
        if s.contains(id) {
            lemma_filter_out_one(s, id);
        } else {
            assert(s.filter(f) =~= s) by {
                lemma_filter_all(s, f);
            }
        }
    }
    out
}

/// Every element of a filtered sequence occurs in the original.
pub proof fn lemma_filter_subset(s: Seq<u64>, f: spec_fn(u64) -> bool)
    ensures
        forall|x: u64| #[trigger] s.filter(f).contains(x) ==> s.contains(x),
    decreases s.len(),
{
    reveal_with_fuel(Seq::filter, 2);
    if s.len() > 0 {
        let rest = s.drop_last();
        lemma_filter_subset(rest, f);
        assert forall|x: u64| #[trigger] s.filter(f).contains(x) implies s.contains(x) by {
            let fs = s.filter(f);
            let j = choose|j: int| 0 <= j < fs.len() && fs[j] == x;
            if f(s.last()) && j == fs.len() - 1 {
                assert(s[s.len() - 1] == x);
            } else {
                assert(rest.filter(f)[j] == x);
                assert(rest.filter(f).contains(x));
                let i = choose|i: int| 0 <= i < rest.len() && rest[i] == x;
                assert(s[i] == x);
            }
        }
    }
}

/// Filtering preserves strict sortedness.
pub proof fn lemma_filter_sorted(s: Seq<u64>, f: spec_fn(u64) -> bool)
    requires
        spec_sorted_strict(s),
    ensures
        spec_sorted_strict(s.filter(f)),
    decreases s.len(),
{
    broadcast use vstd::seq_lib::group_filter_ensures;

    reveal_with_fuel(Seq::filter, 2);
    if s.len() > 0 {
        let rest = s.drop_last();
        lemma_filter_sorted(rest, f);
        lemma_filter_subset(rest, f);
        if f(s.last()) {
            assert forall|a: int, b: int|
                0 <= a < b < s.filter(f).len() implies s.filter(f)[a] < s.filter(f)[b] by {
                if b == s.filter(f).len() - 1 {
                    let x = s.filter(f)[a];
                    assert(rest.filter(f).contains(x));
                    assert(rest.contains(x));
                    let j = choose|j: int| 0 <= j < rest.len() && rest[j] == x;
                    assert(s[j] == x);
                    assert(x < s.last());
                }
            }
        }
    }
}

/// Filtering one occurring element out of a distinct sequence drops exactly
/// one element.
pub proof fn lemma_filter_out_one(s: Seq<u64>, id: u64)
    requires
        spec_sorted_strict(s),
        s.contains(id),
    ensures
        s.filter(|x: u64| x != id).len() == s.len() - 1,
    decreases s.len(),
{
    reveal_with_fuel(Seq::filter, 2);
    let f = |x: u64| x != id;
    let rest = s.drop_last();
    if s.last() == id {
        assert forall|j: int| 0 <= j < rest.len() implies f(rest[j]) by {
            assert(rest[j] == s[j] && s[j] < s.last());
        }
        lemma_filter_all(rest, f);
    } else {
        assert(rest.contains(id)) by {
            let j = choose|j: int| 0 <= j < s.len() && s[j] == id;
            assert(rest[j] == id);
        }
        lemma_filter_out_one(rest, id);
    }
}

/// Filtering with a predicate that holds everywhere keeps the sequence.
pub proof fn lemma_filter_all(s: Seq<u64>, f: spec_fn(u64) -> bool)
    requires
        forall|j: int| 0 <= j < s.len() ==> f(s[j]),
    ensures
        s.filter(f) =~= s,
    decreases s.len(),
{
    reveal_with_fuel(Seq::filter, 2);
    if s.len() > 0 {
        assert(f(s.last()));
        lemma_filter_all(s.drop_last(), f);
    }
}

/// Two strictly sorted sequences with the same members are equal.
pub proof fn lemma_sorted_same_set(s1: Seq<u64>, s2: Seq<u64>)
    requires
        spec_sorted_strict(s1),
        spec_sorted_strict(s2),
        forall|x: u64| s1.contains(x) == s2.contains(x),
    ensures
        s1 =~= s2,
    decreases s1.len(),
{
    if s1.len() == 0 {
        if s2.len() > 0 {
            assert(s2.contains(s2[0]));
        }
    } else {
        assert(s1.contains(s1[0]));
        assert(s2.len() > 0) by {
            assert(s2.contains(s1[0]));
        }
        assert(s1[0] == s2[0]) by {
            let j = choose|j: int| 0 <= j < s2.len() && s2[j] == s1[0];
            if j > 0 {
                assert(s2[0] < s1[0]);
                assert(s1.contains(s2[0]));
                let i = choose|i: int| 0 <= i < s1.len() && s1[i] == s2[0];
                assert(i > 0);
                assert(s1[0] < s1[i]);
            }
        }
        let r1 = s1.drop_first();
        let r2 = s2.drop_first();
        assert forall|x: u64| r1.contains(x) == r2.contains(x) by {
            lemma_sorted_tail_contains(s1, x);
            lemma_sorted_tail_contains(s2, x);
        }
        lemma_sorted_same_set(r1, r2);
        assert(s1 =~= seq![s1[0]] + r1);
        assert(s2 =~= seq![s2[0]] + r2);
    }
}

/// Membership in the tail of a strictly sorted sequence.
proof fn lemma_sorted_tail_contains(s: Seq<u64>, x: u64)
    requires
        spec_sorted_strict(s),
        s.len() > 0,
    ensures
        s.drop_first().contains(x) == (s.contains(x) && x != s[0]),
{
    let r = s.drop_first();
    if r.contains(x) {
        let j = choose|j: int| 0 <= j < r.len() && r[j] == x;
        assert(s[j + 1] == x);
        assert(s[0] < s[j + 1]);
    }
    if s.contains(x) && x != s[0] {
        let j = choose|j: int| 0 <= j < s.len() && s[j] == x;
        assert(j > 0);
        assert(r[j - 1] == x);
    }
}

/// Extending a column list by a new column keeps earlier ids findable.
pub proof fn lemma_col_index_extend(cols: Seq<Column>, extra: Column, id: u64)
    requires
        spec_col_index_from(cols, id, 0) is Some,
    ensures
        spec_col_index_from(cols.push(extra), id, 0) == spec_col_index_from(cols, id, 0),
{
    lemma_col_index_extend_from(cols, extra, id, 0);
}

proof fn lemma_col_index_extend_from(cols: Seq<Column>, extra: Column, id: u64, k: int)
    requires
        spec_col_index_from(cols, id, k) is Some,
        0 <= k,
    ensures
        spec_col_index_from(cols.push(extra), id, k) == spec_col_index_from(cols, id, k),
    decreases cols.len() - k,
{
    if k < cols.len() {
        if cols[k].id == id {
        } else {
            lemma_col_index_extend_from(cols, extra, id, k + 1);
        }
    }
}

/// A column whose id matches, preceded only by non-matching columns, is
/// the one found.
pub proof fn lemma_col_index_found(cols: Seq<Column>, id: u64, c: int)
    requires
        0 <= c < cols.len(),
        cols[c].id == id,
        forall|j: int| 0 <= j < c ==> cols[j].id != id,
    ensures
        spec_col_index_from(cols, id, 0) == Some(c),
{
    lemma_col_index_found_from(cols, id, c, 0);
}

proof fn lemma_col_index_found_from(cols: Seq<Column>, id: u64, c: int, k: int)
    requires
        0 <= k <= c < cols.len(),
        cols[c].id == id,
        forall|j: int| k <= j < c ==> cols[j].id != id,
    ensures
        spec_col_index_from(cols, id, k) == Some(c),
    decreases cols.len() - k,
{
    if k < c {
        lemma_col_index_found_from(cols, id, c, k + 1);
    }
}

/// Column lookup depends only on the column ids.
pub proof fn lemma_col_index_same_ids(cs1: Seq<Column>, cs2: Seq<Column>, id: u64, k: int)
    requires
        cs1.len() == cs2.len(),
        forall|j: int| 0 <= j < cs1.len() ==> cs1[j].id == cs2[j].id,
    ensures
        spec_col_index_from(cs1, id, k) == spec_col_index_from(cs2, id, k),
    decreases cs1.len() - k,
{
    if 0 <= k < cs1.len() {
        if cs1[k].id != id {
            lemma_col_index_same_ids(cs1, cs2, id, k + 1);
        }
    }
}

/// A found column index lies in range and bears the id.
pub proof fn lemma_col_index_props(cs: Seq<Column>, id: u64, k: int)
    requires
        spec_col_index_from(cs, id, k) is Some,
    ensures
        k <= spec_col_index_from(cs, id, k)->Some_0 < cs.len(),
        cs[spec_col_index_from(cs, id, k)->Some_0].id == id,
    decreases cs.len() - k,
{
    if 0 <= k < cs.len() && cs[k].id != id {
        lemma_col_index_props(cs, id, k + 1);
    }
}

/// Exact membership test on an id vector.
pub fn vec_contains(v: &Vec<u64>, x: u64) -> (r: bool)
    ensures
        r == v@.contains(x),
{
    let n = v.len();
    let mut i: usize = 0;
    while i < n
        invariant
            i <= n,
            n == v.len(),
            forall|j: int| 0 <= j < i ==> v@[j] != x,
        decreases n - i,
    {
        if v[i] == x {
            return true;
        }
        i = i + 1;
    }
    false
}

/// Copies a word vector.
pub fn copy_words(v: &Vec<u64>) -> (r: Vec<u64>)
    ensures
        r@ == v@,
{
    let mut r: Vec<u64> = Vec::new();
    let n = v.len();
    let mut i: usize = 0;
    while i < n
        invariant
            i <= n,
            n == v.len(),
            r@ == v@.take(i as int),
        decreases n - i,
    {
        r.push(v[i]);
        proof {
            assert(r@ =~= v@.take(i as int + 1));
        }
        i = i + 1;
    }
    proof {
        assert(v@.take(n as int) =~= v@);
    }
    r
}

/// A zero-filled word vector of the given width.
pub fn zero_words(words: usize) -> (r: Vec<u64>)
    ensures
        r@.len() == words,
        forall|i: int| 0 <= i < words ==> r@[i] == 0u64,
{
    let mut r: Vec<u64> = Vec::new();
    let mut i: usize = 0;
    while i < words
        invariant
            i <= words,
            r@.len() == i,
            forall|j: int| 0 <= j < i ==> r@[j] == 0u64,
        decreases words - i,
    {
        r.push(0u64);
        i = i + 1;
    }
    r
}

} // verus!
