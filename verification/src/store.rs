//! Table lookup and entity migration.
//!
//! Table creation is memoized by type: looking a sorted id-set up either
//! finds the one existing table with that type or appends a fresh empty one,
//! so table identity stays a pure function of the id-set.  Migration moves
//! one entity's row between tables, copying the values of shared columns,
//! zero-initialising new ones, and repairing the record of the entity that
//! the swap-remove moved into the vacated row.

use vstd::prelude::*;

use crate::entity::{spec_entity_id, spec_gen_part, spec_index_part};
use crate::table::{
    copy_words, lemma_col_index_props, lemma_col_index_same_ids, spec_col_index_from,
    spec_sorted_strict, spec_swap_removed, zero_words, Table,
};
use crate::world::{spec_same_support, spec_zeros, World};

verus! {

/// The value the entity `e` holds for `id` after moving into table `dst`:
/// its old value where the old table had the column, zeros where the column
/// is new, nothing where `dst` has no column for `id`.
pub open spec fn spec_migrated_value(pre: World, e: u64, dst: int, id: u64) -> Seq<u64> {
    match spec_col_index_from(pre.tables[dst].cols@, id, 0) {
        Some(c) => if spec_col_index_from(
            pre.tables[pre.spec_table_of(e)].cols@,
            id,
            0,
        ) is Some {
            pre.spec_value(e, id)
        } else {
            spec_zeros(pre.tables[dst].cols[c].words as int)
        },
        None => Seq::empty(),
    }
}

impl World {
    /// Finds the table whose type is exactly `ids`, creating it empty if no
    /// table has that type yet.
    pub fn find_or_create_table(&mut self, ids: Vec<u64>) -> (t: usize)
        requires
            old(self).wf(),
            spec_sorted_strict(ids@),
        ensures
            final(self).wf(),
            t < final(self).tables.len(),
            final(self).tables[t as int].ids@ == ids@,
            final(self).tables.len() >= old(self).tables.len(),
            forall|i: int|
                0 <= i < old(self).tables.len() ==> #[trigger] final(self).tables[i] == old(
                    self,
                ).tables[i],
            t as int >= old(self).tables.len() ==> final(self).tables.len() == old(
                self,
            ).tables.len() + 1 && final(self).tables[t as int].entities.len() == 0,
            (t as int) < old(self).tables.len() ==> final(self).tables@ == old(self).tables@,
            final(self).recs == old(self).recs,
            final(self).free == old(self).free,
            final(self).drop_log == old(self).drop_log,
            spec_same_support(*old(self), *final(self)),
    {
        let n = self.tables.len();
        let mut t: usize = 0;
        while t < n
            invariant
                *self == *old(self),
                old(self).wf(),
                t <= n,
                n == self.tables.len(),
                forall|j: int| 0 <= j < t ==> self.tables[j].ids@ != ids@,
            decreases n - t,
        {
            if self.tables[t].ids == ids {
                proof {
                    assert(self.tables[t as int].ids@ =~= ids@);
                }
                return t;
            }
            proof {
                if self.tables[t as int].ids@ == ids@ {
                    assert(self.tables[t as int].ids =~= ids);
                }
            }
            t = t + 1;
        }
        let table = Table::new(&self.registry, ids);
        self.tables.push(table);
        proof {
            let post = *self;
            let pre = *old(self);
            assert forall|t1: int, t2: int|
                0 <= t1 < t2 < post.tables.len() implies post.tables[t1].ids@
                != post.tables[t2].ids@ by {
                if t2 == post.tables.len() - 1 {
                    assert(post.tables[t1] == pre.tables[t1]);
                }
            }
            assert forall|tt: int, r: int|
                0 <= tt < post.tables.len() && 0 <= r
                    < post.tables[tt].entities.len() implies #[trigger] post.row_backed(
                tt,
                r,
            ) by {
                assert(tt < pre.tables.len());
                assert(pre.row_backed(tt, r));
            }
        }
        n
    }

    /// Moves the entity recorded at index `idx` into table `dst`, copying
    /// shared column values, zero-filling new columns and dropping values of
    /// columns `dst` lacks.  The row left behind is swap-removed and the
    /// record of the entity moved into its place is repaired.
    #[verifier::rlimit(80)]
    pub fn migrate_row(&mut self, idx: usize, dst: usize)
        requires
            old(self).wf(),
            0 < idx < old(self).recs.len(),
            old(self).recs[idx as int].alive,
            dst < old(self).tables.len(),
            dst as int != old(self).recs[idx as int].table as int,
        ensures
            final(self).wf(),
            ({
                let e = spec_entity_id(old(self).recs[idx as int].gen as int, idx as int) as u64;
                &&& final(self).spec_alive(e)
                &&& final(self).spec_table_of(e) == dst as int
                &&& final(self).spec_type_of(e) == old(self).tables[dst as int].ids@
                &&& forall|id: u64|
                    final(self).spec_value(e, id) == spec_migrated_value(
                        *old(self),
                        e,
                        dst as int,
                        id,
                    )
            }),
            final(self).recs.len() == old(self).recs.len(),
            forall|j: int|
                0 <= j < old(self).recs.len() ==> {
                    &&& (#[trigger] final(self).recs[j]).alive == old(self).recs[j].alive
                    &&& final(self).recs[j].gen == old(self).recs[j].gen
                    &&& final(self).recs[j].name == old(self).recs[j].name
                    &&& final(self).recs[j].enabled == old(self).recs[j].enabled
                    &&& final(self).recs[j].disabled_ids == old(self).recs[j].disabled_ids
                },
            forall|x: u64| final(self).spec_alive(x) == old(self).spec_alive(x),
            forall|x: u64|
                old(self).spec_alive(x) && spec_index_part(x) != idx as int
                    ==> #[trigger] final(self).spec_type_of(x) == old(self).spec_type_of(x),
            forall|x: u64, id: u64|
                old(self).spec_alive(x) && spec_index_part(x) != idx as int
                    ==> #[trigger] final(self).spec_value(x, id) == old(self).spec_value(x, id),
            final(self).tables.len() == old(self).tables.len(),
            forall|t: int|
                0 <= t < old(self).tables.len() ==> (#[trigger] final(self).tables[t]).ids == old(
                    self,
                ).tables[t].ids,
            final(self).free == old(self).free,
            final(self).drop_log == old(self).drop_log,
            spec_same_support(*old(self), *final(self)),
    {
        let ghost pre = *old(self);
        let src = self.recs[idx].table;
        let r1 = self.recs[idx].row;
        let e = self.tables[src].entities[r1];
        proof {
            assert(pre.row_backed(src as int, r1 as int));
            assert(spec_index_part(e) == idx as int);
            assert(e == spec_entity_id(pre.recs[idx as int].gen as int, idx as int) as u64);
        }
        // Gather the new row: shared columns keep their value, new ones are
        // zero-filled.
        let dst_ncols = self.tables[dst].cols.len();
        let mut vals: Vec<Vec<u64>> = Vec::new();
        let mut c: usize = 0;
        while c < dst_ncols
            invariant
                *self == pre,
                pre.wf(),
                c <= dst_ncols,
                dst < pre.tables.len(),
                dst_ncols == pre.tables[dst as int].cols.len(),
                0 < idx < pre.recs.len(),
                pre.recs[idx as int].alive,
                src as int == pre.recs[idx as int].table as int,
                r1 as int == pre.recs[idx as int].row as int,
                dst as int != src as int,
                spec_index_part(e) == idx as int,
                pre.spec_table_of(e) == src as int,
                pre.spec_row_of(e) == r1 as int,
                vals.len() == c,
                forall|j: int|
                    0 <= j < c ==> (#[trigger] vals[j])@ == spec_migrated_value(
                        pre,
                        e,
                        dst as int,
                        pre.tables[dst as int].cols[j].id,
                    ),
                forall|j: int|
                    0 <= j < c ==> (#[trigger] vals[j])@.len() == pre.tables[
                        dst as int
                    ].cols[j].words,
            decreases dst_ncols - c,
        {
            let id_c = self.tables[dst].cols[c].id;
            let w_c = self.tables[dst].cols[c].words;
            proof {
                lemma_col_index_found_for_distinct(pre.tables[dst as int].cols@, c as int);
            }
            let v = match self.tables[src].find_col(id_c) {
                Some(c1) => {
                    proof {
                        assert(pre.tables[src as int].cols[c1 as int].words
                            == pre.registry.spec_words_of_id(id_c));
                        assert(pre.tables[dst as int].cols[c as int].words
                            == pre.registry.spec_words_of_id(id_c));
                    }
                    copy_words(&self.tables[src].cols[c1].rows[r1])
                },
                None => zero_words(w_c),
            };
            vals.push(v);
            c = c + 1;
        }
        // Install the row in the destination table.
        let new_row = self.tables[dst].entities.len();
        self.tables[dst].push_row(e, vals);
        self.recs[idx].table = dst;
        self.recs[idx].row = new_row;
        // Vacate the old row; the last row of the source table moves into
        // its place, and that entity's record is repaired.
        let last_r = self.tables[src].entities.len() - 1;
        let moved_e = self.tables[src].entities[last_r];
        proof {
            assert(pre.row_backed(src as int, last_r as int));
        }
        self.tables[src].swap_remove_row(r1);
        if r1 < self.tables[src].entities.len() {
            let mi = crate::entity::index_part(moved_e);
            proof {
                assert(spec_index_part(moved_e) == mi as int);
                assert(mi as int != idx as int);
            }
            self.recs[mi as usize].row = r1;
        }
        proof {
            let post = *self;
            let idxi = idx as int;
            let srci = src as int;
            let dsti = dst as int;
            let r1i = r1 as int;
            let lastr = last_r as int;
            let swapped = r1i < post.tables[srci].entities.len();
            let mi = spec_index_part(moved_e);
            let oldsrc = pre.tables[srci];
            let olddst = pre.tables[dsti];
            let newsrc = post.tables[srci];
            let newdst = post.tables[dsti];
            assert(pre.row_backed(srci, lastr));
            assert(mi != idxi || r1i == lastr);
            // Tables other than source and destination are untouched.
            assert(forall|t: int|
                0 <= t < post.tables.len() && t != srci && t != dsti ==> post.tables[t]
                    == pre.tables[t]);
            // Column lookups in source and destination are unchanged.
            assert forall|id: u64| #[trigger]
                spec_col_index_from(newdst.cols@, id, 0) == spec_col_index_from(
                    olddst.cols@,
                    id,
                    0,
                ) by {
                lemma_col_index_same_ids(newdst.cols@, olddst.cols@, id, 0);
            }
            assert forall|id: u64| #[trigger]
                spec_col_index_from(newsrc.cols@, id, 0) == spec_col_index_from(
                    oldsrc.cols@,
                    id,
                    0,
                ) by {
                lemma_col_index_same_ids(newsrc.cols@, oldsrc.cols@, id, 0);
            }
            // Both touched tables stay well-formed.
            assert(newdst.wf(post.registry)) by {
                assert forall|c: int, r: int|
                    0 <= c < newdst.cols.len() && 0 <= r
                        < newdst.entities.len() implies (#[trigger] newdst.cols[c].rows[r]).len()
                    == newdst.cols[c].words by {
                    if r < olddst.entities.len() {
                        assert(newdst.cols[c].rows[r] == olddst.cols[c].rows[r]);
                    } else {
                        assert(newdst.cols[c].rows[r] == vals@[c]);
                    }
                }
            }
            assert(newsrc.wf(post.registry)) by {
                assert forall|c: int, r: int|
                    0 <= c < newsrc.cols.len() && 0 <= r
                        < newsrc.entities.len() implies (#[trigger] newsrc.cols[c].rows[r]).len()
                    == newsrc.cols[c].words by {
                    assert(newsrc.cols[c].rows@ == spec_swap_removed(oldsrc.cols[c].rows@, r1i));
                    if r == r1i {
                        assert(newsrc.cols[c].rows[r] == oldsrc.cols[c].rows[lastr]);
                    } else {
                        assert(newsrc.cols[c].rows[r] == oldsrc.cols[c].rows[r]);
                    }
                }
            }
            assert(post.tables_wf());
            // Rows of entities other than the migrated one are where their
            // records say; both directions of the record/row agreement.
            assert forall|i: int|
                0 <= i < post.recs.len() && (#[trigger] post.recs[i]).alive implies {
                &&& post.recs[i].table < post.tables.len()
                &&& post.recs[i].row < post.tables[post.recs[i].table as int].entities.len()
                &&& post.tables[post.recs[i].table as int].entities[post.recs[i].row as int]
                    == spec_entity_id(post.recs[i].gen as int, i) as u64
            } by {
                if i == idxi {
                    assert(newdst.entities[new_row as int] == e);
                } else if swapped && i == mi {
                    assert(newsrc.entities[r1i] == moved_e);
                } else {
                    assert(post.recs[i] == pre.recs[i]);
                    let t = pre.recs[i].table as int;
                    let r = pre.recs[i].row as int;
                    assert(pre.row_backed(t, r));
                    let x = pre.tables[t].entities[r];
                    assert(spec_index_part(x) == i);
                    if t == srci {
                        assert(r != r1i) by {
                            if r == r1i {
                                assert(pre.row_backed(srci, r1i));
                            }
                        }
                        assert(r != lastr) by {
                            if r == lastr {
                                assert(spec_index_part(moved_e) == i);
                            }
                        }
                        assert(newsrc.entities[r] == oldsrc.entities[r]);
                    } else if t == dsti {
                        assert(newdst.entities[r] == olddst.entities[r]);
                    }
                }
            }
            assert forall|t: int, r: int|
                0 <= t < post.tables.len() && 0 <= r
                    < post.tables[t].entities.len() implies #[trigger] post.row_backed(t, r) by {
                if t == dsti && r == olddst.entities.len() {
                    assert(newdst.entities[r] == e);
                } else if t == srci && swapped && r == r1i {
                    assert(newsrc.entities[r] == moved_e);
                    assert(pre.row_backed(srci, lastr));
                } else {
                    let x = post.tables[t].entities[r];
                    if t == srci {
                        assert(x == oldsrc.entities[r]);
                    } else if t == dsti {
                        assert(x == olddst.entities[r]);
                    }
                    assert(pre.row_backed(t, r));
                    let ix = spec_index_part(x);
                    assert(ix != idxi) by {
                        if ix == idxi {
                            assert(pre.recs[idxi].table as int == t && pre.recs[idxi].row as int
                                == r);
                        }
                    }
                    if swapped && ix == mi {
                        assert(pre.recs[mi].table as int == srci && pre.recs[mi].row as int
                            == lastr);
                        assert(t == srci && r == lastr);
                        assert(r < newsrc.entities.len());
                        assert(false);
                    }
                    assert(post.recs[ix] == pre.recs[ix]);
                }
            }
            assert(post.recs_wf());
            assert(post.free_wf());
            assert(post.wf());
            // The migrated entity's new placement and values.
            assert(post.spec_alive(e));
            assert(post.spec_table_of(e) == dsti);
            assert(post.spec_type_of(e) == olddst.ids@);
            assert forall|id: u64| #[trigger] post.spec_value(e, id) == spec_migrated_value(
                pre,
                e,
                dsti,
                id,
            ) by {
                match spec_col_index_from(olddst.cols@, id, 0) {
                    Some(cc) => {
                        lemma_col_index_props(olddst.cols@, id, 0);
                        assert(newdst.cols[cc].rows[new_row as int] == vals@[cc]);
                        assert(vals@[cc]@ == spec_migrated_value(
                            pre,
                            e,
                            dsti,
                            olddst.cols[cc].id,
                        ));
                    },
                    None => {},
                }
            }
            // Everything about other entities is unchanged.
            assert forall|x: u64|
                pre.spec_alive(x) && spec_index_part(x) != idxi implies #[trigger] post.spec_type_of(
                x,
            ) == pre.spec_type_of(x) by {
                let ix = spec_index_part(x);
                assert(post.recs[ix].table == pre.recs[ix].table);
            }
            assert forall|x: u64, id: u64|
                pre.spec_alive(x) && spec_index_part(x) != idxi implies #[trigger] post.spec_value(
                x,
                id,
            ) == pre.spec_value(x, id) by {
                let ix = spec_index_part(x);
                let t = pre.recs[ix].table as int;
                let r = pre.recs[ix].row as int;
                assert(pre.row_backed(t, r));
                if t == srci {
                    if swapped && ix == mi {
                        assert(post.recs[ix].row as int == r1i);
                        match spec_col_index_from(oldsrc.cols@, id, 0) {
                            Some(cc) => {
                                lemma_col_index_props(oldsrc.cols@, id, 0);
                                assert(newsrc.cols[cc].rows[r1i] == oldsrc.cols[cc].rows[lastr]);
                            },
                            None => {},
                        }
                    } else {
                        assert(r != r1i) by {
                            if r == r1i {
                                assert(pre.row_backed(srci, r1i));
                            }
                        }
                        assert(r != lastr) by {
                            if r == lastr {
                                assert(spec_index_part(moved_e) == ix);
                                assert(!swapped ==> r1i == lastr);
                            }
                        }
                        match spec_col_index_from(oldsrc.cols@, id, 0) {
                            Some(cc) => {
                                lemma_col_index_props(oldsrc.cols@, id, 0);
                                assert(newsrc.cols[cc].rows[r] == oldsrc.cols[cc].rows[r]);
                            },
                            None => {},
                        }
                    }
                } else if t == dsti {
                    match spec_col_index_from(olddst.cols@, id, 0) {
                        Some(cc) => {
                            lemma_col_index_props(olddst.cols@, id, 0);
                            assert(newdst.cols[cc].rows[r] == olddst.cols[cc].rows[r]);
                        },
                        None => {},
                    }
                }
            }
        }
    }
}

/// In a table with strictly ordered column ids, position `c` is where its
/// own id is found.
pub proof fn lemma_col_index_found_for_distinct(cols: Seq<crate::table::Column>, c: int)
    requires
        0 <= c < cols.len(),
        forall|c1: int, c2: int| 0 <= c1 < c2 < cols.len() ==> cols[c1].id < cols[c2].id,
    ensures
        spec_col_index_from(cols, cols[c].id, 0) == Some(c),
{
    crate::table::lemma_col_index_found(cols, cols[c].id, c);
}

} // verus!
