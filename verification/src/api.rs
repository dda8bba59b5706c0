//! Names, paths, registration and singletons.
//!
//! Entities carry optional names; the hierarchy relationship scopes them,
//! so a dot-separated path names one entity per scope chain.  Components
//! register by symbol, idempotently; the component's entity carries the
//! symbol as its name.  A singleton is a component stored on its own
//! component entity.

use vstd::prelude::*;

use crate::component::{spec_find_id_from, spec_find_symbol_from, CompInfo, Registry};
use crate::entity::{spec_gen_part, spec_index_part, spec_is_pair};
use crate::flecs::CHILD_OF;
use crate::rel::spec_find_pair_target_from;
use crate::world::{spec_same_support, EcsError, World};

verus! {

/// Well-formedness does not depend on names, enable flags or toggle lists.
pub proof fn lemma_wf_fields_aux(a: World, b: World)
    requires
        a.wf(),
        b.tables == a.tables,
        b.free == a.free,
        b.registry == a.registry,
        b.recs.len() == a.recs.len(),
        forall|j: int|
            0 <= j < a.recs.len() ==> {
                &&& (#[trigger] b.recs[j]).alive == a.recs[j].alive
                &&& b.recs[j].gen == a.recs[j].gen
                &&& b.recs[j].table == a.recs[j].table
                &&& b.recs[j].row == a.recs[j].row
            },
    ensures
        b.wf(),
{
    assert forall|t: int, r: int|
        0 <= t < b.tables.len() && 0 <= r < b.tables[t].entities.len() implies #[trigger] b.row_backed(
        t,
        r,
    ) by {
        assert(a.row_backed(t, r));
    }
}

impl World {
    /// The scope an entity's name lives in: the index half of its hierarchy
    /// pair's target, or zero at the root.
    pub open spec fn spec_scope_of(self, e: u64) -> int {
        match spec_find_pair_target_from(self.spec_type_of(e), CHILD_OF as int, 0) {
            Some(t) => t,
            None => 0,
        }
    }

    /// The lowest index at or after `k` of an alive entity named `name`
    /// inside scope `scope`.
    pub open spec fn spec_find_named_from(self, name: Seq<char>, scope: int, k: int) -> Option<
        int,
    >
        decreases self.recs.len() - k,
    {
        if k < 0 || k >= self.recs.len() {
            None
        } else if self.recs[k].alive && match self.recs[k].name {
            Some(n) => n@ == name,
            None => false,
        } && self.spec_scope_of(spec_entity_of_rec(self, k)) == scope {
            Some(k)
        } else {
            self.spec_find_named_from(name, scope, k + 1)
        }
    }

    /// Sets an entity's name; nothing happens on a dead entity.
    pub fn set_name(&mut self, e: u64, name: &str)
        requires
            old(self).wf(),
        ensures
            final(self).wf(),
            !old(self).spec_alive(e) ==> *final(self) == *old(self),
            old(self).spec_alive(e) ==> {
                &&& final(self).spec_name(e) == Some(name@)
                &&& spec_rename_effect(*old(self), *final(self), e)
            },
    {
        let ghost pre = *old(self);
        if !self.is_alive(e) {
            return ;
        }
        let idx = crate::entity::index_part(e) as usize;
        self.recs[idx].name = Some(name.to_owned());
        proof {
            lemma_wf_fields_aux(pre, *self);
        }
    }

    /// An entity's name.
    pub fn name(&self, e: u64) -> (r: Option<String>)
        requires
            self.wf(),
        ensures
            match r {
                Some(n) => self.spec_alive(e) && self.spec_name(e) == Some(n@),
                None => !self.spec_alive(e) || self.spec_name(e) is None,
            },
    {
        if !self.is_alive(e) {
            return None;
        }
        let idx = crate::entity::index_part(e) as usize;
        match &self.recs[idx].name {
            Some(n) => Some(n.clone()),
            None => None,
        }
    }

    /// Enables an entity: default matching sees it again.
    pub fn enable(&mut self, e: u64)
        requires
            old(self).wf(),
        ensures
            final(self).wf(),
            !old(self).spec_alive(e) ==> *final(self) == *old(self),
            old(self).spec_alive(e) ==> final(self).spec_enabled(e) && spec_toggle_effect(
                *old(self),
                *final(self),
                e,
            ),
    {
        let ghost pre = *old(self);
        if !self.is_alive(e) {
            return ;
        }
        let idx = crate::entity::index_part(e) as usize;
        self.recs[idx].enabled = true;
        proof {
            lemma_wf_fields_aux(pre, *self);
        }
    }

    /// Disables an entity: a soft toggle that keeps its table membership
    /// but hides it from default matching.
    pub fn disable(&mut self, e: u64)
        requires
            old(self).wf(),
        ensures
            final(self).wf(),
            !old(self).spec_alive(e) ==> *final(self) == *old(self),
            old(self).spec_alive(e) ==> !final(self).spec_enabled(e) && spec_toggle_effect(
                *old(self),
                *final(self),
                e,
            ),
    {
        let ghost pre = *old(self);
        if !self.is_alive(e) {
            return ;
        }
        let idx = crate::entity::index_part(e) as usize;
        self.recs[idx].enabled = false;
        proof {
            lemma_wf_fields_aux(pre, *self);
        }
    }

    /// Enables or disables one component instance on an entity; the toggle
    /// list records the disabled ones.
    pub fn enable_comp(&mut self, e: u64, id: u64, state: bool)
        requires
            old(self).wf(),
        ensures
            final(self).wf(),
            !old(self).spec_alive(e) ==> *final(self) == *old(self),
            old(self).spec_alive(e) ==> {
                &&& spec_toggle_effect(*old(self), *final(self), e)
                &&& forall|c: u64|
                    #[trigger] final(self).recs[spec_index_part(e)].disabled_ids@.contains(c) == (
                    (old(self).recs[spec_index_part(e)].disabled_ids@.contains(c) && c != id) || (
                    !state && c == id))
            },
    {
        let ghost pre = *old(self);
        if !self.is_alive(e) {
            return ;
        }
        let idx = crate::entity::index_part(e) as usize;
        let old_list = &self.recs[idx].disabled_ids;
        let mut list: Vec<u64> = Vec::new();
        let n = old_list.len();
        let mut i: usize = 0;
        while i < n
            invariant
                i <= n,
                n == old_list.len(),
                forall|c: u64|
                    #[trigger] list@.contains(c) == (old_list@.take(i as int).contains(c) && c
                        != id),
            decreases n - i,
        {
            let ghost l0 = list@;
            let cur = old_list[i];
            if cur != id {
                list.push(cur);
            }
            proof {
                let taken = old_list@.take(i as int + 1);
                assert(taken.drop_last() =~= old_list@.take(i as int));
                assert(taken[i as int] == old_list@[i as int]);
                assert forall|c: u64| #[trigger] list@.contains(c) == (taken.contains(c) && c
                    != id) by {
                    if list@.contains(c) {
                        let j = choose|j: int| 0 <= j < list@.len() && list@[j] == c;
                        if j < l0.len() {
                            assert(l0[j] == c);
                            assert(l0.contains(c));
                            let j2 = choose|j2: int|
                                0 <= j2 < i && #[trigger] old_list@.take(i as int)[j2] == c;
                            assert(taken[j2] == c);
                        } else {
                            assert(c == cur && cur != id);
                            assert(taken[i as int] == c);
                        }
                    }
                    if taken.contains(c) && c != id {
                        let j = choose|j: int|
                            0 <= j < i + 1 && #[trigger] taken[j] == c;
                        if j < i {
                            assert(old_list@.take(i as int)[j] == c);
                            assert(old_list@.take(i as int).contains(c));
                            assert(l0.contains(c));
                            let j3 = choose|j3: int| 0 <= j3 < l0.len() && l0[j3] == c;
                            assert(list@[j3] == c);
                        } else {
                            assert(c == old_list@[i as int]);
                            assert(cur != id);
                            assert(list@[list@.len() - 1] == c);
                        }
                    }
                }
            }
            i = i + 1;
        }
        proof {
            assert(old_list@.take(n as int) =~= old_list@);
        }
        let ghost base = list@;
        if !state {
            list.push(id);
        }
        proof {
            assert forall|c: u64| #[trigger] list@.contains(c) == ((pre.recs[
            idx as int].disabled_ids@.contains(c) && c != id) || (!state && c == id)) by {
                if list@.contains(c) {
                    let j = choose|j: int| 0 <= j < list@.len() && list@[j] == c;
                    if j < base.len() {
                        assert(base[j] == c);
                        assert(base.contains(c));
                    } else {
                        assert(c == id && !state);
                    }
                }
                if base.contains(c) {
                    let j = choose|j: int| 0 <= j < base.len() && base[j] == c;
                    assert(list@[j] == c);
                }
                if !state && c == id {
                    assert(list@[list@.len() - 1] == c);
                }
            }
        }
        self.recs[idx].disabled_ids = list;
        proof {
            lemma_wf_fields_aux(pre, *self);
        }
    }

    /// Whether a component instance on an entity is enabled: it is unless
    /// it was toggled off.
    pub fn is_enabled_comp(&self, e: u64, id: u64) -> (r: bool)
        requires
            self.wf(),
        ensures
            r == (self.spec_alive(e) && !self.recs[spec_index_part(e)].disabled_ids@.contains(id)),
    {
        if !self.is_alive(e) {
            return false;
        }
        let idx = crate::entity::index_part(e) as usize;
        !crate::table::vec_contains(&self.recs[idx].disabled_ids, id)
    }
}

/// The characters of a string slice.
pub fn str_chars(s: &str) -> (v: Vec<char>)
    ensures
        v@ == s@,
{
    let mut v: Vec<char> = Vec::new();
    let mut it = s.chars();
    proof {
        vstd::string::axiom_spec_iter(s);
    }
    loop
        invariant
            v@ + vstd::std_specs::iter::IteratorSpec::remaining(&it) == s@,
            vstd::std_specs::iter::IteratorSpec::decrease(&it) is Some,
        ensures
            v@ == s@,
        decreases vstd::std_specs::iter::IteratorSpec::decrease(&it)->0,
    {
        let ghost old_it = it;
        let step = it.next();
        proof {
            vstd::string::next_postcondition(&old_it, &it, step);
        }
        match step {
            Some(c) => {
                proof {
                    assert(v@.push(c) + vstd::std_specs::iter::IteratorSpec::remaining(&it) =~= v@
                        + vstd::std_specs::iter::IteratorSpec::remaining(&old_it));
                }
                v.push(c);
            },
            None => {
                proof {
                    assert(v@ + vstd::std_specs::iter::IteratorSpec::remaining(&it) =~= v@);
                }
                break;
            },
        }
    }
    v
}

/// Character-vector equality.
pub fn chars_eq(a: &Vec<char>, b: &Vec<char>) -> (r: bool)
    ensures
        r == (a@ == b@),
{
    if a.len() != b.len() {
        proof {
            assert(a@ != b@);
        }
        return false;
    }
    let n = a.len();
    let mut i: usize = 0;
    while i < n
        invariant
            i <= n,
            n == a.len(),
            n == b.len(),
            forall|j: int| 0 <= j < i ==> a@[j] == b@[j],
        decreases n - i,
    {
        if a[i] != b[i] {
            return false;
        }
        i = i + 1;
    }
    proof {
        assert(a@ =~= b@);
    }
    true
}

impl World {
    /// The lowest-indexed alive entity named `name` inside scope `scope`.
    pub(crate) fn find_named(&self, name: &Vec<char>, scope: u64) -> (r: Option<u64>)
        requires
            self.wf(),
        ensures
            match r {
                Some(x) => {
                    &&& self.spec_find_named_from(name@, scope as int, 0) == Some(
                        spec_index_part(x),
                    )
                    &&& x == spec_entity_of_rec(*self, spec_index_part(x))
                    &&& self.spec_alive(x)
                },
                None => self.spec_find_named_from(name@, scope as int, 0) is None,
            },
    {
        let n = self.recs.len();
        let mut k: usize = 0;
        while k < n
            invariant
                self.wf(),
                k <= n,
                n == self.recs.len(),
                self.spec_find_named_from(name@, scope as int, 0) == self.spec_find_named_from(
                    name@,
                    scope as int,
                    k as int,
                ),
            decreases n - k,
        {
            let mut hit = false;
            if self.recs[k].alive {
                match &self.recs[k].name {
                    Some(nm) => {
                        let nm_chars = str_chars(nm.as_str());
                        if chars_eq(&nm_chars, name) {
                            let gen = self.recs[k].gen;
                            let ek = crate::entity::entity_id(gen, k as u64);
                            proof {
                                assert(self.spec_alive(ek));
                                assert(ek == spec_entity_of_rec(*self, k as int));
                            }
                            let t = self.recs[k].table;
                            proof {
                                assert(t as int == self.spec_table_of(ek));
                            }
                            let sc: u64 = match self.find_pair_target(t, crate::flecs::CHILD_OF) {
                                Some(tt) => tt,
                                None => 0,
                            };
                            proof {
                                assert(sc as int == self.spec_scope_of(ek));
                            }
                            if sc == scope {
                                return Some(ek);
                            }
                            hit = true;
                            proof {
                                assert(self.spec_scope_of(spec_entity_of_rec(*self, k as int))
                                    != scope as int);
                            }
                        }
                    },
                    None => {},
                }
            }
            proof {
                if !hit {
                }
            }
            k = k + 1;
        }
        None
    }

    /// Returns the alive root-scope entity with the given name, creating
    /// and naming a fresh one when none exists.
    pub fn entity_named(&mut self, name: &str) -> (r: u64)
        requires
            old(self).wf(),
            old(self).spec_can_alloc(),
        ensures
            final(self).wf(),
            final(self).spec_alive(r),
            final(self).spec_name(r) == Some(name@),
            match old(self).spec_find_named_from(name@, 0, 0) {
                Some(i) => *final(self) == *old(self) && r == spec_entity_of_rec(*old(self), i),
                None => exists|mid: World|
                    crate::world::spec_alloc_effect(*old(self), mid, r) && #[trigger] spec_rename_effect(
                        mid,
                        *final(self),
                        r,
                    ),
            },
    {
        let name_chars = str_chars(name);
        match self.find_named(&name_chars, 0) {
            Some(x) => {
                proof {
                    let i = spec_index_part(x);
                    assert(self.spec_name(x) == Some(name@)) by {
                        assert(self.spec_find_named_from(name@, 0, 0) == Some(i));
                        lemma_find_named_props(*self, name@, 0, 0);
                    }
                }
                x
            },
            None => {
                let e = self.entity();
                let ghost mid = *self;
                self.set_name(e, name);
                e
            },
        }
    }

    /// Looks an entity up by a dot-separated path from the root scope.
    pub fn lookup(&self, path: &str) -> (r: Option<u64>)
        requires
            self.wf(),
        ensures
            r == self.spec_lookup_from(0, path@, 0),
    {
        let chars = str_chars(path);
        self.lookup_segments(0, &chars, 0)
    }

    /// Looks an entity up by a dot-separated path relative to an entity.
    pub fn lookup_path_from(&self, e: u64, path: &str) -> (r: Option<u64>)
        requires
            self.wf(),
        ensures
            r == self.spec_lookup_from(spec_index_part(e), path@, 0),
    {
        let chars = str_chars(path);
        let idx = crate::entity::index_part(e);
        self.lookup_segments(idx, &chars, 0)
    }

    /// The entity a dot-separated path denotes, resolving each segment by
    /// name inside the scope the previous segment reached.
    pub open spec fn spec_lookup_from(self, scope: int, s: Seq<char>, pos: int) -> Option<u64>
        decreases s.len() - pos,
    {
        if pos < 0 || pos > s.len() {
            None
        } else {
            let end0 = match spec_find_char_from(s, '.', pos) {
                Some(d) => d,
                None => s.len() as int,
            };
            let end = if pos <= end0 && end0 < s.len() {
                end0
            } else {
                s.len() as int
            };
            match self.spec_find_named_from(s.subrange(pos, end), scope, 0) {
                Some(i) => if end == s.len() {
                    Some(spec_entity_of_rec(self, i))
                } else {
                    self.spec_lookup_from(i, s, end + 1)
                },
                None => None,
            }
        }
    }

    /// Resolves the path tail starting at `pos` inside `scope`.
    fn lookup_segments(&self, scope: u64, chars: &Vec<char>, pos: usize) -> (r: Option<u64>)
        requires
            self.wf(),
            pos <= chars.len(),
        ensures
            r == self.spec_lookup_from(scope as int, chars@, pos as int),
        decreases chars.len() - pos,
    {
        let n = chars.len();
        let mut end: usize = pos;
        while end < n && chars[end] != '.'
            invariant
                pos <= end <= n,
                n == chars.len(),
                spec_find_char_from(chars@, '.', pos as int) == spec_find_char_from(
                    chars@,
                    '.',
                    end as int,
                ),
            decreases n - end,
        {
            end = end + 1;
        }
        proof {
            if end < n {
                assert(spec_find_char_from(chars@, '.', end as int) == Some(end as int));
            } else {
                assert(spec_find_char_from(chars@, '.', end as int) is None);
            }
        }
        let mut seg: Vec<char> = Vec::new();
        let mut i: usize = pos;
        while i < end
            invariant
                pos <= i <= end <= n,
                n == chars.len(),
                seg@ == chars@.subrange(pos as int, i as int),
            decreases end - i,
        {
            seg.push(chars[i]);
            proof {
                assert(seg@ =~= chars@.subrange(pos as int, i as int + 1));
            }
            i = i + 1;
        }
        match self.find_named(&seg, scope) {
            Some(x) => {
                if end == n {
                    Some(x)
                } else {
                    let idx = crate::entity::index_part(x);
                    self.lookup_segments(idx, chars, end + 1)
                }
            },
            None => None,
        }
    }

    /// The dot-separated path of an entity, built from the names along its
    /// hierarchy chain; unnamed links contribute empty segments.
    pub open spec fn spec_path_chars(self, e: u64, fuel: nat) -> Seq<char>
        decreases fuel,
    {
        if fuel == 0 || !self.spec_alive(e) {
            Seq::empty()
        } else {
            let own = match self.spec_name(e) {
                Some(n) => n,
                None => Seq::<char>::empty(),
            };
            match spec_find_pair_target_from(self.spec_type_of(e), CHILD_OF as int, 0) {
                Some(t) => match self.spec_entity_at(t) {
                    Some(p) => self.spec_path_chars(p, (fuel - 1) as nat) + seq!['.'] + own,
                    None => own,
                },
                None => own,
            }
        }
    }

    /// Renders an entity's dot-separated path.
    pub fn path(&self, e: u64) -> (r: String)
        requires
            self.wf(),
        ensures
            r@ == self.spec_path_chars(e, self.recs.len() as nat),
    {
        let fuel = self.recs.len();
        self.path_rec(e, fuel)
    }

    /// Renders the path with an explicit recursion bound.
    fn path_rec(&self, e: u64, fuel: usize) -> (r: String)
        requires
            self.wf(),
        ensures
            r@ == self.spec_path_chars(e, fuel as nat),
        decreases fuel,
    {
        if fuel == 0 || !self.is_alive(e) {
            return String::new();
        }
        let idx = crate::entity::index_part(e) as usize;
        let own: String = match &self.recs[idx].name {
            Some(n) => n.clone(),
            None => String::new(),
        };
        let t = self.recs[idx].table;
        proof {
            assert(t as int == self.spec_table_of(e));
        }
        match self.find_pair_target(t, CHILD_OF) {
            Some(tgt) => {
                match self.entity_at(tgt) {
                    Some(p) => {
                        let mut base = self.path_rec(p, fuel - 1);
                        proof {
                            reveal_strlit(".");
                        }
                        base.append(".");
                        base.append(own.as_str());
                        proof {
                            assert(base@ =~= self.spec_path_chars(p, (fuel - 1) as nat) + seq![
                                '.',
                            ] + own@);
                        }
                        base
                    },
                    None => own,
                }
            },
            None => own,
        }
    }
}

/// The first occurrence of `c` at or after `k`.
pub open spec fn spec_find_char_from(s: Seq<char>, c: char, k: int) -> Option<int>
    decreases s.len() - k,
{
    if k < 0 || k >= s.len() {
        None
    } else if s[k] == c {
        Some(k)
    } else {
        spec_find_char_from(s, c, k + 1)
    }
}

/// A found name index lies in range, is alive, and bears the name.
pub proof fn lemma_find_named_props(w: World, name: Seq<char>, scope: int, k: int)
    requires
        w.spec_find_named_from(name, scope, k) is Some,
    ensures
        ({
            let i = w.spec_find_named_from(name, scope, k)->Some_0;
            &&& k <= i < w.recs.len()
            &&& w.recs[i].alive
            &&& match w.recs[i].name {
                Some(n) => n@ == name,
                None => false,
            }
        }),
    decreases w.recs.len() - k,
{
    if 0 <= k < w.recs.len() {
        if !(w.recs[k].alive && match w.recs[k].name {
            Some(n) => n@ == name,
            None => false,
        } && w.spec_scope_of(spec_entity_of_rec(w, k)) == scope) {
            lemma_find_named_props(w, name, scope, k + 1);
        }
    }
}

impl World {
    /// Looks a component up by its registration symbol.
    pub fn lookup_symbol(&self, sym: &str) -> (r: Option<u64>)
        requires
            self.wf(),
        ensures
            match r {
                Some(x) => match spec_find_symbol_from(self.registry.comps@, sym@, 0) {
                    Some(i) => x == self.registry.comps[i].id,
                    None => false,
                },
                None => spec_find_symbol_from(self.registry.comps@, sym@, 0) is None,
            },
    {
        match self.registry.find_symbol(sym) {
            Some(i) => Some(self.registry.comps[i].id),
            None => None,
        }
    }

    /// The registered byte size and alignment of a data component; nothing
    /// for a tag or an unregistered id.
    pub fn component_info(&self, id: u64) -> (r: Option<(u32, u32)>)
        requires
            self.wf(),
        ensures
            match r {
                Some(p) => match self.registry.spec_comp(id) {
                    Some(ci) => ci.words > 0 && p.0 == ci.size && p.1 == ci.align,
                    None => false,
                },
                None => match self.registry.spec_comp(id) {
                    Some(ci) => ci.words == 0,
                    None => true,
                },
            },
    {
        match self.registry.find_id(id) {
            Some(i) => {
                let ci = &self.registry.comps[i];
                if ci.words > 0 {
                    Some((ci.size, ci.align))
                } else {
                    None
                }
            },
            None => None,
        }
    }

    /// Registers a component: a named entity carrying storage metadata.
    /// Registration is idempotent by symbol; a second registration that
    /// disagrees on size or alignment is a conflict.  A zero size registers
    /// a tag.
    pub fn component(&mut self, symbol: &str, size: u32, align: u32, needs_drop: bool) -> (r:
        Result<u64, EcsError>)
        requires
            old(self).wf(),
            old(self).spec_can_alloc(),
        ensures
            final(self).wf(),
            spec_register_result(
                *old(self),
                *final(self),
                symbol@,
                size,
                align,
                needs_drop,
                false,
                r,
            ),
    {
        self.register_full(symbol, size, align, needs_drop, false)
    }

    /// Registers a tag: a named zero-size component.
    pub fn tag(&mut self, symbol: &str) -> (r: Result<u64, EcsError>)
        requires
            old(self).wf(),
            old(self).spec_can_alloc(),
        ensures
            final(self).wf(),
            spec_register_result(*old(self), *final(self), symbol@, 0, 0, false, false, r),
    {
        self.register_full(symbol, 0, 0, false, false)
    }

    /// Registers a component whose copy hook derives from cloning.
    pub fn component_clone(&mut self, symbol: &str, size: u32, align: u32, needs_drop: bool) -> (r:
        Result<u64, EcsError>)
        requires
            old(self).wf(),
            old(self).spec_can_alloc(),
        ensures
            final(self).wf(),
            spec_register_result(
                *old(self),
                *final(self),
                symbol@,
                size,
                align,
                needs_drop,
                true,
                r,
            ),
    {
        self.register_full(symbol, size, align, needs_drop, true)
    }

    /// Registration shared by components, tags and clone-copied components.
    fn register_full(
        &mut self,
        symbol: &str,
        size: u32,
        align: u32,
        needs_drop: bool,
        with_copy: bool,
    ) -> (r: Result<u64, EcsError>)
        requires
            old(self).wf(),
            old(self).spec_can_alloc(),
        ensures
            final(self).wf(),
            spec_register_result(
                *old(self),
                *final(self),
                symbol@,
                size,
                align,
                needs_drop,
                with_copy,
                r,
            ),
    {
        let ghost pre = *old(self);
        match self.registry.find_symbol(symbol) {
            Some(i) => {
                let ci = &self.registry.comps[i];
                if ci.size == size && ci.align == align {
                    return Ok(ci.id);
                }
                return Err(EcsError::RegistrationConflict);
            },
            None => {},
        }
        // Check the id the allocator will hand out before touching
        // anything, so a refused registration changes nothing.
        let e0 = self.peek_next_id();
        match self.registry.find_id(e0) {
            Some(_) => {
                return Err(EcsError::RegistrationConflict);
            },
            None => {},
        }
        if size > 0 && self.id_interferes(e0) {
            return Err(EcsError::RegistrationConflict);
        }
        proof {
            assert(!spec_reg_blocked(pre, size));
        }
        let e = self.entity();
        proof {
            assert(e == e0);
        }
        let ghost w1 = *self;
        self.set_name(e, symbol);
        let ghost w2 = *self;
        proof {
            assert(w2.spec_alive(e));
            assert(w2.registry == pre.registry);
        }
        let words64 = (size as u64 + 7) / 8;
        let words = words64 as usize;
        let info = CompInfo {
            id: e,
            symbol: symbol.to_owned(),
            size,
            align,
            words,
            has_dtor: needs_drop && size > 0,
            has_copy: with_copy,
        };
        let ghost old_comps = self.registry.comps@;
        self.registry.comps.push(info);
        proof {
            let post = *self;
            assert(post.registry.comps@.drop_last() =~= old_comps);
            assert(post.registry.wf()) by {
                assert forall|a: int, b: int|
                    0 <= a < b < post.registry.comps.len() implies post.registry.comps[a].id
                    != post.registry.comps[b].id by {
                    if b == post.registry.comps.len() - 1 {
                        crate::component::lemma_find_covers(old_comps, e, a);
                    }
                }
                assert forall|a: int, b: int|
                    0 <= a < b < post.registry.comps.len() implies post.registry.comps[a].symbol@
                    != post.registry.comps[b].symbol@ by {
                    if b == post.registry.comps.len() - 1 {
                        crate::component::lemma_find_symbol_covers(old_comps, symbol@, a);
                    }
                }
            }
            assert forall|id2: u64|
                !spec_id_hits(id2, e) implies #[trigger] post.registry.spec_words_of_id(id2)
                == w2.registry.spec_words_of_id(id2) by {
                lemma_extend_resolution(w2.registry, post.registry, e, id2);
            }
            if size == 0 {
                assert forall|id2: u64|
                    spec_id_hits(id2, e) implies #[trigger] post.registry.spec_words_of_id(id2)
                    == w2.registry.spec_words_of_id(id2) by {
                    lemma_extend_resolution_tag(w2.registry, post.registry, e, id2);
                }
            }
            assert forall|t: int|
                0 <= t < post.tables.len() implies (#[trigger] post.tables[t]).wf(
                post.registry,
            ) by {
                assert(w2.tables[t].wf(w2.registry));
                assert(w2.tables[t].ids == pre.tables[t].ids);
                assert forall|c: int|
                    0 <= c < post.tables[t].cols.len() implies post.tables[t].cols[c].words
                    == post.registry.spec_words_of_id(
                    (#[trigger] post.tables[t].cols[c]).id,
                ) by {
                    assert(post.tables[t].ids@.contains(post.tables[t].cols[c].id));
                    let cid = post.tables[t].cols[c].id;
                    if size > 0 {
                        let ii = choose|ii: int|
                            0 <= ii < post.tables[t].ids@.len() && post.tables[t].ids@[ii] == cid;
                        assert(!spec_id_hits(pre.tables[t].ids@[ii], e));
                    }
                }
                assert forall|i2: int|
                    0 <= i2 < post.tables[t].ids.len() && post.registry.spec_words_of_id(
                        #[trigger] post.tables[t].ids[i2],
                    ) > 0 implies crate::table::spec_col_index_from(
                    post.tables[t].cols@,
                    post.tables[t].ids[i2],
                    0,
                ) is Some by {
                    if size > 0 {
                        assert(!spec_id_hits(pre.tables[t].ids@[i2], e));
                    }
                }
            }
            assert(post.tables_wf());
            assert forall|t: int, r2: int|
                0 <= t < post.tables.len() && 0 <= r2
                    < post.tables[t].entities.len() implies #[trigger] post.row_backed(t, r2) by {
                assert(w2.row_backed(t, r2));
            }
            assert(post.recs_wf());
            assert(post.free_wf());
            assert(post.wf());
            assert forall|x: u64|
                pre.spec_alive(x) implies spec_index_part(x) != spec_index_part(e) by {
                if spec_index_part(x) == spec_index_part(e) {
                    assert(w1.spec_alive(x));
                    crate::entity::lemma_id_parts(x);
                    crate::entity::lemma_id_parts(e);
                    assert(x == e);
                    assert(!pre.spec_alive(e));
                }
            }
            assert forall|x: u64, c: u64| pre.spec_alive(x) implies #[trigger] post.spec_value(
                x,
                c,
            ) == pre.spec_value(x, c) by {
                assert(spec_index_part(x) != spec_index_part(e));
                assert(w1.spec_alive(x));
                assert(w1.spec_value(x, c) == pre.spec_value(x, c));
                assert(w2.spec_value(x, c) == w1.spec_value(x, c)) by {
                    assert(w2.recs[spec_index_part(x)] == w1.recs[spec_index_part(x)]);
                    assert(w2.tables == w1.tables);
                }
            }
            assert forall|x: u64| pre.spec_alive(x) implies #[trigger] post.spec_alive(x)
                && post.spec_type_of(x) == pre.spec_type_of(x) && post.spec_name(x)
                == pre.spec_name(x) by {
                assert(spec_index_part(x) != spec_index_part(e));
                assert(w1.spec_alive(x));
                assert(w1.spec_type_of(x) == pre.spec_type_of(x));
                assert(w1.spec_name(x) == pre.spec_name(x));
                assert(w2.recs[spec_index_part(x)] == w1.recs[spec_index_part(x)]);
                assert(w2.tables == w1.tables);
            }
            assert forall|x: u64|
                #[trigger] post.spec_alive(x) && spec_index_part(x) != spec_index_part(
                    e,
                ) implies pre.spec_alive(x) by {
                assert(w2.recs.len() == w1.recs.len());
                assert(w2.recs[spec_index_part(x)] == w1.recs[spec_index_part(x)]);
                assert(w1.spec_alive(x));
            }
            assert(post.tables.len() == pre.tables.len()) by {
                assert(w2.tables == w1.tables);
            }
            assert forall|t: int| 0 <= t < pre.tables.len() implies (#[trigger] post.tables[t]).ids
                == pre.tables[t].ids by {
                assert(w1.tables[t].ids == pre.tables[t].ids);
                assert(w2.tables == w1.tables);
            }
            assert(post.spec_alive(e));
            assert(post.spec_name(e) == Some(symbol@));
            assert(post.spec_type_of(e).len() == 0) by {
                assert(w1.spec_type_of(e).len() == 0);
                assert(w2.recs[spec_index_part(e)].table == w1.recs[spec_index_part(e)].table);
            }
        }
        Ok(e)
    }

    /// The id the next allocation will return, computed without changing
    /// anything.
    fn peek_next_id(&self) -> (r: u64)
        requires
            self.wf(),
            self.spec_can_alloc(),
        ensures
            r == self.spec_next_id(),
    {
        if self.free.len() > 0 {
            let fi = self.free[self.free.len() - 1];
            let gen = self.recs[fi as usize].gen;
            crate::entity::entity_id(gen, fi)
        } else {
            crate::entity::entity_id(0, self.recs.len() as u64)
        }
    }

    /// Whether any stored table id would resolve through a new registry
    /// entry for `e`.
    fn id_interferes(&self, e: u64) -> (r: bool)
        requires
            self.wf(),
        ensures
            r == exists|t: int, i: int|
                0 <= t < self.tables.len() && 0 <= i < self.tables[t].ids.len() && spec_id_hits(
                    #[trigger] self.tables[t].ids@[i],
                    e,
                ),
    {
        let nt = self.tables.len();
        let mut t: usize = 0;
        while t < nt
            invariant
                self.wf(),
                t <= nt,
                nt == self.tables.len(),
                forall|t2: int, i: int|
                    0 <= t2 < t && 0 <= i < self.tables[t2].ids.len() ==> !spec_id_hits(
                        #[trigger] self.tables[t2].ids[i],
                        e,
                    ),
            decreases nt - t,
        {
            let ids = &self.tables[t].ids;
            let n = ids.len();
            let mut i: usize = 0;
            while i < n
                invariant
                    self.wf(),
                    t < nt,
                    nt == self.tables.len(),
                    ids == &self.tables[t as int].ids,
                    i <= n,
                    n == ids.len(),
                    forall|j: int| 0 <= j < i ==> !spec_id_hits(#[trigger] ids@[j], e),
                decreases n - i,
            {
                let x = ids[i];
                let mut hit = x == e;
                if crate::entity::is_pair(x) {
                    let f = crate::entity::pair_first(x);
                    let sc = crate::entity::pair_second(x);
                    if f == e || sc == e {
                        hit = true;
                    }
                }
                if hit {
                    proof {
                        assert(spec_id_hits(self.tables[t as int].ids@[i as int], e));
                    }
                    return true;
                }
                i = i + 1;
            }
            t = t + 1;
        }
        false
    }

    /// Whether the id could name an entity here: it is alive, or its index
    /// is still unallocated so a fresh entity could receive it.
    pub fn is_valid(&self, e: u64) -> (r: bool)
        requires
            self.wf(),
        ensures
            r == (self.spec_alive(e) || (!spec_is_pair(e) && spec_index_part(e)
                >= self.recs.len() && spec_gen_part(e) == 0)),
    {
        if self.is_alive(e) {
            return true;
        }
        if crate::entity::is_pair(e) {
            return false;
        }
        let idx = crate::entity::index_part(e);
        let gen = crate::entity::gen_part(e);
        idx >= self.recs.len() as u64 && gen == 0
    }

    /// The entity's archetype: its component id-set, sorted.
    pub fn archetype(&self, e: u64) -> (r: Vec<u64>)
        requires
            self.wf(),
        ensures
            self.spec_alive(e) ==> r@ == self.spec_type_of(e),
            !self.spec_alive(e) ==> r@.len() == 0,
    {
        if !self.is_alive(e) {
            return Vec::new();
        }
        let idx = crate::entity::index_part(e) as usize;
        let t = self.recs[idx].table;
        proof {
            assert(t as int == self.spec_table_of(e));
        }
        crate::table::copy_words(&self.tables[t].ids)
    }

    /// Writes a plain component value on an entity, with exactly the
    /// meaning of `set_id`.
    pub fn set_comp(&mut self, e: u64, comp: u64, data: Vec<u64>) -> (r: Result<(), EcsError>)
        requires
            old(self).wf(),
        ensures
            final(self).wf(),
            spec_set_id_result(*old(self), *final(self), e, comp, data@, r),
    {
        self.set_id(e, comp, data)
    }

    /// Writes a pair value whose data half is the relationship component,
    /// with exactly the meaning of `set_id` on the pair id.
    pub fn set_first(&mut self, e: u64, first: u64, second: u64, data: Vec<u64>) -> (r: Result<
        (),
        EcsError,
    >)
        requires
            old(self).wf(),
        ensures
            final(self).wf(),
            spec_set_id_result(
                *old(self),
                *final(self),
                e,
                crate::entity::spec_pair(first, second) as u64,
                data@,
                r,
            ),
    {
        let p = crate::entity::make_pair(first, second);
        self.set_id(e, p, data)
    }

    /// Writes a pair value whose data half is the target component, with
    /// exactly the meaning of `set_id` on the pair id.
    pub fn set_second(&mut self, e: u64, first: u64, second: u64, data: Vec<u64>) -> (r: Result<
        (),
        EcsError,
    >)
        requires
            old(self).wf(),
        ensures
            final(self).wf(),
            spec_set_id_result(
                *old(self),
                *final(self),
                e,
                crate::entity::spec_pair(first, second) as u64,
                data@,
                r,
            ),
    {
        let p = crate::entity::make_pair(first, second);
        self.set_id(e, p, data)
    }

    /// Reads a pair value through its relationship half, with exactly the
    /// meaning of `get_id` on the pair id.
    pub fn get_first(&self, e: u64, first: u64, second: u64) -> (r: Option<Vec<u64>>)
        requires
            self.wf(),
        ensures
            spec_get_id_result(*self, e, crate::entity::spec_pair(first, second) as u64, r),
    {
        let p = crate::entity::make_pair(first, second);
        self.get_id(e, p)
    }

    /// Reads a pair value through its target half, with exactly the
    /// meaning of `get_id` on the pair id.
    pub fn get_second(&self, e: u64, first: u64, second: u64) -> (r: Option<Vec<u64>>)
        requires
            self.wf(),
        ensures
            spec_get_id_result(*self, e, crate::entity::spec_pair(first, second) as u64, r),
    {
        let p = crate::entity::make_pair(first, second);
        self.get_id(e, p)
    }

    /// The component entity a singleton lives on: the component id itself.
    pub fn singleton(&self, comp: u64) -> (r: u64)
        ensures
            r == comp,
    {
        comp
    }

    /// Writes a singleton value — the component stored on its own entity —
    /// with exactly the meaning of `set_id` there.
    pub fn singleton_set(&mut self, comp: u64, data: Vec<u64>) -> (r: Result<(), EcsError>)
        requires
            old(self).wf(),
        ensures
            final(self).wf(),
            spec_set_id_result(*old(self), *final(self), comp, comp, data@, r),
    {
        self.set_id(comp, comp, data)
    }

    /// Reads a singleton value.
    pub fn singleton_get(&self, comp: u64) -> (r: Option<Vec<u64>>)
        requires
            self.wf(),
        ensures
            match r {
                Some(v) => self.spec_alive(comp) && v@ == self.spec_value(comp, comp),
                None => !self.spec_alive(comp) || !self.spec_type_of(comp).contains(comp)
                    || self.registry.spec_words_of_id(comp) == 0,
            },
    {
        self.get_id(comp, comp)
    }

    /// Removes a singleton, with exactly the meaning of `remove_id` on the
    /// component's own entity: the value leaves and nothing else changes.
    pub fn singleton_remove(&mut self, comp: u64) -> (r: Result<(), EcsError>)
        requires
            old(self).wf(),
        ensures
            final(self).wf(),
            r is Ok,
            if old(self).spec_deferred() {
                crate::ops::spec_queued(
                    *old(self),
                    *final(self),
                    crate::world::DeferOp::RemoveOp(comp, comp),
                )
            } else if !old(self).spec_alive(comp) || !old(self).spec_type_of(comp).contains(
                comp,
            ) {
                *final(self) == *old(self)
            } else {
                crate::ops::spec_remove_effect(*old(self), *final(self), comp, comp)
            },
    {
        self.remove_id(comp, comp)
    }

    /// Whether a singleton is set.
    pub fn singleton_exists(&self, comp: u64) -> (r: bool)
        requires
            self.wf(),
        ensures
            r == (self.spec_alive(comp) && self.spec_type_of(comp).contains(comp)),
    {
        if !self.is_alive(comp) {
            return false;
        }
        let idx = crate::entity::index_part(comp);
        let t = self.recs[idx as usize].table;
        proof {
            assert(t as int == self.spec_table_of(comp));
        }
        crate::table::vec_contains(&self.tables[t].ids, comp)
    }
}

/// A registration is refused exactly when the symbol is taken with other
/// metadata, or — only on recycled ids left over from generation wraparound
/// — when the id the allocator would hand out is already registered or
/// already occurs inside a stored table type.
pub open spec fn spec_reg_refused(pre: World, sym: Seq<char>, size: u32, align: u32) -> bool {
    match spec_find_symbol_from(pre.registry.comps@, sym, 0) {
        Some(i) => pre.registry.comps[i].size != size || pre.registry.comps[i].align != align,
        None => spec_reg_blocked(pre, size),
    }
}

/// The degenerate allocator-collision cases that block a fresh
/// registration.
pub open spec fn spec_reg_blocked(pre: World, size: u32) -> bool {
    ||| spec_find_id_from(pre.registry.comps@, pre.spec_next_id(), 0) is Some
    ||| (size > 0 && exists|t: int, i: int|
        0 <= t < pre.tables.len() && 0 <= i < pre.tables[t].ids.len() && spec_id_hits(
            #[trigger] pre.tables[t].ids@[i],
            pre.spec_next_id(),
        ))
}

/// The outcome of a registration: refusal happens exactly under
/// [`spec_reg_refused`] and changes nothing; a known symbol with matching
/// metadata returns its id and changes nothing; otherwise a fresh named
/// component entity is created and its registry entry appended, while
/// every existing entity keeps its id-set and values.
pub open spec fn spec_register_result(
    pre: World,
    post: World,
    sym: Seq<char>,
    size: u32,
    align: u32,
    needs_drop: bool,
    with_copy: bool,
    r: Result<u64, EcsError>,
) -> bool {
    &&& (r is Err) == spec_reg_refused(pre, sym, size, align)
    &&& match r {
        Ok(id) => match spec_find_symbol_from(pre.registry.comps@, sym, 0) {
            Some(i) => {
                &&& post == pre
                &&& id == pre.registry.comps[i].id
                &&& pre.registry.comps[i].size == size
                &&& pre.registry.comps[i].align == align
            },
            None => {
                &&& id == pre.spec_next_id()
                &&& post.spec_alive(id)
                &&& !pre.spec_alive(id)
                &&& post.spec_name(id) == Some(sym)
                &&& post.spec_type_of(id).len() == 0
                &&& post.registry.comps@.len() == pre.registry.comps@.len() + 1
                &&& post.registry.comps@.last().id == id
                &&& post.registry.comps@.last().symbol@ == sym
                &&& post.registry.comps@.last().size == size
                &&& post.registry.comps@.last().align == align
                &&& post.registry.comps@.last().words == crate::component::spec_words_for_size(
                    size,
                )
                &&& post.registry.comps@.last().has_dtor == (needs_drop && size > 0)
                &&& post.registry.comps@.last().has_copy == with_copy
                &&& post.registry.comps@.drop_last() == pre.registry.comps@
                &&& post.tables.len() == pre.tables.len()
                &&& forall|t: int|
                    0 <= t < pre.tables.len() ==> (#[trigger] post.tables[t]).ids
                        == pre.tables[t].ids
                &&& post.recs.len() <= pre.recs.len() + 1
                &&& forall|x: u64|
                    pre.spec_alive(x) ==> #[trigger] post.spec_alive(x) && post.spec_type_of(x)
                        == pre.spec_type_of(x) && post.spec_name(x) == pre.spec_name(x)
                &&& forall|x: u64|
                    #[trigger] post.spec_alive(x) && spec_index_part(x) != spec_index_part(id)
                        ==> pre.spec_alive(x)
                &&& forall|x: u64, c: u64|
                    pre.spec_alive(x) ==> #[trigger] post.spec_value(x, c) == pre.spec_value(x, c)
                &&& post.drop_log == pre.drop_log
                &&& post.systems == pre.systems
                &&& post.frame == pre.frame
                &&& post.defer_depth == pre.defer_depth
                &&& post.defer_suspend == pre.defer_suspend
                &&& post.defer_queue == pre.defer_queue
            },
        },
        Err(EcsError::RegistrationConflict) => post == pre,
        Err(_) => false,
    }
}

/// The outcome of writing a value through `set_id` or a wrapper of it: a
/// width mismatch is rejected with nothing changed, a buffered write is
/// queued, a write to a dead entity changes nothing, and otherwise the id
/// joins the entity's id-set holding exactly the written words while
/// everything else keeps its value.
pub open spec fn spec_set_id_result(
    pre: World,
    post: World,
    e: u64,
    id: u64,
    data: Seq<u64>,
    r: Result<(), EcsError>,
) -> bool {
    match r {
        Ok(()) => {
            &&& pre.registry.spec_words_of_id(id) > 0
            &&& data.len() == pre.registry.spec_words_of_id(id)
            &&& if pre.spec_deferred() {
                exists|v: Vec<u64>|
                    v@ == data && #[trigger] crate::ops::spec_queued(
                        pre,
                        post,
                        crate::world::DeferOp::SetOp(e, id, v),
                    )
            } else if !pre.spec_alive(e) {
                post == pre
            } else {
                crate::defer::spec_set_effect(pre, post, e, id, data)
            }
        },
        Err(EcsError::SizeMismatch) => {
            &&& post == pre
            &&& (pre.registry.spec_words_of_id(id) == 0 || data.len()
                != pre.registry.spec_words_of_id(id))
        },
        Err(_) => false,
    }
}

/// The outcome of reading a value through `get_id` or a wrapper of it: the
/// stored words exactly when the entity is alive and carries the data id,
/// nothing otherwise.
pub open spec fn spec_get_id_result(w: World, e: u64, id: u64, r: Option<Vec<u64>>) -> bool {
    match r {
        Some(v) => {
            &&& w.spec_alive(e)
            &&& w.spec_type_of(e).contains(id)
            &&& w.registry.spec_words_of_id(id) > 0
            &&& v@ == w.spec_value(e, id)
        },
        None => !w.spec_alive(e) || !w.spec_type_of(e).contains(id)
            || w.registry.spec_words_of_id(id) == 0,
    }
}

/// Whether `id` would resolve through a registry entry for `e`: it is `e`
/// itself, or a pair one of whose halves is `e`.
pub open spec fn spec_id_hits(id: u64, e: u64) -> bool {
    ||| id == e
    ||| (spec_is_pair(id) && (crate::entity::spec_pair_first(id) == e as int
        || crate::entity::spec_pair_second(id) == e as int))
}

/// Appending a registry entry leaves the resolution of ids that do not hit
/// it unchanged.
pub proof fn lemma_extend_resolution(a: Registry, b: Registry, e: u64, id: u64)
    requires
        b.comps@.len() == a.comps@.len() + 1,
        b.comps@ == a.comps@.push(b.comps@[a.comps@.len() as int]),
        b.comps@[a.comps@.len() as int].id == e,
        !spec_id_hits(id, e),
    ensures
        b.spec_words_of_id(id) == a.spec_words_of_id(id),
        b.spec_dtor_of_id(id) == a.spec_dtor_of_id(id),
{
    let ci = b.comps@[a.comps@.len() as int];
    crate::entity::lemma_pair_parts_small(id);
    let pf = crate::entity::spec_pair_first(id) as u64;
    let ps = crate::entity::spec_pair_second(id) as u64;
    if spec_is_pair(id) {
        assert(pf != e && ps != e);
        lemma_same_comp(a, b, ci, pf);
        lemma_same_comp(a, b, ci, ps);
    } else {
        lemma_same_comp(a, b, ci, id);
    }
}

/// An id distinct from the appended entry's resolves to the same entry.
proof fn lemma_same_comp(a: Registry, b: Registry, ci: CompInfo, y: u64)
    requires
        b.comps@.len() == a.comps@.len() + 1,
        b.comps@ == a.comps@.push(ci),
        y != ci.id || spec_find_id_from(a.comps@, y, 0) is Some,
    ensures
        b.spec_comp(y) == a.spec_comp(y),
{
    lemma_find_extend(a.comps@, ci, y);
    match spec_find_id_from(a.comps@, y, 0) {
        Some(i) => {
            lemma_find_id_props(a.comps@, y, 0);
            assert(b.comps@[i] == a.comps@[i]);
        },
        None => {},
    }
}

/// A found id index lies in range.
pub proof fn lemma_find_id_props(s: Seq<CompInfo>, id: u64, k: int)
    requires
        spec_find_id_from(s, id, k) is Some,
    ensures
        k <= spec_find_id_from(s, id, k)->Some_0 < s.len(),
        s[spec_find_id_from(s, id, k)->Some_0].id == id,
    decreases s.len() - k,
{
    if 0 <= k < s.len() && s[k].id != id {
        lemma_find_id_props(s, id, k + 1);
    }
}

/// A zero-size entry never supplies storage metadata, so even ids that hit
/// it resolve as before.
pub proof fn lemma_extend_resolution_tag(a: Registry, b: Registry, e: u64, id: u64)
    requires
        b.comps@.len() == a.comps@.len() + 1,
        b.comps@ == a.comps@.push(b.comps@[a.comps@.len() as int]),
        b.comps@[a.comps@.len() as int].id == e,
        b.comps@[a.comps@.len() as int].words == 0,
        spec_find_id_from(a.comps@, e, 0) is None,
    ensures
        b.spec_words_of_id(id) == a.spec_words_of_id(id),
{
    let ci = b.comps@[a.comps@.len() as int];
    let pf = crate::entity::spec_pair_first(id) as u64;
    let ps = crate::entity::spec_pair_second(id) as u64;
    lemma_find_last(a.comps@, ci);
    if pf != e {
        lemma_same_comp(a, b, ci, pf);
    } else {
        assert(b.spec_comp(pf) == Some(ci) && a.spec_comp(pf) is None);
    }
    if ps != e {
        lemma_same_comp(a, b, ci, ps);
    } else {
        assert(b.spec_comp(ps) == Some(ci) && a.spec_comp(ps) is None);
    }
    if id != e {
        lemma_same_comp(a, b, ci, id);
    } else {
        assert(b.spec_comp(id) == Some(ci) && a.spec_comp(id) is None);
    }
}

/// Finding an id in an extended registry: unchanged when already found or
/// when the new entry's id differs.
pub proof fn lemma_find_extend(s: Seq<CompInfo>, ci: CompInfo, id: u64)
    ensures
        id != ci.id ==> spec_find_id_from(s.push(ci), id, 0) == spec_find_id_from(s, id, 0),
        spec_find_id_from(s, id, 0) is Some ==> spec_find_id_from(s.push(ci), id, 0)
            == spec_find_id_from(s, id, 0),
{
    lemma_find_extend_from(s, ci, id, 0);
}

proof fn lemma_find_extend_from(s: Seq<CompInfo>, ci: CompInfo, id: u64, k: int)
    requires
        0 <= k,
    ensures
        id != ci.id ==> spec_find_id_from(s.push(ci), id, k) == spec_find_id_from(s, id, k),
        spec_find_id_from(s, id, k) is Some ==> spec_find_id_from(s.push(ci), id, k)
            == spec_find_id_from(s, id, k),
    decreases s.len() + 1 - k,
{
    let sp = s.push(ci);
    if k >= sp.len() {
    } else if k == s.len() {
        assert(sp[k] == ci);
        assert(spec_find_id_from(s, id, k) is None);
        if id != ci.id {
            assert(spec_find_id_from(sp, id, k + 1) is None);
        }
    } else {
        assert(sp[k] == s[k]);
        if s[k].id != id {
            lemma_find_extend_from(s, ci, id, k + 1);
        }
    }
}

/// Finding the appended entry's own id when it was absent before.
pub proof fn lemma_find_last(s: Seq<CompInfo>, ci: CompInfo)
    requires
        spec_find_id_from(s, ci.id, 0) is None,
    ensures
        spec_find_id_from(s.push(ci), ci.id, 0) == Some(s.len() as int),
{
    lemma_find_last_from(s, ci, 0);
}

proof fn lemma_find_last_from(s: Seq<CompInfo>, ci: CompInfo, k: int)
    requires
        0 <= k <= s.len(),
        spec_find_id_from(s, ci.id, k) is None,
    ensures
        spec_find_id_from(s.push(ci), ci.id, k) == Some(s.len() as int),
    decreases s.len() - k,
{
    let sp = s.push(ci);
    if k == s.len() {
        assert(sp[k] == ci);
    } else {
        assert(sp[k] == s[k]);
        assert(s[k].id != ci.id);
        lemma_find_last_from(s, ci, k + 1);
    }
}

/// The entity id a record currently stands for.
pub open spec fn spec_entity_of_rec(w: World, i: int) -> u64 {
    crate::entity::spec_entity_id(w.recs[i].gen as int, i) as u64
}

/// Only the given entity's name changed.
pub open spec fn spec_rename_effect(pre: World, post: World, e: u64) -> bool {
    &&& post.wf()
    &&& spec_same_support(pre, post)
    &&& post.tables == pre.tables
    &&& post.free == pre.free
    &&& post.drop_log == pre.drop_log
    &&& post.recs.len() == pre.recs.len()
    &&& forall|j: int|
        0 <= j < pre.recs.len() && j != spec_index_part(e) ==> #[trigger] post.recs[j]
            == pre.recs[j]
    &&& post.recs[spec_index_part(e)].alive == pre.recs[spec_index_part(e)].alive
    &&& post.recs[spec_index_part(e)].gen == pre.recs[spec_index_part(e)].gen
    &&& post.recs[spec_index_part(e)].table == pre.recs[spec_index_part(e)].table
    &&& post.recs[spec_index_part(e)].row == pre.recs[spec_index_part(e)].row
    &&& post.recs[spec_index_part(e)].enabled == pre.recs[spec_index_part(e)].enabled
    &&& post.recs[spec_index_part(e)].disabled_ids == pre.recs[spec_index_part(e)].disabled_ids
}

/// Only the given entity's enable flag or toggle list changed.
pub open spec fn spec_toggle_effect(pre: World, post: World, e: u64) -> bool {
    &&& post.wf()
    &&& spec_same_support(pre, post)
    &&& post.tables == pre.tables
    &&& post.free == pre.free
    &&& post.drop_log == pre.drop_log
    &&& post.recs.len() == pre.recs.len()
    &&& forall|j: int|
        0 <= j < pre.recs.len() && j != spec_index_part(e) ==> #[trigger] post.recs[j]
            == pre.recs[j]
    &&& post.recs[spec_index_part(e)].alive == pre.recs[spec_index_part(e)].alive
    &&& post.recs[spec_index_part(e)].gen == pre.recs[spec_index_part(e)].gen
    &&& post.recs[spec_index_part(e)].table == pre.recs[spec_index_part(e)].table
    &&& post.recs[spec_index_part(e)].row == pre.recs[spec_index_part(e)].row
    &&& post.recs[spec_index_part(e)].name == pre.recs[spec_index_part(e)].name
}

} // verus!
