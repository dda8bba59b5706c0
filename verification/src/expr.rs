//! Textual term expressions.
//!
//! A query expression is a comma-separated list of term groups.  A group is
//! one term, or several joined by `||` into an Or-group.  A term is an
//! optional access modifier in brackets (`[in]`, `[out]`, `[inout]`,
//! `[none]`), an optional `!` (absent) or `?` (optional) operator, an
//! identifier or `*`, and an optional `($)` marking the singleton source:
//! the term's component looked up on its own entity.  The grammar is the
//! specification: the parser is proved to return exactly what the
//! specification-level parse of the same characters yields.

use vstd::prelude::*;

use crate::query::{Access, TermOper};

verus! {

/// One parsed term before name resolution.
pub struct RawTerm {
    /// Identifier of each alternative; more than one forms an Or-group.
    pub names: Vec<Vec<char>>,
    /// Whether the term's source is the component's own entity.
    pub singleton: bool,
    /// Access mode.
    pub access: Access,
    /// Presence operator.
    pub oper: TermOper,
}

/// An identifier character: letters, digits, underscores and the wildcard.
pub open spec fn spec_ident_char(c: char) -> bool {
    ('a' <= c && c <= 'z') || ('A' <= c && c <= 'Z') || ('0' <= c && c <= '9') || c == '_' || c
        == '*'
}

/// An identifier character.
pub fn ident_char(c: char) -> (r: bool)
    ensures
        r == spec_ident_char(c),
{
    ('a' <= c && c <= 'z') || ('A' <= c && c <= 'Z') || ('0' <= c && c <= '9') || c == '_' || c
        == '*'
}

/// First position at or after `pos` that is not a space.
pub open spec fn spec_skip_ws(s: Seq<char>, pos: int) -> int
    decreases s.len() - pos,
{
    if pos < 0 {
        0
    } else if pos < s.len() && s[pos] == ' ' {
        spec_skip_ws(s, pos + 1)
    } else {
        pos
    }
}

/// End of the identifier starting at `pos`.
pub open spec fn spec_ident_end(s: Seq<char>, pos: int) -> int
    decreases s.len() - pos,
{
    if pos < 0 {
        0
    } else if pos < s.len() && spec_ident_char(s[pos]) {
        spec_ident_end(s, pos + 1)
    } else {
        pos
    }
}

/// The access modifier a bracketed word denotes.
pub open spec fn spec_access_of(w: Seq<char>) -> Option<Access> {
    if w == "in"@ {
        Some(Access::AccessIn)
    } else if w == "out"@ {
        Some(Access::AccessOut)
    } else if w == "inout"@ {
        Some(Access::AccessInOut)
    } else if w == "none"@ {
        Some(Access::AccessNone)
    } else {
        None
    }
}

/// Parse of one term: `[access]`, `!` or `?`, identifier, `($)`.  Yields
/// the term's parts and the next position, or nothing on a malformed term.
pub open spec fn spec_parse_unit(s: Seq<char>, pos: int) -> Option<
    (Seq<char>, bool, Access, TermOper, int),
>
    recommends
        0 <= pos,
{
    let p0 = spec_skip_ws(s, pos);
    let acc = if p0 < s.len() && s[p0] == '[' {
        let close = spec_ident_end(s, p0 + 1);
        if close < s.len() && s[close] == ']' {
            match spec_access_of(s.subrange(p0 + 1, close)) {
                Some(a) => Some((a, spec_skip_ws(s, close + 1))),
                None => None,
            }
        } else {
            None
        }
    } else {
        Some((Access::AccessInOut, p0))
    };
    match acc {
        Some((a, p1)) => {
            let (oper, p2): (TermOper, int) = if p1 < s.len() && s[p1] == '!' {
                (TermOper::OperNot, p1 + 1)
            } else if p1 < s.len() && s[p1] == '?' {
                (TermOper::OperOptional, p1 + 1)
            } else {
                (TermOper::OperAnd, p1)
            };
            let end = spec_ident_end(s, p2);
            if end == p2 {
                None
            } else {
                let name = s.subrange(p2, end);
                if end + 3 <= s.len() && s[end] == '(' && s[end + 1] == '$' && s[end + 2] == ')' {
                    Some((name, true, a, oper, spec_skip_ws(s, end + 3)))
                } else {
                    Some((name, false, a, oper, spec_skip_ws(s, end)))
                }
            }
        },
        None => None,
    }
}

impl RawTerm {
    /// The parts of a raw term, for comparison with the specification.
    pub open spec fn parts(self) -> (Seq<Seq<char>>, bool, Access, TermOper) {
        (self.names@.map_values(|n: Vec<char>| n@), self.singleton, self.access, self.oper)
    }
}

/// Parse of one group: a term, extended by `||` alternatives.  Alternatives
/// contribute their identifiers; modifiers come from the first term, and
/// operators other than presence are not allowed in a group.
pub open spec fn spec_parse_group(s: Seq<char>, pos: int, fuel: nat) -> Option<
    (Seq<Seq<char>>, bool, Access, TermOper, int),
>
    decreases fuel,
{
    match spec_parse_unit(s, pos) {
        Some((name, single, a, oper, p)) => spec_parse_group_more(
            s,
            p,
            seq![name],
            single,
            a,
            oper,
            fuel,
        ),
        None => None,
    }
}

/// Parse of a group's `|| unit` continuations.
pub open spec fn spec_parse_group_more(
    s: Seq<char>,
    pos: int,
    names: Seq<Seq<char>>,
    single: bool,
    a: Access,
    oper: TermOper,
    fuel: nat,
) -> Option<(Seq<Seq<char>>, bool, Access, TermOper, int)>
    decreases fuel,
{
    if pos + 2 <= s.len() && s[pos] == '|' && s[pos + 1] == '|' {
        if fuel == 0 || !(oper is OperAnd) {
            None
        } else {
            match spec_parse_unit(s, pos + 2) {
                Some((name2, single2, a2, oper2, p2)) => if oper2 is OperAnd {
                    spec_parse_group_more(
                        s,
                        p2,
                        names.push(name2),
                        single,
                        a,
                        oper,
                        (fuel - 1) as nat,
                    )
                } else {
                    None
                },
                None => None,
            }
        }
    } else {
        Some((names, single, a, oper, pos))
    }
}

/// Parse of a whole expression: groups separated by commas.
pub open spec fn spec_parse_expr(s: Seq<char>, pos: int, fuel: nat) -> Option<
    Seq<(Seq<Seq<char>>, bool, Access, TermOper)>,
>
    decreases fuel,
{
    match spec_parse_group(s, pos, s.len() as nat) {
        Some((names, single, a, oper, p)) => {
            if p < s.len() && s[p] == ',' {
                if fuel == 0 {
                    None
                } else {
                    match spec_parse_expr(s, p + 1, (fuel - 1) as nat) {
                        Some(rest) => Some(seq![(names, single, a, oper)] + rest),
                        None => None,
                    }
                }
            } else if p == s.len() {
                Some(seq![(names, single, a, oper)])
            } else {
                None
            }
        },
        None => None,
    }
}

/// Skips spaces.
fn skip_ws(s: &Vec<char>, pos: usize) -> (r: usize)
    requires
        pos <= s.len(),
    ensures
        r as int == spec_skip_ws(s@, pos as int),
        pos <= r <= s.len(),
    decreases s.len() - pos,
{
    if pos < s.len() && s[pos] == ' ' {
        skip_ws(s, pos + 1)
    } else {
        pos
    }
}

/// Scans to the end of an identifier.
fn ident_end(s: &Vec<char>, pos: usize) -> (r: usize)
    requires
        pos <= s.len(),
    ensures
        r as int == spec_ident_end(s@, pos as int),
        pos <= r <= s.len(),
    decreases s.len() - pos,
{
    if pos < s.len() && ident_char(s[pos]) {
        ident_end(s, pos + 1)
    } else {
        pos
    }
}

/// Copies a character range.
fn char_range(s: &Vec<char>, from: usize, to: usize) -> (r: Vec<char>)
    requires
        from <= to <= s.len(),
    ensures
        r@ == s@.subrange(from as int, to as int),
{
    let mut r: Vec<char> = Vec::new();
    let mut i = from;
    while i < to
        invariant
            from <= i <= to <= s.len(),
            r@ == s@.subrange(from as int, i as int),
        decreases to - i,
    {
        r.push(s[i]);
        proof {
            assert(r@ =~= s@.subrange(from as int, i as int + 1));
        }
        i = i + 1;
    }
    r
}

/// The access modifier a word denotes.
fn access_of(w: &Vec<char>) -> (r: Option<Access>)
    ensures
        r == spec_access_of(w@),
{
    let word_in = crate::api::str_chars("in");
    let word_out = crate::api::str_chars("out");
    let word_inout = crate::api::str_chars("inout");
    let word_none = crate::api::str_chars("none");
    if crate::api::chars_eq(w, &word_in) {
        Some(Access::AccessIn)
    } else if crate::api::chars_eq(w, &word_out) {
        Some(Access::AccessOut)
    } else if crate::api::chars_eq(w, &word_inout) {
        Some(Access::AccessInOut)
    } else if crate::api::chars_eq(w, &word_none) {
        Some(Access::AccessNone)
    } else {
        None
    }
}

/// Parses one term.
fn parse_unit(s: &Vec<char>, pos: usize) -> (r: Option<(Vec<char>, bool, Access, TermOper, usize)>)
    requires
        pos <= s.len(),
    ensures
        match r {
            Some(u) => {
                &&& spec_parse_unit(s@, pos as int) == Some(
                    (u.0@, u.1, u.2, u.3, u.4 as int),
                )
                &&& u.4 <= s.len()
            },
            None => spec_parse_unit(s@, pos as int) is None,
        },
{
    let p0 = skip_ws(s, pos);
    let acc: Option<(Access, usize)> = if p0 < s.len() && s[p0] == '[' {
        let close = ident_end(s, p0 + 1);
        if close < s.len() && s[close] == ']' {
            let word = char_range(s, p0 + 1, close);
            match access_of(&word) {
                Some(a) => Some((a, skip_ws(s, close + 1))),
                None => None,
            }
        } else {
            None
        }
    } else {
        Some((Access::AccessInOut, p0))
    };
    match acc {
        Some((a, p1)) => {
            let (oper, p2): (TermOper, usize) = if p1 < s.len() && s[p1] == '!' {
                (TermOper::OperNot, p1 + 1)
            } else if p1 < s.len() && s[p1] == '?' {
                (TermOper::OperOptional, p1 + 1)
            } else {
                (TermOper::OperAnd, p1)
            };
            let end = ident_end(s, p2);
            if end == p2 {
                None
            } else {
                let name = char_range(s, p2, end);
                if s.len() - end >= 3 && s[end] == '(' && s[end + 1] == '$' && s[end + 2] == ')' {
                    Some((name, true, a, oper, skip_ws(s, end + 3)))
                } else {
                    Some((name, false, a, oper, skip_ws(s, end)))
                }
            }
        },
        None => None,
    }
}

/// Parses one group.
fn parse_group(s: &Vec<char>, pos: usize) -> (r: Option<(RawTerm, usize)>)
    requires
        pos <= s.len(),
    ensures
        match r {
            Some(g) => {
                &&& spec_parse_group(s@, pos as int, s@.len() as nat) == Some(
                    (
                        g.0.names@.map_values(|n: Vec<char>| n@),
                        g.0.singleton,
                        g.0.access,
                        g.0.oper,
                        g.1 as int,
                    ),
                )
                &&& g.1 <= s.len()
            },
            None => spec_parse_group(s@, pos as int, s@.len() as nat) is None,
        },
{
    match parse_unit(s, pos) {
        Some((name, single, a, oper, p)) => {
            let mut names: Vec<Vec<char>> = Vec::new();
            names.push(name);
            proof {
                assert(names@.map_values(|n: Vec<char>| n@) =~= seq![
                    spec_parse_unit(s@, pos as int)->Some_0.0,
                ]);
            }
            parse_group_more(s, p, names, single, a, oper, s.len())
        },
        None => None,
    }
}

/// Parses a group's `||` continuations.
fn parse_group_more(
    s: &Vec<char>,
    pos: usize,
    names: Vec<Vec<char>>,
    single: bool,
    a: Access,
    oper: TermOper,
    fuel: usize,
) -> (r: Option<(RawTerm, usize)>)
    requires
        pos <= s.len(),
    ensures
        match r {
            Some(g) => {
                &&& spec_parse_group_more(
                    s@,
                    pos as int,
                    names@.map_values(|n: Vec<char>| n@),
                    single,
                    a,
                    oper,
                    fuel as nat,
                ) == Some(
                    (
                        g.0.names@.map_values(|n: Vec<char>| n@),
                        g.0.singleton,
                        g.0.access,
                        g.0.oper,
                        g.1 as int,
                    ),
                )
                &&& g.1 <= s.len()
            },
            None => spec_parse_group_more(
                s@,
                pos as int,
                names@.map_values(|n: Vec<char>| n@),
                single,
                a,
                oper,
                fuel as nat,
            ) is None,
        },
    decreases fuel,
{
    if s.len() - pos >= 2 && s[pos] == '|' && s[pos + 1] == '|' {
        let is_and = match oper {
            TermOper::OperAnd => true,
            _ => false,
        };
        if fuel == 0 || !is_and {
            return None;
        }
        match parse_unit(s, pos + 2) {
            Some((name2, single2, a2, oper2, p2)) => {
                let and2 = match oper2 {
                    TermOper::OperAnd => true,
                    _ => false,
                };
                if and2 {
                    let ghost names0 = names@.map_values(|n: Vec<char>| n@);
                    let mut names = names;
                    names.push(name2);
                    proof {
                        assert(names@.map_values(|n: Vec<char>| n@) =~= names0.push(name2@));
                    }
                    parse_group_more(s, p2, names, single, a, oper, fuel - 1)
                } else {
                    None
                }
            },
            None => None,
        }
    } else {
        Some((RawTerm { names, singleton: single, access: a, oper }, pos))
    }
}

/// Parses a whole expression into raw terms.
pub fn parse_expr(s: &Vec<char>) -> (r: Option<Vec<RawTerm>>)
    ensures
        match r {
            Some(ts) => spec_parse_expr(s@, 0, s@.len() as nat) == Some(
                ts@.map_values(|t: RawTerm| t.parts()),
            ),
            None => spec_parse_expr(s@, 0, s@.len() as nat) is None,
        },
{
    parse_expr_from(s, 0, s.len())
}

/// Parses the groups from `pos` on.
fn parse_expr_from(s: &Vec<char>, pos: usize, fuel: usize) -> (r: Option<Vec<RawTerm>>)
    requires
        pos <= s.len(),
    ensures
        match r {
            Some(ts) => spec_parse_expr(s@, pos as int, fuel as nat) == Some(
                ts@.map_values(|t: RawTerm| t.parts()),
            ),
            None => spec_parse_expr(s@, pos as int, fuel as nat) is None,
        },
    decreases fuel,
{
    match parse_group(s, pos) {
        Some((term, p)) => {
            if p < s.len() && s[p] == ',' {
                if fuel == 0 {
                    return None;
                }
                match parse_expr_from(s, p + 1, fuel - 1) {
                    Some(rest) => {
                        let ghost rest0 = rest@.map_values(|t: RawTerm| t.parts());
                        let mut out: Vec<RawTerm> = Vec::new();
                        out.push(term);
                        let mut rest = rest;
                        out.append(&mut rest);
                        proof {
                            assert(out@.map_values(|t: RawTerm| t.parts()) =~= seq![term.parts()]
                                + rest0);
                        }
                        Some(out)
                    },
                    None => None,
                }
            } else if p == s.len() {
                let mut out: Vec<RawTerm> = Vec::new();
                out.push(term);
                proof {
                    assert(out@.map_values(|t: RawTerm| t.parts()) =~= seq![term.parts()]);
                }
                Some(out)
            } else {
                None
            }
        },
        None => None,
    }
}

} // verus!
