//! The cell store: the raw text of each cell, the computed text of each
//! formula cell, and the dependency graph that drives recomputation.
//!
//! Inserting text into a cell parses it when it is a formula, evaluates it
//! against the current store, updates the graph (rolling back an edit that
//! would create a cycle), and then re-evaluates every dependent cell in an
//! order where each cell comes before the cells whose formulas reference it.

use vstd::prelude::*;

use crate::graph::{
    acyclic, is_cycle, lemma_acyclic_no_reachable_cycle, reachable_cycle, topo_props, Dag,
};
use crate::parse::{
    collect_refs, evaluate, expr_refs, parse_formula, sentinel, spec_eval, spec_parse, LangError,
};
use crate::position::CellPos;
use crate::posmap::PosMap;
use crate::text::{chars_to_string, dec_of, i32_dec_chars, str_to_chars};

verus! {

/// The text each stored string denotes.
pub open spec fn text_of(m: Map<CellPos, String>) -> Map<CellPos, Seq<char>> {
    Map::new(|p: CellPos| m.dom().contains(p), |p: CellPos| m[p]@)
}

/// The view `get` reads through: computed text where present, else raw text.
pub open spec fn lookup_of(
    rawm: Map<CellPos, Seq<char>>,
    compm: Map<CellPos, Seq<char>>,
) -> Map<CellPos, Seq<char>> {
    Map::new(
        |p: CellPos| rawm.dom().contains(p) || compm.dom().contains(p),
        |p: CellPos| if compm.dom().contains(p) {
            compm[p]
        } else {
            rawm[p]
        },
    )
}

/// The text stored as the computed value of formula text `t` evaluated
/// against view `view`: the decimal value, or the error sentinel.
pub open spec fn outcome_text(t: Seq<char>, view: Map<CellPos, Seq<char>>) -> Seq<char> {
    match spec_parse(t) {
        None => sentinel(LangError::ParseError),
        Some(e) => match spec_eval(e, view) {
            Ok(v) => dec_of(v as int),
            Err(er) => sentinel(er),
        },
    }
}

/// One recomputation step: re-evaluate cell `d` from its raw text against
/// the current view, and store the outcome.
pub open spec fn recompute_step(
    rawm: Map<CellPos, Seq<char>>,
    compm: Map<CellPos, Seq<char>>,
    d: CellPos,
) -> Map<CellPos, Seq<char>> {
    if !rawm.dom().contains(d) {
        compm
    } else {
        compm.insert(d, outcome_text(rawm[d], lookup_of(rawm, compm)))
    }
}

/// Recomputation of the cells of `ord`, in order, each step reading the
/// computed texts the previous steps produced.
pub open spec fn recompute_fold(
    rawm: Map<CellPos, Seq<char>>,
    compm: Map<CellPos, Seq<char>>,
    ord: Seq<CellPos>,
) -> Map<CellPos, Seq<char>>
    decreases ord.len(),
{
    if ord.len() == 0 {
        compm
    } else {
        recompute_fold(rawm, recompute_step(rawm, compm, ord[0]), ord.drop_first())
    }
}

/// The dependent relation after `pos`'s references are replaced by `refs`:
/// `pos` keeps at most a self-edge, and becomes a dependent of each cell of
/// `refs`.
pub open spec fn dep_after(g0: Dag, pos: CellPos, refs: Seq<CellPos>, a: CellPos, b: CellPos) -> bool {
    if a == pos {
        (b == pos && refs.contains(pos)) || (g0.dep(pos, b) && b != pos)
    } else if b == pos {
        refs.contains(a)
    } else {
        g0.dep(a, b)
    }
}

/// Whether replacing `pos`'s references by `refs` would close a dependency
/// cycle.
pub open spec fn insert_makes_cycle(g0: Dag, pos: CellPos, refs: Seq<CellPos>) -> bool {
    exists|c: Seq<CellPos>|
        (#[trigger] c.len()) >= 1 && (forall|i: int|
            0 <= i < c.len() - 1 ==> dep_after(g0, pos, refs, #[trigger] c[i], c[i + 1]))
            && dep_after(g0, pos, refs, c.last(), c[0])
}

/// Whether cell text is a formula: its first character is `=`.
pub open spec fn is_formula(t: Seq<char>) -> bool {
    t.len() > 0 && t[0] == '='
}

/// Whether `c` holds formula text in `rawm`.
pub open spec fn formula_cell(rawm: Map<CellPos, Seq<char>>, c: CellPos) -> bool {
    rawm.dom().contains(c) && is_formula(rawm[c])
}

/// Every cell that references another holds a formula.
pub open spec fn refs_are_formulas(g: Dag, rawm: Map<CellPos, Seq<char>>) -> bool {
    forall|a: CellPos, b: CellPos| #[trigger] g.refs_edge(a, b) ==> formula_cell(rawm, a)
}

/// Two graphs with the same edges.
pub open spec fn same_edges(g1: Dag, g0: Dag) -> bool {
    &&& forall|a: CellPos, b: CellPos| #![trigger g1.refs_edge(a, b)]
        g1.refs_edge(a, b) == g0.refs_edge(a, b)
    &&& forall|a: CellPos, b: CellPos| #![trigger g1.dep(a, b)] g1.dep(a, b) == g0.dep(a, b)
}

/// What [`Data::insert`] leaves behind, as a relation between the store
/// before (`pre`) and after (`post`) writing `text` into `location`: the
/// raw text always updated, and the computed texts and graph per case —
/// literal, unparsable formula, formula, and cycle-rejected formula.
pub open spec fn insert_post(pre: Data, post: Data, location: CellPos, text: Seq<char>) -> bool {
    let g0 = pre.graph();
    let g2 = post.graph();
    &&& post.wf()
    &&& post.raw() == pre.raw().insert(location, text)
    &&& if !is_formula(text) {
        &&& forall|b: CellPos| #![trigger g2.refs_edge(location, b)] !g2.refs_edge(location, b)
        &&& forall|b: CellPos| #![trigger g2.dep(location, b)]
            g2.dep(location, b) == (g0.dep(location, b) && b != location)
        &&& forall|a: CellPos, b: CellPos| #![trigger g2.dep(a, b)]
            a != location ==> g2.dep(a, b) == (g0.dep(a, b) && b != location)
        &&& forall|a: CellPos, b: CellPos| #![trigger g2.refs_edge(a, b)]
            a != location ==> g2.refs_edge(a, b) == g0.refs_edge(a, b)
        &&& exists|ord: Seq<CellPos>|
            #![trigger topo_props(g2, location, ord)]
            topo_props(g2, location, ord) && post.comp() == recompute_fold(
                post.raw(),
                pre.comp().remove(location),
                ord.subrange(1, ord.len() as int),
            )
    } else {
        match spec_parse(text) {
            None => post.comp() == pre.comp().insert(location, sentinel(LangError::ParseError))
                && g2 == g0,
            Some(e) => {
                let refs = expr_refs(e);
                let out0 = outcome_text(text, pre.lookup());
                if insert_makes_cycle(g0, location, refs) {
                    &&& same_edges(g2, g0)
                    &&& exists|ord: Seq<CellPos>|
                        #![trigger topo_props(g2, location, ord)]
                        topo_props(g2, location, ord) && post.comp() == recompute_fold(
                            post.raw(),
                            pre.comp().insert(location, sentinel(LangError::CycleError)),
                            ord.subrange(1, ord.len() as int),
                        )
                } else {
                    &&& forall|b: CellPos| #![trigger g2.refs_edge(location, b)]
                        g2.refs_edge(location, b) == refs.contains(b)
                    &&& forall|a: CellPos, b: CellPos| #![trigger g2.refs_edge(a, b)]
                        a != location ==> g2.refs_edge(a, b) == g0.refs_edge(a, b)
                    &&& forall|a: CellPos, b: CellPos| #![trigger g2.dep(a, b)]
                        g2.dep(a, b) == dep_after(g0, location, refs, a, b)
                    &&& exists|ord: Seq<CellPos>|
                        #![trigger topo_props(g2, location, ord)]
                        topo_props(g2, location, ord) && post.comp() == recompute_fold(
                            post.raw(),
                            pre.comp().insert(location, out0),
                            ord.subrange(1, ord.len() as int),
                        )
                }
            },
        }
    }
}

/// The raw texts after a sequence of commits is written, oldest first.
pub open spec fn raw_after_commits(
    rawm: Map<CellPos, Seq<char>>,
    commits: Seq<(CellPos, Seq<char>)>,
) -> Map<CellPos, Seq<char>>
    decreases commits.len(),
{
    if commits.len() == 0 {
        rawm
    } else {
        raw_after_commits(rawm.insert(commits[0].0, commits[0].1), commits.drop_first())
    }
}

/// Writing one more commit overwrites one more raw text.
pub proof fn lemma_raw_commits_snoc(
    rawm: Map<CellPos, Seq<char>>,
    s: Seq<(CellPos, Seq<char>)>,
    pos: CellPos,
    text: Seq<char>,
)
    ensures
        raw_after_commits(rawm, s.push((pos, text))) == raw_after_commits(rawm, s).insert(
            pos,
            text,
        ),
    decreases s.len(),
{
    if s.len() == 0 {
        assert(s.push((pos, text))[0] == (pos, text));
        assert(s.push((pos, text)).drop_first() =~= Seq::<(CellPos, Seq<char>)>::empty());
        assert(raw_after_commits(rawm, s.push((pos, text))) == raw_after_commits(
            rawm.insert(pos, text),
            s.push((pos, text)).drop_first(),
        ));
        assert(raw_after_commits(rawm, s) == rawm);
    } else {
        lemma_raw_commits_snoc(rawm.insert(s[0].0, s[0].1), s.drop_first(), pos, text);
        assert(s.push((pos, text))[0] == s[0]);
        assert(s.push((pos, text)).drop_first() =~= s.drop_first().push((pos, text)));
        assert(raw_after_commits(rawm, s.push((pos, text))) == raw_after_commits(
            rawm.insert(s[0].0, s[0].1),
            s.drop_first().push((pos, text)),
        ));
        assert(raw_after_commits(rawm, s) == raw_after_commits(
            rawm.insert(s[0].0, s[0].1),
            s.drop_first(),
        ));
    }
}

/// A chain of store states in which each next state results from writing
/// the matching commit into the one before, as [`insert_post`] describes.
pub open spec fn is_commit_chain(chain: Seq<Data>, commits: Seq<(CellPos, Seq<char>)>) -> bool {
    &&& chain.len() == commits.len() + 1
    &&& forall|i: int|
        0 <= i < commits.len() ==> insert_post(
            #[trigger] chain[i],
            chain[i + 1],
            commits[i].0,
            commits[i].1,
        )
}

/// The cell store.
pub struct Data {
    cell_data: PosMap<String>,
    calculated: PosMap<String>,
    dag: Dag,
}

impl Data {
    /// The raw text of every cell that has been written.
    pub closed spec fn raw(self) -> Map<CellPos, Seq<char>> {
        text_of(self.cell_data@)
    }

    /// The computed text of every formula cell.
    pub closed spec fn comp(self) -> Map<CellPos, Seq<char>> {
        text_of(self.calculated@)
    }

    /// The dependency graph.
    pub closed spec fn graph(self) -> Dag {
        self.dag
    }

    /// A well-formed store's graph records every edge at both endpoints:
    /// `a` references `b` exactly when `b` counts `a` among its dependents.
    pub proof fn lemma_graph_symmetric(self)
        requires
            self.wf(),
        ensures
            self.graph().symmetric(),
    {
    }

    /// The view `get` reads through.
    pub open spec fn lookup(self) -> Map<CellPos, Seq<char>> {
        lookup_of(self.raw(), self.comp())
    }

    /// Well-formed maps, a symmetric graph with no dependency cycles whose
    /// referencing cells all hold formulas, and a computed entry exactly for
    /// the cells whose raw text is a formula.
    pub closed spec fn wf(self) -> bool {
        &&& self.cell_data.wf()
        &&& self.calculated.wf()
        &&& self.dag.wf()
        &&& self.dag.symmetric()
        &&& acyclic(self.dag)
        &&& refs_are_formulas(self.dag, self.raw())
        &&& forall|c: CellPos| #[trigger]
            self.comp().dom().contains(c) ==> formula_cell(self.raw(), c)
        &&& forall|c: CellPos| #[trigger]
            self.raw().dom().contains(c) && is_formula(self.raw()[c])
                ==> self.comp().dom().contains(c)
    }

    /// An empty store.
    pub fn new() -> (r: Data)
        ensures
            r.wf(),
            r.raw() == Map::<CellPos, Seq<char>>::empty(),
            r.comp() == Map::<CellPos, Seq<char>>::empty(),
            forall|a: CellPos, b: CellPos| !r.graph().dep(a, b) && !r.graph().refs_edge(a, b),
    {
        let r = Data { cell_data: PosMap::new(), calculated: PosMap::new(), dag: Dag::new() };
        proof {
            assert(r.raw() =~= Map::<CellPos, Seq<char>>::empty());
            assert(r.comp() =~= Map::<CellPos, Seq<char>>::empty());
            assert forall|c: Seq<CellPos>| #![trigger is_cycle(r.dag, c)] !is_cycle(r.dag, c) by {
                if is_cycle(r.dag, c) {
                    assert(r.dag.dep(c.last(), c[0]));
                }
            }
        }
        r
    }

    /// The text displayed for a cell: its computed text when it has one,
    /// else its raw text.
    pub fn get(&self, location: CellPos) -> (r: Option<&String>)
        requires
            self.wf(),
        ensures
            match r {
                Some(s) => self.lookup().dom().contains(location) && s@ == self.lookup()[location],
                None => !self.lookup().dom().contains(location),
            },
    {
        let c = self.calculated.get(location);
        match c {
            Some(v) => Some(v),
            None => self.cell_data.get(location),
        }
    }

    /// The raw text of a cell, exactly as entered.
    pub fn get_raw(&self, location: CellPos) -> (r: Option<&String>)
        requires
            self.wf(),
        ensures
            match r {
                Some(s) => self.raw().dom().contains(location) && s@ == self.raw()[location],
                None => !self.raw().dom().contains(location),
            },
    {
        self.cell_data.get(location)
    }

    /// The computed text of a formula cell.
    pub fn get_computed(&self, location: CellPos) -> (r: Option<&String>)
        requires
            self.wf(),
        ensures
            match r {
                Some(s) => self.comp().dom().contains(location) && s@ == self.comp()[location],
                None => !self.comp().dom().contains(location),
            },
    {
        self.calculated.get(location)
    }

    /// Re-evaluates every cell of `order` after the first, in order, each
    /// step reading the computed texts the previous steps stored.
    fn update_from(&mut self, order: &Vec<CellPos>)
        requires
            old(self).wf(),
            order@.len() >= 1,
            forall|j: int|
                1 <= j < order@.len() ==> (old(self).raw().dom().contains(#[trigger] order@[j])
                    ==> is_formula(old(self).raw()[order@[j]])),
        ensures
            final(self).wf(),
            final(self).raw() == old(self).raw(),
            final(self).graph() == old(self).graph(),
            final(self).comp() == recompute_fold(
                old(self).raw(),
                old(self).comp(),
                order@.subrange(1, order@.len() as int),
            ),
    {
        let n = order.len();
        let mut i: usize = 1;
        proof {
            assert(order@.subrange(1, 1) =~= Seq::<CellPos>::empty());
        }
        while i < n
            invariant
                1 <= i <= n,
                n == order@.len(),
                forall|j: int|
                    1 <= j < order@.len() ==> (old(self).raw().dom().contains(
                        #[trigger] order@[j],
                    ) ==> is_formula(old(self).raw()[order@[j]])),
                self.wf(),
                self.raw() == old(self).raw(),
                self.graph() == old(self).graph(),
                self.comp() == recompute_fold(
                    old(self).raw(),
                    old(self).comp(),
                    order@.subrange(1, i as int),
                ),
            decreases n - i,
        {
            let d = order[i];
            let ghost comp0 = self.comp();
            let raw_entry = self.cell_data.get(d);
            match raw_entry {
                None => {
                    proof {
                        assert(recompute_step(old(self).raw(), comp0, d) == comp0);
                    }
                },
                Some(s) => {
                    let chars = str_to_chars(s.as_str());
                    let txt: String = match parse_formula(&chars) {
                        None => String::from_str(LangError::ParseError.text()),
                        Some(e) => {
                            match evaluate(&e, self) {
                                Ok(v) => chars_to_string(&i32_dec_chars(v)),
                                Err(er) => String::from_str(er.text()),
                            }
                        },
                    };
                    proof {
                        assert(txt@ == outcome_text(
                            old(self).raw()[d],
                            lookup_of(old(self).raw(), comp0),
                        ));
                    }
                    self.calculated.insert(d, txt);
                    proof {
                        assert(self.comp() =~= recompute_step(old(self).raw(), comp0, d));
                        assert(self.raw() =~= old(self).raw());
                        assert(formula_cell(self.raw(), d)) by {
                            assert(order@[i as int] == d);
                            assert(self.cell_data@.dom().contains(d));
                            assert(self.raw().dom().contains(d));
                            assert(old(self).raw().dom().contains(d));
                            assert(is_formula(old(self).raw()[d]));
                        }
                        assert forall|c: CellPos| #[trigger]
                            self.comp().dom().contains(c) implies formula_cell(
                            self.raw(),
                            c,
                        ) by {
                            if c != d {
                                assert(comp0.dom().contains(c));
                            }
                        }
                        assert forall|c: CellPos| #[trigger]
                            self.raw().dom().contains(c) && is_formula(self.raw()[c])
                            implies self.comp().dom().contains(c) by {
                            if c != d {
                                assert(comp0.dom().contains(c));
                            }
                        }
                    }
                },
            }
            i += 1;
            proof {
                let pre = order@.subrange(1, i - 1);
                let cur = order@.subrange(1, i as int);
                assert(cur.drop_last() =~= pre);
                assert(cur.last() == order@[i - 1]);
                lemma_fold_snoc(old(self).raw(), old(self).comp(), pre, order@[i - 1]);
                assert(cur =~= pre.push(order@[i - 1]));
            }
        }
        proof {
            assert(order@.subrange(1, n as int) == order@.subrange(1, i as int));
        }
    }

    /// Writes `value` into the cell at `location` and brings the whole
    /// store up to date:
    ///
    /// - Formula text (starting with `=`) that does not parse stores the
    ///   parse sentinel and leaves the graph alone.
    /// - A formula that parses is evaluated against the store as it was;
    ///   its value or error sentinel is stored, and the graph records its
    ///   references — unless that would close a cycle, in which case the
    ///   graph is rolled back to its prior shape and the cycle sentinel is
    ///   stored instead.
    /// - Literal text clears the computed entry and drops the cell's
    ///   outgoing references.
    ///
    /// Every path but the parse failure then re-evaluates the dependents of
    /// `location` in an order consistent with the graph.
    #[verifier::rlimit(100)]
    pub fn insert(&mut self, location: CellPos, value: String)
        requires
            old(self).wf(),
        ensures
            final(self).wf(),
            insert_post(*old(self), *final(self), location, value@),
    {
        let chars = str_to_chars(value.as_str());
        let formula = chars.len() > 0 && chars[0] == '=';
        if formula {
            match parse_formula(&chars) {
                None => {
                    let txt = String::from_str(LangError::ParseError.text());
                    self.calculated.insert(location, txt);
                    self.cell_data.insert(location, value);
                    proof {
                        assert(self.raw() =~= old(self).raw().insert(location, value@));
                        assert(self.comp() =~= old(self).comp().insert(
                            location,
                            sentinel(LangError::ParseError),
                        ));
                        assert(is_formula(value@));
                        lemma_wf_after_cell_write(
                            *self,
                            *old(self),
                            location,
                            value@,
                        );
                    }
                },
                Some(e) => {
                    let refs = collect_refs(&e);
                    let out = evaluate(&e, self);
                    let txt: String = match out {
                        Ok(v) => chars_to_string(&i32_dec_chars(v)),
                        Err(er) => String::from_str(er.text()),
                    };
                    proof {
                        assert(txt@ == outcome_text(value@, old(self).lookup()));
                    }
                    let prev_refs = self.dag.get_references(location);
                    let prev_deps = self.dag.get_dependents(location);
                    self.calculated.insert(location, txt);
                    self.cell_data.insert(location, value);
                    let ghost g0 = old(self).graph();
                    self.dag.restore(location, refs.as_slice(), &prev_deps);
                    let ghost gmid = self.dag;
                    proof {
                        assert forall|a: CellPos, b: CellPos| #[trigger]
                            gmid.dep(a, b) == dep_after(g0, location, refs@, a, b) by {
                            if a == location {
                                assert(gmid.dep(location, b) == ((b == location && refs@.contains(
                                    location,
                                )) || (prev_deps@.contains(b) && b != location)));
                                assert(prev_deps@.contains(b) == g0.dep(location, b));
                            } else {
                                assert(gmid.has_tag(a, crate::graph::Neighbor::Outgoing(b)) == ((
                                g0.has_tag(a, crate::graph::Neighbor::Outgoing(b))
                                    && crate::graph::Neighbor::Outgoing(b)
                                    != crate::graph::Neighbor::Incoming(location)
                                    && crate::graph::Neighbor::Outgoing(b)
                                    != crate::graph::Neighbor::Outgoing(location)) || (
                                crate::graph::Neighbor::Outgoing(b)
                                    == crate::graph::Neighbor::Outgoing(location)
                                    && refs@.contains(a)) || (crate::graph::Neighbor::Outgoing(b)
                                    == crate::graph::Neighbor::Incoming(location)
                                    && prev_deps@.contains(a) && a != location)));
                            }
                        }
                        assert(self.raw() =~= old(self).raw().insert(location, value@));
                        assert(self.comp() =~= old(self).comp().insert(
                            location,
                            outcome_text(value@, old(self).lookup()),
                        ));
                    }
                    let sorted = self.dag.get_topological_sort(location);
                    match sorted {
                        Ok(order) => {
                            proof {
                                assert forall|a: CellPos, b: CellPos|
                                    b != location && #[trigger] gmid.dep(a, b) implies g0.dep(
                                    a,
                                    b,
                                ) by {
                                    assert(gmid.dep(a, b) == dep_after(g0, location, refs@, a, b));
                                }
                                crate::graph::lemma_topo_acyclic(gmid, g0, location, order@);
                                lemma_no_cycle(gmid, g0, location, refs@);
                                assert forall|a: CellPos, b: CellPos| #![trigger gmid.refs_edge(a, b)]
                                    a != location implies gmid.refs_edge(a, b) == g0.refs_edge(
                                    a,
                                    b,
                                ) by {
                                    let ti = crate::graph::Neighbor::Incoming(b);
                                    assert(gmid.has_tag(a, ti) == ((g0.has_tag(a, ti) && ti
                                        != crate::graph::Neighbor::Incoming(location) && ti
                                        != crate::graph::Neighbor::Outgoing(location)) || (ti
                                        == crate::graph::Neighbor::Outgoing(location)
                                        && refs@.contains(a)) || (ti
                                        == crate::graph::Neighbor::Incoming(location)
                                        && prev_deps@.contains(a) && a != location)));
                                    if b == location {
                                        assert(prev_deps@.contains(a) == g0.dep(location, a));
                                        assert(g0.dep(location, a) == g0.refs_edge(a, location));
                                    }
                                }
                                assert forall|a: CellPos, b: CellPos| #[trigger]
                                    self.graph().refs_edge(a, b) implies (a == location
                                    || old(self).graph().refs_edge(a, b)) by {
                                    if a != location {
                                        assert(gmid.refs_edge(a, b) == g0.refs_edge(a, b));
                                    }
                                }
                                lemma_wf_after_cell_write(*self, *old(self), location, value@);
                                lemma_order_formulas(
                                    self.graph(),
                                    location,
                                    order@,
                                    self.raw(),
                                );
                            }
                            self.update_from(&order);
                        },
                        Err(_) => {
                            proof {
                                lemma_yes_cycle(gmid, g0, location, refs@);
                                assert forall|p: CellPos, t: crate::graph::Neighbor|
                                    (p != location && t != crate::graph::Neighbor::Incoming(
                                        location,
                                    ) && t != crate::graph::Neighbor::Outgoing(location))
                                    implies #[trigger] gmid.has_tag(p, t) == g0.has_tag(p, t) by {}
                            }
                            self.dag.restore(location, prev_refs.as_slice(), &prev_deps);
                            proof {
                                lemma_rollback(self.dag, gmid, g0, location, prev_refs@, prev_deps@);
                                crate::graph::lemma_acyclic_subrel(self.dag, g0);
                            }
                            let ctxt = String::from_str(LangError::CycleError.text());
                            self.calculated.insert(location, ctxt);
                            proof {
                                assert(self.comp() =~= old(self).comp().insert(
                                    location,
                                    sentinel(LangError::CycleError),
                                ));
                                assert(self.raw() =~= old(self).raw().insert(location, value@));
                            }
                            proof {
                                assert forall|a: CellPos, b: CellPos| #[trigger]
                                    self.graph().refs_edge(a, b) implies (a == location
                                    || old(self).graph().refs_edge(a, b)) by {}
                                lemma_wf_after_cell_write(*self, *old(self), location, value@);
                            }
                            let sorted2 = self.dag.get_topological_sort(location);
                            match sorted2 {
                                Ok(order) => {
                                    proof {
                                        lemma_order_formulas(
                                            self.graph(),
                                            location,
                                            order@,
                                            self.raw(),
                                        );
                                    }
                                    self.update_from(&order);
                                },
                                Err(_) => {
                                    proof {
                                        lemma_acyclic_no_reachable_cycle(self.dag, location);
                                        assert(false);
                                    }
                                },
                            }
                        },
                    }
                },
            }
        } else {
            self.cell_data.insert(location, value);
            self.calculated.remove(location);
            self.dag.remove_references(location);
            proof {
                crate::graph::lemma_acyclic_subrel(self.dag, old(self).graph());
                assert(self.raw() =~= old(self).raw().insert(location, value@));
                assert(self.comp() =~= old(self).comp().remove(location));
                assert(!is_formula(value@));
                assert forall|a: CellPos, b: CellPos| #[trigger]
                    self.graph().refs_edge(a, b) implies (a != location && old(
                    self,
                ).graph().refs_edge(a, b)) by {
                    assert(a != location);
                    let ti = crate::graph::Neighbor::Incoming(b);
                    assert(self.graph().has_tag(a, ti) == (old(self).graph().has_tag(a, ti) && ti
                        != crate::graph::Neighbor::Outgoing(location)));
                }
                lemma_wf_after_literal_write(*self, *old(self), location, value@);
            }
            let sorted = self.dag.get_topological_sort(location);
            match sorted {
                Ok(order) => {
                    proof {
                        lemma_order_formulas(self.graph(), location, order@, self.raw());
                    }
                    self.update_from(&order);
                },
                Err(_) => {
                    proof {
                        lemma_acyclic_no_reachable_cycle(self.dag, location);
                        assert(false);
                    }
                },
            }
        }
    }
}

impl Default for Data {
    /// An empty store.
    fn default() -> (r: Data)
        ensures
            r.wf(),
            r.raw() == Map::<CellPos, Seq<char>>::empty(),
            r.comp() == Map::<CellPos, Seq<char>>::empty(),
    {
        Data::new()
    }
}

/// After writing formula text into one cell (its computed entry set, its
/// reference edges only ever shrunk to edges the old graph had, except its
/// own), the formula-cell invariants still hold.
proof fn lemma_wf_after_cell_write(s1: Data, s0: Data, pos: CellPos, t: Seq<char>)
    requires
        refs_are_formulas(s0.graph(), s0.raw()),
        forall|c: CellPos| #[trigger] s0.comp().dom().contains(c) ==> formula_cell(s0.raw(), c),
        forall|c: CellPos| #[trigger]
            s0.raw().dom().contains(c) && is_formula(s0.raw()[c]) ==> s0.comp().dom().contains(c),
        s1.raw() == s0.raw().insert(pos, t),
        is_formula(t),
        forall|c: CellPos| #[trigger]
            s1.comp().dom().contains(c) == (s0.comp().dom().contains(c) || c == pos),
        forall|a: CellPos, b: CellPos| #[trigger]
            s1.graph().refs_edge(a, b) ==> (a == pos || s0.graph().refs_edge(a, b)),
    ensures
        refs_are_formulas(s1.graph(), s1.raw()),
        forall|c: CellPos| #[trigger] s1.comp().dom().contains(c) ==> formula_cell(s1.raw(), c),
        forall|c: CellPos| #[trigger]
            s1.raw().dom().contains(c) && is_formula(s1.raw()[c]) ==> s1.comp().dom().contains(c),
{
    assert forall|a: CellPos, b: CellPos| #[trigger]
        s1.graph().refs_edge(a, b) implies formula_cell(s1.raw(), a) by {
        if a == pos {
            assert(s1.raw()[pos] == t);
        } else {
            assert(s0.graph().refs_edge(a, b));
            assert(formula_cell(s0.raw(), a));
            assert(s1.raw()[a] == s0.raw()[a]);
        }
    }
    assert forall|c: CellPos| #[trigger]
        s1.comp().dom().contains(c) implies formula_cell(s1.raw(), c) by {
        if c == pos {
            assert(s1.raw()[pos] == t);
        } else {
            assert(s0.comp().dom().contains(c));
            assert(s1.raw()[c] == s0.raw()[c]);
        }
    }
    assert forall|c: CellPos| #[trigger]
        s1.raw().dom().contains(c) && is_formula(s1.raw()[c]) implies s1.comp().dom().contains(
        c,
    ) by {
        if c != pos {
            assert(s1.raw()[c] == s0.raw()[c]);
            assert(s0.raw().dom().contains(c));
        }
    }
}

/// After writing literal text into one cell (its computed entry cleared,
/// its reference edges dropped), the formula-cell invariants still hold.
proof fn lemma_wf_after_literal_write(s1: Data, s0: Data, pos: CellPos, t: Seq<char>)
    requires
        refs_are_formulas(s0.graph(), s0.raw()),
        forall|c: CellPos| #[trigger] s0.comp().dom().contains(c) ==> formula_cell(s0.raw(), c),
        forall|c: CellPos| #[trigger]
            s0.raw().dom().contains(c) && is_formula(s0.raw()[c]) ==> s0.comp().dom().contains(c),
        s1.raw() == s0.raw().insert(pos, t),
        !is_formula(t),
        forall|c: CellPos| #[trigger]
            s1.comp().dom().contains(c) == (s0.comp().dom().contains(c) && c != pos),
        forall|a: CellPos, b: CellPos| #[trigger]
            s1.graph().refs_edge(a, b) ==> (a != pos && s0.graph().refs_edge(a, b)),
    ensures
        refs_are_formulas(s1.graph(), s1.raw()),
        forall|c: CellPos| #[trigger] s1.comp().dom().contains(c) ==> formula_cell(s1.raw(), c),
        forall|c: CellPos| #[trigger]
            s1.raw().dom().contains(c) && is_formula(s1.raw()[c]) ==> s1.comp().dom().contains(c),
{
    assert forall|a: CellPos, b: CellPos| #[trigger]
        s1.graph().refs_edge(a, b) implies formula_cell(s1.raw(), a) by {
        assert(s0.graph().refs_edge(a, b));
        assert(formula_cell(s0.raw(), a));
        assert(s1.raw()[a] == s0.raw()[a]);
    }
    assert forall|c: CellPos| #[trigger]
        s1.comp().dom().contains(c) implies formula_cell(s1.raw(), c) by {
        assert(s0.comp().dom().contains(c));
        assert(s1.raw()[c] == s0.raw()[c]);
    }
    assert forall|c: CellPos| #[trigger]
        s1.raw().dom().contains(c) && is_formula(s1.raw()[c]) implies s1.comp().dom().contains(
        c,
    ) by {
        if c == pos {
            assert(s1.raw()[pos] == t);
        } else {
            assert(s1.raw()[c] == s0.raw()[c]);
            assert(s0.raw().dom().contains(c));
        }
    }
}

/// In a traversal order over a symmetric graph whose referencing cells hold
/// formulas, every cell after the first holds a formula (it references an
/// earlier cell of the order).
proof fn lemma_order_formulas(
    g: Dag,
    pos: CellPos,
    ord: Seq<CellPos>,
    rawm: Map<CellPos, Seq<char>>,
)
    requires
        topo_props(g, pos, ord),
        g.symmetric(),
        refs_are_formulas(g, rawm),
    ensures
        forall|j: int| 1 <= j < ord.len() ==> formula_cell(rawm, #[trigger] ord[j]),
{
    assert forall|j: int| 1 <= j < ord.len() implies formula_cell(rawm, #[trigger] ord[j]) by {
        let i = choose|i: int| 0 <= i < j && g.dep(ord[i], #[trigger] ord[j]);
        assert(g.dep(ord[i], ord[j]));
        assert(g.refs_edge(ord[j], ord[i]));
    }
}

/// Folding one more cell recomputes the fold so far, then that cell.
proof fn lemma_fold_snoc(
    rawm: Map<CellPos, Seq<char>>,
    compm: Map<CellPos, Seq<char>>,
    s: Seq<CellPos>,
    d: CellPos,
)
    ensures
        recompute_fold(rawm, compm, s.push(d)) == recompute_step(
            rawm,
            recompute_fold(rawm, compm, s),
            d,
        ),
    decreases s.len(),
{
    if s.len() == 0 {
        assert(s.push(d)[0] == d);
        assert(s.push(d).drop_first() =~= Seq::<CellPos>::empty());
        assert(recompute_fold(rawm, compm, s.push(d)) == recompute_fold(
            rawm,
            recompute_step(rawm, compm, d),
            s.push(d).drop_first(),
        ));
        assert(recompute_fold(rawm, recompute_step(rawm, compm, d), s.push(d).drop_first())
            == recompute_step(rawm, compm, d));
        assert(recompute_fold(rawm, compm, s) == compm);
    } else {
        lemma_fold_snoc(rawm, recompute_step(rawm, compm, s[0]), s.drop_first(), d);
        assert(s.push(d)[0] == s[0]);
        assert(s.push(d).drop_first() =~= s.drop_first().push(d));
        assert(recompute_fold(rawm, compm, s.push(d)) == recompute_fold(
            rawm,
            recompute_step(rawm, compm, s[0]),
            s.drop_first().push(d),
        ));
        assert(recompute_fold(rawm, recompute_step(rawm, compm, s[0]), s.drop_first().push(d))
            == recompute_step(rawm, recompute_fold(rawm, recompute_step(rawm, compm, s[0]), s.drop_first()), d));
        assert(recompute_fold(rawm, compm, s) == recompute_fold(
            rawm,
            recompute_step(rawm, compm, s[0]),
            s.drop_first(),
        ));
    }
}

/// When the graph's dependents match `dep_after` pointwise, being acyclic
/// refutes `insert_makes_cycle`.
proof fn lemma_no_cycle(gmid: Dag, g0: Dag, pos: CellPos, refs: Seq<CellPos>)
    requires
        forall|a: CellPos, b: CellPos| #[trigger]
            gmid.dep(a, b) == dep_after(g0, pos, refs, a, b),
        acyclic(gmid),
    ensures
        !insert_makes_cycle(g0, pos, refs),
{
    if insert_makes_cycle(g0, pos, refs) {
        let c = choose|c: Seq<CellPos>|
            (#[trigger] c.len()) >= 1 && (forall|i: int|
                0 <= i < c.len() - 1 ==> dep_after(g0, pos, refs, #[trigger] c[i], c[i + 1]))
                && dep_after(g0, pos, refs, c.last(), c[0]);
        assert forall|i: int| 0 <= i < c.len() - 1 implies gmid.dep(#[trigger] c[i], c[i + 1]) by {
            assert(dep_after(g0, pos, refs, c[i], c[i + 1]));
        }
        assert(gmid.dep(c.last(), c[0]));
        assert(is_cycle(gmid, c));
        assert(!is_cycle(gmid, c));
    }
}

/// When the graph's dependents match `dep_after` pointwise, a cycle in the
/// graph witnesses `insert_makes_cycle`.
proof fn lemma_yes_cycle(gmid: Dag, g0: Dag, pos: CellPos, refs: Seq<CellPos>)
    requires
        forall|a: CellPos, b: CellPos| #[trigger]
            gmid.dep(a, b) == dep_after(g0, pos, refs, a, b),
        reachable_cycle(gmid, pos),
    ensures
        insert_makes_cycle(g0, pos, refs),
{
    let c = choose|c: Seq<CellPos>|
        is_cycle(gmid, c) && (forall|i: int|
            0 <= i < c.len() ==> crate::graph::reachable(gmid, pos, #[trigger] c[i]));
    assert forall|i: int| 0 <= i < c.len() - 1 implies dep_after(
        g0,
        pos,
        refs,
        #[trigger] c[i],
        c[i + 1],
    ) by {
        assert(gmid.dep(c[i], c[i + 1]));
    }
    assert(gmid.dep(c.last(), c[0]));
    assert(dep_after(g0, pos, refs, c.last(), c[0]));
    assert((c.len() >= 1 && (forall|i: int|
        0 <= i < c.len() - 1 ==> dep_after(g0, pos, refs, #[trigger] c[i], c[i + 1]))
        && dep_after(g0, pos, refs, c.last(), c[0])));
}

/// Restoring the observed references and dependents of `pos` after a failed
/// edit puts every edge back as it was.
proof fn lemma_rollback(
    g3: Dag,
    gmid: Dag,
    g0: Dag,
    pos: CellPos,
    prev_refs: Seq<CellPos>,
    prev_deps: Seq<CellPos>,
)
    requires
        g0.symmetric(),
        forall|v: CellPos| #![trigger prev_refs.contains(v)]
            prev_refs.contains(v) == g0.refs_edge(pos, v),
        forall|v: CellPos| #![trigger prev_deps.contains(v)]
            prev_deps.contains(v) == g0.dep(pos, v),
        // the shape `restore` leaves, relative to the failed middle state
        forall|b: CellPos| #![trigger g3.refs_edge(pos, b)]
            g3.refs_edge(pos, b) == prev_refs.contains(b),
        forall|b: CellPos| #![trigger g3.dep(pos, b)]
            g3.dep(pos, b) == ((b == pos && prev_refs.contains(pos)) || (prev_deps.contains(b) && b
                != pos)),
        forall|p: CellPos, t: crate::graph::Neighbor| #![trigger g3.has_tag(p, t)]
            p != pos ==> g3.has_tag(p, t) == ((gmid.has_tag(p, t) && t
                != crate::graph::Neighbor::Incoming(pos) && t != crate::graph::Neighbor::Outgoing(
                pos,
            )) || (t == crate::graph::Neighbor::Outgoing(pos) && prev_refs.contains(p)) || (t
                == crate::graph::Neighbor::Incoming(pos) && prev_deps.contains(p) && p != pos)),
        // the middle state, relative to the pre-edit graph: tags not
        // touching `pos` were untouched
        forall|p: CellPos, t: crate::graph::Neighbor| #![trigger gmid.has_tag(p, t)]
            (p != pos && t != crate::graph::Neighbor::Incoming(pos) && t
                != crate::graph::Neighbor::Outgoing(pos)) ==> gmid.has_tag(p, t) == g0.has_tag(
                p,
                t,
            ),
    ensures
        same_edges(g3, g0),
        forall|a: CellPos, b: CellPos| #[trigger] g3.dep(a, b) ==> g0.dep(a, b),
{
    assert forall|a: CellPos, b: CellPos| #[trigger]
        g3.refs_edge(a, b) == g0.refs_edge(a, b) by {
        if a == pos {
        } else {
            let ti = crate::graph::Neighbor::Incoming(b);
            assert(g3.has_tag(a, ti) == ((gmid.has_tag(a, ti) && ti
                != crate::graph::Neighbor::Incoming(pos) && ti
                != crate::graph::Neighbor::Outgoing(pos)) || (ti
                == crate::graph::Neighbor::Outgoing(pos) && prev_refs.contains(a)) || (ti
                == crate::graph::Neighbor::Incoming(pos) && prev_deps.contains(a) && a != pos)));
            if b == pos {
                assert(g3.refs_edge(a, pos) == (prev_deps.contains(a) && a != pos));
                assert(g0.refs_edge(a, pos) == g0.dep(pos, a));
                assert(prev_deps.contains(a) == g0.dep(pos, a));
                assert(a != pos);
            } else {
                assert(gmid.has_tag(a, ti) == (g0.has_tag(a, ti) && ti
                    != crate::graph::Neighbor::Incoming(pos) && ti
                    != crate::graph::Neighbor::Outgoing(pos)));
            }
        }
    }
    assert forall|a: CellPos, b: CellPos| #[trigger] g3.dep(a, b) == g0.dep(a, b) by {
        if a == pos {
            assert(g3.dep(pos, b) == ((b == pos && prev_refs.contains(pos)) || (prev_deps.contains(
                b,
            ) && b != pos)));
            if b == pos {
                assert(prev_refs.contains(pos) == g0.refs_edge(pos, pos));
                assert(g0.refs_edge(pos, pos) == g0.dep(pos, pos));
            } else {
                assert(prev_deps.contains(b) == g0.dep(pos, b));
            }
        } else {
            let to = crate::graph::Neighbor::Outgoing(b);
            assert(g3.has_tag(a, to) == ((gmid.has_tag(a, to) && to
                != crate::graph::Neighbor::Incoming(pos) && to
                != crate::graph::Neighbor::Outgoing(pos)) || (to
                == crate::graph::Neighbor::Outgoing(pos) && prev_refs.contains(a)) || (to
                == crate::graph::Neighbor::Incoming(pos) && prev_deps.contains(a) && a != pos)));
            if b == pos {
                assert(g3.dep(a, pos) == prev_refs.contains(a));
                assert(prev_refs.contains(a) == g0.refs_edge(pos, a));
                assert(g0.refs_edge(pos, a) == g0.dep(a, pos));
            } else {
                assert(gmid.has_tag(a, to) == (g0.has_tag(a, to) && to
                    != crate::graph::Neighbor::Incoming(pos) && to
                    != crate::graph::Neighbor::Outgoing(pos)));
            }
        }
    }
}

} // verus!
