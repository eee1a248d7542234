//! The dependency graph: a directed graph over cell positions whose edges
//! run from a formula cell to each cell it references. Every edge is stored
//! at both endpoints, as an `Incoming` tag on the referencing cell and an
//! `Outgoing` tag on the referenced one, so removing a vertex can unlink
//! both sides.

use vstd::prelude::*;

use crate::position::CellPos;
use crate::posmap::PosMap;

verus! {

/// A tagged adjacency entry. `Incoming(r)` stored at `a` records that `a`'s
/// formula references `r`; `Outgoing(d)` stored at `a` records that `d`'s
/// formula references `a` (so `d` is a dependent of `a`).
#[derive(Debug, PartialEq, Eq, Structural, Clone, Copy)]
pub enum Neighbor {
    Incoming(CellPos),
    Outgoing(CellPos),
}

/// The reference graph.
#[derive(Debug)]
pub struct Dag {
    adjacency_list: PosMap<Vec<Neighbor>>,
}

/// Whether processing tag `tag` (stored at the vertex being unlinked, `pos`)
/// deletes tag `t` at `p`.
pub open spec fn matches_sym_tag(tag: Neighbor, pos: CellPos, p: CellPos, t: Neighbor) -> bool {
    match tag {
        Neighbor::Incoming(r) => r == p && t == Neighbor::Outgoing(pos),
        Neighbor::Outgoing(d) => d == p && t == Neighbor::Incoming(pos),
    }
}

/// Whether processing the tags of `prefix` (all stored at `pos`) deletes
/// tag `t` at `p`.
pub open spec fn tag_deleted(prefix: Seq<Neighbor>, pos: CellPos, p: CellPos, t: Neighbor) -> bool {
    exists|j: int| 0 <= j < prefix.len() && matches_sym_tag(#[trigger] prefix[j], pos, p, t)
}

/// Extending the processed prefix by one tag deletes exactly what the
/// prefix deleted, plus what that tag deletes.
proof fn lemma_tag_deleted_push(prefix: Seq<Neighbor>, tag: Neighbor, pos: CellPos, p: CellPos, t: Neighbor)
    ensures
        tag_deleted(prefix.push(tag), pos, p, t) == (tag_deleted(prefix, pos, p, t)
            || matches_sym_tag(tag, pos, p, t)),
{
    let b = prefix.push(tag);
    if tag_deleted(b, pos, p, t) {
        let j = choose|j: int| 0 <= j < b.len() && matches_sym_tag(#[trigger] b[j], pos, p, t);
        if j < prefix.len() {
            assert(prefix[j] == b[j]);
            assert(tag_deleted(prefix, pos, p, t));
        } else {
            assert(b[j] == tag);
        }
    }
    if tag_deleted(prefix, pos, p, t) {
        let j = choose|j: int|
            0 <= j < prefix.len() && matches_sym_tag(#[trigger] prefix[j], pos, p, t);
        assert(b[j] == prefix[j]);
        assert(tag_deleted(b, pos, p, t));
    }
    if matches_sym_tag(tag, pos, p, t) {
        assert(b[b.len() - 1] == tag);
        assert(tag_deleted(b, pos, p, t));
    }
}

/// The shape of a graph after `pos` has been unlinked from `g0`.
pub open spec fn unlinked(g1: Dag, g0: Dag, pos: CellPos) -> bool {
    &&& forall|q2: CellPos| #![trigger g1.dom().contains(q2)]
        g1.dom().contains(q2) == (g0.dom().contains(q2) && q2 != pos)
    &&& forall|t: Neighbor| #![trigger g1.has_tag(pos, t)] !g1.has_tag(pos, t)
    &&& forall|p: CellPos, t: Neighbor| #![trigger g1.has_tag(p, t)]
        p != pos ==> g1.has_tag(p, t) == (g0.has_tag(p, t) && t != Neighbor::Incoming(pos) && t
            != Neighbor::Outgoing(pos))
}

/// The shape of a graph after an `Outgoing(pos)` tag has been recorded at
/// each cell of `refs` (except `pos` itself), starting from `g1`.
pub open spec fn relinked(g2: Dag, g1: Dag, pos: CellPos, refs: Seq<CellPos>) -> bool {
    &&& forall|q2: CellPos| #![trigger g2.dom().contains(q2)]
        g2.dom().contains(q2) == (g1.dom().contains(q2) || (refs.contains(q2) && q2 != pos))
    &&& forall|p: CellPos, t: Neighbor| #![trigger g2.has_tag(p, t)]
        g2.has_tag(p, t) == (g1.has_tag(p, t) || (t == Neighbor::Outgoing(pos) && p != pos
            && refs.contains(p)))
}

impl Dag {
    /// The vertices that have an adjacency entry.
    pub closed spec fn dom(self) -> Set<CellPos> {
        self.adjacency_list@.dom()
    }

    /// The tags stored at `p`; empty when `p` has no entry.
    pub closed spec fn at(self, p: CellPos) -> Set<Neighbor> {
        if self.adjacency_list@.dom().contains(p) {
            self.adjacency_list@[p]@.to_set()
        } else {
            Set::empty()
        }
    }

    /// Whether tag `t` is stored at `p`.
    pub open spec fn has_tag(self, p: CellPos, t: Neighbor) -> bool {
        self.at(p).contains(t)
    }

    /// Whether `a`'s formula references `b`.
    pub open spec fn refs_edge(self, a: CellPos, b: CellPos) -> bool {
        self.has_tag(a, Neighbor::Incoming(b))
    }

    /// Whether `b` is a dependent of `a`: `b`'s formula references `a`.
    /// These are the edges recomputation follows.
    pub open spec fn dep(self, a: CellPos, b: CellPos) -> bool {
        self.has_tag(a, Neighbor::Outgoing(b))
    }

    /// Both directions of every edge are stored: `a` references `b` exactly
    /// when `b` records `a` as a dependent.
    pub open spec fn symmetric(self) -> bool {
        forall|a: CellPos, b: CellPos| #[trigger] self.refs_edge(a, b) <==> self.dep(b, a)
    }

    /// The representation invariant: a well-formed map whose entries hold no
    /// duplicate tags.
    pub closed spec fn wf(self) -> bool {
        &&& self.adjacency_list.wf()
        &&& forall|p: CellPos|
            self.adjacency_list@.dom().contains(p)
                ==> (#[trigger] self.adjacency_list@[p])@.no_duplicates()
    }

    /// An empty graph.
    pub fn new() -> (r: Dag)
        ensures
            r.wf(),
            r.symmetric(),
            r.dom() == Set::<CellPos>::empty(),
            forall|p: CellPos, t: Neighbor| !r.has_tag(p, t),
    {
        let r = Dag { adjacency_list: PosMap::new() };
        proof {
            assert(r.dom() =~= Set::<CellPos>::empty());
            assert forall|p: CellPos, t: Neighbor| !r.has_tag(p, t) by {
                assert(r.at(p) =~= Set::<Neighbor>::empty());
            }
        }
        r
    }

    /// Removes one tag from `q`'s entry, leaving everything else unchanged.
    fn remove_tag(&mut self, q: CellPos, tag: Neighbor)
        requires
            old(self).wf(),
        ensures
            final(self).wf(),
            final(self).dom() == old(self).dom(),
            forall|p: CellPos, t: Neighbor|
                final(self).has_tag(p, t) == (old(self).has_tag(p, t) && !(p == q && t == tag)),
    {
        let entry = self.adjacency_list.get(q);
        match entry {
            None => {
                proof {
                    assert forall|p: CellPos, t: Neighbor|
                        self.has_tag(p, t) == (old(self).has_tag(p, t) && !(p == q && t
                            == tag)) by {
                        if p == q {
                            assert(self.at(q) =~= Set::<Neighbor>::empty());
                        }
                    }
                }
            },
            Some(v) => {
                let mut kept = v.clone();
                proof {
                    assert(kept@ =~= old(self).adjacency_list@[q]@);
                }
                let ghost ov = kept@;
                let n = kept.len();
                let mut i: usize = 0;
                let mut found = false;
                let mut hit: usize = 0;
                while i < n
                    invariant
                        i <= n,
                        n == ov.len(),
                        kept@ == ov,
                        ov.no_duplicates(),
                        !found ==> forall|j: int| 0 <= j < i ==> ov[j] != tag,
                        found ==> hit < n && ov[hit as int] == tag,
                    decreases n - i,
                {
                    if kept[i] == tag {
                        found = true;
                        hit = i;
                        i = n;
                    } else {
                        i += 1;
                    }
                }
                if found {
                    kept.swap_remove(hit);
                    proof {
                        let ks = kept@;
                        assert(ks =~= ov.update(hit as int, ov[n - 1]).take(n - 1));
                        assert forall|a: int, b: int|
                            0 <= a < b < ks.len() implies ks[a] != ks[b] by {
                            assert(ks[a] == if a == hit { ov[n - 1] } else { ov[a] });
                            assert(ks[b] == if b == hit { ov[n - 1] } else { ov[b] });
                        }
                        assert forall|t: Neighbor|
                            ks.contains(t) == (ov.contains(t) && t != tag) by {
                            if ks.contains(t) {
                                let j = choose|j: int| 0 <= j < ks.len() && ks[j] == t;
                                let oj: int = if j == hit { n - 1 } else { j };
                                assert(ov[oj] == t);
                                assert(ov.contains(t));
                                if t == tag {
                                    assert(ov[oj] == ov[hit as int]);
                                    assert(false);
                                }
                            }
                            if ov.contains(t) && t != tag {
                                let j = choose|j: int| 0 <= j < ov.len() && ov[j] == t;
                                assert(j != hit);
                                if j == n - 1 {
                                    assert(n - 1 != hit);
                                    assert(ks[hit as int] == t);
                                } else {
                                    assert(ks[j] == t);
                                }
                            }
                        }
                    }
                    self.adjacency_list.insert(q, kept);
                    proof {
                        assert forall|p: CellPos, t: Neighbor|
                            self.has_tag(p, t) == (old(self).has_tag(p, t) && !(p == q && t
                                == tag)) by {
                            if p == q {
                                assert(self.at(q) =~= kept@.to_set());
                            } else {
                                assert(self.at(p) =~= old(self).at(p));
                            }
                        }
                        assert(self.dom() =~= old(self).dom());
                    }
                } else {
                    proof {
                        assert forall|p: CellPos, t: Neighbor|
                            self.has_tag(p, t) == (old(self).has_tag(p, t) && !(p == q && t
                                == tag)) by {
                            if p == q && t == tag {
                                if self.has_tag(q, tag) {
                                    let j = choose|j: int| 0 <= j < ov.len() && ov[j] == tag;
                                    assert(false);
                                }
                            }
                        }
                    }
                }
            },
        }
    }

    /// Unlinks `pos` from the graph: removes its entry, and the matching
    /// half of each of its edges from the other endpoint.
    pub fn remove(&mut self, pos: CellPos)
        requires
            old(self).wf(),
            old(self).symmetric(),
        ensures
            final(self).wf(),
            final(self).symmetric(),
            final(self).dom() == old(self).dom().remove(pos),
            forall|t: Neighbor| !final(self).has_tag(pos, t),
            forall|p: CellPos, t: Neighbor|
                p != pos ==> final(self).has_tag(p, t) == (old(self).has_tag(p, t) && t
                    != Neighbor::Incoming(pos) && t != Neighbor::Outgoing(pos)),
    {
        let entry = self.adjacency_list.get(pos);
        match entry {
            None => {
                proof {
                    assert(self.dom() =~= old(self).dom().remove(pos));
                    assert forall|t: Neighbor| !self.has_tag(pos, t) by {
                        assert(self.at(pos) =~= Set::<Neighbor>::empty());
                    }
                    assert forall|p: CellPos, t: Neighbor|
                        p != pos implies self.has_tag(p, t) == (old(self).has_tag(p, t) && t
                            != Neighbor::Incoming(pos) && t != Neighbor::Outgoing(pos)) by {
                        if old(self).has_tag(p, t) {
                            if t == Neighbor::Incoming(pos) {
                                assert(old(self).refs_edge(p, pos));
                                assert(old(self).dep(pos, p));
                                assert(old(self).at(pos) =~= Set::<Neighbor>::empty());
                                assert(false);
                            }
                            if t == Neighbor::Outgoing(pos) {
                                assert(old(self).dep(p, pos));
                                assert(old(self).refs_edge(pos, p));
                                assert(old(self).at(pos) =~= Set::<Neighbor>::empty());
                                assert(false);
                            }
                        }
                    }
                }
            },
            Some(v) => {
                let tags = v.clone();
                proof {
                    assert(tags@ =~= old(self).adjacency_list@[pos]@);
                    assert(tags@.to_set() =~= old(self).at(pos));
                }
                self.adjacency_list.remove(pos);
                let ghost mid = *self;
                proof {
                    assert(mid.dom() =~= old(self).dom().remove(pos));
                    assert forall|t: Neighbor| !mid.has_tag(pos, t) by {
                        assert(mid.at(pos) =~= Set::<Neighbor>::empty());
                    }
                    assert forall|p: CellPos, t: Neighbor|
                        p != pos implies mid.has_tag(p, t) == old(self).has_tag(p, t) by {
                        assert(mid.at(p) =~= old(self).at(p));
                    }
                }
                let n = tags.len();
                let mut i: usize = 0;
                let ghost mut done: Seq<Neighbor> = Seq::empty();
                proof {
                    assert(done =~= tags@.take(0));
                }
                while i < n
                    invariant
                        i <= n,
                        n == tags@.len(),
                        tags@.to_set() == old(self).at(pos),
                        done == tags@.take(i as int),
                        self.wf(),
                        self.dom() == mid.dom(),
                        mid.dom() == old(self).dom().remove(pos),
                        old(self).symmetric(),
                        forall|t: Neighbor| !self.has_tag(pos, t),
                        forall|t: Neighbor| !mid.has_tag(pos, t),
                        forall|p: CellPos, t: Neighbor| #![trigger mid.has_tag(p, t)]
                            p != pos ==> mid.has_tag(p, t) == old(self).has_tag(p, t),
                        forall|p: CellPos, t: Neighbor|
                            #![trigger self.has_tag(p, t)]
                            #![trigger mid.has_tag(p, t)]
                            p != pos ==> self.has_tag(p, t) == (mid.has_tag(p, t)
                                && !tag_deleted(done, pos, p, t)),
                    decreases n - i,
                {
                    let t = tags[i];
                    let ghost pre = *self;
                    let ghost done0 = done;
                    proof {
                        assert(pre == *self && done0 == done);
                        assert(forall|p: CellPos, t2: Neighbor|
                            p != pos ==> pre.has_tag(p, t2) == (mid.has_tag(p, t2)
                                && !tag_deleted(done0, pos, p, t2)));
                    }
                    match t {
                        Neighbor::Incoming(r) => {
                            if r != pos {
                                self.remove_tag(r, Neighbor::Outgoing(pos));
                            }
                            proof {
                                assert forall|p: CellPos, t2: Neighbor|
                                    p != pos implies self.has_tag(p, t2) == (pre.has_tag(p, t2)
                                    && !matches_sym_tag(t, pos, p, t2)) by {
                                    if r == pos {
                                        assert(!matches_sym_tag(t, pos, p, t2));
                                    }
                                }
                            }
                        },
                        Neighbor::Outgoing(d) => {
                            if d != pos {
                                self.remove_tag(d, Neighbor::Incoming(pos));
                            }
                            proof {
                                assert forall|p: CellPos, t2: Neighbor|
                                    p != pos implies self.has_tag(p, t2) == (pre.has_tag(p, t2)
                                    && !matches_sym_tag(t, pos, p, t2)) by {
                                    if d == pos {
                                        assert(!matches_sym_tag(t, pos, p, t2));
                                    }
                                }
                            }
                        },
                    }
                    proof {
                        done = done0.push(t);
                        assert forall|p: CellPos, t2: Neighbor|
                            p != pos implies self.has_tag(p, t2) == (mid.has_tag(p, t2)
                                && !tag_deleted(done, pos, p, t2)) by {
                            lemma_tag_deleted_push(done0, t, pos, p, t2);
                            assert(self.has_tag(p, t2) == (pre.has_tag(p, t2)
                                && !matches_sym_tag(t, pos, p, t2)));
                            assert(pre.has_tag(p, t2) == (mid.has_tag(p, t2)
                                && !tag_deleted(done0, pos, p, t2)));
                        }
                    }
                    i += 1;
                    proof {
                        assert(done =~= tags@.take(i as int));
                    }
                }
                proof {
                    assert(i == n);
                    assert(done =~= tags@);
                    assert(forall|p: CellPos, t: Neighbor|
                        p != pos ==> self.has_tag(p, t) == (mid.has_tag(p, t)
                            && !tag_deleted(done, pos, p, t)));
                    assert forall|p: CellPos, t: Neighbor|
                        p != pos implies self.has_tag(p, t) == (old(self).has_tag(p, t) && t
                            != Neighbor::Incoming(pos) && t != Neighbor::Outgoing(pos)) by {
                        if old(self).has_tag(p, t) && t != Neighbor::Incoming(pos) && t
                            != Neighbor::Outgoing(pos) {
                            assert(!tag_deleted(done, pos, p, t)) by {
                                if tag_deleted(done, pos, p, t) {
                                    let j = choose|j: int|
                                        0 <= j < tags@.len() && matches_sym_tag(
                                            #[trigger] tags@[j],
                                            pos,
                                            p,
                                            t,
                                        );
                                    assert(false);
                                }
                            }
                            assert(mid.has_tag(p, t) == old(self).has_tag(p, t));
                            assert(self.has_tag(p, t) == (mid.has_tag(p, t) && !tag_deleted(
                                done,
                                pos,
                                p,
                                t,
                            )));
                            assert(self.has_tag(p, t));
                        }
                        if self.has_tag(p, t) {
                            assert(self.has_tag(p, t) == (mid.has_tag(p, t) && !tag_deleted(
                                done,
                                pos,
                                p,
                                t,
                            )));
                            assert(mid.has_tag(p, t));
                            if t == Neighbor::Outgoing(pos) {
                                assert(old(self).dep(p, pos));
                                assert(old(self).refs_edge(pos, p));
                                assert(old(self).at(pos).contains(Neighbor::Incoming(p)));
                                assert(tags@.to_set().contains(Neighbor::Incoming(p)));
                                let j = choose|j: int|
                                    0 <= j < tags@.len() && tags@[j] == Neighbor::Incoming(p);
                                assert(matches_sym_tag(tags@[j], pos, p, t));
                                assert(tag_deleted(done, pos, p, t));
                                assert(false);
                            }
                            if t == Neighbor::Incoming(pos) {
                                assert(old(self).refs_edge(p, pos));
                                assert(old(self).dep(pos, p));
                                assert(old(self).at(pos).contains(Neighbor::Outgoing(p)));
                                assert(tags@.to_set().contains(Neighbor::Outgoing(p)));
                                let j = choose|j: int|
                                    0 <= j < tags@.len() && tags@[j] == Neighbor::Outgoing(p);
                                assert(matches_sym_tag(tags@[j], pos, p, t));
                                assert(tag_deleted(done, pos, p, t));
                                assert(false);
                            }
                        }
                    }
                }
            },
        }
        proof {
            self.lemma_unlinked_symmetric(*old(self), pos);
        }
    }

    /// After unlinking `pos` from a symmetric graph, symmetry still holds.
    proof fn lemma_unlinked_symmetric(self, g0: Dag, pos: CellPos)
        requires
            g0.symmetric(),
            forall|t: Neighbor| !self.has_tag(pos, t),
            forall|p: CellPos, t: Neighbor|
                p != pos ==> self.has_tag(p, t) == (g0.has_tag(p, t) && t != Neighbor::Incoming(
                    pos,
                ) && t != Neighbor::Outgoing(pos)),
        ensures
            self.symmetric(),
    {
        assert forall|a: CellPos, b: CellPos| #[trigger]
            self.refs_edge(a, b) <==> self.dep(b, a) by {
            if self.refs_edge(a, b) {
                assert(a != pos);
                assert(b != pos);
                assert(g0.refs_edge(a, b));
                assert(g0.dep(b, a));
                assert(self.dep(b, a));
            }
            if self.dep(b, a) {
                assert(b != pos);
                assert(a != pos);
                assert(g0.dep(b, a));
                assert(g0.refs_edge(a, b));
                assert(self.refs_edge(a, b));
            }
        }
    }
}


impl Dag {
    /// Whether `t` occurs in `v`.
    fn nb_contains(v: &Vec<Neighbor>, t: Neighbor) -> (r: bool)
        ensures
            r == v@.contains(t),
    {
        let n = v.len();
        let mut i: usize = 0;
        while i < n
            invariant
                i <= n,
                n == v@.len(),
                forall|j: int| 0 <= j < i ==> v@[j] != t,
            decreases n - i,
        {
            if v[i] == t {
                return true;
            }
            i += 1;
        }
        proof {
            if v@.contains(t) {
                let j = choose|j: int| 0 <= j < v@.len() && v@[j] == t;
                assert(false);
            }
        }
        false
    }

    /// Adds tag `t` to `q`'s entry (creating the entry if needed); nothing
    /// else changes.
    fn add_tag(&mut self, q: CellPos, t: Neighbor)
        requires
            old(self).wf(),
        ensures
            final(self).wf(),
            forall|q2: CellPos| #![trigger final(self).dom().contains(q2)]
                final(self).dom().contains(q2) == (old(self).dom().contains(q2) || q2 == q),
            forall|p: CellPos, t2: Neighbor| #![trigger final(self).has_tag(p, t2)]
                final(self).has_tag(p, t2) == (old(self).has_tag(p, t2) || (p == q && t2 == t)),
    {
        let entry = self.adjacency_list.get(q);
        let mut vec: Vec<Neighbor> = match entry {
            Some(v) => v.clone(),
            None => Vec::new(),
        };
        proof {
            if old(self).dom().contains(q) {
                assert(vec@ =~= old(self).adjacency_list@[q]@);
            }
            assert(vec@.to_set() =~= old(self).at(q));
        }
        let ghost v0 = vec@;
        if !Dag::nb_contains(&vec, t) {
            vec.push(t);
            proof {
                assert(vec@.drop_last() =~= v0);
                assert forall|a: int, b: int|
                    0 <= a < b < vec@.len() implies vec@[a] != vec@[b] by {
                    if b < vec@.len() - 1 {
                        assert(v0[a] == vec@[a] && v0[b] == vec@[b]);
                    } else {
                        assert(vec@[b] == t);
                        assert(v0[a] == vec@[a]);
                        if vec@[a] == t {
                            assert(v0.contains(t));
                            assert(false);
                        }
                    }
                }
            }
        }
        proof {
            assert forall|t2: Neighbor|
                vec@.contains(t2) == (v0.contains(t2) || t2 == t) by {
                if vec@ == v0 {
                    if t2 == t {
                        assert(v0.contains(t));
                    }
                } else {
                    assert(vec@.drop_last() =~= v0);
                    if vec@.contains(t2) {
                        let j = choose|j: int| 0 <= j < vec@.len() && vec@[j] == t2;
                        if j < vec@.len() - 1 {
                            assert(v0[j] == t2);
                            assert(v0.contains(t2));
                        } else {
                            assert(t2 == t);
                        }
                    }
                    if v0.contains(t2) {
                        let j = choose|j: int| 0 <= j < v0.len() && v0[j] == t2;
                        assert(vec@[j] == t2);
                    }
                    if t2 == t {
                        assert(vec@[vec@.len() - 1] == t);
                    }
                }
            }
        }
        self.adjacency_list.insert(q, vec);
        proof {
            assert forall|q2: CellPos|
                self.dom().contains(q2) == (old(self).dom().contains(q2) || q2 == q) by {}
            assert forall|p: CellPos, t2: Neighbor|
                self.has_tag(p, t2) == (old(self).has_tag(p, t2) || (p == q && t2 == t)) by {
                if p == q {
                    assert(self.at(q) =~= self.adjacency_list@[q]@.to_set());
                } else {
                    assert(self.at(p) =~= old(self).at(p));
                }
            }
        }
    }

    /// Records the edge "`from` references `to`" at both endpoints, creating
    /// entries as needed.
    pub fn add_edge(&mut self, from: CellPos, to: CellPos)
        requires
            old(self).wf(),
            old(self).symmetric(),
        ensures
            final(self).wf(),
            final(self).symmetric(),
            forall|q2: CellPos| #![trigger final(self).dom().contains(q2)]
                final(self).dom().contains(q2) == (old(self).dom().contains(q2) || q2 == from
                    || q2 == to),
            forall|p: CellPos, t: Neighbor| #![trigger final(self).has_tag(p, t)]
                final(self).has_tag(p, t) == (old(self).has_tag(p, t) || (p == from && t
                    == Neighbor::Incoming(to)) || (p == to && t == Neighbor::Outgoing(from))),
    {
        self.add_tag(from, Neighbor::Incoming(to));
        self.add_tag(to, Neighbor::Outgoing(from));
        proof {
            assert forall|a: CellPos, b: CellPos| #[trigger]
                self.refs_edge(a, b) <==> self.dep(b, a) by {
                assert(self.has_tag(a, Neighbor::Incoming(b)) == (old(self).has_tag(
                    a,
                    Neighbor::Incoming(b),
                ) || (a == from && b == to)));
                assert(self.has_tag(b, Neighbor::Outgoing(a)) == (old(self).has_tag(
                    b,
                    Neighbor::Outgoing(a),
                ) || (b == to && a == from)));
                assert(old(self).refs_edge(a, b) <==> old(self).dep(b, a));
            }
        }
    }

    /// The cells whose formulas reference `pos`, in no particular order and
    /// without repetition.
    pub fn get_dependents(&self, pos: CellPos) -> (r: Vec<CellPos>)
        requires
            self.wf(),
        ensures
            r@.no_duplicates(),
            forall|v: CellPos| #![trigger r@.contains(v)] r@.contains(v) == self.dep(pos, v),
    {
        let entry = self.adjacency_list.get(pos);
        match entry {
            None => {
                let r: Vec<CellPos> = Vec::new();
                proof {
                    assert forall|v: CellPos| r@.contains(v) == self.dep(pos, v) by {
                        assert(self.at(pos) =~= Set::<Neighbor>::empty());
                        assert(!r@.contains(v));
                    }
                }
                r
            },
            Some(v) => {
                let tags = v;
                let n = tags.len();
                let mut out: Vec<CellPos> = Vec::new();
                let mut i: usize = 0;
                while i < n
                    invariant
                        i <= n,
                        self.wf(),
                        self.dom().contains(pos),
                        n == tags@.len(),
                        tags@ == self.adjacency_list@[pos]@,
                        tags@.no_duplicates(),
                        forall|c: CellPos| #![trigger out@.contains(c)]
                            out@.contains(c) == tags@.take(i as int).contains(
                                Neighbor::Outgoing(c),
                            ),
                        out@.no_duplicates(),
                    decreases n - i,
                {
                    let t = tags[i];
                    let ghost out0 = out@;
                    match t {
                        Neighbor::Outgoing(d) => {
                            proof {
                                if out@.contains(d) {
                                    let j = choose|j: int|
                                        0 <= j < i && tags@.take(i as int)[j]
                                            == Neighbor::Outgoing(d);
                                    assert(tags@[j] == tags@[i as int]);
                                    assert(false);
                                }
                            }
                            out.push(d);
                        },
                        Neighbor::Incoming(_) => {},
                    }
                    i += 1;
                    proof {
                        let cur = tags@.take(i as int);
                        assert(cur.drop_last() =~= tags@.take(i - 1));
                        assert(cur.last() == tags@[i - 1]);
                        assert forall|c: CellPos|
                            out@.contains(c) == cur.contains(Neighbor::Outgoing(c)) by {
                            if out@.contains(c) {
                                let j = choose|j: int| 0 <= j < out@.len() && out@[j] == c;
                                if j < out0.len() {
                                    assert(out0[j] == c);
                                    assert(out0.contains(c));
                                    let w = choose|w: int|
                                        0 <= w < i - 1 && (#[trigger] tags@.take(i - 1)[w])
                                            == Neighbor::Outgoing(c);
                                    assert(cur[w] == Neighbor::Outgoing(c));
                                } else {
                                    assert(out@[j] == tags@[i - 1]->Outgoing_0);
                                    assert(cur[i - 1] == tags@[i - 1]);
                                }
                            }
                            if cur.contains(Neighbor::Outgoing(c)) {
                                let j = choose|j: int|
                                    0 <= j < cur.len() && cur[j] == Neighbor::Outgoing(c);
                                if j < i - 1 {
                                    assert(tags@.take(i - 1)[j] == Neighbor::Outgoing(c));
                                    assert(out0.contains(c));
                                    let w = choose|w: int|
                                        0 <= w < out0.len() && out0[w] == c;
                                    assert(out@[w] == c);
                                } else {
                                    assert(tags@[i - 1] == Neighbor::Outgoing(c));
                                    assert(out@[out@.len() - 1] == c);
                                }
                            }
                        }
                        assert(out@.no_duplicates()) by {
                            assert forall|a: int, b: int|
                                0 <= a < b < out@.len() implies out@[a] != out@[b] by {
                                if b < out0.len() {
                                    assert(out0[a] == out@[a] && out0[b] == out@[b]);
                                } else if out@.len() > out0.len() {
                                    assert(out0[a] == out@[a]);
                                    if out0[a] == out@[b] {
                                        assert(out0.contains(out@[b]));
                                        assert(false);
                                    }
                                }
                            }
                        }
                    }
                }
                proof {
                    assert(tags@.take(n as int) =~= tags@);
                    assert forall|c: CellPos|
                        out@.contains(c) == self.dep(pos, c) by {
                        assert(self.at(pos) =~= tags@.to_set());
                    }
                }
                out
            },
        }
    }

    /// The cells `pos`'s formula references, in no particular order and
    /// without repetition.
    pub fn get_references(&self, pos: CellPos) -> (r: Vec<CellPos>)
        requires
            self.wf(),
        ensures
            r@.no_duplicates(),
            forall|v: CellPos| #![trigger r@.contains(v)] r@.contains(v) == self.refs_edge(pos, v),
    {
        let entry = self.adjacency_list.get(pos);
        match entry {
            None => {
                let r: Vec<CellPos> = Vec::new();
                proof {
                    assert forall|v: CellPos| r@.contains(v) == self.refs_edge(pos, v) by {
                        assert(self.at(pos) =~= Set::<Neighbor>::empty());
                        assert(!r@.contains(v));
                    }
                }
                r
            },
            Some(v) => {
                let tags = v;
                let n = tags.len();
                let mut out: Vec<CellPos> = Vec::new();
                let mut i: usize = 0;
                while i < n
                    invariant
                        i <= n,
                        self.wf(),
                        self.dom().contains(pos),
                        n == tags@.len(),
                        tags@ == self.adjacency_list@[pos]@,
                        tags@.no_duplicates(),
                        forall|c: CellPos| #![trigger out@.contains(c)]
                            out@.contains(c) == tags@.take(i as int).contains(
                                Neighbor::Incoming(c),
                            ),
                        out@.no_duplicates(),
                    decreases n - i,
                {
                    let t = tags[i];
                    let ghost out0 = out@;
                    match t {
                        Neighbor::Incoming(d) => {
                            proof {
                                if out@.contains(d) {
                                    let j = choose|j: int|
                                        0 <= j < i && tags@.take(i as int)[j]
                                            == Neighbor::Incoming(d);
                                    assert(tags@[j] == tags@[i as int]);
                                    assert(false);
                                }
                            }
                            out.push(d);
                        },
                        Neighbor::Outgoing(_) => {},
                    }
                    i += 1;
                    proof {
                        let cur = tags@.take(i as int);
                        assert(cur.drop_last() =~= tags@.take(i - 1));
                        assert(cur.last() == tags@[i - 1]);
                        assert forall|c: CellPos|
                            out@.contains(c) == cur.contains(Neighbor::Incoming(c)) by {
                            if out@.contains(c) {
                                let j = choose|j: int| 0 <= j < out@.len() && out@[j] == c;
                                if j < out0.len() {
                                    assert(out0[j] == c);
                                    assert(out0.contains(c));
                                    let w = choose|w: int|
                                        0 <= w < i - 1 && (#[trigger] tags@.take(i - 1)[w])
                                            == Neighbor::Incoming(c);
                                    assert(cur[w] == Neighbor::Incoming(c));
                                } else {
                                    assert(out@[j] == tags@[i - 1]->Incoming_0);
                                    assert(cur[i - 1] == tags@[i - 1]);
                                }
                            }
                            if cur.contains(Neighbor::Incoming(c)) {
                                let j = choose|j: int|
                                    0 <= j < cur.len() && cur[j] == Neighbor::Incoming(c);
                                if j < i - 1 {
                                    assert(tags@.take(i - 1)[j] == Neighbor::Incoming(c));
                                    assert(out0.contains(c));
                                    let w = choose|w: int|
                                        0 <= w < out0.len() && out0[w] == c;
                                    assert(out@[w] == c);
                                } else {
                                    assert(tags@[i - 1] == Neighbor::Incoming(c));
                                    assert(out@[out@.len() - 1] == c);
                                }
                            }
                        }
                        assert(out@.no_duplicates()) by {
                            assert forall|a: int, b: int|
                                0 <= a < b < out@.len() implies out@[a] != out@[b] by {
                                if b < out0.len() {
                                    assert(out0[a] == out@[a] && out0[b] == out@[b]);
                                } else if out@.len() > out0.len() {
                                    assert(out0[a] == out@[a]);
                                    if out0[a] == out@[b] {
                                        assert(out0.contains(out@[b]));
                                        assert(false);
                                    }
                                }
                            }
                        }
                    }
                }
                proof {
                    assert(tags@.take(n as int) =~= tags@);
                    assert forall|c: CellPos|
                        out@.contains(c) == self.refs_edge(pos, c) by {
                        assert(self.at(pos) =~= tags@.to_set());
                    }
                }
                out
            },
        }
    }

    /// Replaces `pos`'s edges: removes every edge touching `pos`, then
    /// records one reference edge from `pos` to each cell of `neighbors`
    /// (duplicates collapse). A reference to `pos` itself is kept as a
    /// self-edge.
    pub fn insert(&mut self, pos: CellPos, neighbors: &[CellPos])
        requires
            old(self).wf(),
            old(self).symmetric(),
        ensures
            final(self).wf(),
            final(self).symmetric(),
            forall|q2: CellPos| #![trigger final(self).dom().contains(q2)]
                final(self).dom().contains(q2) == (old(self).dom().contains(q2) || q2 == pos
                    || neighbors@.contains(q2)),
            forall|b: CellPos| #![trigger final(self).refs_edge(pos, b)]
                final(self).refs_edge(pos, b) == neighbors@.contains(b),
            forall|b: CellPos| #![trigger final(self).dep(pos, b)]
                final(self).dep(pos, b) == (b == pos && neighbors@.contains(pos)),
            forall|p: CellPos, t: Neighbor| #![trigger final(self).has_tag(p, t)]
                p != pos ==> final(self).has_tag(p, t) == ((old(self).has_tag(p, t) && t
                    != Neighbor::Incoming(pos) && t != Neighbor::Outgoing(pos)) || (t
                    == Neighbor::Outgoing(pos) && neighbors@.contains(p))),
    {
        self.remove(pos);
        let ghost g0 = *old(self);
        let ghost g1 = *self;
        proof {
            assert(unlinked(g1, g0, pos)) by {
                assert forall|q2: CellPos| #[trigger]
                    g1.dom().contains(q2) == (g0.dom().contains(q2) && q2 != pos) by {}
            }
            assert(relinked(g1, g1, pos, neighbors@.take(0))) by {
                assert forall|p: CellPos, t: Neighbor| #[trigger]
                    g1.has_tag(p, t) == (g1.has_tag(p, t) || (t == Neighbor::Outgoing(pos) && p
                        != pos && neighbors@.take(0).contains(p))) by {
                    if neighbors@.take(0).contains(p) {
                        let j = choose|j: int| 0 <= j < 0 && neighbors@.take(0)[j] == p;
                    }
                }
            }
        }
        let n = neighbors.len();
        let mut i: usize = 0;
        while i < n
            invariant
                i <= n,
                n == neighbors@.len(),
                self.wf(),
                g0.symmetric(),
                g0 == *old(self),
                unlinked(g1, g0, pos),
                relinked(*self, g1, pos, neighbors@.take(i as int)),
            decreases n - i,
        {
            let r = neighbors[i];
            let ghost pre = *self;
            if r != pos {
                self.add_tag(r, Neighbor::Outgoing(pos));
            }
            i += 1;
            proof {
                let cur = neighbors@.take(i as int);
                let prev = neighbors@.take(i - 1);
                assert(cur.drop_last() =~= prev);
                assert(cur.last() == neighbors@[i - 1]);
                assert(relinked(*self, g1, pos, cur)) by {
                    assert forall|p: CellPos, t: Neighbor| #[trigger]
                        self.has_tag(p, t) == (g1.has_tag(p, t) || (t == Neighbor::Outgoing(pos)
                            && p != pos && cur.contains(p))) by {
                        assert(pre.has_tag(p, t) == (g1.has_tag(p, t) || (t
                            == Neighbor::Outgoing(pos) && p != pos && prev.contains(p))));
                        if cur.contains(p) {
                            let j = choose|j: int| 0 <= j < cur.len() && cur[j] == p;
                            if j < i - 1 {
                                assert(prev[j] == p);
                            }
                        }
                        if prev.contains(p) {
                            let j = choose|j: int| 0 <= j < prev.len() && prev[j] == p;
                            assert(cur[j] == p);
                        }
                    }
                    assert forall|q2: CellPos| #[trigger]
                        self.dom().contains(q2) == (g1.dom().contains(q2) || (cur.contains(q2)
                            && q2 != pos)) by {
                        assert(pre.dom().contains(q2) == (g1.dom().contains(q2) || (prev.contains(
                            q2,
                        ) && q2 != pos)));
                        if cur.contains(q2) {
                            let j = choose|j: int| 0 <= j < cur.len() && cur[j] == q2;
                            if j < i - 1 {
                                assert(prev[j] == q2);
                            }
                        }
                        if prev.contains(q2) {
                            let j = choose|j: int| 0 <= j < prev.len() && prev[j] == q2;
                            assert(cur[j] == q2);
                        }
                    }
                }
            }
        }
        proof {
            assert(neighbors@.take(n as int) =~= neighbors@);
        }
        // build pos's own entry: one Incoming tag per distinct reference,
        // plus the mirror of a self-edge
        let mut own: Vec<CellPos> = Vec::new();
        let mut i: usize = 0;
        while i < n
            invariant
                i <= n,
                n == neighbors@.len(),
                self.wf(),
                g0.symmetric(),
                g0 == *old(self),
                unlinked(g1, g0, pos),
                relinked(*self, g1, pos, neighbors@),
                own@.no_duplicates(),
                forall|c: CellPos| #![trigger own@.contains(c)]
                    own@.contains(c) == neighbors@.take(i as int).contains(c),
            decreases n - i,
        {
            let r = neighbors[i];
            let ghost own0 = own@;
            if !Dag::pos_contains(&own, r) {
                own.push(r);
            }
            i += 1;
            proof {
                let cur = neighbors@.take(i as int);
                assert(cur.drop_last() =~= neighbors@.take(i - 1));
                assert(cur.last() == neighbors@[i - 1]);
                assert(own@.no_duplicates()) by {
                    assert forall|a: int, b: int|
                        0 <= a < b < own@.len() implies own@[a] != own@[b] by {
                        if b < own0.len() {
                            assert(own0[a] == own@[a] && own0[b] == own@[b]);
                        } else if own@.len() > own0.len() {
                            assert(own0[a] == own@[a]);
                            if own0[a] == own@[b] {
                                assert(own0.contains(own@[b]));
                                assert(false);
                            }
                        }
                    }
                }
                assert forall|c: CellPos|
                    own@.contains(c) == cur.contains(c) by {
                    if own@.contains(c) {
                        let j = choose|j: int| 0 <= j < own@.len() && own@[j] == c;
                        if j < own0.len() {
                            assert(own0[j] == c);
                            assert(own0.contains(c));
                            let w = choose|w: int|
                                0 <= w < i - 1 && (#[trigger] neighbors@.take(i - 1)[w]) == c;
                            assert(cur[w] == c);
                        } else {
                            assert(own@[j] == neighbors@[i - 1]);
                            assert(cur[i - 1] == neighbors@[i - 1]);
                        }
                    }
                    if cur.contains(c) {
                        let j = choose|j: int| 0 <= j < cur.len() && cur[j] == c;
                        if j < i - 1 {
                            assert(neighbors@.take(i - 1)[j] == c);
                            assert(own0.contains(c));
                            let w = choose|w: int| 0 <= w < own0.len() && own0[w] == c;
                            assert(own@[w] == c);
                        } else {
                            assert(neighbors@[i - 1] == c);
                            if own0.contains(c) {
                                let w = choose|w: int|
                                    0 <= w < own0.len() && own0[w] == c;
                                assert(own@[w] == c);
                            } else {
                                assert(own@[own@.len() - 1] == c);
                            }
                        }
                    }
                }
            }
        }
        proof {
            assert(neighbors@.take(n as int) =~= neighbors@);
        }
        let mut tags: Vec<Neighbor> = Vec::new();
        let m = own.len();
        let mut k: usize = 0;
        while k < m
            invariant
                k <= m,
                m == own@.len(),
                self.wf(),
                g0.symmetric(),
                g0 == *old(self),
                unlinked(g1, g0, pos),
                relinked(*self, g1, pos, neighbors@),
                own@.no_duplicates(),
                forall|c: CellPos| #![trigger own@.contains(c)]
                    own@.contains(c) == neighbors@.contains(c),
                tags@.len() == k,
                forall|j: int| 0 <= j < k ==> tags@[j] == Neighbor::Incoming(own@[j]),
            decreases m - k,
        {
            tags.push(Neighbor::Incoming(own[k]));
            k += 1;
        }
        let self_ref = Dag::pos_contains(&own, pos);
        if self_ref {
            tags.push(Neighbor::Outgoing(pos));
        }
        proof {
            assert forall|a: int, b: int|
                0 <= a < b < tags@.len() implies tags@[a] != tags@[b] by {
                if b < m {
                    assert(tags@[a] == Neighbor::Incoming(own@[a]));
                    assert(tags@[b] == Neighbor::Incoming(own@[b]));
                } else {
                    assert(tags@[b] == Neighbor::Outgoing(pos));
                    assert(tags@[a] == Neighbor::Incoming(own@[a]));
                }
            }
            assert forall|t: Neighbor|
                tags@.contains(t) == ((t is Incoming && own@.contains(t->Incoming_0)) || (t
                    == Neighbor::Outgoing(pos) && own@.contains(pos))) by {
                if tags@.contains(t) {
                    let j = choose|j: int| 0 <= j < tags@.len() && tags@[j] == t;
                    if j < m {
                        assert(t == Neighbor::Incoming(own@[j]));
                        assert(own@.contains(own@[j]));
                    } else {
                        assert(t == Neighbor::Outgoing(pos));
                    }
                }
                if t is Incoming && own@.contains(t->Incoming_0) {
                    let j = choose|j: int| 0 <= j < own@.len() && own@[j] == t->Incoming_0;
                    assert(tags@[j] == t);
                }
                if t == Neighbor::Outgoing(pos) && own@.contains(pos) {
                    assert(tags@[tags@.len() - 1] == t);
                }
            }
        }
        let ghost g2 = *self;
        self.adjacency_list.insert(pos, tags);
        proof {
            assert forall|q2: CellPos|
                self.dom().contains(q2) == (g0.dom().contains(q2) || q2 == pos
                    || neighbors@.contains(q2)) by {
                assert(g2.dom().contains(q2) == (g1.dom().contains(q2) || (neighbors@.contains(q2)
                    && q2 != pos)));
                assert(g1.dom().contains(q2) == (g0.dom().contains(q2) && q2 != pos));
            }
            assert forall|p: CellPos, t: Neighbor| #![trigger self.has_tag(p, t)]
                p != pos implies self.has_tag(p, t) == ((g0.has_tag(p, t) && t
                    != Neighbor::Incoming(pos) && t != Neighbor::Outgoing(pos)) || (t
                    == Neighbor::Outgoing(pos) && neighbors@.contains(p))) by {
                assert(self.at(p) =~= g2.at(p));
                assert(g2.has_tag(p, t) == (g1.has_tag(p, t) || (t == Neighbor::Outgoing(pos) && p
                    != pos && neighbors@.contains(p))));
                assert(g1.has_tag(p, t) == (g0.has_tag(p, t) && t != Neighbor::Incoming(pos) && t
                    != Neighbor::Outgoing(pos)));
            }
            assert(self.at(pos) =~= tags@.to_set());
            assert forall|b: CellPos|
                self.refs_edge(pos, b) == neighbors@.contains(b) by {
                assert(tags@.contains(Neighbor::Incoming(b)) == own@.contains(b));
            }
            assert forall|b: CellPos|
                self.dep(pos, b) == (b == pos && neighbors@.contains(pos)) by {
                assert(tags@.contains(Neighbor::Outgoing(b)) == (b == pos && own@.contains(pos)));
            }
            assert forall|a: CellPos, b: CellPos| #[trigger]
                self.refs_edge(a, b) <==> self.dep(b, a) by {
                if a == pos {
                    assert(self.refs_edge(pos, b) == neighbors@.contains(b));
                    if b == pos {
                        assert(self.dep(pos, pos) == (pos == pos && neighbors@.contains(pos)));
                    } else {
                        assert(self.has_tag(b, Neighbor::Outgoing(pos)) == ((g0.has_tag(
                            b,
                            Neighbor::Outgoing(pos),
                        ) && false) || neighbors@.contains(b)));
                    }
                } else {
                    if b == pos {
                        assert(self.has_tag(a, Neighbor::Incoming(pos)) == false);
                        assert(self.dep(pos, a) == (a == pos && neighbors@.contains(pos)));
                    } else {
                        assert(self.has_tag(a, Neighbor::Incoming(b)) == (g0.has_tag(
                            a,
                            Neighbor::Incoming(b),
                        ) && b != pos));
                        assert(self.has_tag(b, Neighbor::Outgoing(a)) == (g0.has_tag(
                            b,
                            Neighbor::Outgoing(a),
                        ) && a != pos));
                        assert(g0.refs_edge(a, b) <==> g0.dep(b, a));
                    }
                }
            }
        }
    }

    /// Whether `p` occurs in `v`.
    fn pos_contains(v: &Vec<CellPos>, p: CellPos) -> (r: bool)
        ensures
            r == v@.contains(p),
    {
        let n = v.len();
        let mut i: usize = 0;
        while i < n
            invariant
                i <= n,
                n == v@.len(),
                forall|j: int| 0 <= j < i ==> v@[j] != p,
            decreases n - i,
        {
            if v[i] == p {
                return true;
            }
            i += 1;
        }
        proof {
            if v@.contains(p) {
                let j = choose|j: int| 0 <= j < v@.len() && v@[j] == p;
                assert(false);
            }
        }
        false
    }
}


/// A non-empty sequence of vertices each of which is a dependent of the one
/// before it, whose last vertex has the first as a dependent.
pub open spec fn is_cycle(g: Dag, c: Seq<CellPos>) -> bool {
    &&& c.len() >= 1
    &&& forall|i: int| 0 <= i < c.len() - 1 ==> g.dep(#[trigger] c[i], c[i + 1])
    &&& g.dep(c.last(), c[0])
}

/// A walk along dependent edges: each vertex is a dependent of the one
/// before it.
pub open spec fn is_path(g: Dag, p: Seq<CellPos>) -> bool {
    &&& p.len() >= 1
    &&& forall|i: int| 0 <= i < p.len() - 1 ==> g.dep(#[trigger] p[i], p[i + 1])
}

/// Whether `b` can be reached from `a` along dependent edges.
pub open spec fn reachable(g: Dag, a: CellPos, b: CellPos) -> bool {
    exists|p: Seq<CellPos>| #![trigger is_path(g, p)] is_path(g, p) && p[0] == a && p.last() == b
}

/// A dependency cycle lying entirely among the cells reachable from `pos`.
pub open spec fn reachable_cycle(g: Dag, pos: CellPos) -> bool {
    exists|c: Seq<CellPos>| #![trigger is_cycle(g, c)]
        is_cycle(g, c) && (forall|i: int| 0 <= i < c.len() ==> reachable(g, pos, #[trigger] c[i]))
}

/// An acyclic graph has no reachable cycle from anywhere.
pub proof fn lemma_acyclic_no_reachable_cycle(g: Dag, pos: CellPos)
    requires
        acyclic(g),
    ensures
        !reachable_cycle(g, pos),
{
    if reachable_cycle(g, pos) {
        let c = choose|c: Seq<CellPos>|
            is_cycle(g, c) && (forall|i: int|
                0 <= i < c.len() ==> reachable(g, pos, #[trigger] c[i]));
        assert(!is_cycle(g, c));
    }
}

/// What a successful traversal from `pos` returns: every cell of `o` but the
/// first is a transitive dependent of an earlier one, each cell precedes all
/// of its dependents, and `o` is closed under taking dependents.
pub open spec fn topo_props(g: Dag, pos: CellPos, o: Seq<CellPos>) -> bool {
    &&& o.len() >= 1
    &&& o[0] == pos
    &&& o.no_duplicates()
    &&& forall|i: int, j: int|
        0 <= i < o.len() && 0 <= j < o.len() && g.dep(#[trigger] o[i], #[trigger] o[j]) ==> i < j
    &&& forall|i: int, v: CellPos| #![trigger g.dep(o[i], v)]
        0 <= i < o.len() && g.dep(o[i], v) ==> o.contains(v)
    &&& forall|j: int| #![trigger o[j]]
        1 <= j < o.len() ==> exists|i: int| 0 <= i < j && g.dep(#[trigger] o[i], o[j])
}

/// The open vertices of a traversal stack, bottom to top: the first
/// components of its pass-one entries.
pub open spec fn opens(s: Seq<(CellPos, u8)>) -> Seq<CellPos>
    decreases s.len(),
{
    if s.len() == 0 {
        Seq::empty()
    } else {
        let rest = opens(s.drop_last());
        if s.last().1 == 1 {
            rest.push(s.last().0)
        } else {
            rest
        }
    }
}

/// `opens` distributes over concatenation.
proof fn lemma_opens_add(a: Seq<(CellPos, u8)>, b: Seq<(CellPos, u8)>)
    ensures
        opens(a + b) == opens(a) + opens(b),
    decreases b.len(),
{
    if b.len() == 0 {
        assert(a + b =~= a);
        assert(opens(a) + opens(b) =~= opens(a));
    } else {
        lemma_opens_add(a, b.drop_last());
        assert((a + b).drop_last() =~= a + b.drop_last());
        assert((a + b).last() == b.last());
        if b.last().1 == 1 {
            assert(opens(b) == opens(b.drop_last()).push(b.last().0));
            assert(opens(a + b) == (opens(a) + opens(b.drop_last())).push(b.last().0));
            assert((opens(a) + opens(b.drop_last())).push(b.last().0) =~= opens(a) + opens(
                b.drop_last(),
            ).push(b.last().0));
        } else {
            assert(opens(b) == opens(b.drop_last()));
        }
    }
}

/// A stack of pass-zero entries has no open vertices.
proof fn lemma_opens_all_zero(s: Seq<(CellPos, u8)>)
    requires
        forall|k: int| 0 <= k < s.len() ==> (#[trigger] s[k]).1 == 0,
    ensures
        opens(s) == Seq::<CellPos>::empty(),
    decreases s.len(),
{
    if s.len() > 0 {
        assert(s[s.len() - 1].1 == 0);
        lemma_opens_all_zero(s.drop_last());
    }
}

/// Membership in a pushed sequence.
proof fn lemma_push_contains<A>(s: Seq<A>, x: A, v: A)
    ensures
        s.push(x).contains(v) == (s.contains(v) || v == x),
{
    if s.push(x).contains(v) {
        let j = choose|j: int| 0 <= j < s.push(x).len() && s.push(x)[j] == v;
        if j < s.len() {
            assert(s[j] == v);
        }
    }
    if s.contains(v) {
        let j = choose|j: int| 0 <= j < s.len() && s[j] == v;
        assert(s.push(x)[j] == v);
    }
    if v == x {
        assert(s.push(x)[s.len() as int] == v);
    }
}

/// Membership in a shortened duplicate-free sequence.
proof fn lemma_drop_last_contains<A>(s: Seq<A>, v: A)
    requires
        s.len() > 0,
        s.no_duplicates(),
    ensures
        s.drop_last().contains(v) == (s.contains(v) && v != s.last()),
{
    if s.drop_last().contains(v) {
        let j = choose|j: int| 0 <= j < s.len() - 1 && s.drop_last()[j] == v;
        assert(s[j] == v);
        assert(s[j] != s[s.len() - 1]);
    }
    if s.contains(v) && v != s.last() {
        let j = choose|j: int| 0 <= j < s.len() && s[j] == v;
        assert(j != s.len() - 1);
        assert(s.drop_last()[j] == v);
    }
}

impl Dag {
    /// The graph has finitely many vertices.
    pub proof fn lemma_dom_finite(self)
        requires
            self.wf(),
        ensures
            self.dom().finite(),
    {
        self.adjacency_list.lemma_dom_finite();
    }

    /// A dependent named anywhere in a symmetric graph is a vertex.
    proof fn lemma_dep_in_dom(self, a: CellPos, b: CellPos)
        requires
            self.symmetric(),
            self.dep(a, b),
        ensures
            self.dom().contains(b),
    {
        assert(self.refs_edge(b, a));
        if !self.dom().contains(b) {
            assert(self.at(b) =~= Set::<Neighbor>::empty());
        }
    }

    /// Every cell reachable from `pos` along dependent edges, `pos` first,
    /// each cell before all of its dependents; or the cycle error when the
    /// exploration path loops, in which case the graph really holds a cycle.
    ///
    /// The traversal is an iterative depth-first search with two-colour
    /// marking: a vertex is `temporary` while its dependents are being
    /// explored, and closed once they all are; meeting a temporary vertex
    /// again means the exploration path has looped.
    pub fn get_topological_sort(&self, pos: CellPos) -> (r: Result<Vec<CellPos>, ()>)
        requires
            self.wf(),
            self.symmetric(),
        ensures
            match r {
                Ok(order) => topo_props(*self, pos, order@),
                Err(_) => reachable_cycle(*self, pos),
            },
    {
        let ghost g = *self;
        proof {
            self.lemma_dom_finite();
        }
        let ghost uni = self.dom().insert(pos);
        let mut temp: Vec<CellPos> = Vec::new();
        let mut order: Vec<CellPos> = Vec::new();
        let mut stack: Vec<(CellPos, u8)> = Vec::new();
        stack.push((pos, 0));
        let ghost mut chain: Seq<CellPos> = Seq::empty();
        proof {
            lemma_ti_init(g, pos, uni, stack@);
        }
        while stack.len() > 0
            invariant
                self.wf(),
                self.symmetric(),
                g == *self,
                uni == self.dom().insert(pos),
                uni.finite(),
                ti(g, pos, uni, stack@, temp@, order@, chain),
            decreases uni.len() - temp@.len(), stack@.len(),
        {
            proof {
                lemma_ti_len(g, pos, uni, stack@, temp@, order@, chain);
            }
            let ghost spre = stack@;
            let e = stack.pop().unwrap();
            let n = e.0;
            proof {
                assert(e == spre.last());
                assert(stack@ == spre.drop_last());
            }
            if e.1 == 0 {
                if Dag::pos_contains(&order, n) {
                    proof {
                        lemma_skip_step(g, pos, uni, spre, temp@, order@, chain, n);
                    }
                } else if Dag::pos_contains(&temp, n) {
                    proof {
                        lemma_err_step(g, pos, uni, spre, temp@, order@, chain, n);
                    }
                    return Err(());
                } else {
                    let ghost temp0 = temp@;
                    let ghost chain0 = chain;
                    temp.push(n);
                    proof {
                        chain = chain.push(n);
                    }
                    let deps = self.get_dependents(n);
                    let mut adds: Vec<(CellPos, u8)> = Vec::new();
                    adds.push((n, 1));
                    let m = deps.len();
                    let mut ci: usize = 0;
                    while ci < m
                        invariant
                            ci <= m,
                            m == deps@.len(),
                            adds@.len() == 1 + ci,
                            adds@[0] == (n, 1u8),
                            forall|k: int|
                                1 <= k < adds@.len() ==> (#[trigger] adds@[k]) == (deps@[k - 1],
                                0u8),
                            g == *self,
                            self.wf(),
                            self.symmetric(),
                            deps@.no_duplicates(),
                            forall|v: CellPos| #![trigger deps@.contains(v)]
                                deps@.contains(v) == g.dep(n, v),
                        decreases m - ci,
                    {
                        adds.push((deps[ci], 0));
                        ci += 1;
                    }
                    let ghost addsv = adds@;
                    stack.append(&mut adds);
                    proof {
                        lemma_expand_step(
                            g,
                            pos,
                            uni,
                            spre,
                            temp0,
                            order@,
                            chain0,
                            n,
                            deps@,
                            addsv,
                        );
                        assert(stack@ == spre.drop_last() + addsv);
                        assert(temp@ == temp0.push(n));
                        assert(chain == chain0.push(n));
                        lemma_ti_len(g, pos, uni, stack@, temp@, order@, chain);
                    }
                }
            } else {
                let ghost chain0 = chain;
                let ghost order0 = order@;
                proof {
                    assert(spre[spre.len() - 1].1 == 0 || spre[spre.len() - 1].1 == 1);
                    assert(spre.last().1 == 1);
                    lemma_close_last(g, pos, uni, spre, temp@, order@, chain, n);
                    chain = chain.drop_last();
                }
                order.push(n);
                proof {
                    lemma_close_step(g, pos, uni, spre, temp@, order0, chain0, n);
                    assert(order@ == order0.push(n));
                    lemma_ti_len(g, pos, uni, stack@, temp@, order@, chain);
                }
            }
        }
        // reverse the finish order so every cell precedes its dependents
        let ghost fin = Seq::new(order@.len(), |j: int| order@[order@.len() - 1 - j]);
        proof {
            assert(stack@ =~= Seq::<(CellPos, u8)>::empty());
            lemma_topo_final(g, pos, uni, temp@, order@, chain, fin);
        }
        let len = order.len();
        let mut rev: Vec<CellPos> = Vec::new();
        let mut k: usize = 0;
        while k < len
            invariant
                k <= len,
                len == order@.len(),
                fin == Seq::new(order@.len(), |j: int| order@[order@.len() - 1 - j]),
                topo_props(g, pos, fin),
                g == *self,
                rev@.len() == k,
                forall|j: int| 0 <= j < k ==> #[trigger] rev@[j] == fin[j],
            decreases len - k,
        {
            rev.push(order[len - 1 - k]);
            k += 1;
        }
        proof {
            assert(rev@ =~= fin);
        }
        Ok(rev)
    }
}

/// The traversal invariant: how the stack `sv`, the temporary set `tv`, the
/// finish order `ov` and the open path `cv` relate to each other and to the
/// graph, at every step of the search.
#[verifier::opaque]
pub open spec fn ti(
    g: Dag,
    pos: CellPos,
    uni: Set<CellPos>,
    sv: Seq<(CellPos, u8)>,
    tv: Seq<CellPos>,
    ov: Seq<CellPos>,
    cv: Seq<CellPos>,
) -> bool {
    &&& tv.no_duplicates()
    &&& ov.no_duplicates()
    &&& cv.no_duplicates()
    &&& opens(sv) == cv
    &&& forall|v: CellPos| #![trigger tv.contains(v)]
        tv.contains(v) == (ov.contains(v) || cv.contains(v))
    &&& forall|v: CellPos| #![trigger tv.contains(v)] tv.contains(v) ==> uni.contains(v)
    &&& forall|k: int| 0 <= k < sv.len() ==> uni.contains((#[trigger] sv[k]).0)
    &&& forall|k: int| 0 <= k < sv.len() ==> (#[trigger] sv[k]).1 == 0 || sv[k].1 == 1
    &&& forall|k: int| 0 <= k < cv.len() ==> !ov.contains(#[trigger] cv[k])
    &&& (sv.len() > 0 ==> sv[0].0 == pos)
    &&& ((sv.len() > 0 && sv[0].1 == 0) ==> (sv.len() == 1 && sv[0] == (pos, 0u8) && ov.len() == 0
        && cv.len() == 0 && tv.len() == 0))
    &&& (sv.len() == 0 ==> (ov.len() >= 1 && ov.last() == pos && cv.len() == 0))
    &&& forall|k: int| 0 <= k < cv.len() - 1 ==> g.dep(#[trigger] cv[k], cv[k + 1])
    &&& (cv.len() > 0 ==> cv[0] == pos)
    &&& forall|k: int|
        0 <= k < sv.len() && (#[trigger] sv[k]).1 == 0 ==> ((k == 0 && sv[k].0 == pos) || (opens(
            sv.take(k),
        ).len() > 0 && g.dep(opens(sv.take(k)).last(), sv[k].0)))
    &&& forall|k: int, v: CellPos| #![trigger g.dep(sv[k].0, v)]
        (0 <= k < sv.len() && sv[k].1 == 1 && g.dep(sv[k].0, v)) ==> (ov.contains(v) || exists|
            k2: int,
        |
            k < k2 < sv.len() && (#[trigger] sv[k2]).0 == v)
    &&& forall|i: int, j: int|
        0 <= i < ov.len() && 0 <= j < ov.len() && g.dep(#[trigger] ov[j], #[trigger] ov[i]) ==> i
            < j
    &&& forall|j: int, v: CellPos| #![trigger g.dep(ov[j], v)]
        0 <= j < ov.len() && g.dep(ov[j], v) ==> ov.contains(v)
    &&& forall|v: CellPos| #![trigger tv.contains(v)]
        tv.contains(v) ==> (v == pos || exists|w: CellPos| tv.contains(w) && g.dep(w, v))
}

/// The invariant holds at the start, with one pass-zero entry for `pos`.
proof fn lemma_ti_init(g: Dag, pos: CellPos, uni: Set<CellPos>, sv: Seq<(CellPos, u8)>)
    requires
        sv.len() == 1,
        sv[0] == (pos, 0u8),
        uni.contains(pos),
    ensures
        ti(g, pos, uni, sv, Seq::empty(), Seq::empty(), Seq::empty()),
{
    reveal(ti);
    assert(opens(sv) =~= Seq::<CellPos>::empty()) by {
        assert(sv.drop_last() =~= Seq::<(CellPos, u8)>::empty());
        assert(opens(Seq::<(CellPos, u8)>::empty()) == Seq::<CellPos>::empty());
        assert(sv.last().1 == 0);
    }
}

/// The temporary set never outgrows the universe of vertices.
proof fn lemma_ti_len(
    g: Dag,
    pos: CellPos,
    uni: Set<CellPos>,
    sv: Seq<(CellPos, u8)>,
    tv: Seq<CellPos>,
    ov: Seq<CellPos>,
    cv: Seq<CellPos>,
)
    requires
        uni.finite(),
        ti(g, pos, uni, sv, tv, ov, cv),
    ensures
        tv.len() <= uni.len(),
        forall|k: int| 0 <= k < sv.len() ==> ((#[trigger] sv[k]).1 == 0 || sv[k].1 == 1),
{
    reveal(ti);
    tv.unique_seq_to_set();
    assert(tv.to_set().subset_of(uni));
    vstd::set_lib::lemma_len_subset(tv.to_set(), uni);
}

/// Popping a pass-zero entry whose vertex is already closed keeps the
/// invariant.
proof fn lemma_skip_step(
    g: Dag,
    pos: CellPos,
    uni: Set<CellPos>,
    spre: Seq<(CellPos, u8)>,
    tv: Seq<CellPos>,
    ov: Seq<CellPos>,
    cv: Seq<CellPos>,
    n: CellPos,
)
    requires
        ti(g, pos, uni, spre, tv, ov, cv),
        spre.len() > 0,
        spre.last().0 == n,
        spre.last().1 == 0,
        ov.contains(n),
    ensures
        ti(g, pos, uni, spre.drop_last(), tv, ov, cv),
{
    reveal(ti);
    let snew = spre.drop_last();
    assert(opens(snew) == cv);
    assert forall|k: int|
        0 <= k < snew.len() && (#[trigger] snew[k]).1 == 0 implies ((k == 0 && snew[k].0 == pos)
        || (opens(snew.take(k)).len() > 0 && g.dep(opens(snew.take(k)).last(), snew[k].0))) by {
        assert(snew.take(k) =~= spre.take(k));
        assert(spre[k] == snew[k]);
    }
    assert forall|k: int, v: CellPos|
        (0 <= k < snew.len() && snew[k].1 == 1 && #[trigger] g.dep(snew[k].0, v)) implies (
    ov.contains(v) || exists|k2: int| k < k2 < snew.len() && (#[trigger] snew[k2]).0 == v) by {
        assert(spre[k] == snew[k]);
        assert(g.dep(spre[k].0, v));
        if !ov.contains(v) {
            let k2 = choose|k2: int| k < k2 < spre.len() && (#[trigger] spre[k2]).0 == v;
            if k2 == spre.len() - 1 {
                assert(v == n);
                assert(false);
            } else {
                assert(snew[k2].0 == v);
            }
        }
    }
    if snew.len() == 0 {
        assert(spre.len() == 1);
        assert(spre[0].1 == 0);
        assert(ov.len() == 0);
        assert(false);
    }
    if snew[0].1 == 0 {
        assert(spre[0].1 == 0);
        assert(spre.len() == 1);
        assert(false);
    }
}

/// Meeting a temporary, still-open vertex again exhibits a cycle.
#[verifier::rlimit(50)]
proof fn lemma_err_step(
    g: Dag,
    pos: CellPos,
    uni: Set<CellPos>,
    spre: Seq<(CellPos, u8)>,
    tv: Seq<CellPos>,
    ov: Seq<CellPos>,
    cv: Seq<CellPos>,
    n: CellPos,
)
    requires
        ti(g, pos, uni, spre, tv, ov, cv),
        spre.len() > 0,
        spre.last().0 == n,
        spre.last().1 == 0,
        !ov.contains(n),
        tv.contains(n),
    ensures
        reachable_cycle(g, pos),
{
    reveal(ti);
    assert(cv.contains(n));
    let idx = choose|idx: int| 0 <= idx < cv.len() && cv[idx] == n;
    if spre.len() == 1 {
        assert(spre[0].1 == 0);
        assert(tv.len() == 0);
        assert(false);
    }
    assert(spre.take(spre.len() - 1) =~= spre.drop_last());
    assert(opens(spre) == opens(spre.drop_last()));
    assert(opens(spre.take(spre.len() - 1)).len() > 0 && g.dep(
        opens(spre.take(spre.len() - 1)).last(),
        n,
    ));
    assert(g.dep(cv.last(), n));
    let c = cv.subrange(idx, cv.len() as int);
    assert(c.len() >= 1);
    assert forall|i: int| 0 <= i < c.len() - 1 implies g.dep(#[trigger] c[i], c[i + 1]) by {
        assert(c[i] == cv[idx + i]);
        assert(c[i + 1] == cv[idx + i + 1]);
    }
    assert(c.last() == cv.last());
    assert(c[0] == n);
    assert(is_cycle(g, c));
    // every vertex of the cycle sits on the open path, which starts at
    // `pos`: its prefix up to that vertex is a witnessing walk
    assert forall|i: int| 0 <= i < c.len() implies reachable(g, pos, #[trigger] c[i]) by {
        assert(c[i] == cv[idx + i]);
        let w = cv.take(idx + i + 1);
        assert(w.len() >= 1);
        assert(w[0] == cv[0]);
        assert(cv[0] == pos);
        assert forall|j: int| 0 <= j < w.len() - 1 implies g.dep(#[trigger] w[j], w[j + 1]) by {
            assert(w[j] == cv[j] && w[j + 1] == cv[j + 1]);
        }
        assert(is_path(g, w));
        assert(w.last() == cv[idx + i]);
    }
    assert(reachable_cycle(g, pos));
}

/// Expanding a fresh vertex keeps the invariant: it joins the temporary set
/// and the open path, its pass-one entry replaces the popped pass-zero one,
/// and one pass-zero entry is pushed for each of its dependents.
#[verifier::rlimit(100)]
proof fn lemma_expand_step(
    g: Dag,
    pos: CellPos,
    uni: Set<CellPos>,
    spre: Seq<(CellPos, u8)>,
    tv: Seq<CellPos>,
    ov: Seq<CellPos>,
    cv: Seq<CellPos>,
    n: CellPos,
    depsv: Seq<CellPos>,
    addsv: Seq<(CellPos, u8)>,
)
    requires
        g.symmetric(),
        g.wf(),
        uni == g.dom().insert(pos),
        uni.finite(),
        ti(g, pos, uni, spre, tv, ov, cv),
        spre.len() > 0,
        spre.last().0 == n,
        spre.last().1 == 0,
        !ov.contains(n),
        !tv.contains(n),
        depsv.no_duplicates(),
        forall|v: CellPos| #![trigger depsv.contains(v)] depsv.contains(v) == g.dep(n, v),
        addsv.len() == 1 + depsv.len(),
        addsv[0] == (n, 1u8),
        forall|k: int| 1 <= k < addsv.len() ==> (#[trigger] addsv[k]) == (depsv[k - 1], 0u8),
    ensures
        ti(g, pos, uni, spre.drop_last() + addsv, tv.push(n), ov, cv.push(n)),
        spre.drop_last() + addsv != Seq::<(CellPos, u8)>::empty(),
        (spre.drop_last() + addsv).len() > 0,
{
    reveal(ti);
    let sbase = spre.drop_last();
    let snew = sbase + addsv;
    let tnew = tv.push(n);
    let cnew = cv.push(n);
    let kpop = spre.len() - 1;
    assert(spre.take(kpop) =~= sbase);
    assert(opens(spre) == opens(sbase));
    if kpop > 0 {
        assert(opens(sbase).len() > 0 && g.dep(opens(sbase).last(), n));
        assert(cv.len() > 0 && g.dep(cv.last(), n));
    } else {
        assert(spre[0].1 == 0);
        assert(cv.len() == 0 && tv.len() == 0 && ov.len() == 0);
        assert(n == pos);
    }
    // opens of the appended block
    assert(addsv =~= seq![(n, 1u8)] + addsv.subrange(1, addsv.len() as int));
    lemma_opens_all_zero(addsv.subrange(1, addsv.len() as int));
    lemma_opens_add(seq![(n, 1u8)], addsv.subrange(1, addsv.len() as int));
    assert(opens(seq![(n, 1u8)]) =~= seq![n]) by {
        assert(seq![(n, 1u8)].drop_last() =~= Seq::<(CellPos, u8)>::empty());
        assert(opens(Seq::<(CellPos, u8)>::empty()) == Seq::<CellPos>::empty());
        assert(seq![(n, 1u8)].last() == (n, 1u8));
    }
    assert(opens(addsv) =~= seq![n]);
    lemma_opens_add(sbase, addsv);
    assert(opens(snew) =~= cv.push(n));
    assert(opens(snew) == cnew);
    // sets and duplicates
    assert forall|v: CellPos|
        tnew.contains(v) == (ov.contains(v) || cnew.contains(v)) by {
        lemma_push_contains(tv, n, v);
        lemma_push_contains(cv, n, v);
    }
    assert forall|v: CellPos| #[trigger] tnew.contains(v) implies uni.contains(v) by {
        lemma_push_contains(tv, n, v);
        if v == n {
            assert(uni.contains(spre[kpop].0));
        }
    }
    assert(tnew.drop_last() =~= tv);
    assert(tnew.no_duplicates()) by {
        assert forall|a: int, b: int| 0 <= a < b < tnew.len() implies tnew[a] != tnew[b] by {
            if b < tv.len() {
                assert(tv[a] == tnew[a] && tv[b] == tnew[b]);
            } else {
                assert(tnew[b] == n);
                assert(tv[a] == tnew[a]);
                if tnew[a] == n {
                    assert(tv.contains(n));
                    assert(false);
                }
            }
        }
    }
    assert(cnew.no_duplicates()) by {
        assert(cnew.drop_last() =~= cv);
        assert forall|a: int, b: int| 0 <= a < b < cnew.len() implies cnew[a] != cnew[b] by {
            if b < cv.len() {
                assert(cv[a] == cnew[a] && cv[b] == cnew[b]);
            } else {
                assert(cnew[b] == n);
                assert(cv[a] == cnew[a]);
                if cnew[a] == n {
                    assert(cv.contains(n));
                    assert(tv.contains(n));
                    assert(false);
                }
            }
        }
    }
    // every stack node is in the universe
    assert forall|k: int| 0 <= k < snew.len() implies uni.contains((#[trigger] snew[k]).0) by {
        if k < sbase.len() {
            assert(snew[k] == spre[k]);
        } else if k == sbase.len() {
            assert(snew[k].0 == n);
            assert(uni.contains(spre[kpop].0));
        } else {
            assert(snew[k] == addsv[k - sbase.len()]);
            assert(snew[k].0 == depsv[k - sbase.len() - 1]);
            let v = depsv[k - sbase.len() - 1];
            assert(depsv.contains(v));
            assert(g.dep(n, v));
            g.lemma_dep_in_dom(n, v);
        }
    }
    assert forall|k: int|
        0 <= k < snew.len() implies (#[trigger] snew[k]).1 == 0 || snew[k].1 == 1 by {
        if k < sbase.len() {
            assert(snew[k] == spre[k]);
        } else if k > sbase.len() {
            assert(snew[k] == addsv[k - sbase.len()]);
        }
    }
    assert forall|k: int| 0 <= k < cnew.len() implies !ov.contains(#[trigger] cnew[k]) by {
        if k < cv.len() {
            assert(cnew[k] == cv[k]);
        } else {
            assert(cnew[k] == n);
        }
    }
    // front of the stack
    if sbase.len() > 0 {
        assert(snew[0] == spre[0]);
        if snew[0].1 == 0 {
            assert(spre[0].1 == 0);
            assert(spre.len() == 1);
            assert(false);
        }
    } else {
        assert(snew[0] == (n, 1u8));
        assert(n == pos);
    }
    // chain shape
    assert forall|k: int| 0 <= k < cnew.len() - 1 implies g.dep(#[trigger] cnew[k], cnew[k + 1]) by {
        if k < cv.len() - 1 {
            assert(cnew[k] == cv[k] && cnew[k + 1] == cv[k + 1]);
        } else {
            assert(k == cv.len() - 1);
            assert(cnew[k] == cv.last() && cnew[k + 1] == n);
        }
    }
    if cv.len() > 0 {
        assert(cnew[0] == cv[0]);
    } else {
        assert(cnew[0] == n);
        assert(n == pos);
    }
    // justification of pass-zero entries
    assert forall|k: int|
        0 <= k < snew.len() && (#[trigger] snew[k]).1 == 0 implies ((k == 0 && snew[k].0 == pos)
        || (opens(snew.take(k)).len() > 0 && g.dep(opens(snew.take(k)).last(), snew[k].0))) by {
        if k < sbase.len() {
            assert(snew[k] == spre[k]);
            assert(snew.take(k) =~= spre.take(k));
        } else if k > sbase.len() {
            assert(snew[k] == addsv[k - sbase.len()]);
            let pref = addsv.subrange(0, k - sbase.len());
            assert(snew.take(k) =~= sbase + pref);
            assert(pref =~= seq![(n, 1u8)] + addsv.subrange(1, k - sbase.len()));
            lemma_opens_all_zero(addsv.subrange(1, k - sbase.len()));
            lemma_opens_add(seq![(n, 1u8)], addsv.subrange(1, k - sbase.len()));
            assert(opens(seq![(n, 1u8)]) =~= seq![n]) by {
                assert(seq![(n, 1u8)].drop_last() =~= Seq::<(CellPos, u8)>::empty());
                assert(opens(Seq::<(CellPos, u8)>::empty()) == Seq::<CellPos>::empty());
                assert(seq![(n, 1u8)].last() == (n, 1u8));
            }
            assert(opens(pref) =~= seq![n]);
            lemma_opens_add(sbase, pref);
            assert(opens(snew.take(k)) =~= cv.push(n));
            assert(opens(snew.take(k)).last() == n);
            let v = depsv[k - sbase.len() - 1];
            assert(depsv.contains(v));
            assert(g.dep(n, v));
            assert(snew[k].0 == v);
        }
    }
    // pending dependents of open vertices
    assert forall|k: int, v: CellPos|
        (0 <= k < snew.len() && snew[k].1 == 1 && #[trigger] g.dep(snew[k].0, v)) implies (
    ov.contains(v) || exists|k2: int| k < k2 < snew.len() && (#[trigger] snew[k2]).0 == v) by {
        if k < sbase.len() {
            assert(snew[k] == spre[k]);
            assert(g.dep(spre[k].0, v));
            if !ov.contains(v) {
                let k2 = choose|k2: int| k < k2 < spre.len() && (#[trigger] spre[k2]).0 == v;
                if k2 == spre.len() - 1 {
                    assert(v == n);
                    assert(snew[sbase.len() as int].0 == n);
                    assert(k < sbase.len() < snew.len());
                } else {
                    assert(snew[k2].0 == v);
                }
            }
        } else if k == sbase.len() {
            assert(snew[k].0 == n);
            assert(depsv.contains(v));
            let di = choose|di: int| 0 <= di < depsv.len() && depsv[di] == v;
            assert(snew[sbase.len() + 1 + di].0 == v);
        } else {
            assert(snew[k] == addsv[k - sbase.len()]);
            assert(snew[k].1 == 0);
        }
    }
    // every temporary vertex is justified
    assert forall|v: CellPos| #[trigger]
        tnew.contains(v) implies (v == pos || exists|w: CellPos|
        tnew.contains(w) && g.dep(w, v)) by {
        lemma_push_contains(tv, n, v);
        if v == n {
            if cv.len() > 0 {
                let w = cv.last();
                assert(tv.contains(w));
                lemma_push_contains(tv, n, w);
                assert(tnew.contains(w) && g.dep(w, n));
            } else {
                assert(n == pos);
            }
        } else if tv.contains(v) {
            if v != pos {
                let w = choose|w: CellPos| tv.contains(w) && g.dep(w, v);
                lemma_push_contains(tv, n, w);
                assert(tnew.contains(w) && g.dep(w, v));
            }
        }
    }
    assert(snew.len() > 0);
}

/// A popped pass-one entry closes the vertex at the end of the open path.
proof fn lemma_close_last(
    g: Dag,
    pos: CellPos,
    uni: Set<CellPos>,
    spre: Seq<(CellPos, u8)>,
    tv: Seq<CellPos>,
    ov: Seq<CellPos>,
    cv: Seq<CellPos>,
    n: CellPos,
)
    requires
        ti(g, pos, uni, spre, tv, ov, cv),
        spre.len() > 0,
        spre.last().0 == n,
        spre.last().1 == 1,
    ensures
        cv.len() >= 1,
        cv.last() == n,
        opens(spre.drop_last()) == cv.drop_last(),
{
    reveal(ti);
    assert(opens(spre) == opens(spre.drop_last()).push(n));
    assert(cv.len() >= 1 && cv.last() == n);
    assert(opens(spre.drop_last()) =~= cv.drop_last());
}

/// Closing the vertex at the end of the open path keeps the invariant: it
/// moves from the path to the front of the finish order.
proof fn lemma_close_step(
    g: Dag,
    pos: CellPos,
    uni: Set<CellPos>,
    spre: Seq<(CellPos, u8)>,
    tv: Seq<CellPos>,
    ov: Seq<CellPos>,
    cv: Seq<CellPos>,
    n: CellPos,
)
    requires
        ti(g, pos, uni, spre, tv, ov, cv),
        spre.len() > 0,
        spre.last().0 == n,
        spre.last().1 == 1,
    ensures
        ti(g, pos, uni, spre.drop_last(), tv, ov.push(n), cv.drop_last()),
{
    reveal(ti);
    let snew = spre.drop_last();
    let onew = ov.push(n);
    lemma_close_last(g, pos, uni, spre, tv, ov, cv, n);
    let cnew = cv.drop_last();
    assert(cv.contains(n)) by {
        assert(cv[cv.len() - 1] == n);
    }
    assert(!ov.contains(n));
    assert(tv.contains(n));
    // no dependent edge from the new vertex to itself
    assert(!g.dep(n, n)) by {
        if g.dep(n, n) {
            assert(g.dep(spre[spre.len() - 1].0, n));
            if !ov.contains(n) {
                let k2 = choose|k2: int|
                    spre.len() - 1 < k2 < spre.len() && (#[trigger] spre[k2]).0 == n;
                assert(false);
            }
        }
    }
    // dependents of the closed vertex are already closed
    assert forall|v: CellPos| #[trigger] g.dep(n, v) implies ov.contains(v) by {
        assert(g.dep(spre[spre.len() - 1].0, v));
        if !ov.contains(v) {
            let k2 = choose|k2: int|
                spre.len() - 1 < k2 < spre.len() && (#[trigger] spre[k2]).0 == v;
            assert(false);
        }
    }
    assert(onew.no_duplicates()) by {
        assert(onew.drop_last() =~= ov);
        assert forall|a: int, b: int| 0 <= a < b < onew.len() implies onew[a] != onew[b] by {
            if b < ov.len() {
                assert(ov[a] == onew[a] && ov[b] == onew[b]);
            } else {
                assert(onew[b] == n);
                assert(ov[a] == onew[a]);
                if onew[a] == n {
                    assert(ov.contains(n));
                    assert(false);
                }
            }
        }
    }
    assert(cnew.no_duplicates());
    assert forall|v: CellPos|
        tv.contains(v) == (onew.contains(v) || cnew.contains(v)) by {
        lemma_push_contains(ov, n, v);
        lemma_drop_last_contains(cv, v);
        if v == n {
            assert(tv.contains(n));
        }
    }
    assert forall|k: int| 0 <= k < cnew.len() implies !onew.contains(#[trigger] cnew[k]) by {
        assert(cnew[k] == cv[k]);
        lemma_push_contains(ov, n, cv[k]);
        assert(cv[k] != n) by {
            if cv[k] == n {
                assert(cv[k] == cv[cv.len() - 1]);
                assert(k == cv.len() - 1);
                assert(false);
            }
        }
    }
    assert forall|k: int| 0 <= k < cnew.len() - 1 implies g.dep(#[trigger] cnew[k], cnew[k + 1]) by {
        assert(cnew[k] == cv[k] && cnew[k + 1] == cv[k + 1]);
    }
    if cnew.len() > 0 {
        assert(cnew[0] == cv[0]);
    }
    // order validity and closure
    assert forall|i: int, j: int|
        0 <= i < onew.len() && 0 <= j < onew.len() && g.dep(
            #[trigger] onew[j],
            #[trigger] onew[i],
        ) implies i < j by {
        if j < ov.len() && i < ov.len() {
            assert(ov[i] == onew[i] && ov[j] == onew[j]);
        } else if j == ov.len() && i < ov.len() {
            assert(i < j);
        } else if i == ov.len() && j < ov.len() {
            assert(g.dep(ov[j], n));
            assert(ov.contains(n));
            assert(false);
        } else {
            assert(i == ov.len() && j == ov.len());
            assert(g.dep(n, n));
            assert(false);
        }
    }
    assert forall|j: int, v: CellPos| #![trigger g.dep(onew[j], v)]
        0 <= j < onew.len() && g.dep(onew[j], v) implies onew.contains(v) by {
        lemma_push_contains(ov, n, v);
        if j < ov.len() {
            assert(ov[j] == onew[j]);
        } else {
            assert(onew[j] == n);
            assert(ov.contains(v));
        }
    }
    // stack shape
    assert forall|k: int|
        0 <= k < snew.len() && (#[trigger] snew[k]).1 == 0 implies ((k == 0 && snew[k].0 == pos)
        || (opens(snew.take(k)).len() > 0 && g.dep(opens(snew.take(k)).last(), snew[k].0))) by {
        assert(snew.take(k) =~= spre.take(k));
        assert(spre[k] == snew[k]);
    }
    assert forall|k: int, v: CellPos|
        (0 <= k < snew.len() && snew[k].1 == 1 && #[trigger] g.dep(snew[k].0, v)) implies (
    onew.contains(v) || exists|k2: int| k < k2 < snew.len() && (#[trigger] snew[k2]).0 == v) by {
        assert(spre[k] == snew[k]);
        assert(g.dep(spre[k].0, v));
        lemma_push_contains(ov, n, v);
        if !onew.contains(v) {
            let k2 = choose|k2: int| k < k2 < spre.len() && (#[trigger] spre[k2]).0 == v;
            if k2 == spre.len() - 1 {
                assert(v == n);
                assert(false);
            } else {
                assert(snew[k2].0 == v);
            }
        }
    }
    if snew.len() == 0 {
        assert(spre.len() == 1);
        assert(spre[0].0 == pos);
        assert(n == pos);
        assert(onew.last() == pos);
        assert(opens(spre.drop_last()) =~= Seq::<CellPos>::empty()) by {
            assert(spre.drop_last() =~= Seq::<(CellPos, u8)>::empty());
            assert(opens(Seq::<(CellPos, u8)>::empty()) == Seq::<CellPos>::empty());
        }
        assert(cnew.len() == 0);
    } else {
        assert(snew[0] == spre[0]);
        if snew[0].1 == 0 {
            assert(spre[0].1 == 0);
            assert(spre.len() == 1);
            assert(false);
        }
    }
}

/// When the stack has emptied, the reversed finish order is a topological
/// order from `pos`.
proof fn lemma_topo_final(
    g: Dag,
    pos: CellPos,
    uni: Set<CellPos>,
    tv: Seq<CellPos>,
    ov: Seq<CellPos>,
    cv: Seq<CellPos>,
    fin: Seq<CellPos>,
)
    requires
        ti(g, pos, uni, Seq::empty(), tv, ov, cv),
        fin == Seq::new(ov.len(), |j: int| ov[ov.len() - 1 - j]),
    ensures
        topo_props(g, pos, fin),
{
    reveal(ti);
    let len = ov.len();
    assert(fin.len() >= 1);
    assert(fin[0] == ov.last());
    assert(fin.no_duplicates()) by {
        assert forall|a: int, b: int| 0 <= a < b < fin.len() implies fin[a] != fin[b] by {
            assert(fin[a] == ov[len - 1 - a]);
            assert(fin[b] == ov[len - 1 - b]);
        }
    }
    assert forall|i: int, j: int|
        0 <= i < fin.len() && 0 <= j < fin.len() && g.dep(
            #[trigger] fin[i],
            #[trigger] fin[j],
        ) implies i < j by {
        assert(fin[i] == ov[len - 1 - i]);
        assert(fin[j] == ov[len - 1 - j]);
        assert(g.dep(ov[len - 1 - i], ov[len - 1 - j]));
    }
    assert forall|i: int, v: CellPos| #![trigger g.dep(fin[i], v)]
        0 <= i < fin.len() && g.dep(fin[i], v) implies fin.contains(v) by {
        assert(fin[i] == ov[len - 1 - i]);
        assert(g.dep(ov[len - 1 - i], v));
        assert(ov.contains(v));
        let w = choose|w: int| 0 <= w < len && ov[w] == v;
        assert(fin[len - 1 - w] == v);
    }
    assert forall|j: int| #![trigger fin[j]]
        1 <= j < fin.len() implies exists|i: int|
        0 <= i < j && g.dep(#[trigger] fin[i], fin[j]) by {
        let v = fin[j];
        assert(v == ov[len - 1 - j]);
        assert(ov.contains(v)) by {
            assert(ov[len - 1 - j] == v);
        }
        assert(tv.contains(v));
        assert(v != pos) by {
            if v == pos {
                assert(ov[len - 1] == pos);
                assert(len - 1 - j != len - 1);
                assert(ov[len - 1 - j] != ov[len - 1]);
                assert(false);
            }
        }
        let w = choose|w: CellPos| tv.contains(w) && g.dep(w, v);
        assert(ov.contains(w));
        let wi = choose|wi: int| 0 <= wi < len && ov[wi] == w;
        let i = len - 1 - wi;
        assert(fin[i] == w);
        assert(g.dep(fin[i], fin[j]));
        assert(i < j);
    }
}


/// No sequence of vertices forms a dependency cycle.
pub open spec fn acyclic(g: Dag) -> bool {
    forall|c: Seq<CellPos>| #![trigger is_cycle(g, c)] !is_cycle(g, c)
}

/// A graph whose dependent edges all exist in an acyclic graph is acyclic.
pub proof fn lemma_acyclic_subrel(g1: Dag, g0: Dag)
    requires
        acyclic(g0),
        forall|a: CellPos, b: CellPos| #[trigger] g1.dep(a, b) ==> g0.dep(a, b),
    ensures
        acyclic(g1),
{
    assert forall|c: Seq<CellPos>| #![trigger is_cycle(g1, c)] !is_cycle(g1, c) by {
        if is_cycle(g1, c) {
            assert forall|i: int| 0 <= i < c.len() - 1 implies g0.dep(#[trigger] c[i], c[i + 1]) by {
                assert(g1.dep(c[i], c[i + 1]));
            }
            assert(g0.dep(c.last(), c[0]));
            assert(is_cycle(g0, c));
            assert(!is_cycle(g0, c));
        }
    }
}

/// Rotating a cycle yields a cycle starting at the chosen vertex.
proof fn lemma_cycle_rotate(g: Dag, c: Seq<CellPos>, i: int)
    requires
        is_cycle(g, c),
        0 <= i < c.len(),
    ensures
        is_cycle(g, c.subrange(i, c.len() as int) + c.subrange(0, i)),
        (c.subrange(i, c.len() as int) + c.subrange(0, i))[0] == c[i],
{
    let c2 = c.subrange(i, c.len() as int) + c.subrange(0, i);
    let n = c.len();
    assert(c2.len() == n);
    assert forall|k: int| 0 <= k < c2.len() implies c2[k] == c[if k < n - i {
        i + k
    } else {
        k - (n - i)
    }] by {}
    assert forall|k: int| 0 <= k < c2.len() - 1 implies g.dep(#[trigger] c2[k], c2[k + 1]) by {
        if k < n - i - 1 {
            assert(c2[k] == c[i + k] && c2[k + 1] == c[i + k + 1]);
        } else if k == n - i - 1 {
            assert(c2[k] == c[n - 1] && c2[k + 1] == c[0]);
            assert(g.dep(c.last(), c[0]));
        } else {
            assert(c2[k] == c[k - (n - i)] && c2[k + 1] == c[k - (n - i) + 1]);
        }
    }
    assert(g.dep(c2.last(), c2[0])) by {
        if i == 0 {
            assert(c2.last() == c[n - 1] && c2[0] == c[0]);
            assert(g.dep(c.last(), c[0]));
        } else {
            assert(c2.last() == c[i - 1] && c2[0] == c[i]);
        }
    }
}

/// Every vertex of a cycle that starts inside a closed traversal order lies
/// in that order.
proof fn lemma_cycle_in_order(g: Dag, pos: CellPos, o: Seq<CellPos>, c: Seq<CellPos>, k: int)
    requires
        topo_props(g, pos, o),
        is_cycle(g, c),
        c[0] == pos,
        0 <= k < c.len(),
    ensures
        o.contains(c[k]),
    decreases k,
{
    if k == 0 {
        assert(o[0] == pos);
        assert(o.contains(pos));
    } else {
        lemma_cycle_in_order(g, pos, o, c, k - 1);
        let idx = choose|idx: int| 0 <= idx < o.len() && o[idx] == c[k - 1];
        assert(g.dep(c[k - 1], c[k]));
        assert(g.dep(o[idx], c[k]));
        assert(o.contains(c[k]));
    }
}

/// A successful traversal from `pos` certifies that inserting `pos`'s new
/// edges kept the graph acyclic: a new cycle would have to pass through
/// `pos`, and the traversal order rules that out.
pub proof fn lemma_topo_acyclic(g1: Dag, g0: Dag, pos: CellPos, o: Seq<CellPos>)
    requires
        topo_props(g1, pos, o),
        acyclic(g0),
        forall|a: CellPos, b: CellPos|
            b != pos && #[trigger] g1.dep(a, b) ==> g0.dep(a, b),
    ensures
        acyclic(g1),
{
    assert forall|c: Seq<CellPos>| #![trigger is_cycle(g1, c)] !is_cycle(g1, c) by {
        if is_cycle(g1, c) {
            if exists|i: int| 0 <= i < c.len() && c[i] == pos {
                let i = choose|i: int| 0 <= i < c.len() && c[i] == pos;
                lemma_cycle_rotate(g1, c, i);
                let c2 = c.subrange(i, c.len() as int) + c.subrange(0, i);
                assert(c2[0] == pos);
                lemma_cycle_in_order(g1, pos, o, c2, c2.len() - 1);
                let wi = choose|wi: int| 0 <= wi < o.len() && o[wi] == c2.last();
                assert(g1.dep(c2.last(), c2[0]));
                assert(g1.dep(o[wi], o[0]));
                assert(0 < wi < 0 || false);
                assert(false);
            } else {
                assert forall|k: int| 0 <= k < c.len() - 1 implies g0.dep(
                    #[trigger] c[k],
                    c[k + 1],
                ) by {
                    assert(g1.dep(c[k], c[k + 1]));
                    assert(c[k + 1] != pos);
                }
                assert(c[0] != pos);
                assert(g0.dep(c.last(), c[0]));
                assert(is_cycle(g0, c));
                assert(!is_cycle(g0, c));
            }
        }
    }
}

impl Dag {
    /// Drops every reference edge leaving `pos` (what `pos`'s formula
    /// referenced), keeping the edges of the cells that reference `pos`.
    /// A self-edge disappears entirely.
    pub fn remove_references(&mut self, pos: CellPos)
        requires
            old(self).wf(),
            old(self).symmetric(),
        ensures
            final(self).wf(),
            final(self).symmetric(),
            forall|b: CellPos| #![trigger final(self).refs_edge(pos, b)]
                !final(self).refs_edge(pos, b),
            forall|b: CellPos| #![trigger final(self).dep(pos, b)]
                final(self).dep(pos, b) == (old(self).dep(pos, b) && b != pos),
            forall|p: CellPos, t: Neighbor| #![trigger final(self).has_tag(p, t)]
                p != pos ==> final(self).has_tag(p, t) == (old(self).has_tag(p, t) && t
                    != Neighbor::Outgoing(pos)),
            forall|a: CellPos, b: CellPos| #[trigger]
                final(self).dep(a, b) ==> old(self).dep(a, b),
    {
        let deps = self.get_dependents(pos);
        let none: [CellPos; 0] = [];
        self.insert(pos, &none);
        let ghost g1 = *self;
        proof {
            assert(none@ =~= Seq::<CellPos>::empty());
        }
        let n = deps.len();
        let mut i: usize = 0;
        while i < n
            invariant
                i <= n,
                n == deps@.len(),
                self.wf(),
                self.symmetric(),
                deps@.no_duplicates(),
                forall|v: CellPos| #![trigger deps@.contains(v)]
                    deps@.contains(v) == old(self).dep(pos, v),
                forall|p: CellPos, t: Neighbor| #![trigger self.has_tag(p, t)]
                    self.has_tag(p, t) == (g1.has_tag(p, t) || (exists|j: int|
                        0 <= j < i && deps@[j] != pos && ((p == deps@[j] && t == Neighbor::Incoming(
                            pos,
                        )) || (p == pos && t == Neighbor::Outgoing(#[trigger] deps@[j]))))),
                forall|b: CellPos| #![trigger g1.refs_edge(pos, b)] !g1.refs_edge(pos, b),
                forall|b: CellPos| #![trigger g1.dep(pos, b)] !g1.dep(pos, b),
                forall|p: CellPos, t: Neighbor| #![trigger g1.has_tag(p, t)]
                    p != pos ==> g1.has_tag(p, t) == (old(self).has_tag(p, t) && t
                        != Neighbor::Incoming(pos) && t != Neighbor::Outgoing(pos)),
            decreases n - i,
        {
            let v = deps[i];
            let ghost pre = *self;
            if v != pos {
                self.add_edge(v, pos);
            }
            i += 1;
            proof {
                assert forall|p: CellPos, t: Neighbor|
                    self.has_tag(p, t) == (g1.has_tag(p, t) || (exists|j: int|
                        0 <= j < i && deps@[j] != pos && ((p == deps@[j] && t == Neighbor::Incoming(
                            pos,
                        )) || (p == pos && t == Neighbor::Outgoing(#[trigger] deps@[j]))))) by {
                    if self.has_tag(p, t) {
                        if pre.has_tag(p, t) {
                            if !g1.has_tag(p, t) {
                                let j = choose|j: int|
                                    0 <= j < i - 1 && deps@[j] != pos && ((p == deps@[j] && t
                                        == Neighbor::Incoming(pos)) || (p == pos && t
                                        == Neighbor::Outgoing(#[trigger] deps@[j])));
                                assert(0 <= j < i && deps@[j] != pos && ((p == deps@[j] && t
                                    == Neighbor::Incoming(pos)) || (p == pos && t
                                    == Neighbor::Outgoing(deps@[j]))));
                            }
                        } else {
                            assert(v != pos);
                            assert(deps@[i - 1] == v);
                            assert((p == v && t == Neighbor::Incoming(pos)) || (p == pos && t
                                == Neighbor::Outgoing(v)));
                        }
                    } else {
                        if g1.has_tag(p, t) {
                            assert(pre.has_tag(p, t));
                            assert(self.has_tag(p, t));
                            assert(false);
                        }
                        if exists|j: int|
                            0 <= j < i && deps@[j] != pos && ((p == deps@[j] && t
                                == Neighbor::Incoming(pos)) || (p == pos && t
                                == Neighbor::Outgoing(#[trigger] deps@[j]))) {
                            let j = choose|j: int|
                                0 <= j < i && deps@[j] != pos && ((p == deps@[j] && t
                                    == Neighbor::Incoming(pos)) || (p == pos && t
                                    == Neighbor::Outgoing(#[trigger] deps@[j])));
                            if j < i - 1 {
                                assert(pre.has_tag(p, t));
                                assert(self.has_tag(p, t));
                            } else {
                                assert(deps@[j] == v);
                                assert(v != pos);
                                assert(self.has_tag(p, t));
                            }
                            assert(false);
                        }
                    }
                }
            }
        }
        proof {
            assert forall|b: CellPos| !self.refs_edge(pos, b) by {
                assert(!g1.refs_edge(pos, b));
                if self.has_tag(pos, Neighbor::Incoming(b)) {
                    if !g1.has_tag(pos, Neighbor::Incoming(b)) {
                        let j = choose|j: int|
                            0 <= j < n && deps@[j] != pos && ((pos == deps@[j]
                                && Neighbor::Incoming(b) == Neighbor::Incoming(pos)) || (pos == pos
                                && Neighbor::Incoming(b) == Neighbor::Outgoing(
                                #[trigger] deps@[j],
                            )));
                        assert(false);
                    }
                }
            }
            assert forall|b: CellPos|
                self.dep(pos, b) == (old(self).dep(pos, b) && b != pos) by {
                assert(!g1.dep(pos, b));
                if self.has_tag(pos, Neighbor::Outgoing(b)) {
                    assert(!g1.has_tag(pos, Neighbor::Outgoing(b)));
                    let j = choose|j: int|
                        0 <= j < n && deps@[j] != pos && ((pos == deps@[j] && Neighbor::Outgoing(b)
                            == Neighbor::Incoming(pos)) || (pos == pos && Neighbor::Outgoing(b)
                            == Neighbor::Outgoing(#[trigger] deps@[j])));
                    assert(b == deps@[j]);
                    assert(deps@.contains(b));
                    assert(old(self).dep(pos, b) && b != pos);
                }
                if old(self).dep(pos, b) && b != pos {
                    assert(deps@.contains(b));
                    let j = choose|j: int| 0 <= j < n && deps@[j] == b;
                    assert(deps@[j] != pos && (pos == pos && Neighbor::Outgoing(b)
                        == Neighbor::Outgoing(deps@[j])));
                    assert(self.has_tag(pos, Neighbor::Outgoing(b)));
                }
            }
            assert forall|p: CellPos, t: Neighbor|
                p != pos implies self.has_tag(p, t) == (old(self).has_tag(p, t) && t
                    != Neighbor::Outgoing(pos)) by {
                if self.has_tag(p, t) {
                    if g1.has_tag(p, t) {
                        assert(old(self).has_tag(p, t) && t != Neighbor::Incoming(pos) && t
                            != Neighbor::Outgoing(pos));
                    } else {
                        let j = choose|j: int|
                            0 <= j < n && deps@[j] != pos && ((p == deps@[j] && t
                                == Neighbor::Incoming(pos)) || (p == pos && t == Neighbor::Outgoing(
                                #[trigger] deps@[j],
                            )));
                        assert(p == deps@[j] && t == Neighbor::Incoming(pos));
                        assert(deps@.contains(p));
                        assert(old(self).dep(pos, p));
                        assert(old(self).refs_edge(p, pos));
                        assert(old(self).has_tag(p, Neighbor::Incoming(pos)));
                    }
                }
                if old(self).has_tag(p, t) && t != Neighbor::Outgoing(pos) {
                    if t == Neighbor::Incoming(pos) {
                        assert(old(self).refs_edge(p, pos));
                        assert(old(self).dep(pos, p));
                        assert(deps@.contains(p));
                        let j = choose|j: int| 0 <= j < n && deps@[j] == p;
                        assert(deps@[j] != pos) by {
                            if deps@[j] == pos {
                                assert(old(self).dep(pos, pos));
                                assert(p == pos);
                                assert(false);
                            }
                        }
                        assert((p == deps@[j] && t == Neighbor::Incoming(pos)));
                        assert(self.has_tag(p, t));
                    } else {
                        assert(g1.has_tag(p, t));
                        assert(self.has_tag(p, t));
                    }
                }
            }
            assert forall|a: CellPos, b: CellPos| #[trigger]
                self.dep(a, b) implies old(self).dep(a, b) by {
                if a == pos {
                    assert(self.dep(pos, b) == (old(self).dep(pos, b) && b != pos));
                } else {
                    assert(self.has_tag(a, Neighbor::Outgoing(b)) == (old(self).has_tag(
                        a,
                        Neighbor::Outgoing(b),
                    ) && Neighbor::Outgoing(b) != Neighbor::Outgoing(pos)));
                }
            }
        }
    }
}


impl Dag {
    /// Sets `pos`'s edges wholesale: `pos` references exactly the cells of
    /// `refs`, and is referenced by exactly the cells of `deps` (besides a
    /// self-edge, which `refs` alone controls). Used to put a vertex back
    /// into a previously observed shape.
    pub fn restore(&mut self, pos: CellPos, refs: &[CellPos], deps: &Vec<CellPos>)
        requires
            old(self).wf(),
            old(self).symmetric(),
        ensures
            final(self).wf(),
            final(self).symmetric(),
            forall|b: CellPos| #![trigger final(self).refs_edge(pos, b)]
                final(self).refs_edge(pos, b) == refs@.contains(b),
            forall|b: CellPos| #![trigger final(self).dep(pos, b)]
                final(self).dep(pos, b) == ((b == pos && refs@.contains(pos)) || (deps@.contains(b)
                    && b != pos)),
            forall|p: CellPos, t: Neighbor| #![trigger final(self).has_tag(p, t)]
                p != pos ==> final(self).has_tag(p, t) == ((old(self).has_tag(p, t) && t
                    != Neighbor::Incoming(pos) && t != Neighbor::Outgoing(pos)) || (t
                    == Neighbor::Outgoing(pos) && refs@.contains(p)) || (t == Neighbor::Incoming(
                    pos,
                ) && deps@.contains(p) && p != pos)),
    {
        self.insert(pos, refs);
        let ghost g1 = *self;
        let n = deps.len();
        let mut i: usize = 0;
        while i < n
            invariant
                i <= n,
                n == deps@.len(),
                self.wf(),
                self.symmetric(),
                forall|b: CellPos| #![trigger g1.refs_edge(pos, b)]
                    g1.refs_edge(pos, b) == refs@.contains(b),
                forall|b: CellPos| #![trigger g1.dep(pos, b)]
                    g1.dep(pos, b) == (b == pos && refs@.contains(pos)),
                forall|p: CellPos, t: Neighbor| #![trigger g1.has_tag(p, t)]
                    p != pos ==> g1.has_tag(p, t) == ((old(self).has_tag(p, t) && t
                        != Neighbor::Incoming(pos) && t != Neighbor::Outgoing(pos)) || (t
                        == Neighbor::Outgoing(pos) && refs@.contains(p))),
                forall|p: CellPos, t: Neighbor| #![trigger self.has_tag(p, t)]
                    self.has_tag(p, t) == (g1.has_tag(p, t) || (exists|j: int|
                        0 <= j < i && deps@[j] != pos && ((p == deps@[j] && t == Neighbor::Incoming(
                            pos,
                        )) || (p == pos && t == Neighbor::Outgoing(#[trigger] deps@[j]))))),
            decreases n - i,
        {
            let v = deps[i];
            let ghost pre = *self;
            if v != pos {
                self.add_edge(v, pos);
            }
            i += 1;
            proof {
                assert forall|p: CellPos, t: Neighbor|
                    self.has_tag(p, t) == (g1.has_tag(p, t) || (exists|j: int|
                        0 <= j < i && deps@[j] != pos && ((p == deps@[j] && t == Neighbor::Incoming(
                            pos,
                        )) || (p == pos && t == Neighbor::Outgoing(#[trigger] deps@[j]))))) by {
                    if self.has_tag(p, t) {
                        if pre.has_tag(p, t) {
                            if !g1.has_tag(p, t) {
                                let j = choose|j: int|
                                    0 <= j < i - 1 && deps@[j] != pos && ((p == deps@[j] && t
                                        == Neighbor::Incoming(pos)) || (p == pos && t
                                        == Neighbor::Outgoing(#[trigger] deps@[j])));
                                assert(0 <= j < i && deps@[j] != pos && ((p == deps@[j] && t
                                    == Neighbor::Incoming(pos)) || (p == pos && t
                                    == Neighbor::Outgoing(deps@[j]))));
                            }
                        } else {
                            assert(v != pos);
                            assert(deps@[i - 1] == v);
                            assert((p == v && t == Neighbor::Incoming(pos)) || (p == pos && t
                                == Neighbor::Outgoing(v)));
                        }
                    } else {
                        if g1.has_tag(p, t) {
                            assert(pre.has_tag(p, t));
                            assert(self.has_tag(p, t));
                            assert(false);
                        }
                        if exists|j: int|
                            0 <= j < i && deps@[j] != pos && ((p == deps@[j] && t
                                == Neighbor::Incoming(pos)) || (p == pos && t
                                == Neighbor::Outgoing(#[trigger] deps@[j]))) {
                            let j = choose|j: int|
                                0 <= j < i && deps@[j] != pos && ((p == deps@[j] && t
                                    == Neighbor::Incoming(pos)) || (p == pos && t
                                    == Neighbor::Outgoing(#[trigger] deps@[j])));
                            if j < i - 1 {
                                assert(pre.has_tag(p, t));
                                assert(self.has_tag(p, t));
                            } else {
                                assert(deps@[j] == v);
                                assert(v != pos);
                                assert(self.has_tag(p, t));
                            }
                            assert(false);
                        }
                    }
                }
            }
        }
        proof {
            assert forall|b: CellPos|
                self.refs_edge(pos, b) == refs@.contains(b) by {
                assert(g1.refs_edge(pos, b) == refs@.contains(b));
                if self.has_tag(pos, Neighbor::Incoming(b)) {
                    if !g1.has_tag(pos, Neighbor::Incoming(b)) {
                        let j = choose|j: int|
                            0 <= j < n && deps@[j] != pos && ((pos == deps@[j]
                                && Neighbor::Incoming(b) == Neighbor::Incoming(pos)) || (pos == pos
                                && Neighbor::Incoming(b) == Neighbor::Outgoing(
                                #[trigger] deps@[j],
                            )));
                        assert(false);
                    }
                }
                if g1.refs_edge(pos, b) {
                    assert(self.has_tag(pos, Neighbor::Incoming(b)));
                }
            }
            assert forall|b: CellPos|
                self.dep(pos, b) == ((b == pos && refs@.contains(pos)) || (deps@.contains(b) && b
                    != pos)) by {
                assert(g1.dep(pos, b) == (b == pos && refs@.contains(pos)));
                if self.has_tag(pos, Neighbor::Outgoing(b)) {
                    if !g1.has_tag(pos, Neighbor::Outgoing(b)) {
                        let j = choose|j: int|
                            0 <= j < n && deps@[j] != pos && ((pos == deps@[j]
                                && Neighbor::Outgoing(b) == Neighbor::Incoming(pos)) || (pos == pos
                                && Neighbor::Outgoing(b) == Neighbor::Outgoing(
                                #[trigger] deps@[j],
                            )));
                        assert(b == deps@[j]);
                        assert(deps@.contains(b));
                    }
                }
                if deps@.contains(b) && b != pos {
                    let j = choose|j: int| 0 <= j < n && deps@[j] == b;
                    assert(deps@[j] != pos && (pos == pos && Neighbor::Outgoing(b)
                        == Neighbor::Outgoing(deps@[j])));
                    assert(self.has_tag(pos, Neighbor::Outgoing(b)));
                }
                if b == pos && refs@.contains(pos) {
                    assert(g1.dep(pos, pos));
                    assert(self.has_tag(pos, Neighbor::Outgoing(pos)));
                }
            }
            assert forall|p: CellPos, t: Neighbor|
                p != pos implies self.has_tag(p, t) == ((old(self).has_tag(p, t) && t
                    != Neighbor::Incoming(pos) && t != Neighbor::Outgoing(pos)) || (t
                    == Neighbor::Outgoing(pos) && refs@.contains(p)) || (t == Neighbor::Incoming(
                    pos,
                ) && deps@.contains(p) && p != pos)) by {
                if self.has_tag(p, t) {
                    if g1.has_tag(p, t) {
                    } else {
                        let j = choose|j: int|
                            0 <= j < n && deps@[j] != pos && ((p == deps@[j] && t
                                == Neighbor::Incoming(pos)) || (p == pos && t == Neighbor::Outgoing(
                                #[trigger] deps@[j],
                            )));
                        assert(p == deps@[j] && t == Neighbor::Incoming(pos));
                        assert(deps@.contains(p));
                    }
                }
                if (old(self).has_tag(p, t) && t != Neighbor::Incoming(pos) && t
                    != Neighbor::Outgoing(pos)) || (t == Neighbor::Outgoing(pos) && refs@.contains(
                    p,
                )) {
                    assert(g1.has_tag(p, t));
                    assert(self.has_tag(p, t));
                }
                if t == Neighbor::Incoming(pos) && deps@.contains(p) && p != pos {
                    let j = choose|j: int| 0 <= j < n && deps@[j] == p;
                    assert(deps@[j] != pos && (p == deps@[j] && t == Neighbor::Incoming(pos)));
                    assert(self.has_tag(p, t));
                }
            }
        }
    }
}

} // verus!
