//! A map keyed by cell position, stored as parallel vectors with distinct
//! keys and viewed as a mathematical `Map`.

use vstd::prelude::*;

use crate::position::CellPos;

verus! {

/// A finite map from [`CellPos`] to `V`.
#[derive(Debug)]
pub struct PosMap<V> {
    keys: Vec<CellPos>,
    vals: Vec<V>,
}

impl<V> PosMap<V> {
    /// The representation holds one value per key, and no key twice.
    pub closed spec fn wf(self) -> bool {
        &&& self.keys@.len() == self.vals@.len()
        &&& forall|i: int, j: int|
            0 <= i < j < self.keys@.len() ==> #[trigger] self.keys@[i] != #[trigger] self.keys@[j]
    }

    /// The index at which `p` is stored.
    pub closed spec fn key_idx(self, p: CellPos) -> int {
        choose|i: int| 0 <= i < self.keys@.len() && self.keys@[i] == p
    }

    /// The map this structure denotes.
    pub closed spec fn view(self) -> Map<CellPos, V> {
        Map::new(
            |p: CellPos| self.keys@.contains(p),
            |p: CellPos| self.vals@[self.key_idx(p)],
        )
    }

    /// A key found at index `i` is the stored key: its index is `i`.
    proof fn lemma_found(self, p: CellPos, i: int)
        requires
            self.wf(),
            0 <= i < self.keys@.len(),
            self.keys@[i] == p,
        ensures
            self@.dom().contains(p),
            self.key_idx(p) == i,
            self@[p] == self.vals@[i],
    {
        assert(self.keys@.contains(p));
        let j = self.key_idx(p);
        assert(0 <= j < self.keys@.len() && self.keys@[j] == p);
        if i != j {
            assert(false);
        }
    }

    /// A well-formed map has finitely many keys.
    pub proof fn lemma_dom_finite(self)
        requires
            self.wf(),
        ensures
            self@.dom().finite(),
    {
        broadcast use vstd::seq_lib::seq_to_set_is_finite;

        assert(self@.dom() =~= self.keys@.to_set());
    }

    /// An empty map.
    pub fn new() -> (r: PosMap<V>)
        ensures
            r.wf(),
            r@ == Map::<CellPos, V>::empty(),
    {
        let r = PosMap { keys: Vec::new(), vals: Vec::new() };
        proof {
            assert(r@ =~= Map::<CellPos, V>::empty());
        }
        r
    }

    /// Whether `p` has an entry.
    pub fn contains_key(&self, p: CellPos) -> (r: bool)
        requires
            self.wf(),
        ensures
            r == self@.dom().contains(p),
    {
        let n = self.keys.len();
        let mut i: usize = 0;
        while i < n
            invariant
                i <= n,
                self.wf(),
                n == self.keys@.len(),
                forall|j: int| 0 <= j < i ==> #[trigger] self.keys@[j] != p,
            decreases n - i,
        {
            if self.keys[i] == p {
                proof {
                    self.lemma_found(p, i as int);
                }
                return true;
            }
            i += 1;
        }
        proof {
            if self.keys@.contains(p) {
                let j = choose|j: int| 0 <= j < self.keys@.len() && self.keys@[j] == p;
                assert(false);
            }
        }
        false
    }

    /// The value stored for `p`, if any.
    pub fn get(&self, p: CellPos) -> (r: Option<&V>)
        requires
            self.wf(),
        ensures
            match r {
                Some(v) => self@.dom().contains(p) && *v == self@[p],
                None => !self@.dom().contains(p),
            },
    {
        let n = self.keys.len();
        let mut i: usize = 0;
        while i < n
            invariant
                i <= n,
                self.wf(),
                n == self.keys@.len(),
                forall|j: int| 0 <= j < i ==> #[trigger] self.keys@[j] != p,
            decreases n - i,
        {
            if self.keys[i] == p {
                proof {
                    self.lemma_found(p, i as int);
                }
                return Some(&self.vals[i]);
            }
            i += 1;
        }
        proof {
            if self.keys@.contains(p) {
                let j = choose|j: int| 0 <= j < self.keys@.len() && self.keys@[j] == p;
                assert(false);
            }
        }
        None
    }

    /// Sets the value for `p`, replacing any previous one.
    pub fn insert(&mut self, p: CellPos, v: V)
        requires
            old(self).wf(),
        ensures
            final(self).wf(),
            final(self)@ == old(self)@.insert(p, v),
    {
        let n = self.keys.len();
        let mut i: usize = 0;
        while i < n
            invariant
                i <= n,
                *self == *old(self),
                self.wf(),
                n == self.keys@.len(),
                forall|j: int| 0 <= j < i ==> #[trigger] self.keys@[j] != p,
            decreases n - i,
        {
            if self.keys[i] == p {
                proof {
                    self.lemma_found(p, i as int);
                }
                self.vals[i] = v;
                proof {
                    assert(self.keys@ == old(self).keys@);
                    assert forall|q: CellPos| #[trigger]
                        self.keys@.contains(q) implies self@[q] == old(self)@.insert(p, v)[q] by {
                        let jq = self.key_idx(q);
                        assert(0 <= jq < self.keys@.len() && self.keys@[jq] == q);
                        if q == p {
                            self.lemma_found(p, i as int);
                        } else {
                            old(self).lemma_found(q, jq);
                            self.lemma_found(q, jq);
                        }
                    }
                    assert(self@ =~= old(self)@.insert(p, v));
                }
                return;
            }
            i += 1;
        }
        self.keys.push(p);
        self.vals.push(v);
        proof {
            assert forall|q: CellPos| #[trigger]
                self.keys@.contains(q) implies self@[q] == old(self)@.insert(p, v)[q] by {
                let jq = self.key_idx(q);
                assert(0 <= jq < self.keys@.len() && self.keys@[jq] == q);
                if q == p {
                    self.lemma_found(p, n as int);
                } else {
                    assert(jq < n);
                    old(self).lemma_found(q, jq);
                    self.lemma_found(q, jq);
                }
            }
            assert forall|q: CellPos| #[trigger]
                old(self)@.insert(p, v).dom().contains(q) implies self.keys@.contains(q) by {
                if q == p {
                    assert(self.keys@[n as int] == p);
                } else {
                    let jq = old(self).key_idx(q);
                    assert(self.keys@[jq] == q);
                }
            }
            assert(self@ =~= old(self)@.insert(p, v));
        }
    }

    /// Removes the entry for `p`, if any.
    pub fn remove(&mut self, p: CellPos)
        requires
            old(self).wf(),
        ensures
            final(self).wf(),
            final(self)@ == old(self)@.remove(p),
    {
        let n = self.keys.len();
        let mut i: usize = 0;
        while i < n
            invariant
                i <= n,
                *self == *old(self),
                self.wf(),
                n == self.keys@.len(),
                forall|j: int| 0 <= j < i ==> #[trigger] self.keys@[j] != p,
            decreases n - i,
        {
            if self.keys[i] == p {
                proof {
                    self.lemma_found(p, i as int);
                }
                self.keys.swap_remove(i);
                self.vals.swap_remove(i);
                proof {
                    let ks = self.keys@;
                    let oks = old(self).keys@;
                    assert(ks =~= oks.update(i as int, oks[n - 1]).take(n - 1));
                    assert forall|a: int, b: int|
                        0 <= a < b < ks.len() implies #[trigger] ks[a] != #[trigger] ks[b] by {
                        assert(ks[a] == if a == i { oks[n - 1] } else { oks[a] });
                        assert(ks[b] == if b == i { oks[n - 1] } else { oks[b] });
                    }
                    assert forall|q: CellPos| #[trigger]
                        self.keys@.contains(q) implies old(self)@.remove(p).dom().contains(q)
                        && self@[q] == old(self)@.remove(p)[q] by {
                        let jq = self.key_idx(q);
                        assert(0 <= jq < ks.len() && ks[jq] == q);
                        let oj: int = if jq == i { n - 1 } else { jq };
                        assert(oks[oj] == q);
                        assert(q != p) by {
                            if oj == i {
                                assert(false);
                            }
                        }
                        old(self).lemma_found(q, oj);
                        self.lemma_found(q, jq);
                        assert(self.vals@[jq] == old(self).vals@[oj]);
                    }
                    assert forall|q: CellPos| #[trigger]
                        old(self)@.remove(p).dom().contains(q) implies self.keys@.contains(q) by {
                        let oj = old(self).key_idx(q);
                        assert(0 <= oj < oks.len() && oks[oj] == q);
                        assert(oj != i);
                        if oj == n - 1 {
                            assert(n - 1 != i);
                            assert(ks[i as int] == q);
                        } else {
                            assert(ks[oj] == q);
                        }
                    }
                    assert(self@ =~= old(self)@.remove(p));
                }
                return;
            }
            i += 1;
        }
        proof {
            if self.keys@.contains(p) {
                let j = choose|j: int| 0 <= j < self.keys@.len() && self.keys@[j] == p;
                assert(false);
            }
            assert(self@ =~= old(self)@.remove(p));
        }
    }
}

} // verus!
