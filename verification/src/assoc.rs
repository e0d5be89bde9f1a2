//! Association maps with `usize` keys, stored as a vector of pairs with
//! pairwise-distinct keys. The view of such a map is a `Map<usize, V>`.

use vstd::prelude::*;

verus! {

/// A finite map from `usize` keys to values of type `V`.
pub struct AssocMap<V> {
    pub pairs: Vec<(usize, V)>,
}

impl<V> AssocMap<V> {
    /// The keys, in storage order.
    pub open spec fn key_seq(self) -> Seq<usize> {
        self.pairs@.map_values(|p: (usize, V)| p.0)
    }

    /// Well-formed: no key occurs twice.
    pub open spec fn wf(self) -> bool {
        self.key_seq().no_duplicates()
    }

    pub open spec fn spec_len(self) -> nat {
        self.pairs@.len()
    }
}

impl<V> View for AssocMap<V> {
    type V = Map<usize, V>;

    open spec fn view(&self) -> Map<usize, V> {
        Map::new(
            |k: usize| self.key_seq().contains(k),
            |k: usize| self.pairs@[self.key_seq().index_of(k)].1,
        )
    }
}

impl<V> AssocMap<V> {
    /// The pair at index `i` is what the view maps its key to.
    pub proof fn lemma_key_at(self, i: int)
        requires
            self.wf(),
            0 <= i < self.pairs@.len(),
        ensures
            self@.contains_key(self.pairs@[i].0),
            self@[self.pairs@[i].0] == self.pairs@[i].1,
            self.key_seq().index_of(self.pairs@[i].0) == i,
    {
        let k = self.pairs@[i].0;
        assert(self.key_seq()[i] == k);
        assert(self.key_seq().contains(k));
        let j = self.key_seq().index_of(k);
        assert(self.key_seq()[j] == k);
        if i != j {
            assert(false);
        }
    }

    /// Every key of the view stands at some index of the vector.
    pub proof fn lemma_contains_at(self, k: usize)
        requires
            self.wf(),
            self@.contains_key(k),
        ensures
            0 <= self.key_seq().index_of(k) < self.pairs@.len(),
            self.pairs@[self.key_seq().index_of(k)].0 == k,
            self.pairs@[self.key_seq().index_of(k)].1 == self@[k],
    {
        assert(self.key_seq().contains(k));
        let j = self.key_seq().index_of(k);
        assert(self.key_seq()[j] == k);
    }

    pub fn new() -> (r: Self)
        ensures
            r.wf(),
            r@ == Map::<usize, V>::empty(),
            r.pairs@.len() == 0,
    {
        let r = AssocMap { pairs: Vec::new() };
        proof {
            assert(r.key_seq() =~= Seq::<usize>::empty());
            assert(r@ =~= Map::<usize, V>::empty());
        }
        r
    }

    pub fn len(&self) -> (r: usize)
        ensures
            r == self.pairs@.len(),
    {
        self.pairs.len()
    }

    /// Index of the pair holding `k`, if any.
    fn find(&self, k: usize) -> (r: Option<usize>)
        requires
            self.wf(),
        ensures
            match r {
                Some(i) => i < self.pairs@.len() && self.pairs@[i as int].0 == k
                    && self@.contains_key(k),
                None => !self@.contains_key(k),
            },
    {
        let n = self.pairs.len();
        let mut i: usize = 0;
        while i < n
            invariant
                n == self.pairs@.len(),
                i <= n,
                self.wf(),
                forall|j: int| 0 <= j < i ==> self.pairs@[j].0 != k,
            decreases n - i,
        {
            if self.pairs[i].0 == k {
                proof {
                    self.lemma_key_at(i as int);
                }
                return Some(i);
            }
            i = i + 1;
        }
        proof {
            if self@.contains_key(k) {
                self.lemma_contains_at(k);
            }
        }
        None
    }

    pub fn contains_key(&self, k: usize) -> (r: bool)
        requires
            self.wf(),
        ensures
            r == self@.contains_key(k),
    {
        self.find(k).is_some()
    }

    pub fn get(&self, k: usize) -> (r: Option<&V>)
        requires
            self.wf(),
        ensures
            match r {
                Some(v) => self@.contains_key(k) && *v == self@[k],
                None => !self@.contains_key(k),
            },
    {
        match self.find(k) {
            Some(i) => {
                proof {
                    self.lemma_key_at(i as int);
                }
                Some(&self.pairs[i].1)
            },
            None => None,
        }
    }

    /// Insert or overwrite.
    pub fn insert(&mut self, k: usize, v: V)
        requires
            old(self).wf(),
        ensures
            final(self).wf(),
            final(self)@ == old(self)@.insert(k, v),
            final(self).key_seq() == if old(self)@.contains_key(k) {
                old(self).key_seq()
            } else {
                old(self).key_seq().push(k)
            },
            final(self).pairs@ == if old(self)@.contains_key(k) {
                old(self).pairs@.update(old(self).key_seq().index_of(k), (k, v))
            } else {
                old(self).pairs@.push((k, v))
            },
    {
        let found = self.find(k);
        match found {
            Some(i) => {
                self.pairs[i] = (k, v);
                proof {
                    old(self).lemma_key_at(i as int);
                    assert(self.pairs@ =~= old(self).pairs@.update(
                        old(self).key_seq().index_of(k), (k, v)));
                    let osq = old(self).key_seq();
                    assert(self.key_seq() =~= osq);
                    assert forall|x: usize| #[trigger] self@.contains_key(x)
                        || old(self)@.insert(k, v).contains_key(x) implies
                        self@.contains_key(x) && old(self)@.insert(k, v).contains_key(x)
                        && self@[x] == old(self)@.insert(k, v)[x] by {
                        if x == k {
                            self.lemma_key_at(i as int);
                        } else {
                            if osq.contains(x) {
                                let j = osq.index_of(x);
                                assert(osq[j] == x);
                                old(self).lemma_key_at(j);
                                self.lemma_key_at(j);
                            }
                        }
                    }
                    assert(self@ =~= old(self)@.insert(k, v));
                }
            },
            None => {
                self.pairs.push((k, v));
                proof {
                    let osq = old(self).key_seq();
                    let n = osq.len() as int;
                    assert(self.key_seq() =~= osq.push(k));
                    assert forall|a: int, b: int|
                        0 <= a < self.key_seq().len() && 0 <= b < self.key_seq().len() && a != b
                        implies self.key_seq()[a] != self.key_seq()[b] by {
                        if a < n && b < n {
                        } else if a == n && b < n {
                            assert(osq[b] == self.key_seq()[b]);
                            if osq[b] == k {
                                assert(osq.contains(k));
                            }
                        } else if b == n && a < n {
                            assert(osq[a] == self.key_seq()[a]);
                            if osq[a] == k {
                                assert(osq.contains(k));
                            }
                        }
                    }
                    assert(self.wf()) by {
                        assert(self.key_seq().no_duplicates());
                    }
                    assert forall|x: usize| #[trigger] self@.contains_key(x)
                        || old(self)@.insert(k, v).contains_key(x) implies
                        self@.contains_key(x) && old(self)@.insert(k, v).contains_key(x)
                        && self@[x] == old(self)@.insert(k, v)[x] by {
                        if x == k {
                            assert(self.key_seq()[n] == k);
                            assert(self.key_seq().contains(k));
                            self.lemma_key_at(n);
                            assert(self.pairs@[n] == (k, v));
                        } else {
                            if self@.contains_key(x) {
                                let j = self.key_seq().index_of(x);
                                assert(self.key_seq()[j] == x);
                                assert(j != n);
                                assert(osq[j] == x);
                                assert(osq.contains(x));
                                old(self).lemma_key_at(j);
                                self.lemma_key_at(j);
                            } else {
                                if osq.contains(x) {
                                    let j = osq.index_of(x);
                                    assert(self.key_seq()[j] == x);
                                }
                            }
                        }
                    }
                    assert(self@ =~= old(self)@.insert(k, v));
                }
            },
        }
    }

    /// Remove the value under `k` and hand it out.
    pub fn take(&mut self, k: usize) -> (r: Option<V>)
        requires
            old(self).wf(),
        ensures
            final(self).wf(),
            match r {
                Some(v) => old(self)@.contains_key(k) && v == old(self)@[k]
                    && final(self)@ == old(self)@.remove(k)
                    && final(self).pairs@ == old(self).pairs@.remove(
                        old(self).key_seq().index_of(k)),
                None => !old(self)@.contains_key(k) && *final(self) == *old(self),
            },
    {
        let found = self.find(k);
        match found {
            Some(i) => {
                proof {
                    self.lemma_key_at(i as int);
                }
                let pr = self.pairs.remove(i);
                proof {
                    let osq = old(self).key_seq();
                    let ii = i as int;
                    assert(self.key_seq() =~= osq.remove(ii));
                    let nsq = self.key_seq();
                    assert forall|a: int, b: int|
                        0 <= a < nsq.len() && 0 <= b < nsq.len() && a != b
                        implies nsq[a] != nsq[b] by {
                        let a0 = if a < ii { a } else { a + 1 };
                        let b0 = if b < ii { b } else { b + 1 };
                        assert(nsq[a] == osq[a0]);
                        assert(nsq[b] == osq[b0]);
                    }
                    assert(self.wf());
                    assert forall|x: usize| #[trigger] self@.contains_key(x)
                        || old(self)@.remove(k).contains_key(x) implies
                        self@.contains_key(x) && old(self)@.remove(k).contains_key(x)
                        && self@[x] == old(self)@.remove(k)[x] by {
                        if self@.contains_key(x) {
                            let j = nsq.index_of(x);
                            assert(nsq[j] == x);
                            let j0 = if j < ii { j } else { j + 1 };
                            assert(osq[j0] == x);
                            assert(x != k) by {
                                if j0 == ii {
                                    assert(false);
                                }
                                old(self).lemma_key_at(j0);
                                old(self).lemma_key_at(ii);
                            }
                            assert(osq.contains(x));
                            old(self).lemma_key_at(j0);
                            self.lemma_key_at(j);
                            assert(self.pairs@[j] == old(self).pairs@[j0]);
                        } else if old(self)@.remove(k).contains_key(x) {
                            let j0 = osq.index_of(x);
                            assert(osq[j0] == x);
                            assert(x != k);
                            assert(j0 != ii) by {
                                old(self).lemma_key_at(ii);
                            }
                            let j = if j0 < ii { j0 } else { j0 - 1 };
                            assert(nsq[j] == osq[j0]);
                            assert(nsq.contains(x));
                        }
                    }
                    assert(self@ =~= old(self)@.remove(k));
                }
                Some(pr.1)
            },
            None => None,
        }
    }

    /// The keys, in storage order.
    pub fn keys(&self) -> (r: Vec<usize>)
        requires
            self.wf(),
        ensures
            r@ == self.key_seq(),
            r@.no_duplicates(),
            forall|x: usize| r@.contains(x) == self@.contains_key(x),
    {
        let n = self.pairs.len();
        let mut r: Vec<usize> = Vec::new();
        let mut i: usize = 0;
        while i < n
            invariant
                n == self.pairs@.len(),
                i <= n,
                r@ == self.key_seq().take(i as int),
            decreases n - i,
        {
            r.push(self.pairs[i].0);
            proof {
                assert(r@ =~= self.key_seq().take(i as int + 1));
            }
            i = i + 1;
        }
        proof {
            assert(r@ =~= self.key_seq());
        }
        r
    }
}

} // verus!
