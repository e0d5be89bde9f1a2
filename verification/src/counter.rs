//! Per-ego hit counters: how many walks from an ego have visited each target,
//! together with the sum of all cells.

use vstd::prelude::*;
use crate::assoc::AssocMap;
use crate::types::NodeId;

verus! {

/// Sum of the count cells of an association vector.
pub open spec fn sum_counts(s: Seq<(usize, u64)>) -> int
    decreases s.len(),
{
    if s.len() == 0 {
        0
    } else {
        sum_counts(s.drop_last()) + s.last().1
    }
}

/// Number of positions of `s` holding a value not seen at an earlier position.
pub open spec fn distinct_count(s: Seq<usize>) -> nat
    decreases s.len(),
{
    if s.len() == 0 {
        0
    } else {
        distinct_count(s.drop_last()) + if s.drop_last().contains(s.last()) {
            0nat
        } else {
            1nat
        }
    }
}

pub proof fn lemma_sum_nonneg(s: Seq<(usize, u64)>)
    ensures
        sum_counts(s) >= 0,
    decreases s.len(),
{
    if s.len() > 0 {
        lemma_sum_nonneg(s.drop_last());
    }
}

pub proof fn lemma_sum_push(s: Seq<(usize, u64)>, p: (usize, u64))
    ensures
        sum_counts(s.push(p)) == sum_counts(s) + p.1,
{
    assert(s.push(p).drop_last() =~= s);
    assert(s.push(p).last() == p);
}

pub proof fn lemma_sum_update(s: Seq<(usize, u64)>, i: int, p: (usize, u64))
    requires
        0 <= i < s.len(),
    ensures
        sum_counts(s.update(i, p)) == sum_counts(s) - s[i].1 + p.1,
    decreases s.len(),
{
    if i == s.len() - 1 {
        assert(s.update(i, p).drop_last() =~= s.drop_last());
        assert(s.update(i, p).last() == p);
    } else {
        assert(s.update(i, p).drop_last() =~= s.drop_last().update(i, p));
        assert(s.update(i, p).last() == s.last());
        lemma_sum_update(s.drop_last(), i, p);
    }
}

pub proof fn lemma_sum_elem(s: Seq<(usize, u64)>, i: int)
    requires
        0 <= i < s.len(),
    ensures
        s[i].1 <= sum_counts(s),
    decreases s.len(),
{
    if i == s.len() - 1 {
        lemma_sum_nonneg(s.drop_last());
    } else {
        lemma_sum_elem(s.drop_last(), i);
        assert(s.drop_last()[i] == s[i]);
    }
}

/// A sum of `u64` cells is at most `len * u64::MAX`.
pub proof fn lemma_sum_le(s: Seq<(usize, u64)>)
    ensures
        sum_counts(s) <= s.len() * (u64::MAX as int),
    decreases s.len(),
{
    if s.len() > 0 {
        lemma_sum_le(s.drop_last());
        assert((s.len() - 1) * (u64::MAX as int) + (u64::MAX as int)
            == s.len() * (u64::MAX as int)) by (nonlinear_arith);
    }
}

/// A sum of cells each at most `b` is at most `len * b`.
pub proof fn lemma_sum_le_bound(s: Seq<(usize, u64)>, b: int)
    requires
        0 <= b,
        forall|i: int| 0 <= i < s.len() ==> (#[trigger] s[i]).1 <= b,
    ensures
        sum_counts(s) <= s.len() * b,
    decreases s.len(),
{
    if s.len() > 0 {
        assert forall|i: int| 0 <= i < s.drop_last().len()
            implies (#[trigger] s.drop_last()[i]).1 <= b by {
            assert(s.drop_last()[i] == s[i]);
        }
        lemma_sum_le_bound(s.drop_last(), b);
        assert(s[s.len() - 1].1 <= b);
        assert((s.len() - 1) * b + b == s.len() * b) by (nonlinear_arith);
    }
}

pub proof fn lemma_distinct_count_le_len(s: Seq<usize>)
    ensures
        distinct_count(s) <= s.len(),
    decreases s.len(),
{
    if s.len() > 0 {
        lemma_distinct_count_le_len(s.drop_last());
    }
}

/// Counts, per target, how many walks from one ego visit that target, and the
/// sum of all cells.
pub struct Counter {
    pub counts: AssocMap<u64>,
    pub total: u128,
}

impl Counter {
    pub open spec fn wf(self) -> bool {
        &&& self.counts.wf()
        &&& self.total as int == sum_counts(self.counts.pairs@)
    }

    /// The cell of `n`; absent targets count zero.
    pub open spec fn count_of(self, n: NodeId) -> u64 {
        if self.counts@.contains_key(n) {
            self.counts@[n]
        } else {
            0
        }
    }

    pub fn new() -> (r: Self)
        ensures
            r.wf(),
            r.total == 0,
            r.counts@ == Map::<usize, u64>::empty(),
            forall|n: NodeId| r.count_of(n) == 0,
    {
        Counter { counts: AssocMap::new(), total: 0 }
    }

    pub fn get_count(&self, n: NodeId) -> (r: u64)
        requires
            self.wf(),
        ensures
            r == self.count_of(n),
    {
        match self.counts.get(n) {
            Some(c) => *c,
            None => 0,
        }
    }

    pub fn total_count(&self) -> (r: u128)
        ensures
            r == self.total,
    {
        self.total
    }

    /// The targets that have a cell, each once.
    pub fn keys(&self) -> (r: Vec<NodeId>)
        requires
            self.wf(),
        ensures
            r@ == self.counts.key_seq(),
            r@.no_duplicates(),
            forall|x: NodeId| r@.contains(x) == self.counts@.contains_key(x),
    {
        self.counts.keys()
    }

    /// Add one to the cell of each distinct node of `nodes`, and count the
    /// distinct nodes into the total.
    pub fn increment_unique_counts(&mut self, nodes: &Vec<NodeId>)
        requires
            old(self).wf(),
            forall|n: NodeId| old(self).count_of(n) < u64::MAX,
        ensures
            final(self).wf(),
            forall|n: NodeId| final(self).count_of(n)
                == old(self).count_of(n) + if nodes@.contains(n) { 1int } else { 0int },
            final(self).total == old(self).total + distinct_count(nodes@),
            forall|n: NodeId| final(self).counts@.contains_key(n)
                == (old(self).counts@.contains_key(n) || nodes@.contains(n)),
    {
        let ghost all = nodes@;
        let n_len = nodes.len();
        let mut i: usize = 0;
        while i < n_len
            invariant
                n_len == nodes@.len(),
                i <= n_len,
                self.wf(),
                self.total == old(self).total + distinct_count(nodes@.take(i as int)),
                forall|n: NodeId| old(self).count_of(n) < u64::MAX,
                forall|n: NodeId| self.count_of(n) == old(self).count_of(n)
                    + if nodes@.take(i as int).contains(n) { 1int } else { 0int },
                forall|n: NodeId| self.counts@.contains_key(n)
                    == (old(self).counts@.contains_key(n) || nodes@.take(i as int).contains(n)),
            decreases n_len - i,
        {
            let ghost pre = *self;
            let node = nodes[i];
            let mut seen = false;
            let mut j: usize = 0;
            while j < i
                invariant
                    j <= i,
                    i < n_len,
                    n_len == nodes@.len(),
                    node == nodes@[i as int],
                    seen == nodes@.take(j as int).contains(node),
                decreases i - j,
            {
                if nodes[j] == node {
                    seen = true;
                }
                j = j + 1;
                proof {
                    let tk = nodes@.take(j as int);
                    assert(tk.drop_last() =~= nodes@.take(j as int - 1));
                    assert(tk.last() == nodes@[j as int - 1]);
                    if tk.contains(node) {
                        let w = choose|w: int| 0 <= w < j && #[trigger] tk[w] == node;
                        if w < j - 1 {
                            assert(nodes@.take(j as int - 1)[w] == node);
                        }
                    }
                    if nodes@.take(j as int - 1).contains(node) {
                        let w = choose|w: int| 0 <= w < j - 1
                            && #[trigger] nodes@.take(j as int - 1)[w] == node;
                        assert(tk[w] == node);
                    }
                }
            }
            if !seen {
                proof {
                    lemma_distinct_count_le_len(nodes@.take(i as int));
                }
                let c = self.get_count(node);
                proof {
                    assert(c == old(self).count_of(node));
                    assert(c < u64::MAX);
                    lemma_sum_le(self.counts.pairs@);
                    assert(self.counts.pairs.len() <= usize::MAX);
                    assert(sum_counts(self.counts.pairs@)
                        <= usize::MAX as int * (u64::MAX as int)) by (nonlinear_arith)
                        requires
                            sum_counts(self.counts.pairs@)
                                <= self.counts.pairs@.len() * (u64::MAX as int),
                            self.counts.pairs@.len() <= usize::MAX as int,
                    ;
                    assert(self.total < u128::MAX);
                }
                let ghost prev_counts = self.counts;
                let ghost had = self.counts@.contains_key(node);
                self.counts.insert(node, c + 1);
                self.total = self.total + 1;
                proof {
                    if had {
                        lemma_sum_update(prev_counts.pairs@,
                            prev_counts.key_seq().index_of(node), (node, (c + 1) as u64));
                    } else {
                        lemma_sum_push(prev_counts.pairs@, (node, (c + 1) as u64));
                    }
                }
            }
            proof {
                let tk = nodes@.take(i as int + 1);
                let tk0 = nodes@.take(i as int);
                assert(tk.drop_last() =~= tk0);
                assert(tk.last() == node);
                assert(distinct_count(tk) == distinct_count(tk0)
                    + if tk0.contains(node) { 0int } else { 1int });
                assert forall|n: NodeId| #[trigger] tk.contains(n)
                    == (tk0.contains(n) || n == node) by {
                    if tk.contains(n) {
                        let w = choose|w: int| 0 <= w < tk.len() && #[trigger] tk[w] == n;
                        if w < i {
                            assert(tk0[w] == n);
                        }
                    }
                    if tk0.contains(n) {
                        let w = choose|w: int| 0 <= w < i && #[trigger] tk0[w] == n;
                        assert(tk[w] == n);
                    }
                    if n == node {
                        assert(tk[i as int] == n);
                    }
                }
                assert forall|n: NodeId| self.count_of(n) == old(self).count_of(n)
                    + (if tk.contains(n) { 1int } else { 0int }) by {
                    if n == node {
                        if !seen {
                            assert(self.count_of(node) == pre.count_of(node) + 1);
                        } else {
                            assert(self.count_of(n) == pre.count_of(n));
                        }
                    } else {
                        assert(self.count_of(n) == pre.count_of(n));
                    }
                }
                assert forall|n: NodeId| self.counts@.contains_key(n)
                    == (old(self).counts@.contains_key(n) || tk.contains(n)) by {
                    if n != node {
                        assert(self.counts@.contains_key(n)
                            == pre.counts@.contains_key(n));
                    }
                }
            }
            i = i + 1;
        }
        proof {
            assert(nodes@.take(n_len as int) =~= nodes@);
        }
    }

    /// Take one away from the cell of `n`, leaving the cell and the total
    /// unchanged when the cell is already zero or absent.
    pub fn decrement_count_saturating(&mut self, n: NodeId)
        requires
            old(self).wf(),
        ensures
            final(self).wf(),
            final(self).count_of(n) == if old(self).count_of(n) >= 1 {
                old(self).count_of(n) - 1
            } else {
                0
            },
            forall|m: NodeId| m != n ==> final(self).count_of(m) == old(self).count_of(m),
            final(self).total == if old(self).count_of(n) >= 1 {
                old(self).total - 1
            } else {
                old(self).total as int
            },
            forall|m: NodeId| final(self).counts@.contains_key(m)
                == old(self).counts@.contains_key(m),
    {
        let c = self.get_count(n);
        if c >= 1 {
            proof {
                self.counts.lemma_contains_at(n);
                lemma_sum_elem(self.counts.pairs@, self.counts.key_seq().index_of(n));
            }
            let ghost before = self.counts.pairs@;
            self.counts.insert(n, c - 1);
            self.total = self.total - 1;
            proof {
                lemma_sum_update(before,
                    old(self).counts.key_seq().index_of(n), (n, (c - 1) as u64));
            }
        }
    }
}

} // verus!
