//! Signed weighted directed adjacency. Every node carries its positive and
//! negative out-edges in separate buckets, together with the cached sum of the
//! positive weights.

use vstd::prelude::*;
use crate::assoc::AssocMap;
use crate::types::{NodeId, Weight, MAX_WEIGHT};

verus! {

/// Sum of the weight cells of an association vector.
pub open spec fn sum_weights(s: Seq<(usize, i64)>) -> int
    decreases s.len(),
{
    if s.len() == 0 {
        0
    } else {
        sum_weights(s.drop_last()) + s.last().1
    }
}

pub proof fn lemma_sum_weights_push(s: Seq<(usize, i64)>, p: (usize, i64))
    ensures
        sum_weights(s.push(p)) == sum_weights(s) + p.1,
{
    assert(s.push(p).drop_last() =~= s);
    assert(s.push(p).last() == p);
}

pub proof fn lemma_sum_weights_update(s: Seq<(usize, i64)>, i: int, p: (usize, i64))
    requires
        0 <= i < s.len(),
    ensures
        sum_weights(s.update(i, p)) == sum_weights(s) - s[i].1 + p.1,
    decreases s.len(),
{
    if i == s.len() - 1 {
        assert(s.update(i, p).drop_last() =~= s.drop_last());
        assert(s.update(i, p).last() == p);
    } else {
        assert(s.update(i, p).drop_last() =~= s.drop_last().update(i, p));
        assert(s.update(i, p).last() == s.last());
        lemma_sum_weights_update(s.drop_last(), i, p);
    }
}

pub proof fn lemma_sum_weights_remove(s: Seq<(usize, i64)>, i: int)
    requires
        0 <= i < s.len(),
    ensures
        sum_weights(s.remove(i)) == sum_weights(s) - s[i].1,
    decreases s.len(),
{
    if i == s.len() - 1 {
        assert(s.remove(i) =~= s.drop_last());
    } else {
        assert(s.remove(i).drop_last() =~= s.drop_last().remove(i));
        assert(s.remove(i).last() == s.last());
        lemma_sum_weights_remove(s.drop_last(), i);
    }
}

/// A sum of values each within `(0, MAX_WEIGHT]` is within
/// `[0, len * MAX_WEIGHT]`.
pub proof fn lemma_sum_weights_bounds(s: Seq<(usize, i64)>)
    requires
        forall|i: int| 0 <= i < s.len() ==> 0 < (#[trigger] s[i]).1 <= MAX_WEIGHT,
    ensures
        0 <= sum_weights(s) <= s.len() * MAX_WEIGHT,
    decreases s.len(),
{
    if s.len() > 0 {
        assert forall|i: int| 0 <= i < s.drop_last().len()
            implies 0 < (#[trigger] s.drop_last()[i]).1 <= MAX_WEIGHT by {
            assert(s.drop_last()[i] == s[i]);
        }
        lemma_sum_weights_bounds(s.drop_last());
        assert((s.len() - 1) * MAX_WEIGHT + MAX_WEIGHT == s.len() * MAX_WEIGHT)
            by (nonlinear_arith);
    }
}

/// Each cell of a nonnegative vector is at most the sum.
pub proof fn lemma_sum_weights_elem(s: Seq<(usize, i64)>, i: int)
    requires
        0 <= i < s.len(),
        forall|j: int| 0 <= j < s.len() ==> (#[trigger] s[j]).1 >= 0,
    ensures
        s[i].1 <= sum_weights(s),
    decreases s.len(),
{
    if i == s.len() - 1 {
        assert forall|j: int| 0 <= j < s.drop_last().len()
            implies (#[trigger] s.drop_last()[j]).1 >= 0 by {
            assert(s.drop_last()[j] == s[j]);
        }
        lemma_sum_weights_nonneg(s.drop_last());
    } else {
        assert forall|j: int| 0 <= j < s.drop_last().len()
            implies (#[trigger] s.drop_last()[j]).1 >= 0 by {
            assert(s.drop_last()[j] == s[j]);
        }
        lemma_sum_weights_elem(s.drop_last(), i);
        assert(s.drop_last()[i] == s[i]);
    }
}

pub proof fn lemma_sum_weights_nonneg(s: Seq<(usize, i64)>)
    requires
        forall|j: int| 0 <= j < s.len() ==> (#[trigger] s[j]).1 >= 0,
    ensures
        sum_weights(s) >= 0,
    decreases s.len(),
{
    if s.len() > 0 {
        assert forall|j: int| 0 <= j < s.drop_last().len()
            implies (#[trigger] s.drop_last()[j]).1 >= 0 by {
            assert(s.drop_last()[j] == s[j]);
        }
        lemma_sum_weights_nonneg(s.drop_last());
    }
}

/// A positive-edge bucket has every cell within `(0, MAX_WEIGHT]`, so its sum
/// is within `[0, len * MAX_WEIGHT]`.
pub proof fn lemma_pos_bucket_bounds(m: AssocMap<i64>)
    requires
        m.wf(),
        forall|t: NodeId| #[trigger] m@.contains_key(t) ==> 0 < m@[t] <= MAX_WEIGHT,
    ensures
        forall|j: int| 0 <= j < m.pairs@.len() ==> 0 < (#[trigger] m.pairs@[j]).1 <= MAX_WEIGHT,
        0 <= sum_weights(m.pairs@) <= m.pairs@.len() * MAX_WEIGHT,
        sum_weights(m.pairs@) <= usize::MAX as int * MAX_WEIGHT,
{
    assert forall|j: int| 0 <= j < m.pairs@.len()
        implies 0 < (#[trigger] m.pairs@[j]).1 <= MAX_WEIGHT by {
        m.lemma_key_at(j);
    }
    lemma_sum_weights_bounds(m.pairs@);
    assert(m.pairs.len() <= usize::MAX);
    assert(sum_weights(m.pairs@) <= usize::MAX as int * MAX_WEIGHT) by (nonlinear_arith)
        requires
            sum_weights(m.pairs@) <= m.pairs@.len() * MAX_WEIGHT,
            m.pairs@.len() <= usize::MAX as int,
    ;
}

/// One node: caller payload, signed out-edge buckets, cached positive sum.
pub struct NodeEntry<D> {
    pub data: D,
    pub pos_edges: AssocMap<i64>,
    pub neg_edges: AssocMap<i64>,
    pub pos_sum: i128,
}

/// A node entry is well formed with respect to its own identity `k`.
pub open spec fn entry_wf<D>(k: NodeId, e: NodeEntry<D>) -> bool {
    &&& e.pos_edges.wf()
    &&& e.neg_edges.wf()
    &&& forall|t: NodeId| #[trigger] e.pos_edges@.contains_key(t)
        ==> 0 < e.pos_edges@[t] <= MAX_WEIGHT && t != k && !e.neg_edges@.contains_key(t)
    &&& forall|t: NodeId| #[trigger] e.neg_edges@.contains_key(t)
        ==> -MAX_WEIGHT <= e.neg_edges@[t] < 0 && t != k
    &&& e.pos_sum == sum_weights(e.pos_edges.pairs@)
}

/// Signed weighted directed graph without self-loops.
pub struct Graph<D> {
    pub nodes: AssocMap<NodeEntry<D>>,
}

impl<D: Copy> Graph<D> {
    pub open spec fn wf(self) -> bool {
        &&& self.nodes.wf()
        &&& forall|k: NodeId| #[trigger] self.nodes@.contains_key(k)
            ==> entry_wf(k, self.nodes@[k])
    }

    pub open spec fn has_node(self, n: NodeId) -> bool {
        self.nodes@.contains_key(n)
    }

    pub open spec fn data_of(self, n: NodeId) -> D
        recommends self.has_node(n),
    {
        self.nodes@[n].data
    }

    /// Positive out-edges of `n`; the empty map when `n` is absent.
    pub open spec fn pos_map(self, n: NodeId) -> Map<usize, i64> {
        if self.has_node(n) {
            self.nodes@[n].pos_edges@
        } else {
            Map::empty()
        }
    }

    /// Negative out-edges of `n`; the empty map when `n` is absent.
    pub open spec fn neg_map(self, n: NodeId) -> Map<usize, i64> {
        if self.has_node(n) {
            self.nodes@[n].neg_edges@
        } else {
            Map::empty()
        }
    }

    /// Cached sum of the positive out-edge weights of `n`.
    pub open spec fn pos_sum_of(self, n: NodeId) -> int {
        if self.has_node(n) {
            self.nodes@[n].pos_sum as int
        } else {
            0
        }
    }

    /// The weight of the edge from `s` to `d`, `None` when absent.
    pub open spec fn edge_weight_of(self, s: NodeId, d: NodeId) -> Option<i64> {
        if self.pos_map(s).contains_key(d) {
            Some(self.pos_map(s)[d])
        } else if self.neg_map(s).contains_key(d) {
            Some(self.neg_map(s)[d])
        } else {
            None
        }
    }

    pub fn new() -> (r: Self)
        ensures
            r.wf(),
            r.nodes@ == Map::<usize, NodeEntry<D>>::empty(),
    {
        Graph { nodes: AssocMap::new() }
    }

    pub fn contains_node(&self, n: NodeId) -> (r: bool)
        requires
            self.wf(),
        ensures
            r == self.has_node(n),
    {
        self.nodes.contains_key(n)
    }

    /// Create `n` with payload `data`, or overwrite the payload of an
    /// existing `n`, keeping its edges.
    pub fn add_node(&mut self, n: NodeId, data: D)
        requires
            old(self).wf(),
        ensures
            final(self).wf(),
            final(self).has_node(n),
            final(self).data_of(n) == data,
            forall|m: NodeId| m != n ==> final(self).nodes@.contains_key(m)
                == old(self).nodes@.contains_key(m),
            forall|m: NodeId| m != n && old(self).has_node(m)
                ==> final(self).nodes@[m] == old(self).nodes@[m],
            final(self).pos_map(n) == old(self).pos_map(n),
            final(self).neg_map(n) == old(self).neg_map(n),
            final(self).pos_sum_of(n) == old(self).pos_sum_of(n),
    {
        let entry = match self.nodes.take(n) {
            Some(mut e) => {
                e.data = data;
                e
            },
            None => NodeEntry {
                data,
                pos_edges: AssocMap::new(),
                neg_edges: AssocMap::new(),
                pos_sum: 0,
            },
        };
        self.nodes.insert(n, entry);
    }

    pub fn get_node_data(&self, n: NodeId) -> (r: Option<D>)
        requires
            self.wf(),
        ensures
            match r {
                Some(d) => self.has_node(n) && d == self.data_of(n),
                None => !self.has_node(n),
            },
    {
        match self.nodes.get(n) {
            Some(e) => Some(e.data),
            None => None,
        }
    }

    pub fn edge_weight(&self, s: NodeId, d: NodeId) -> (r: Option<Weight>)
        requires
            self.wf(),
        ensures
            r == self.edge_weight_of(s, d),
    {
        match self.nodes.get(s) {
            Some(e) => {
                match e.pos_edges.get(d) {
                    Some(w) => Some(*w),
                    None => match e.neg_edges.get(d) {
                        Some(w) => Some(*w),
                        None => None,
                    },
                }
            },
            None => None,
        }
    }

    pub fn contains_edge(&self, s: NodeId, d: NodeId) -> (r: bool)
        requires
            self.wf(),
        ensures
            r == self.edge_weight_of(s, d).is_some(),
    {
        self.edge_weight(s, d).is_some()
    }

    /// Put the edge `s -> d` at weight `w`, replacing any previous edge
    /// between the two. No invalidation of walks happens here.
    pub fn add_edge(&mut self, s: NodeId, d: NodeId, w: Weight)
        requires
            old(self).wf(),
            old(self).has_node(s),
            old(self).has_node(d),
            s != d,
            w != 0,
            -MAX_WEIGHT <= w <= MAX_WEIGHT,
        ensures
            final(self).wf(),
            forall|m: NodeId| final(self).nodes@.contains_key(m)
                == old(self).nodes@.contains_key(m),
            forall|m: NodeId| m != s && old(self).has_node(m)
                ==> final(self).nodes@[m] == old(self).nodes@[m],
            final(self).data_of(s) == old(self).data_of(s),
            final(self).pos_map(s) == if w > 0 {
                old(self).pos_map(s).insert(d, w)
            } else {
                old(self).pos_map(s).remove(d)
            },
            final(self).neg_map(s) == if w < 0 {
                old(self).neg_map(s).insert(d, w)
            } else {
                old(self).neg_map(s).remove(d)
            },
            final(self).edge_weight_of(s, d) == Some(w),
    {
        let entry_opt = self.nodes.take(s);
        let mut e = match entry_opt {
            Some(e) => e,
            None => {
                proof {
                    assert(false);
                }
                NodeEntry {
                    data: match self.nodes.get(d) {
                        Some(x) => x.data,
                        None => unreached(),
                    },
                    pos_edges: AssocMap::new(),
                    neg_edges: AssocMap::new(),
                    pos_sum: 0,
                }
            },
        };
        proof {
            assert(entry_wf(s, e));
        }
        let prev: i64 = match e.pos_edges.get(d) {
            Some(pw) => *pw,
            None => 0,
        };
        proof {
            lemma_pos_bucket_bounds(e.pos_edges);
            if e.pos_edges@.contains_key(d) {
                e.pos_edges.lemma_contains_at(d);
                lemma_sum_weights_remove(e.pos_edges.pairs@,
                    e.pos_edges.key_seq().index_of(d));
            }
        }
        let ghost pre_pos = e.pos_edges;
        if w > 0 {
            e.pos_edges.insert(d, w);
            let _ = e.neg_edges.take(d);
            e.pos_sum = e.pos_sum - (prev as i128) + (w as i128);
            proof {
                if pre_pos@.contains_key(d) {
                    lemma_sum_weights_update(pre_pos.pairs@,
                        pre_pos.key_seq().index_of(d), (d, w));
                    pre_pos.lemma_contains_at(d);
                } else {
                    lemma_sum_weights_push(pre_pos.pairs@, (d, w));
                }
            }
        } else {
            let _ = e.pos_edges.take(d);
            e.neg_edges.insert(d, w);
            e.pos_sum = e.pos_sum - (prev as i128);
            proof {
                if pre_pos@.contains_key(d) {
                    lemma_sum_weights_remove(pre_pos.pairs@,
                        pre_pos.key_seq().index_of(d));
                    pre_pos.lemma_contains_at(d);
                }
            }
        }
        self.nodes.insert(s, e);
        proof {
            assert(self.nodes@ =~= old(self).nodes@.insert(s, e));
            assert(final(self).pos_map(s) =~= if w > 0 {
                old(self).pos_map(s).insert(d, w)
            } else {
                old(self).pos_map(s).remove(d)
            });
            assert(final(self).neg_map(s) =~= if w < 0 {
                old(self).neg_map(s).insert(d, w)
            } else {
                old(self).neg_map(s).remove(d)
            });
        }
    }

    /// Remove any edge from `s` to `d`.
    pub fn remove_edge(&mut self, s: NodeId, d: NodeId)
        requires
            old(self).wf(),
            old(self).has_node(s),
        ensures
            final(self).wf(),
            forall|m: NodeId| final(self).nodes@.contains_key(m)
                == old(self).nodes@.contains_key(m),
            forall|m: NodeId| m != s && old(self).has_node(m)
                ==> final(self).nodes@[m] == old(self).nodes@[m],
            final(self).data_of(s) == old(self).data_of(s),
            final(self).pos_map(s) == old(self).pos_map(s).remove(d),
            final(self).neg_map(s) == old(self).neg_map(s).remove(d),
            final(self).edge_weight_of(s, d).is_none(),
    {
        let entry_opt = self.nodes.take(s);
        let mut e = match entry_opt {
            Some(e) => e,
            None => {
                proof {
                    assert(false);
                }
                unreached()
            },
        };
        proof {
            assert(entry_wf(s, e));
        }
        let ghost pre_pos = e.pos_edges;
        let _ = e.neg_edges.take(d);
        let removed = e.pos_edges.take(d);
        match removed {
            Some(pw) => {
                proof {
                    lemma_pos_bucket_bounds(pre_pos);
                    pre_pos.lemma_contains_at(d);
                    lemma_sum_weights_remove(pre_pos.pairs@,
                        pre_pos.key_seq().index_of(d));
                }
                e.pos_sum = e.pos_sum - (pw as i128);
            },
            None => {},
        }
        self.nodes.insert(s, e);
        proof {
            assert(self.nodes@ =~= old(self).nodes@.insert(s, e));
            assert(final(self).pos_map(s) =~= old(self).pos_map(s).remove(d));
            assert(final(self).neg_map(s) =~= old(self).neg_map(s).remove(d));
        }
    }

    /// Copy of the positive out-edge pairs of `n`, empty when `n` is absent.
    pub fn pos_edges_vec(&self, n: NodeId) -> (r: Vec<(NodeId, Weight)>)
        requires
            self.wf(),
        ensures
            self.has_node(n) ==> r@ == self.nodes@[n].pos_edges.pairs@,
            !self.has_node(n) ==> r@.len() == 0,
    {
        match self.nodes.get(n) {
            Some(e) => {
                let m = e.pos_edges.len();
                let mut r: Vec<(NodeId, Weight)> = Vec::new();
                let mut i: usize = 0;
                while i < m
                    invariant
                        m == e.pos_edges.pairs@.len(),
                        i <= m,
                        r@ == e.pos_edges.pairs@.take(i as int),
                    decreases m - i,
                {
                    let p = e.pos_edges.pairs[i];
                    r.push(p);
                    proof {
                        assert(r@ =~= e.pos_edges.pairs@.take(i as int + 1));
                    }
                    i = i + 1;
                }
                proof {
                    assert(r@ =~= e.pos_edges.pairs@);
                }
                r
            },
            None => Vec::new(),
        }
    }

    /// Copy of the negative out-edge map of `n`, empty when `n` is absent.
    pub fn neg_edges_map(&self, n: NodeId) -> (r: AssocMap<i64>)
        requires
            self.wf(),
        ensures
            r.wf(),
            r@ == self.neg_map(n),
            self.has_node(n) ==> r.pairs@ == self.nodes@[n].neg_edges.pairs@,
            !self.has_node(n) ==> r.pairs@.len() == 0,
    {
        match self.nodes.get(n) {
            Some(e) => {
                let m = e.neg_edges.len();
                let mut v: Vec<(NodeId, Weight)> = Vec::new();
                let mut i: usize = 0;
                while i < m
                    invariant
                        m == e.neg_edges.pairs@.len(),
                        i <= m,
                        v@ == e.neg_edges.pairs@.take(i as int),
                    decreases m - i,
                {
                    let p = e.neg_edges.pairs[i];
                    v.push(p);
                    proof {
                        assert(v@ =~= e.neg_edges.pairs@.take(i as int + 1));
                    }
                    i = i + 1;
                }
                proof {
                    assert(v@ =~= e.neg_edges.pairs@);
                }
                let r = AssocMap { pairs: v };
                proof {
                    assert(r.key_seq() =~= e.neg_edges.key_seq());
                    assert(r@ =~= e.neg_edges@);
                }
                r
            },
            None => {
                let r = AssocMap::new();
                proof {
                    assert(r@ =~= self.neg_map(n));
                }
                r
            },
        }
    }

    /// Cached positive weight sum of `n`; zero when `n` is absent.
    pub fn pos_weight_sum(&self, n: NodeId) -> (r: i128)
        requires
            self.wf(),
        ensures
            r == self.pos_sum_of(n),
            0 <= r <= usize::MAX as int * MAX_WEIGHT,
    {
        match self.nodes.get(n) {
            Some(e) => {
                proof {
                    lemma_pos_bucket_bounds(e.pos_edges);
                }
                e.pos_sum
            },
            None => 0,
        }
    }

    /// The representation keeps a node's edges apart from itself, so a
    /// self-loop can never be stored.
    pub fn check_self_reference(&self) -> (r: Result<(), crate::errors::MeritRankError>)
        requires
            self.wf(),
        ensures
            r.is_ok(),
    {
        Ok(())
    }
}

} // verus!
