//! A random walk: an ordered sequence of node identities, starting at the ego
//! that the walk was generated for.

use vstd::prelude::*;
use crate::types::NodeId;

verus! {

/// `p` is the position of the first occurrence of `s[p]` in `s`.
pub open spec fn is_first_occurrence(s: Seq<NodeId>, p: int) -> bool {
    &&& 0 <= p < s.len()
    &&& forall|q: int| 0 <= q < p ==> s[q] != s[p]
}

/// An ordered sequence of nodes visited by one walk.
pub struct RandomWalk {
    pub nodes: Vec<NodeId>,
}

impl View for RandomWalk {
    type V = Seq<NodeId>;

    open spec fn view(&self) -> Seq<NodeId> {
        self.nodes@
    }
}

impl RandomWalk {
    pub fn new() -> (r: Self)
        ensures
            r@ == Seq::<NodeId>::empty(),
    {
        let r = RandomWalk { nodes: Vec::new() };
        proof {
            assert(r@ =~= Seq::<NodeId>::empty());
        }
        r
    }

    pub fn len(&self) -> (r: usize)
        ensures
            r == self@.len(),
    {
        self.nodes.len()
    }

    pub fn first_node(&self) -> (r: Option<NodeId>)
        ensures
            match r {
                Some(n) => self@.len() > 0 && n == self@[0],
                None => self@.len() == 0,
            },
    {
        if self.nodes.len() > 0 {
            Some(self.nodes[0])
        } else {
            None
        }
    }

    pub fn last_node(&self) -> (r: Option<NodeId>)
        ensures
            match r {
                Some(n) => self@.len() > 0 && n == self@[self@.len() - 1],
                None => self@.len() == 0,
            },
    {
        let ln = self.nodes.len();
        if ln > 0 {
            Some(self.nodes[ln - 1])
        } else {
            None
        }
    }

    pub fn get_node(&self, p: usize) -> (r: NodeId)
        requires
            p < self@.len(),
        ensures
            r == self@[p as int],
    {
        self.nodes[p]
    }

    pub fn get_nodes(&self) -> (r: &Vec<NodeId>)
        ensures
            r@ == self@,
    {
        &self.nodes
    }

    pub fn push(&mut self, n: NodeId)
        ensures
            final(self)@ == old(self)@.push(n),
    {
        self.nodes.push(n);
    }

    /// Append every node of `seg`.
    pub fn extend(&mut self, seg: &Vec<NodeId>)
        ensures
            final(self)@ == old(self)@ + seg@,
    {
        let n = seg.len();
        let mut i: usize = 0;
        while i < n
            invariant
                n == seg@.len(),
                i <= n,
                self@ == old(self)@ + seg@.take(i as int),
            decreases n - i,
        {
            self.nodes.push(seg[i]);
            proof {
                assert(old(self)@ + seg@.take(i as int + 1)
                    =~= (old(self)@ + seg@.take(i as int)).push(seg@[i as int]));
            }
            i = i + 1;
        }
        proof {
            assert(seg@.take(n as int) =~= seg@);
        }
    }

    /// Remove every position at or after `cut`.
    pub fn truncate(&mut self, cut: usize)
        requires
            cut <= old(self)@.len(),
        ensures
            final(self)@ == old(self)@.take(cut as int),
    {
        self.nodes.truncate(cut);
    }

    /// Drop all nodes.
    pub fn clear(&mut self)
        ensures
            final(self)@ == Seq::<NodeId>::empty(),
    {
        self.nodes.clear();
        proof {
            assert(self@ =~= Seq::<NodeId>::empty());
        }
    }

    pub fn contains_node(&self, n: NodeId) -> (r: bool)
        ensures
            r == self@.contains(n),
    {
        let ln = self.nodes.len();
        let mut i: usize = 0;
        while i < ln
            invariant
                ln == self@.len(),
                i <= ln,
                forall|j: int| 0 <= j < i ==> self@[j] != n,
            decreases ln - i,
        {
            if self.nodes[i] == n {
                return true;
            }
            i = i + 1;
        }
        proof {
            if self@.contains(n) {
                let w = choose|w: int| 0 <= w < ln && #[trigger] self@[w] == n;
            }
        }
        false
    }

    /// Whether any element of `keys` occurs in the walk.
    pub fn intersects_nodes(&self, keys: &Vec<NodeId>) -> (r: bool)
        ensures
            r == exists|n: NodeId| #[trigger] keys@.contains(n) && self@.contains(n),
    {
        let kn = keys.len();
        let mut i: usize = 0;
        while i < kn
            invariant
                kn == keys@.len(),
                i <= kn,
                forall|j: int| 0 <= j < i ==> !self@.contains(#[trigger] keys@[j]),
            decreases kn - i,
        {
            if self.contains_node(keys[i]) {
                proof {
                    assert(keys@.contains(keys@[i as int]));
                }
                return true;
            }
            i = i + 1;
        }
        proof {
            if exists|n: NodeId| #[trigger] keys@.contains(n) && self@.contains(n) {
                let n = choose|n: NodeId| #[trigger] keys@.contains(n) && self@.contains(n);
                let w = choose|w: int| 0 <= w < kn && #[trigger] keys@[w] == n;
            }
        }
        false
    }
}

} // verus!
