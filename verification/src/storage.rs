//! Arena of walks together with the inverted index `visits`: for every node,
//! the walks passing through it and the position of the first visit.

use vstd::prelude::*;
use crate::assoc::AssocMap;
use crate::types::{NodeId, WalkId, MAX_WALKS, MAX_WALK_LEN, WEIGHT_UNIT};
use crate::walk::{RandomWalk, is_first_occurrence};
use crate::rng::rand_below;

verus! {

/// Two first occurrences of the same node in one walk stand at one position.
pub proof fn lemma_first_occurrence_unique(s: Seq<NodeId>, p: int, q: int)
    requires
        is_first_occurrence(s, p),
        is_first_occurrence(s, q),
        s[p] == s[q],
    ensures
        p == q,
{
    if p < q {
        assert(s[p] == s[q]);
        assert(false);
    } else if q < p {
        assert(false);
    }
}

/// The walk handles of a first-visit list, in order.
pub open spec fn pair_keys(s: Seq<(WalkId, usize)>) -> Seq<WalkId> {
    s.map_values(|pr: (WalkId, usize)| pr.0)
}

/// Walk arena and first-visit index.
pub struct WalkStorage {
    pub walks: Vec<RandomWalk>,
    pub visits: AssocMap<Vec<(WalkId, usize)>>,
}

impl WalkStorage {
    /// The node sequences of all walk slots.
    pub open spec fn wseq(self) -> Seq<Seq<NodeId>> {
        self.walks@.map_values(|w: RandomWalk| w@)
    }

    /// `(w, p)` names the first visit of walk `w` to node `n`.
    pub open spec fn pair_valid(self, n: NodeId, w: WalkId, p: usize) -> bool {
        &&& (w as int) < self.wseq().len()
        &&& is_first_occurrence(self.wseq()[w as int], p as int)
        &&& self.wseq()[w as int][p as int] == n
    }

    /// The index holds the pair `(w, p)` under `n`.
    pub open spec fn has_pair(self, n: NodeId, w: WalkId, p: usize) -> bool {
        self.visits@.contains_key(n) && self.visits@[n]@.contains((w, p))
    }

    /// The list under `n` holds each walk at most once, and only true first
    /// visits of `n`.
    pub open spec fn entry_list_wf(self, n: NodeId) -> bool {
        let lst = self.visits@[n]@;
        &&& pair_keys(lst).no_duplicates()
        &&& forall|j: int| 0 <= j < lst.len()
            ==> self.pair_valid(n, (#[trigger] lst[j]).0, lst[j].1)
    }

    /// Every recorded pair is a true first visit.
    pub open spec fn sound(self) -> bool {
        &&& self.visits.wf()
        &&& forall|n: NodeId| #[trigger] self.visits@.contains_key(n) ==> self.entry_list_wf(n)
    }

    /// Every first visit of every walk is recorded.
    pub open spec fn complete(self) -> bool {
        forall|w: WalkId, p: usize| (w as int) < self.wseq().len()
            && #[trigger] is_first_occurrence(self.wseq()[w as int], p as int)
            ==> self.has_pair(self.wseq()[w as int][p as int], w, p)
    }

    /// The arena and every walk stay within their caps.
    pub open spec fn lengths_ok(self) -> bool {
        &&& self.walks@.len() <= MAX_WALKS
        &&& forall|w: int| 0 <= w < self.wseq().len()
            ==> (#[trigger] self.wseq()[w]).len() <= MAX_WALK_LEN
    }

    /// The visits index is exactly the set of first visits of the walks.
    pub open spec fn wf(self) -> bool {
        &&& self.sound()
        &&& self.complete()
        &&& self.lengths_ok()
    }

    pub fn new() -> (r: Self)
        ensures
            r.wf(),
            r.wseq() == Seq::<Seq<NodeId>>::empty(),
    {
        let r = WalkStorage { walks: Vec::new(), visits: AssocMap::new() };
        proof {
            assert(r.wseq() =~= Seq::<Seq<NodeId>>::empty());
        }
        r
    }

    pub fn num_walks(&self) -> (r: usize)
        ensures
            r == self.wseq().len(),
    {
        self.walks.len()
    }

    /// Open a fresh, empty walk slot and hand out its handle.
    pub fn get_next_free_walkid(&mut self) -> (id: WalkId)
        requires
            old(self).wf(),
            old(self).wseq().len() < MAX_WALKS,
        ensures
            final(self).wf(),
            id == old(self).wseq().len(),
            final(self).wseq() == old(self).wseq().push(Seq::<NodeId>::empty()),
            final(self).visits == old(self).visits,
    {
        let id = self.walks.len();
        self.walks.push(RandomWalk::new());
        proof {
            assert(final(self).wseq() =~= old(self).wseq().push(Seq::<NodeId>::empty()));
            assert forall|n: NodeId| #[trigger] self.visits@.contains_key(n)
                implies self.entry_list_wf(n) by {
                let lst = self.visits@[n]@;
                assert(old(self).entry_list_wf(n));
                assert forall|j: int| 0 <= j < lst.len()
                    implies self.pair_valid(n, (#[trigger] lst[j]).0, lst[j].1) by {
                    assert(old(self).pair_valid(n, lst[j].0, lst[j].1));
                    assert(self.wseq()[lst[j].0 as int] == old(self).wseq()[lst[j].0 as int]);
                }
            }
            assert forall|w: WalkId, p: usize| (w as int) < self.wseq().len()
                && #[trigger] is_first_occurrence(self.wseq()[w as int], p as int)
                implies self.has_pair(self.wseq()[w as int][p as int], w, p) by {
                if (w as int) < old(self).wseq().len() {
                    assert(old(self).has_pair(old(self).wseq()[w as int][p as int], w, p));
                } else {
                    assert(self.wseq()[w as int].len() == 0);
                }
            }
        }
        id
    }

    pub fn get_walk(&self, id: WalkId) -> (r: &RandomWalk)
        requires
            id < self.wseq().len(),
        ensures
            r@ == self.wseq()[id as int],
    {
        &self.walks[id]
    }

    /// The first-visit list of `n`, empty when no walk passes through `n`.
    pub open spec fn visit_list(self, n: NodeId) -> Seq<(WalkId, usize)> {
        if self.visits@.contains_key(n) {
            self.visits@[n]@
        } else {
            Seq::empty()
        }
    }

    /// Copy of the first-visit list of `n`; empty when no walk passes
    /// through `n`.
    pub fn get_visits_through_node(&self, n: NodeId) -> (r: Vec<(WalkId, usize)>)
        requires
            self.sound(),
        ensures
            r@ == self.visit_list(n),
            self.visits@.contains_key(n) ==> r@ == self.visits@[n]@,
            !self.visits@.contains_key(n) ==> r@.len() == 0,
    {
        match self.visits.get(n) {
            Some(lst) => {
                let m = lst.len();
                let mut r: Vec<(WalkId, usize)> = Vec::new();
                let mut i: usize = 0;
                while i < m
                    invariant
                        m == lst@.len(),
                        i <= m,
                        r@ == lst@.take(i as int),
                    decreases m - i,
                {
                    r.push(lst[i]);
                    proof {
                        assert(r@ =~= lst@.take(i as int + 1));
                    }
                    i = i + 1;
                }
                proof {
                    assert(r@ =~= lst@);
                }
                r
            },
            None => Vec::new(),
        }
    }
}

impl WalkStorage {
    /// Remove from the index every first visit of walk `id` at a position at
    /// or after `cut`, then truncate the walk to its first `cut` nodes.
    pub fn cut_walk(&mut self, id: WalkId, cut: usize)
        requires
            old(self).wf(),
            (id as int) < old(self).wseq().len(),
            cut <= old(self).wseq()[id as int].len(),
        ensures
            final(self).wf(),
            final(self).wseq() == old(self).wseq().update(id as int,
                old(self).wseq()[id as int].take(cut as int)),
            forall|n: NodeId, w: WalkId, p: usize| w != id
                ==> final(self).has_pair(n, w, p) == old(self).has_pair(n, w, p),
            forall|n: NodeId, p: usize| p < cut
                ==> final(self).has_pair(n, id, p) == old(self).has_pair(n, id, p),
            forall|n: NodeId, p: usize| cut <= p
                ==> !final(self).has_pair(n, id, p),
    {
        let wl = self.walks[id].len();
        let mut p: usize = cut;
        while p < wl
            invariant
                (id as int) < self.wseq().len(),
                wl == self.wseq()[id as int].len(),
                cut <= p <= wl,
                self.walks@ == old(self).walks@,
                self.sound(),
                self.lengths_ok(),
                forall|w: WalkId, q: usize| (w as int) < self.wseq().len()
                    && #[trigger] is_first_occurrence(self.wseq()[w as int], q as int)
                    && !(w == id && cut <= q < p)
                    ==> self.has_pair(self.wseq()[w as int][q as int], w, q),
                forall|n: NodeId, q: usize| cut <= q < p
                    ==> !(#[trigger] self.has_pair(n, id, q)),
                forall|n: NodeId, w: WalkId, q: usize| w != id || q < cut || p <= q
                    ==> #[trigger] self.has_pair(n, w, q) == old(self).has_pair(n, w, q),
            decreases wl - p,
        {
            let node = self.walks[id].get_node(p);
            let mut firstocc = true;
            let mut j: usize = 0;
            while j < p
                invariant
                    (id as int) < self.wseq().len(),
                    p < wl,
                    wl == self.wseq()[id as int].len(),
                    j <= p,
                    node == self.wseq()[id as int][p as int],
                    firstocc == (forall|q: int| 0 <= q < j
                        ==> self.wseq()[id as int][q] != node),
                decreases p - j,
            {
                if self.walks[id].get_node(j) == node {
                    firstocc = false;
                }
                j = j + 1;
            }
            proof {
                assert(firstocc == is_first_occurrence(self.wseq()[id as int], p as int));
            }
            if firstocc {
                proof {
                    assert(self.has_pair(node, id, p));
                }
                let ghost pre = *self;
                let lst_opt = self.visits.take(node);
                let mut lst = match lst_opt {
                    Some(lst) => lst,
                    None => {
                        proof {
                            assert(false);
                        }
                        Vec::new()
                    },
                };
                proof {
                    assert(pre.entry_list_wf(node));
                    assert(lst@ == pre.visits@[node]@);
                }
                remove_walk_pair(&mut lst, id);
                self.visits.insert(node, lst);
                proof {
                    let ppos = p as usize;
                    assert(self.visits@ =~= pre.visits@.insert(node, lst));
                    // the only pair keyed `id` under `node` was `(id, p)`
                    assert forall|pr: (WalkId, usize)|
                        pre.visits@[node]@.contains(pr) && pr.0 == id
                        implies pr.1 == ppos by {
                        let lst0 = pre.visits@[node]@;
                        let jj = choose|jj: int| 0 <= jj < lst0.len() && lst0[jj] == pr;
                        assert(pre.pair_valid(node, pr.0, pr.1));
                        lemma_first_occurrence_unique(pre.wseq()[id as int],
                            pr.1 as int, p as int);
                    }
                    // soundness of the shrunk list
                    assert forall|n2: NodeId| #[trigger] self.visits@.contains_key(n2)
                        implies self.entry_list_wf(n2) by {
                        if n2 == node {
                            let ln = self.visits@[n2]@;
                            assert forall|jj: int| 0 <= jj < ln.len()
                                implies self.pair_valid(n2, (#[trigger] ln[jj]).0, ln[jj].1) by {
                                assert(ln.contains(ln[jj]));
                                assert(pre.visits@[node]@.contains(ln[jj]));
                                let lst0 = pre.visits@[node]@;
                                let j0 = choose|j0: int| 0 <= j0 < lst0.len()
                                    && lst0[j0] == ln[jj];
                                assert(pre.pair_valid(node, ln[jj].0, ln[jj].1));
                            }
                        } else {
                            assert(self.visits@[n2] == pre.visits@[n2]);
                            assert(pre.entry_list_wf(n2));
                        }
                    }
                    // pair bookkeeping for every triple
                    assert forall|n2: NodeId, w: WalkId, q: usize|
                        !(w == id && q == ppos)
                        implies #[trigger] self.has_pair(n2, w, q)
                            == pre.has_pair(n2, w, q) by {
                        if n2 == node {
                            if self.visits@.contains_key(n2) {
                                assert(self.visits@[n2]@.contains((w, q))
                                    == (pre.visits@[node]@.contains((w, q)) && w != id)
                                    || (pre.visits@[node]@.contains((w, q)) && w == id
                                        && q != ppos && false));
                                if pre.visits@[node]@.contains((w, q)) && w == id {
                                    assert(q == ppos);
                                }
                            }
                        } else {
                            assert(self.visits@.contains_key(n2)
                                == pre.visits@.contains_key(n2));
                            if self.visits@.contains_key(n2) {
                                assert(self.visits@[n2] == pre.visits@[n2]);
                            }
                        }
                    }
                    assert(!self.has_pair(node, id, ppos));
                    assert forall|n2: NodeId| n2 != node
                        implies !(#[trigger] self.has_pair(n2, id, ppos)) by {
                        if self.has_pair(n2, id, ppos) {
                            assert(pre.has_pair(n2, id, ppos));
                            assert(pre.pair_valid(n2, id, ppos));
                        }
                    }
                }
            } else {
                proof {
                    assert forall|n2: NodeId|
                        !(#[trigger] self.has_pair(n2, id, p)) by {
                        if self.has_pair(n2, id, p) {
                            assert(self.pair_valid(n2, id, p));
                        }
                    }
                }
            }
            p = p + 1;
        }
        let ghost mid = *self;
        let wref = &mut self.walks[id];
        wref.truncate(cut);
        proof {
            assert(self.walks@ == mid.walks@.update(id as int,
                self.walks@[id as int]));
            assert(self.wseq() =~= mid.wseq().update(id as int,
                mid.wseq()[id as int].take(cut as int)));
            assert(self.wseq() == old(self).wseq().update(id as int,
                old(self).wseq()[id as int].take(cut as int)));
            assert(self.visits == mid.visits);
            // soundness after truncation
            assert forall|n2: NodeId| #[trigger] self.visits@.contains_key(n2)
                implies self.entry_list_wf(n2) by {
                let ln = self.visits@[n2]@;
                assert(mid.entry_list_wf(n2));
                assert forall|jj: int| 0 <= jj < ln.len()
                    implies self.pair_valid(n2, (#[trigger] ln[jj]).0, ln[jj].1) by {
                    assert(mid.pair_valid(n2, ln[jj].0, ln[jj].1));
                    let w = ln[jj].0;
                    let q = ln[jj].1;
                    if w == id {
                        assert(ln.contains(ln[jj]));
                        assert(mid.has_pair(n2, id, q));
                        assert(q < cut);
                        assert(self.wseq()[id as int]
                            == mid.wseq()[id as int].take(cut as int));
                        assert(is_first_occurrence(self.wseq()[id as int], q as int));
                    } else {
                        assert(self.wseq()[w as int] == mid.wseq()[w as int]);
                    }
                }
            }
            // completeness after truncation
            assert forall|w: WalkId, q: usize| (w as int) < self.wseq().len()
                && #[trigger] is_first_occurrence(self.wseq()[w as int], q as int)
                implies self.has_pair(self.wseq()[w as int][q as int], w, q) by {
                if w == id {
                    assert(self.wseq()[id as int]
                        == mid.wseq()[id as int].take(cut as int));
                    assert(q < cut);
                    assert forall|x: int| 0 <= x < q
                        implies #[trigger] mid.wseq()[id as int][x]
                            != mid.wseq()[id as int][q as int] by {
                        assert(mid.wseq()[id as int][x] == self.wseq()[id as int][x]);
                        assert(mid.wseq()[id as int][q as int]
                            == self.wseq()[id as int][q as int]);
                        assert(self.wseq()[id as int][x]
                            != self.wseq()[id as int][q as int]);
                    }
                    assert(is_first_occurrence(mid.wseq()[id as int], q as int));
                    assert(mid.has_pair(mid.wseq()[id as int][q as int], id, q));
                } else {
                    assert(self.wseq()[w as int] == mid.wseq()[w as int]);
                    assert(mid.has_pair(mid.wseq()[w as int][q as int], w, q));
                }
            }
            assert(self.lengths_ok());
        }
    }
}

impl WalkStorage {
    /// Append `seg` to walk `id` and record every new first visit in the
    /// index.
    pub fn extend_walk_and_register(&mut self, id: WalkId, seg: &Vec<NodeId>)
        requires
            old(self).wf(),
            (id as int) < old(self).wseq().len(),
            old(self).wseq()[id as int].len() + seg@.len() <= MAX_WALK_LEN,
        ensures
            final(self).wf(),
            final(self).wseq() == old(self).wseq().update(id as int,
                old(self).wseq()[id as int] + seg@),
            forall|n: NodeId, w: WalkId, p: usize| w != id
                ==> final(self).has_pair(n, w, p) == old(self).has_pair(n, w, p),
            forall|n: NodeId, p: usize| p < old(self).wseq()[id as int].len()
                ==> final(self).has_pair(n, id, p) == old(self).has_pair(n, id, p),
    {
        let start = self.walks[id].len();
        let wref = &mut self.walks[id];
        wref.extend(seg);
        let ghost mid = *self;
        proof {
            assert(mid.wseq() =~= old(self).wseq().update(id as int,
                old(self).wseq()[id as int] + seg@));
            // soundness survives the extension
            assert forall|n2: NodeId| #[trigger] mid.visits@.contains_key(n2)
                implies mid.entry_list_wf(n2) by {
                let ln = mid.visits@[n2]@;
                assert(old(self).entry_list_wf(n2));
                assert forall|jj: int| 0 <= jj < ln.len()
                    implies mid.pair_valid(n2, (#[trigger] ln[jj]).0, ln[jj].1) by {
                    assert(old(self).pair_valid(n2, ln[jj].0, ln[jj].1));
                    let w = ln[jj].0;
                    let q = ln[jj].1;
                    if w == id {
                        assert(q < start);
                        assert forall|x: int| 0 <= x < start
                            implies #[trigger] mid.wseq()[id as int][x]
                                == old(self).wseq()[id as int][x] by {
                        }
                        assert(is_first_occurrence(mid.wseq()[id as int], q as int));
                    } else {
                        assert(mid.wseq()[w as int] == old(self).wseq()[w as int]);
                    }
                }
            }
        }
        proof {
            // no pair of walk `id` reaches into the fresh segment
            assert forall|n2: NodeId, w: WalkId, q: usize|
                #[trigger] self.has_pair(n2, w, q) && w == id
                implies q < start by {
                assert(old(self).has_pair(n2, id, q));
                assert(old(self).pair_valid(n2, id, q));
            }
            // first visits outside the fresh segment are already recorded
            assert forall|w: WalkId, q: usize| (w as int) < self.wseq().len()
                && #[trigger] is_first_occurrence(self.wseq()[w as int], q as int)
                && !(w == id && (start as int) <= q as int)
                implies self.has_pair(self.wseq()[w as int][q as int], w, q) by {
                if w == id {
                    assert(q < start);
                    assert forall|x: int| 0 <= x < q
                        implies #[trigger] old(self).wseq()[id as int][x]
                            != old(self).wseq()[id as int][q as int] by {
                        assert(old(self).wseq()[id as int][x]
                            == mid.wseq()[id as int][x]);
                        assert(old(self).wseq()[id as int][q as int]
                            == mid.wseq()[id as int][q as int]);
                        assert(mid.wseq()[id as int][x]
                            != mid.wseq()[id as int][q as int]);
                    }
                    assert(is_first_occurrence(old(self).wseq()[id as int], q as int));
                    assert(old(self).has_pair(old(self).wseq()[id as int][q as int],
                        id, q));
                } else {
                    assert(self.wseq()[w as int] == old(self).wseq()[w as int]);
                    assert(old(self).has_pair(old(self).wseq()[w as int][q as int],
                        w, q));
                }
            }
        }
        let wl = self.walks[id].len();
        let mut p: usize = start;
        while p < wl
            invariant
                (id as int) < self.wseq().len(),
                wl == self.wseq()[id as int].len(),
                start <= p <= wl,
                self.walks@ == mid.walks@,
                self.sound(),
                self.lengths_ok(),
                forall|w: WalkId, q: usize| (w as int) < self.wseq().len()
                    && #[trigger] is_first_occurrence(self.wseq()[w as int], q as int)
                    && !(w == id && (p as int) <= q as int)
                    ==> self.has_pair(self.wseq()[w as int][q as int], w, q),
                forall|n: NodeId, q: usize| p <= q
                    ==> !(#[trigger] self.has_pair(n, id, q)),
                forall|n: NodeId, w: WalkId, q: usize| w != id || q < start
                    ==> #[trigger] self.has_pair(n, w, q) == mid.has_pair(n, w, q),
                forall|n: NodeId, w: WalkId, q: usize|
                    #[trigger] self.has_pair(n, w, q) && w == id && start <= q
                    ==> q < p && is_first_occurrence(self.wseq()[id as int], q as int)
                        && self.wseq()[id as int][q as int] == n,
            decreases wl - p,
        {
            let node = self.walks[id].get_node(p);
            let mut firstocc = true;
            let mut j: usize = 0;
            while j < p
                invariant
                    (id as int) < self.wseq().len(),
                    p < wl,
                    wl == self.wseq()[id as int].len(),
                    j <= p,
                    node == self.wseq()[id as int][p as int],
                    firstocc == (forall|q: int| 0 <= q < j
                        ==> self.wseq()[id as int][q] != node),
                decreases p - j,
            {
                if self.walks[id].get_node(j) == node {
                    firstocc = false;
                }
                j = j + 1;
            }
            proof {
                assert(firstocc == is_first_occurrence(self.wseq()[id as int], p as int));
            }
            if firstocc {
                let ghost pre = *self;
                let lst_opt = self.visits.take(node);
                let mut lst = match lst_opt {
                    Some(lst) => lst,
                    None => Vec::new(),
                };
                proof {
                    if pre.visits@.contains_key(node) {
                        assert(pre.entry_list_wf(node));
                        assert(lst@ == pre.visits@[node]@);
                    } else {
                        assert(lst@ =~= Seq::<(WalkId, usize)>::empty());
                    }
                    // no pair keyed `id` stands in the list yet
                    assert forall|jj: int| 0 <= jj < lst@.len()
                        implies (#[trigger] lst@[jj]).0 != id by {
                        if lst@[jj].0 == id {
                            assert(lst@.contains(lst@[jj]));
                            assert(pre.has_pair(node, id, lst@[jj].1));
                            assert(pre.pair_valid(node, id, lst@[jj].1));
                            let q = lst@[jj].1;
                            if q < start {
                                assert(pre.wseq()[id as int][q as int] == node);
                                assert(false);
                            } else {
                                assert(q < p);
                                assert(pre.wseq()[id as int][q as int] == node);
                                assert(false);
                            }
                        }
                    }
                }
                let ghost lst0 = lst@;
                lst.push((id, p));
                self.visits.insert(node, lst);
                proof {
                    let ppos = p as usize;
                    assert(lst@ == lst0.push((id, ppos)));
                    assert(self.visits@ =~= pre.visits@.insert(node, lst));
                    let keys0 = pair_keys(lst0);
                    let nk = pair_keys(lst@);
                    assert forall|a: int, b: int|
                        0 <= a < nk.len() && 0 <= b < nk.len() && a != b
                        implies nk[a] != nk[b] by {
                        let nlen = lst0.len() as int;
                        if a < nlen && b < nlen {
                            assert(nk[a] == keys0[a]);
                            assert(nk[b] == keys0[b]);
                            if pre.visits@.contains_key(node) {
                                assert(keys0.no_duplicates());
                            }
                        } else if a == nlen {
                            assert(nk[a] == id);
                            assert(nk[b] == lst0[b].0);
                        } else if b == nlen {
                            assert(nk[b] == id);
                            assert(nk[a] == lst0[a].0);
                        }
                    }
                    // soundness with the one new pair
                    assert forall|n2: NodeId| #[trigger] self.visits@.contains_key(n2)
                        implies self.entry_list_wf(n2) by {
                        if n2 == node {
                            let ln = self.visits@[n2]@;
                            assert forall|jj: int| 0 <= jj < ln.len()
                                implies self.pair_valid(n2, (#[trigger] ln[jj]).0, ln[jj].1) by {
                                if jj < lst0.len() {
                                    assert(ln[jj] == lst0[jj]);
                                    assert(lst0.contains(lst0[jj]));
                                    if pre.visits@.contains_key(node) {
                                        assert(pre.pair_valid(node, ln[jj].0, ln[jj].1));
                                    }
                                } else {
                                    assert(ln[jj] == (id, ppos));
                                }
                            }
                        } else {
                            assert(self.visits@[n2] == pre.visits@[n2]);
                            assert(pre.entry_list_wf(n2));
                        }
                    }
                    // pair bookkeeping
                    assert forall|n2: NodeId, w: WalkId, q: usize|
                        !(n2 == node && w == id && q == ppos)
                        implies #[trigger] self.has_pair(n2, w, q)
                            == pre.has_pair(n2, w, q) by {
                        if n2 == node {
                            if self.visits@[n2]@.contains((w, q)) {
                                let jj = choose|jj: int| 0 <= jj < self.visits@[n2]@.len()
                                    && self.visits@[n2]@[jj] == (w, q);
                                if jj < lst0.len() {
                                    assert(lst0.contains((w, q)));
                                }
                            }
                            if pre.visits@.contains_key(n2)
                                && pre.visits@[n2]@.contains((w, q)) {
                                assert(lst0.contains((w, q)));
                                let jj = choose|jj: int| 0 <= jj < lst0.len()
                                    && lst0[jj] == (w, q);
                                assert(lst@[jj] == (w, q));
                                assert(lst@.contains((w, q)));
                            }
                        } else {
                            assert(self.visits@.contains_key(n2)
                                == pre.visits@.contains_key(n2));
                            if self.visits@.contains_key(n2) {
                                assert(self.visits@[n2] == pre.visits@[n2]);
                            }
                        }
                    }
                    assert(lst@[lst0.len() as int] == (id, ppos));
                    assert(lst@.contains((id, ppos)));
                    assert(self.has_pair(node, id, ppos));
                }
            } else {
                proof {
                    assert forall|n2: NodeId|
                        !(#[trigger] self.has_pair(n2, id, p)) by {
                        if self.has_pair(n2, id, p) {
                            assert(self.pair_valid(n2, id, p));
                        }
                    }
                }
            }
            p = p + 1;
        }
    }
}

impl WalkStorage {
    /// Was this walk slot, before any mutation, a live walk of `ego`?
    pub open spec fn is_ego_walk(ws: Seq<Seq<NodeId>>, w: int, ego: NodeId) -> bool {
        ws[w].len() > 0 && ws[w][0] == ego
    }

    /// Empty every walk that starts at `ego` and clear its index entries.
    pub fn drop_walks_from_node(&mut self, ego: NodeId)
        requires
            old(self).wf(),
        ensures
            final(self).wf(),
            final(self).wseq().len() == old(self).wseq().len(),
            forall|w: int| 0 <= w < old(self).wseq().len()
                ==> final(self).wseq()[w] == if Self::is_ego_walk(old(self).wseq(), w, ego) {
                    Seq::<NodeId>::empty()
                } else {
                    old(self).wseq()[w]
                },
    {
        let n = self.walks.len();
        let mut i: usize = 0;
        while i < n
            invariant
                n == self.wseq().len(),
                n == old(self).wseq().len(),
                i <= n,
                self.wf(),
                forall|w: int| 0 <= w < n
                    ==> self.wseq()[w] == if w < i
                            && Self::is_ego_walk(old(self).wseq(), w, ego) {
                        Seq::<NodeId>::empty()
                    } else {
                        old(self).wseq()[w]
                    },
            decreases n - i,
        {
            let wlen = self.walks[i].len();
            if wlen > 0 {
                if self.walks[i].get_node(0) == ego {
                    let ghost pre = *self;
                    self.cut_walk(i, 0);
                    proof {
                        assert(self.wseq() == pre.wseq().update(i as int,
                            pre.wseq()[i as int].take(0)));
                        assert(pre.wseq()[i as int].take(0) =~= Seq::<NodeId>::empty());
                        assert forall|w: int| 0 <= w < n && w != i
                            implies #[trigger] self.wseq()[w] == pre.wseq()[w] by {
                        }
                    }
                }
            }
            i = i + 1;
        }
    }

    /// The walk of `pr` steps from its first visit of the source straight
    /// to `target`.
    pub open spec fn natural_pair(self, pr: (WalkId, usize), target: Option<NodeId>) -> bool {
        &&& target.is_some()
        &&& pr.1 + 1 < self.wseq()[pr.0 as int].len()
        &&& self.wseq()[pr.0 as int][pr.1 + 1] == target.unwrap()
    }

    /// Select the walks through `src` that a weight change at the edge
    /// `src -> target` invalidates: each first visit is re-routed with
    /// probability `prob` of `WEIGHT_UNIT`, and every walk whose next step
    /// out of `src` already was `target` is selected whatever the draw.
    pub fn invalidate_walks_through_node(&self, src: NodeId, target: Option<NodeId>,
        prob: i64) -> (r: Vec<(WalkId, usize)>)
        requires
            self.wf(),
            0 <= prob <= WEIGHT_UNIT,
        ensures
            pair_keys(r@).no_duplicates(),
            forall|i: int| 0 <= i < r@.len()
                ==> self.has_pair(src, (#[trigger] r@[i]).0, r@[i].1),
            forall|pr: (WalkId, usize)|
                #[trigger] self.has_pair(src, pr.0, pr.1)
                && self.natural_pair(pr, target)
                ==> r@.contains(pr),
            prob == 0 ==> forall|i: int| 0 <= i < r@.len()
                ==> self.natural_pair(#[trigger] r@[i], target),
    {
        let lst = self.get_visits_through_node(src);
        let m = lst.len();
        let mut r: Vec<(WalkId, usize)> = Vec::new();
        let ghost lsq = lst@;
        let mut k: usize = 0;
        while k < m
            invariant
                self.wf(),
                0 <= prob <= WEIGHT_UNIT,
                m == lsq.len(),
                k <= m,
                lst@ == lsq,
                self.visits@.contains_key(src) ==> lsq == self.visits@[src]@,
                !self.visits@.contains_key(src) ==> lsq.len() == 0,
                pair_keys(lsq).no_duplicates(),
                forall|j: int| 0 <= j < lsq.len()
                    ==> self.has_pair(src, (#[trigger] lsq[j]).0, lsq[j].1),
                forall|i: int| 0 <= i < r@.len()
                    ==> exists|j: int| 0 <= j < k && #[trigger] r@[i] == lsq[j],
                pair_keys(r@).no_duplicates(),
                forall|j: int| 0 <= j < k
                    && self.natural_pair(#[trigger] lsq[j], target)
                    ==> r@.contains(lsq[j]),
                prob == 0 ==> forall|i: int| 0 <= i < r@.len()
                    ==> self.natural_pair(#[trigger] r@[i], target),
            decreases m - k,
        {
            let pr = lst[k];
            proof {
                assert(lsq[k as int] == pr);
                assert(self.has_pair(src, pr.0, pr.1));
                assert(self.pair_valid(src, pr.0, pr.1));
            }
            let forced = if prob > 0 {
                let draw = rand_below(WEIGHT_UNIT as u128);
                draw < prob as u128
            } else {
                false
            };
            let ghost is_nat = self.natural_pair(pr, target);
            let natural = match target {
                Some(d) => {
                    let wk = self.get_walk(pr.0);
                    let wlen = wk.len();
                    if pr.1 + 1 < wlen {
                        wk.get_node(pr.1 + 1) == d
                    } else {
                        false
                    }
                },
                None => false,
            };
            proof {
                assert(natural == is_nat);
            }
            if forced || natural {
                let ghost r0 = r@;
                r.push(pr);
                proof {
                    assert(r@ == r0.push(pr));
                    assert forall|i: int| 0 <= i < r@.len()
                        implies exists|j: int| 0 <= j < k + 1
                            && #[trigger] r@[i] == lsq[j] by {
                        if i < r0.len() {
                            assert(r@[i] == r0[i]);
                            let j = choose|j: int| 0 <= j < k && r0[i] == lsq[j];
                            assert(r@[i] == lsq[j]);
                        } else {
                            assert(r@[i] == lsq[k as int]);
                        }
                    }
                    let nk = pair_keys(r@);
                    let k0 = pair_keys(r0);
                    assert forall|a: int, b: int|
                        0 <= a < nk.len() && 0 <= b < nk.len() && a != b
                        implies nk[a] != nk[b] by {
                        let rl = r0.len() as int;
                        if a < rl && b < rl {
                            assert(nk[a] == k0[a]);
                            assert(nk[b] == k0[b]);
                        } else {
                            let c = if a == rl { b } else { a };
                            assert(nk[if a == rl { a } else { b }] == pr.0);
                            assert(nk[c] == r0[c].0);
                            let j = choose|j: int| 0 <= j < k && r0[c] == lsq[j];
                            assert(pair_keys(lsq)[j] == lsq[j].0);
                            assert(pair_keys(lsq)[k as int] == pr.0);
                            if lsq[j].0 == pr.0 {
                                assert(pair_keys(lsq)[j] == pair_keys(lsq)[k as int]);
                                assert(j != k as int);
                                assert(false);
                            }
                        }
                    }
                    if prob == 0 {
                        assert(!forced);
                        assert(natural);
                        assert forall|i: int| 0 <= i < r@.len()
                            implies self.natural_pair(#[trigger] r@[i], target) by {
                            if i < r0.len() {
                                assert(r@[i] == r0[i]);
                            } else {
                                assert(r@[i] == pr);
                            }
                        }
                    }
                    assert forall|j: int| 0 <= j < k + 1
                        && self.natural_pair(#[trigger] lsq[j], target)
                        implies r@.contains(lsq[j]) by {
                        if j < k {
                            assert(r0.contains(lsq[j]));
                            let i = choose|i: int| 0 <= i < r0.len() && r0[i] == lsq[j];
                            assert(r@[i] == lsq[j]);
                        } else {
                            assert(r@[r0.len() as int] == pr);
                        }
                    }
                }
            } else {
                proof {
                    if self.natural_pair(pr, target) {
                        assert(natural);
                        assert(false);
                    }
                }
            }
            k = k + 1;
        }
        proof {
            assert forall|pr: (WalkId, usize)|
                #[trigger] self.has_pair(src, pr.0, pr.1)
                && self.natural_pair(pr, target)
                implies r@.contains(pr) by {
                let j = choose|j: int| 0 <= j < self.visits@[src]@.len()
                    && #[trigger] self.visits@[src]@[j] == pr;
                assert(lsq[j] == pr);
            }
        }
        r
    }
}

/// Remove the at most one pair keyed by `id` from a first-visit list.
fn remove_walk_pair(lst: &mut Vec<(WalkId, usize)>, id: WalkId)
    requires
        pair_keys(old(lst)@).no_duplicates(),
    ensures
        pair_keys(final(lst)@).no_duplicates(),
        forall|pr: (WalkId, usize)| #[trigger] final(lst)@.contains(pr)
            == (old(lst)@.contains(pr) && pr.0 != id),
{
    let n = lst.len();
    let mut i: usize = 0;
    while i < n
        invariant
            n == lst@.len(),
            i <= n,
            lst@ == old(lst)@,
            pair_keys(old(lst)@).no_duplicates(),
            forall|j: int| 0 <= j < i ==> (#[trigger] lst@[j]).0 != id,
        decreases n - i,
    {
        if lst[i].0 == id {
            let ghost pre = lst@;
            let ghost keys = pair_keys(pre);
            lst.remove(i);
            proof {
                let ii = i as int;
                assert(pre == old(lst)@);
                assert(keys.no_duplicates());
                assert(lst@ =~= pre.remove(ii));
                let nk = pair_keys(lst@);
                assert forall|a: int, b: int|
                    0 <= a < nk.len() && 0 <= b < nk.len() && a != b
                    implies nk[a] != nk[b] by {
                    let a0 = if a < ii { a } else { a + 1 };
                    let b0 = if b < ii { b } else { b + 1 };
                    assert(lst@[a] == pre[a0]);
                    assert(lst@[b] == pre[b0]);
                    assert(nk[a] == lst@[a].0);
                    assert(nk[b] == lst@[b].0);
                    assert(keys[a0] == pre[a0].0);
                    assert(keys[b0] == pre[b0].0);
                    assert(keys[a0] != keys[b0]);
                }
                assert forall|pr: (WalkId, usize)| #[trigger] lst@.contains(pr)
                    == (pre.contains(pr) && pr.0 != id) by {
                    if lst@.contains(pr) {
                        let j = choose|j: int| 0 <= j < lst@.len() && lst@[j] == pr;
                        let j0 = if j < ii { j } else { j + 1 };
                        assert(pre[j0] == pr);
                        assert(pre.contains(pr));
                        if pr.0 == id {
                            assert(keys[j0] == pre[j0].0);
                            assert(keys[j0] == id);
                            assert(keys[ii] == pre[ii].0);
                            assert(keys[ii] == id);
                            assert(j0 != ii);
                            assert(keys[j0] != keys[ii]);
                            assert(false);
                        }
                    }
                    if pre.contains(pr) && pr.0 != id {
                        let j0 = choose|j0: int| 0 <= j0 < pre.len() && pre[j0] == pr;
                        assert(j0 != ii);
                        let j = if j0 < ii { j0 } else { j0 - 1 };
                        assert(lst@[j] == pr);
                        assert(lst@.contains(pr));
                    }
                }
            }
            return;
        }
        i = i + 1;
    }
    proof {
        assert forall|pr: (WalkId, usize)| #[trigger] lst@.contains(pr)
            == (old(lst)@.contains(pr) && pr.0 != id) by {
            if lst@.contains(pr) && pr.0 == id {
                let j = choose|j: int| 0 <= j < lst@.len() && lst@[j] == pr;
                assert(false);
            }
        }
    }
}

} // verus!
