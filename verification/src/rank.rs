//! The rank engine: walks, per-ego hit counters and negative-penalty tables,
//! kept consistent while edges are added, removed or re-signed.

use vstd::prelude::*;
use crate::assoc::AssocMap;
use crate::counter::Counter;
use crate::types::{NodeId, WalkId, Weight, Score, WEIGHT_UNIT, EPSILON, DEFAULT_ALPHA,
    MAX_WEIGHT, MAX_WALK_LEN, MAX_WALKS, OPTIMIZE_INVALIDATION};
use crate::walk::RandomWalk;
use crate::penalty::{acc_val, spec_penalties, PEN_LIMIT};
use crate::tset::{set_usize_new, set_usize_insert, set_usize_to_vec, set_usize_elems};

verus! {

/// Whether one walk slot counts a hit of `t` from the viewpoint of `e`.
pub open spec fn walk_hits(w: Seq<NodeId>, e: NodeId, t: NodeId) -> int {
    if w.len() > 0 && w[0] == e && w.contains(t) {
        1
    } else {
        0
    }
}

/// Number of walks from `e` that visit `t` at least once.
pub open spec fn hits_count(ws: Seq<Seq<NodeId>>, e: NodeId, t: NodeId) -> int
    decreases ws.len(),
{
    if ws.len() == 0 {
        0
    } else {
        hits_count(ws.drop_last(), e, t) + walk_hits(ws.last(), e, t)
    }
}

pub proof fn lemma_hits_bounds(ws: Seq<Seq<NodeId>>, e: NodeId, t: NodeId)
    ensures
        0 <= hits_count(ws, e, t) <= ws.len(),
    decreases ws.len(),
{
    if ws.len() > 0 {
        lemma_hits_bounds(ws.drop_last(), e, t);
    }
}

pub proof fn lemma_hits_push(ws: Seq<Seq<NodeId>>, w: Seq<NodeId>, e: NodeId, t: NodeId)
    ensures
        hits_count(ws.push(w), e, t) == hits_count(ws, e, t) + walk_hits(w, e, t),
{
    assert(ws.push(w).drop_last() =~= ws);
    assert(ws.push(w).last() == w);
}

pub proof fn lemma_hits_update(ws: Seq<Seq<NodeId>>, i: int, w: Seq<NodeId>, e: NodeId,
    t: NodeId)
    requires
        0 <= i < ws.len(),
    ensures
        hits_count(ws.update(i, w), e, t)
            == hits_count(ws, e, t) - walk_hits(ws[i], e, t) + walk_hits(w, e, t),
    decreases ws.len(),
{
    if i == ws.len() - 1 {
        assert(ws.update(i, w).drop_last() =~= ws.drop_last());
        assert(ws.update(i, w).last() == w);
    } else {
        assert(ws.update(i, w).drop_last() =~= ws.drop_last().update(i, w));
        assert(ws.update(i, w).last() == ws.last());
        lemma_hits_update(ws.drop_last(), i, w, e, t);
    }
}

/// A walk slot's own contribution never exceeds the count.
pub proof fn lemma_hits_elem(ws: Seq<Seq<NodeId>>, i: int, e: NodeId, t: NodeId)
    requires
        0 <= i < ws.len(),
    ensures
        hits_count(ws, e, t) >= walk_hits(ws[i], e, t),
    decreases ws.len(),
{
    if i == ws.len() - 1 {
        lemma_hits_bounds(ws.drop_last(), e, t);
    } else {
        lemma_hits_elem(ws.drop_last(), i, e, t);
        assert(ws.drop_last()[i] == ws[i]);
        assert(walk_hits(ws.last(), e, t) >= 0);
    }
}

/// When two arenas agree pointwise on the contributions for `(e, t)`, the
/// counts agree.
pub proof fn lemma_hits_pointwise(ws1: Seq<Seq<NodeId>>, ws2: Seq<Seq<NodeId>>,
    e: NodeId, t: NodeId)
    requires
        ws1.len() == ws2.len(),
        forall|i: int| 0 <= i < ws1.len()
            ==> walk_hits(#[trigger] ws1[i], e, t) == walk_hits(ws2[i], e, t),
    ensures
        hits_count(ws1, e, t) == hits_count(ws2, e, t),
    decreases ws1.len(),
{
    if ws1.len() > 0 {
        assert forall|i: int| 0 <= i < ws1.drop_last().len()
            implies walk_hits(#[trigger] ws1.drop_last()[i], e, t)
                == walk_hits(ws2.drop_last()[i], e, t) by {
            assert(ws1.drop_last()[i] == ws1[i]);
            assert(ws2.drop_last()[i] == ws2[i]);
        }
        lemma_hits_pointwise(ws1.drop_last(), ws2.drop_last(), e, t);
        assert(walk_hits(ws1.last(), e, t) == walk_hits(ws2.last(), e, t));
    }
}

/// When no slot contributes for `(e, t)`, the count is zero.
pub proof fn lemma_hits_zero(ws: Seq<Seq<NodeId>>, e: NodeId, t: NodeId)
    requires
        forall|i: int| 0 <= i < ws.len() ==> walk_hits(#[trigger] ws[i], e, t) == 0,
    ensures
        hits_count(ws, e, t) == 0,
    decreases ws.len(),
{
    if ws.len() > 0 {
        assert forall|i: int| 0 <= i < ws.drop_last().len()
            implies walk_hits(#[trigger] ws.drop_last()[i], e, t) == 0 by {
            assert(ws.drop_last()[i] == ws[i]);
        }
        lemma_hits_zero(ws.drop_last(), e, t);
    }
}

/// Addition on `i128` clamped at the ends of the range.
pub open spec fn spec_sat_add(a: int, b: int) -> int {
    if a + b > i128::MAX as int {
        i128::MAX as int
    } else if a + b < i128::MIN as int {
        i128::MIN as int
    } else {
        a + b
    }
}

pub fn sat_add_i128(a: i128, b: i128) -> (r: i128)
    ensures
        r as int == spec_sat_add(a as int, b as int),
{
    if b >= 0 {
        if a > i128::MAX - b {
            i128::MAX
        } else {
            a + b
        }
    } else {
        if a < i128::MIN - b {
            i128::MIN
        } else {
            a + b
        }
    }
}

/// The cell of `t` in one penalty table, zero when absent.
pub open spec fn pen_cell(m: AssocMap<i128>, t: NodeId) -> int {
    if m@.contains_key(t) {
        m@[t] as int
    } else {
        0
    }
}

/// The penalty cell of `t` under `e`, zero when absent.
pub open spec fn nh_val(nh: Map<usize, AssocMap<i128>>, e: NodeId, t: NodeId) -> int {
    if nh.contains_key(e) && nh[e]@.contains_key(t) {
        nh[e]@[t] as int
    } else {
        0
    }
}

/// Every inner penalty table is well formed.
pub open spec fn nh_wf(nh: AssocMap<AssocMap<i128>>) -> bool {
    &&& nh.wf()
    &&& forall|e: NodeId| #[trigger] nh@.contains_key(e) ==> nh@[e].wf()
}

/// The hit count of `t` under ego `e`, zero when `e` has no counter.
pub open spec fn ph_cell(ph: Map<usize, Counter>, e: NodeId, t: NodeId) -> int {
    if ph.contains_key(e) {
        ph[e].count_of(t) as int
    } else {
        0
    }
}

/// Sum of a sequence of weights.
pub open spec fn total_weight(ws: Seq<i64>) -> int
    decreases ws.len(),
{
    if ws.len() == 0 {
        0
    } else {
        total_weight(ws.drop_last()) + ws.last()
    }
}

pub proof fn lemma_total_weight_push(ws: Seq<i64>, w: i64)
    ensures
        total_weight(ws.push(w)) == total_weight(ws) + w,
{
    assert(ws.push(w).drop_last() =~= ws);
    assert(ws.push(w).last() == w);
}

/// Every step of the walk follows a positive edge of the graph.
pub open spec fn walk_follows_edges<D: Copy>(g: crate::graph::Graph<D>, w: Seq<NodeId>)
    -> bool {
    forall|k: int| 1 <= k < w.len()
        ==> g.pos_map(w[k - 1]).contains_key(#[trigger] w[k])
}

/// The walk in slot `w` of `new_ws` is the walk of `old_ws` cut right after
/// position `p`, and any regrown tail steps out of `src` and then along
/// positive edges of `g`.
pub open spec fn cut_and_regrown<D: Copy>(g: crate::graph::Graph<D>,
    old_ws: Seq<Seq<NodeId>>, new_ws: Seq<Seq<NodeId>>, src: NodeId, w: WalkId,
    p: usize) -> bool {
    let oldw = old_ws[w as int];
    let neww = new_ws[w as int];
    &&& neww.take(p + 1) == oldw.take(p + 1)
    &&& (neww.len() > p + 1 ==> g.pos_map(src).contains_key(neww[p + 1]))
    &&& forall|k: int| p + 2 <= k < neww.len()
        ==> g.pos_map(neww[k - 1]).contains_key(#[trigger] neww[k])
}

/// The value of the ego's cell for `t` after folding, over the listed walk
/// visits from index `k` on, the penalty projection of `negs` for every walk
/// that starts at `src`: added, or subtracted when `subtract` is set.
pub open spec fn fold_edge_penalties(cell: int, ws: Seq<Seq<NodeId>>,
    lst: Seq<(WalkId, usize)>, k: int, src: NodeId, negs: Map<usize, i64>,
    alpha: int, subtract: bool, t: NodeId) -> int
    decreases lst.len() - k when k >= 0
{
    if k < 0 || k >= lst.len() {
        cell
    } else {
        let w = lst[k].0;
        let cell2 = if (w as int) < ws.len() && ws[w as int].len() > 0
            && ws[w as int][0] == src {
            spec_sat_add(cell, (if subtract { -1int } else { 1int })
                * acc_val(spec_penalties(ws[w as int], negs, alpha), t))
        } else {
            cell
        };
        fold_edge_penalties(cell2, ws, lst, k + 1, src, negs, alpha, subtract, t)
    }
}

/// `t` occurs in the walk at or after `pos` but not before `pos`.
pub open spec fn suffix_only(w: Seq<NodeId>, pos: int, t: NodeId) -> bool {
    w.skip(pos).contains(t) && !w.take(pos).contains(t)
}

pub proof fn lemma_contains_split(w: Seq<NodeId>, pos: int, t: NodeId)
    requires
        0 <= pos <= w.len(),
    ensures
        w.contains(t) == (w.take(pos).contains(t) || w.skip(pos).contains(t)),
{
    if w.contains(t) {
        let i = choose|i: int| 0 <= i < w.len() && w[i] == t;
        if i < pos {
            assert(w.take(pos)[i] == t);
        } else {
            assert(w.skip(pos)[i - pos] == t);
        }
    }
    if w.take(pos).contains(t) {
        let i = choose|i: int| 0 <= i < pos && w.take(pos)[i] == t;
        assert(w[i] == t);
    }
    if w.skip(pos).contains(t) {
        let i = choose|i: int| 0 <= i < w.len() - pos && w.skip(pos)[i] == t;
        assert(w[i + pos] == t);
    }
}

/// Fold the penalty projection of `walk` into the table of the walk's own
/// ego, adding it, or subtracting it to revert an earlier addition. Walks
/// that never meet a key of `negs` leave the table unchanged.
pub fn update_negative_hits(neg_hits: &mut AssocMap<AssocMap<i128>>, walk: &RandomWalk,
    negs: &AssocMap<i64>, subtract: bool, alpha: i64)
    requires
        nh_wf(*old(neg_hits)),
        negs.wf(),
        forall|t: NodeId| #[trigger] negs@.contains_key(t)
            ==> -MAX_WEIGHT <= negs@[t] < 0,
        0 < alpha <= WEIGHT_UNIT,
        walk@.len() > 0,
        walk@.len() <= MAX_WALK_LEN,
    ensures
        nh_wf(*final(neg_hits)),
        (exists|n: NodeId| #[trigger] negs@.contains_key(n) && walk@.contains(n))
            ==> {
            let ego = walk@[0];
            let pen = spec_penalties(walk@, negs@, alpha as int);
            let sgn: int = if subtract { -1 } else { 1 };
            &&& forall|e: NodeId| e != ego
                ==> (final(neg_hits)@.contains_key(e) == old(neg_hits)@.contains_key(e))
                    && (old(neg_hits)@.contains_key(e)
                        ==> final(neg_hits)@[e] == old(neg_hits)@[e])
            &&& forall|t: NodeId| nh_val(final(neg_hits)@, ego, t)
                == spec_sat_add(nh_val(old(neg_hits)@, ego, t),
                    sgn * acc_val(pen, t))
        },
        !(exists|n: NodeId| #[trigger] negs@.contains_key(n) && walk@.contains(n))
            ==> *final(neg_hits) == *old(neg_hits),
{
    let keys = negs.keys();
    if !walk.intersects_nodes(&keys) {
        proof {
            if exists|n: NodeId| #[trigger] negs@.contains_key(n) && walk@.contains(n) {
                let n = choose|n: NodeId| #[trigger] negs@.contains_key(n)
                    && walk@.contains(n);
                assert(keys@.contains(n));
            }
        }
        return;
    }
    proof {
        let n = choose|n: NodeId| #[trigger] keys@.contains(n) && walk@.contains(n);
        assert(negs@.contains_key(n));
    }
    let pens = walk.calculate_penalties(negs, alpha);
    let ego = walk.get_node(0);
    let mut emap = match neg_hits.take(ego) {
        Some(m) => m,
        None => AssocMap::new(),
    };
    let ghost emap0 = emap;
    let ghost pen = spec_penalties(walk@, negs@, alpha as int);
    let ghost sgn: int = if subtract { -1 } else { 1 };
    let m = pens.pairs.len();
    let mut k: usize = 0;
    while k < m
        invariant
            m == pens.pairs@.len(),
            k <= m,
            pens.wf(),
            emap.wf(),
            sgn == if subtract { -1int } else { 1int },
            crate::penalty::acc_view(pens) == pen,
            forall|t: NodeId| #[trigger] pens@.contains_key(t)
                ==> -PEN_LIMIT <= pens@[t] <= 0,
            forall|t: NodeId| #[trigger] pen_cell(emap, t)
                == if exists|j: int| 0 <= j < k && (#[trigger] pens.pairs@[j]).0 == t {
                    spec_sat_add(pen_cell(emap0, t), sgn * acc_val(pen, t))
                } else {
                    pen_cell(emap0, t)
                },
        decreases m - k,
    {
        let pr = pens.pairs[k];
        let t = pr.0;
        let p: i128 = pr.1;
        proof {
            pens.lemma_key_at(k as int);
            assert(pens@.contains_key(t));
            assert(pens@[t] == p);
            assert(acc_val(pen, t) == p as int);
            assert forall|j: int| 0 <= j < k
                implies (#[trigger] pens.pairs@[j]).0 != t by {
                if pens.pairs@[j].0 == t {
                    pens.lemma_key_at(j);
                }
            }
        }
        let adjusted: i128 = if subtract {
            -p
        } else {
            p
        };
        let ghost pre_emap = emap;
        let cur: i128 = match emap.get(t) {
            Some(v) => *v,
            None => 0,
        };
        emap.insert(t, sat_add_i128(cur, adjusted));
        proof {
            assert(!(exists|j: int| 0 <= j < k && (#[trigger] pens.pairs@[j]).0 == t));
            assert(pen_cell(pre_emap, t) == pen_cell(emap0, t));
            assert(cur as int == pen_cell(pre_emap, t));
            if subtract {
                assert(sgn * acc_val(pen, t) == -acc_val(pen, t)) by (nonlinear_arith)
                    requires
                        sgn == -1,
                ;
            } else {
                assert(sgn * acc_val(pen, t) == acc_val(pen, t)) by (nonlinear_arith)
                    requires
                        sgn == 1,
                ;
            }
            assert(adjusted as int == sgn * acc_val(pen, t));
            assert(pen_cell(emap, t) == spec_sat_add(pen_cell(emap0, t),
                sgn * acc_val(pen, t)));
            assert forall|t2: NodeId| t2 != t
                implies #[trigger] pen_cell(emap, t2) == pen_cell(pre_emap, t2) by {
            }
            assert forall|t2: NodeId| #[trigger] pen_cell(emap, t2)
                == if exists|j: int| 0 <= j < k + 1
                    && (#[trigger] pens.pairs@[j]).0 == t2 {
                    spec_sat_add(pen_cell(emap0, t2), sgn * acc_val(pen, t2))
                } else {
                    pen_cell(emap0, t2)
                } by {
                if t2 == t {
                    assert(pens.pairs@[k as int].0 == t2);
                } else {
                    if exists|j: int| 0 <= j < k + 1
                        && (#[trigger] pens.pairs@[j]).0 == t2 {
                        let j = choose|j: int| 0 <= j < k + 1
                            && (#[trigger] pens.pairs@[j]).0 == t2;
                        assert(j < k);
                        assert(exists|j2: int| 0 <= j2 < k
                            && (#[trigger] pens.pairs@[j2]).0 == t2);
                    }
                }
            }
        }
        k = k + 1;
    }
    neg_hits.insert(ego, emap);
    proof {
        assert forall|t: NodeId| nh_val(neg_hits@, ego, t)
            == spec_sat_add(nh_val(old(neg_hits)@, ego, t), sgn * acc_val(pen, t)) by {
            assert(nh_val(neg_hits@, ego, t) == pen_cell(emap, t));
            assert(nh_val(old(neg_hits)@, ego, t) == pen_cell(emap0, t));
            if pens@.contains_key(t) {
                pens.lemma_contains_at(t);
                let j = pens.key_seq().index_of(t);
                assert(pens.pairs@[j].0 == t);
                assert(exists|j2: int| 0 <= j2 < m
                    && (#[trigger] pens.pairs@[j2]).0 == t);
            } else {
                assert(acc_val(pen, t) == 0) by {
                    assert(!crate::penalty::acc_view(pens).contains_key(t));
                }
                if exists|j: int| 0 <= j < m
                    && (#[trigger] pens.pairs@[j]).0 == t {
                    let j = choose|j: int| 0 <= j < m
                        && (#[trigger] pens.pairs@[j]).0 == t;
                    pens.lemma_key_at(j);
                }
            }
        }
    }
}

/// Take back, from the counter of the walk's ego, one hit for every node that
/// occurs in `walk` at or after `pos` but not before `pos`.
pub fn revert_counters_for_walk_from_pos(personal_hits: &mut AssocMap<Counter>,
    walk: &RandomWalk, pos: usize)
    requires
        old(personal_hits).wf(),
        forall|e: NodeId| #[trigger] old(personal_hits)@.contains_key(e)
            ==> old(personal_hits)@[e].wf(),
        walk@.len() > 0,
        pos <= walk@.len(),
    ensures
        final(personal_hits).wf(),
        forall|e: NodeId| #[trigger] final(personal_hits)@.contains_key(e)
            ==> final(personal_hits)@[e].wf(),
        forall|e: NodeId| final(personal_hits)@.contains_key(e)
            == (old(personal_hits)@.contains_key(e) || e == walk@[0]),
        forall|e: NodeId| e != walk@[0] && old(personal_hits)@.contains_key(e)
            ==> final(personal_hits)@[e] == old(personal_hits)@[e],
        forall|t: NodeId| #[trigger] ph_cell(final(personal_hits)@, walk@[0], t)
            == if suffix_only(walk@, pos as int, t) {
                if ph_cell(old(personal_hits)@, walk@[0], t) >= 1 {
                    ph_cell(old(personal_hits)@, walk@[0], t) - 1
                } else {
                    0
                }
            } else {
                ph_cell(old(personal_hits)@, walk@[0], t)
            },
{
    let ego = walk.get_node(0);
    let mut counter = match personal_hits.take(ego) {
        Some(c) => c,
        None => Counter::new(),
    };
    let ghost c_start = counter;
    // gather the distinct nodes of the suffix that are absent from the prefix
    let mut to_remove = set_usize_new();
    let wl = walk.len();
    let mut p: usize = pos;
    while p < wl
        invariant
            wl == walk@.len(),
            pos <= p <= wl,
            forall|t: NodeId| set_usize_elems(to_remove).contains(t)
                == (walk@.subrange(pos as int, p as int).contains(t)
                    && !walk@.take(pos as int).contains(t)),
        decreases wl - p,
    {
        let node = walk.get_node(p);
        let mut in_prefix = false;
        let mut j: usize = 0;
        while j < pos
            invariant
                j <= pos,
                pos <= wl,
                wl == walk@.len(),
                node == walk@[p as int],
                p < wl,
                in_prefix == walk@.take(pos as int).take(j as int).contains(node),
            decreases pos - j,
        {
            if walk.get_node(j) == node {
                in_prefix = true;
            }
            j = j + 1;
            proof {
                let tk = walk@.take(pos as int).take(j as int);
                assert(tk.drop_last() =~= walk@.take(pos as int).take(j as int - 1));
                assert(tk.last() == walk@[j as int - 1]);
                if tk.contains(node) {
                    let w = choose|w: int| 0 <= w < j && #[trigger] tk[w] == node;
                    if w < j - 1 {
                        assert(walk@.take(pos as int).take(j as int - 1)[w] == node);
                    }
                }
                if walk@.take(pos as int).take(j as int - 1).contains(node) {
                    let w = choose|w: int| 0 <= w < j - 1
                        && #[trigger] walk@.take(pos as int).take(j as int - 1)[w]
                            == node;
                    assert(tk[w] == node);
                }
            }
        }
        proof {
            assert(walk@.take(pos as int).take(pos as int) =~= walk@.take(pos as int));
            assert(in_prefix == walk@.take(pos as int).contains(node));
        }
        if !in_prefix {
            let _ = set_usize_insert(&mut to_remove, node);
        }
        proof {
            let sub1 = walk@.subrange(pos as int, p as int + 1);
            let sub0 = walk@.subrange(pos as int, p as int);
            assert(sub1.drop_last() =~= sub0);
            assert(sub1.last() == node);
            assert forall|t: NodeId| #[trigger] sub1.contains(t)
                == (sub0.contains(t) || t == node) by {
                if sub1.contains(t) {
                    let w = choose|w: int| 0 <= w < sub1.len() && #[trigger] sub1[w] == t;
                    if w < sub1.len() - 1 {
                        assert(sub0[w] == t);
                    }
                }
                if sub0.contains(t) {
                    let w = choose|w: int| 0 <= w < sub0.len() && #[trigger] sub0[w] == t;
                    assert(sub1[w] == t);
                }
                if t == node {
                    assert(sub1[sub1.len() - 1] == t);
                }
            }
        }
        p = p + 1;
    }
    proof {
        assert(walk@.subrange(pos as int, wl as int) =~= walk@.skip(pos as int));
    }
    let nodes = set_usize_to_vec(&to_remove);
    let nn = nodes.len();
    let mut k: usize = 0;
    while k < nn
        invariant
            nn == nodes@.len(),
            k <= nn,
            counter.wf(),
            nodes@.no_duplicates(),
            forall|t: NodeId| nodes@.contains(t) == suffix_only(walk@, pos as int, t),
            forall|t: NodeId| counter.count_of(t) == {
                let c0 = c_start.count_of(t);
                if exists|j: int| 0 <= j < k && #[trigger] nodes@[j] == t {
                    if c0 >= 1 { (c0 - 1) as u64 } else { 0u64 }
                } else {
                    c0
                }
            },
        decreases nn - k,
    {
        let node = nodes[k];
        proof {
            assert forall|j: int| 0 <= j < k implies #[trigger] nodes@[j] != node by {
            }
        }
        counter.decrement_count_saturating(node);
        proof {
            assert forall|t: NodeId| true implies counter.count_of(t) == {
                let c0 = c_start.count_of(t);
                if exists|j: int| 0 <= j < k + 1 && #[trigger] nodes@[j] == t {
                    if c0 >= 1 { (c0 - 1) as u64 } else { 0u64 }
                } else {
                    c0
                }
            } by {
                if t == node {
                    assert(nodes@[k as int] == t);
                } else {
                    if exists|j: int| 0 <= j < k + 1 && #[trigger] nodes@[j] == t {
                        let j = choose|j: int| 0 <= j < k + 1 && #[trigger] nodes@[j] == t;
                        assert(j < k);
                    }
                }
            }
        }
        k = k + 1;
    }
    personal_hits.insert(ego, counter);
    proof {
        assert forall|t: NodeId| #[trigger] ph_cell(personal_hits@, walk@[0], t)
            == if suffix_only(walk@, pos as int, t) {
                if ph_cell(old(personal_hits)@, walk@[0], t) >= 1 {
                    ph_cell(old(personal_hits)@, walk@[0], t) - 1
                } else {
                    0
                }
            } else {
                ph_cell(old(personal_hits)@, walk@[0], t)
            } by {
            if suffix_only(walk@, pos as int, t) {
                assert(nodes@.contains(t));
                let j = choose|j: int| 0 <= j < nn && #[trigger] nodes@[j] == t;
            } else {
                if exists|j: int| 0 <= j < nn && #[trigger] nodes@[j] == t {
                    let j = choose|j: int| 0 <= j < nn && #[trigger] nodes@[j] == t;
                    assert(nodes@.contains(t));
                }
            }
        }
    }
}

} // verus!

use crate::errors::MeritRankError;
use crate::graph::Graph;
use crate::storage::WalkStorage;
use crate::rng::{rand_below, xorshift_from_seed, xorshift_read_u64};
use crate::counter::{distinct_count, lemma_sum_le_bound, sum_counts};

verus! {

/// Which out-edges of a node to enumerate.
#[derive(PartialEq, Eq, Structural)]
pub enum Neighbors {
    All,
    Positive,
    Negative,
}

/// Largest penalty magnitude that enters a score.
pub const SCORE_CAP: i128 = PEN_LIMIT * 100_000_000;

/// Clamp an accumulated penalty to the range that enters a score.
pub open spec fn clamp_pen(p: int) -> int {
    if p > SCORE_CAP {
        SCORE_CAP as int
    } else if p < -(SCORE_CAP as int) {
        -(SCORE_CAP as int)
    } else {
        p
    }
}

/// The incremental walk engine over a signed weighted graph.
pub struct MeritRank<D> {
    pub graph: Graph<D>,
    pub walks: WalkStorage,
    pub personal_hits: AssocMap<Counter>,
    pub neg_hits: AssocMap<AssocMap<i128>>,
    pub alpha: i64,
    pub rng: random::Xorshift128Plus,
}

impl<D: Copy + core::default::Default> MeritRank<D> {
    /// Every counter cell equals the number of walks of its ego that hit the
    /// target.
    pub open spec fn counters_ok(self) -> bool {
        forall|e: NodeId, t: NodeId| self.personal_hits@.contains_key(e)
            ==> #[trigger] self.personal_hits@[e].count_of(t) as int
                == hits_count(self.walks.wseq(), e, t)
    }

    /// Every nonempty walk's ego owns a counter.
    pub open spec fn egos_tracked(self) -> bool {
        forall|w: int| 0 <= w < self.walks.wseq().len()
            && (#[trigger] self.walks.wseq()[w]).len() > 0
            ==> self.personal_hits@.contains_key(self.walks.wseq()[w][0])
    }

    pub open spec fn wf(self) -> bool {
        &&& self.graph.wf()
        &&& self.walks.wf()
        &&& self.egos_tracked()
        &&& self.personal_hits.wf()
        &&& forall|e: NodeId| #[trigger] self.personal_hits@.contains_key(e)
            ==> self.personal_hits@[e].wf()
        &&& nh_wf(self.neg_hits)
        &&& 0 < self.alpha <= WEIGHT_UNIT
        &&& self.counters_ok()
    }

    /// Build an engine over `graph`. The graph representation cannot hold a
    /// self-loop, so this never fails.
    pub fn new(graph: Graph<D>) -> (r: Result<Self, MeritRankError>)
        requires
            graph.wf(),
        ensures
            match r {
                Ok(mr) => mr.wf() && mr.graph == graph && mr.alpha == DEFAULT_ALPHA
                    && mr.personal_hits@ == Map::<usize, Counter>::empty()
                    && mr.neg_hits@ == Map::<usize, AssocMap<i128>>::empty()
                    && mr.walks.wseq() == Seq::<Seq<NodeId>>::empty(),
                Err(_) => false,
            },
    {
        if let Err(err) = graph.check_self_reference() {
            return Err(err);
        }
        let seed_lo = rand_below(18_446_744_073_709_551_616u128);
        Ok(MeritRank {
            graph,
            walks: WalkStorage::new(),
            personal_hits: AssocMap::new(),
            neg_hits: AssocMap::new(),
            alpha: DEFAULT_ALPHA,
            rng: xorshift_from_seed(seed_lo as u64),
        })
    }

    /// Create `node` with payload `data`, or overwrite the payload of an
    /// existing node.
    pub fn add_node(&mut self, node: NodeId, data: D)
        requires
            old(self).wf(),
        ensures
            final(self).wf(),
            final(self).graph.has_node(node),
            final(self).graph.data_of(node) == data,
            forall|m: NodeId| m != node ==> final(self).graph.nodes@.contains_key(m)
                == old(self).graph.nodes@.contains_key(m),
            final(self).walks == old(self).walks,
            final(self).personal_hits == old(self).personal_hits,
            final(self).neg_hits == old(self).neg_hits,
    {
        self.graph.add_node(node, data);
    }

    pub fn get_node_data(&self, node: NodeId) -> (r: Result<D, MeritRankError>)
        requires
            self.wf(),
        ensures
            match r {
                Ok(d) => self.graph.has_node(node) && d == self.graph.data_of(node),
                Err(e) => e == MeritRankError::NodeDoesNotExist
                    && !self.graph.has_node(node),
            },
    {
        match self.graph.get_node_data(node) {
            Some(d) => Ok(d),
            None => Err(MeritRankError::NodeDoesNotExist),
        }
    }

    /// The weight of the edge from `src` to `dest`, `None` when absent.
    pub fn get_edge(&self, src: NodeId, dest: NodeId) -> (r: Option<Weight>)
        requires
            self.wf(),
        ensures
            r == self.graph.edge_weight_of(src, dest),
    {
        self.graph.edge_weight(src, dest)
    }

    pub fn get_personal_hits(&self) -> (r: &AssocMap<Counter>)
        ensures
            r == &self.personal_hits,
    {
        &self.personal_hits
    }

    /// The out-neighbors of `node` with their weights, restricted to the
    /// asked sign; `None` when that set is empty.
    pub fn neighbors_weighted(&self, node: NodeId, mode: Neighbors)
        -> (r: Option<AssocMap<Weight>>)
        requires
            self.wf(),
        ensures
            match r {
                Some(m) => m.wf() && m@ == self.neighbors_map(node, mode)
                    && m@ !== Map::<usize, i64>::empty(),
                None => self.neighbors_map(node, mode) == Map::<usize, i64>::empty(),
            },
    {
        let pos_part: Vec<(NodeId, Weight)> = match mode {
            Neighbors::Negative => Vec::new(),
            _ => self.graph.pos_edges_vec(node),
        };
        let take_neg = match mode {
            Neighbors::Positive => false,
            _ => true,
        };
        let mut m = AssocMap { pairs: pos_part };
        proof {
            if self.graph.has_node(node) && !matches!(mode, Neighbors::Negative) {
                assert(m.key_seq() =~= self.graph.nodes@[node].pos_edges.key_seq());
                assert(m@ =~= self.graph.pos_map(node));
            } else {
                assert(m.key_seq() =~= Seq::<usize>::empty());
                assert(m@ =~= Map::<usize, i64>::empty());
            }
        }
        if take_neg {
            let negs = self.graph.neg_edges_map(node);
            let nn = negs.pairs.len();
            let mut k: usize = 0;
            while k < nn
                invariant
                    self.wf(),
                    nn == negs.pairs@.len(),
                    k <= nn,
                    negs.wf(),
                    negs@ == self.graph.neg_map(node),
                    m.wf(),
                    m@ == self.neighbors_map(node, Neighbors::Positive)
                        .union_prefer_right(
                            self.graph.neg_map(node).restrict(
                                negs.key_seq().take(k as int).to_set()))
                        || (matches!(mode, Neighbors::Negative) && m@
                            == self.graph.neg_map(node).restrict(
                                negs.key_seq().take(k as int).to_set())),
                    matches!(mode, Neighbors::Negative) ==> m@
                        == self.graph.neg_map(node).restrict(
                            negs.key_seq().take(k as int).to_set()),
                    !matches!(mode, Neighbors::Negative) ==> m@
                        == self.neighbors_map(node, Neighbors::Positive)
                            .union_prefer_right(self.graph.neg_map(node).restrict(
                                negs.key_seq().take(k as int).to_set())),
                decreases nn - k,
            {
                let pr = negs.pairs[k];
                proof {
                    negs.lemma_key_at(k as int);
                }
                m.insert(pr.0, pr.1);
                proof {
                    let tk1 = negs.key_seq().take(k as int + 1);
                    let tk0 = negs.key_seq().take(k as int);
                    assert forall|x: usize| #[trigger] tk1.to_set().contains(x)
                        == (tk0.to_set().contains(x) || x == pr.0) by {
                        if tk1.to_set().contains(x) {
                            let w = choose|w: int| 0 <= w < tk1.len()
                                && #[trigger] tk1[w] == x;
                            if w < k {
                                assert(tk0[w] == x);
                            }
                        }
                        if tk0.to_set().contains(x) {
                            let w = choose|w: int| 0 <= w < tk0.len()
                                && #[trigger] tk0[w] == x;
                            assert(tk1[w] == x);
                        }
                        if x == pr.0 {
                            assert(tk1[k as int] == x);
                        }
                    }
                    if matches!(mode, Neighbors::Negative) {
                        assert(m@ =~= self.graph.neg_map(node).restrict(
                            tk1.to_set()));
                    } else {
                        assert(m@ =~= self.neighbors_map(node, Neighbors::Positive)
                            .union_prefer_right(self.graph.neg_map(node).restrict(
                                tk1.to_set())));
                    }
                }
                k = k + 1;
            }
            proof {
                assert(negs.key_seq().take(nn as int) =~= negs.key_seq());
                assert forall|x: usize| #[trigger] negs.key_seq().to_set().contains(x)
                    == self.graph.neg_map(node).contains_key(x) by {
                    if negs.key_seq().to_set().contains(x) {
                        let w = choose|w: int| 0 <= w < negs.key_seq().len()
                            && #[trigger] negs.key_seq()[w] == x;
                        negs.lemma_key_at(w);
                    }
                    if negs@.contains_key(x) {
                        negs.lemma_contains_at(x);
                        let j = negs.key_seq().index_of(x);
                        assert(negs.key_seq()[j] == x);
                        assert(negs.key_seq().contains(x));
                    }
                }
                assert(self.graph.neg_map(node).restrict(negs.key_seq().to_set())
                    =~= self.graph.neg_map(node));
                assert(m@ =~= self.neighbors_map(node, mode));
            }
        }
        if m.len() == 0 {
            proof {
                assert(m.key_seq() =~= Seq::<usize>::empty());
                assert(m@ =~= Map::<usize, i64>::empty());
            }
            None
        } else {
            proof {
                m.lemma_key_at(0);
                assert(m@.contains_key(m.pairs@[0].0));
                assert(m@ !== Map::<usize, i64>::empty());
            }
            Some(m)
        }
    }

    /// The map a `neighbors_weighted` call describes.
    pub open spec fn neighbors_map(self, node: NodeId, mode: Neighbors)
        -> Map<usize, i64> {
        match mode {
            Neighbors::Positive => self.graph.pos_map(node),
            Neighbors::Negative => self.graph.neg_map(node),
            Neighbors::All => self.graph.pos_map(node).union_prefer_right(
                self.graph.neg_map(node)),
        }
    }

    /// The score of `target` seen from `ego`: hits plus clamped penalty, per
    /// total hit mass, in fixed point.
    pub open spec fn score_of(self, ego: NodeId, target: NodeId) -> int {
        let c = self.personal_hits@[ego];
        let h = c.count_of(target) as int;
        let p = clamp_pen(nh_val(self.neg_hits@, ego, target));
        let total = c.total as int;
        let num = h * (WEIGHT_UNIT as int) + p;
        if total == 0 {
            0
        } else if num >= 0 {
            num / total
        } else {
            -((-num) / total)
        }
    }

    /// Score of `target` from `ego`'s viewpoint. Fails exactly when no walks
    /// have been calculated for `ego`.
    pub fn get_node_score(&self, ego: NodeId, target: NodeId)
        -> (r: Result<Score, MeritRankError>)
        requires
            self.wf(),
        ensures
            match r {
                Ok(s) => self.personal_hits@.contains_key(ego)
                    && s as int == self.score_of(ego, target),
                Err(e) => e == MeritRankError::NodeIsNotCalculated
                    && !self.personal_hits@.contains_key(ego),
            },
    {
        let counter = match self.personal_hits.get(ego) {
            Some(c) => c,
            None => {
                return Err(MeritRankError::NodeIsNotCalculated);
            },
        };
        let h: u64 = counter.get_count(target);
        let total: u128 = counter.total_count();
        let p_raw: i128 = match self.neg_hits.get(ego) {
            Some(em) => match em.get(target) {
                Some(v) => *v,
                None => 0,
            },
            None => 0,
        };
        let p: i128 = if p_raw > SCORE_CAP {
            SCORE_CAP
        } else if p_raw < -SCORE_CAP {
            -SCORE_CAP
        } else {
            p_raw
        };
        proof {
            assert(p as int == clamp_pen(nh_val(self.neg_hits@, ego, target)));
            // the total is the cell sum, and every cell is a walk count
            assert forall|i: int| 0 <= i < counter.counts.pairs@.len()
                implies (#[trigger] counter.counts.pairs@[i]).1
                    <= MAX_WALKS as u64 by {
                counter.counts.lemma_key_at(i);
                let t2 = counter.counts.pairs@[i].0;
                assert(counter.count_of(t2) == counter.counts.pairs@[i].1);
                lemma_hits_bounds(self.walks.wseq(), ego, t2);
            }
            lemma_sum_le_bound(counter.counts.pairs@, MAX_WALKS as int);
            assert(counter.counts.pairs.len() <= usize::MAX);
            assert(sum_counts(counter.counts.pairs@)
                <= usize::MAX as int * (MAX_WALKS as int)) by (nonlinear_arith)
                requires
                    sum_counts(counter.counts.pairs@)
                        <= counter.counts.pairs@.len() * (MAX_WALKS as int),
                    counter.counts.pairs@.len() <= usize::MAX as int,
            ;
        }
        if total == 0 {
            return Ok(0);
        }
        let tot: i128 = total as i128;
        let num: i128 = (h as i128) * (WEIGHT_UNIT as i128) + p;
        let s: i128 = if num >= 0 {
            num / tot
        } else {
            -((-num) / tot)
        };
        Ok(s)
    }
}

} // verus!

verus! {

/// Index of the pair a uniform draw `r` over the total weight selects, by
/// prefix sums.
fn weighted_pick(pairs: &Vec<(NodeId, Weight)>, r: i128) -> (idx: usize)
    requires
        pairs@.len() > 0,
        forall|i: int| 0 <= i < pairs@.len()
            ==> 0 <= (#[trigger] pairs@[i]).1 <= MAX_WEIGHT,
        0 <= r < crate::graph::sum_weights(pairs@),
        crate::graph::sum_weights(pairs@) <= usize::MAX as int * MAX_WEIGHT,
    ensures
        idx < pairs@.len(),
        pairs@[idx as int].1 > 0,
{
    let n = pairs.len();
    let mut acc: i128 = 0;
    let mut i: usize = 0;
    while i < n
        invariant
            n == pairs@.len(),
            n > 0,
            i <= n,
            forall|j: int| 0 <= j < pairs@.len()
                ==> 0 <= (#[trigger] pairs@[j]).1 <= MAX_WEIGHT,
            0 <= r < crate::graph::sum_weights(pairs@),
            crate::graph::sum_weights(pairs@) <= usize::MAX as int * MAX_WEIGHT,
            acc == crate::graph::sum_weights(pairs@.take(i as int)),
            acc <= r,
        decreases n - i,
    {
        let w = pairs[i].1;
        proof {
            assert(pairs@.take(i as int + 1) =~= pairs@.take(i as int)
                .push(pairs@[i as int]));
            crate::graph::lemma_sum_weights_push(pairs@.take(i as int),
                pairs@[i as int]);
        }
        let acc2: i128 = acc + (w as i128);
        if r < acc2 {
            return i;
        }
        acc = acc2;
        i = i + 1;
    }
    proof {
        assert(pairs@.take(n as int) =~= pairs@);
        assert(false);
    }
    0
}

impl<D: Copy + core::default::Default> MeritRank<D> {
    /// One random walk segment from `start`, stepping to positive neighbors
    /// with probability proportional to their weights, continuing with
    /// probability `alpha` per step, at most `cap` steps long.
    fn walk_segment_capped(&self, start: NodeId, skip_alpha_on_first_step: bool,
        cap: usize) -> (r: Vec<NodeId>)
        requires
            self.graph.wf(),
            0 < self.alpha <= WEIGHT_UNIT,
        ensures
            r@.len() <= cap,
            forall|k: int| 0 <= k < r@.len()
                ==> self.graph.pos_map(if k == 0 { start } else { r@[k - 1] })
                    .contains_key(#[trigger] r@[k]),
            (skip_alpha_on_first_step && cap > 0
                && (exists|t: NodeId| self.graph.pos_map(start).contains_key(t)))
                ==> r@.len() >= 1,
    {
        let mut seg: Vec<NodeId> = Vec::new();
        let mut node = start;
        let mut skip = skip_alpha_on_first_step;
        while seg.len() < cap
            invariant
                self.graph.wf(),
                0 < self.alpha <= WEIGHT_UNIT,
                seg@.len() <= cap,
                node == if seg@.len() == 0 { start } else { seg@[seg@.len() - 1] },
                forall|k: int| 0 <= k < seg@.len()
                    ==> self.graph.pos_map(if k == 0 { start } else { seg@[k - 1] })
                        .contains_key(#[trigger] seg@[k]),
                skip_alpha_on_first_step ==> (seg@.len() >= 1 || skip),
            ensures
                (skip_alpha_on_first_step && cap > 0
                    && (exists|t: NodeId| self.graph.pos_map(start).contains_key(t)))
                    ==> seg@.len() >= 1,
            decreases cap - seg@.len(),
        {
            let pairs = self.graph.pos_edges_vec(node);
            if pairs.len() == 0 {
                proof {
                    if seg@.len() == 0
                        && exists|t: NodeId| self.graph.pos_map(start).contains_key(t) {
                        let t = choose|t: NodeId| self.graph.pos_map(start)
                            .contains_key(t);
                        assert(self.graph.has_node(start));
                        self.graph.nodes@[start].pos_edges.lemma_contains_at(t);
                        assert(false);
                    }
                }
                break;
            }
            proof {
                assert(self.graph.has_node(node));
                assert(crate::graph::entry_wf(node, self.graph.nodes@[node]));
                crate::graph::lemma_pos_bucket_bounds(
                    self.graph.nodes@[node].pos_edges);
            }
            if skip {
                skip = false;
            } else {
                let draw = rand_below(WEIGHT_UNIT as u128);
                if draw >= self.alpha as u128 {
                    break;
                }
            }
            let total = self.graph.pos_weight_sum(node);
            proof {
                crate::graph::lemma_sum_weights_elem(pairs@, 0);
                assert(total > 0);
            }
            let r = rand_below(total as u128);
            let idx = weighted_pick(&pairs, r as i128);
            let next = pairs[idx].0;
            proof {
                self.graph.nodes@[node].pos_edges.lemma_key_at(idx as int);
                assert(self.graph.pos_map(node).contains_key(next));
            }
            seg.push(next);
            node = next;
        }
        seg
    }

    /// One random walk segment from `start`. The walk itself never holds the
    /// ego; the caller prepends it.
    pub fn generate_walk_segment(&self, start: NodeId, skip_alpha_on_first_step: bool)
        -> (r: Result<Vec<NodeId>, MeritRankError>)
        requires
            self.graph.wf(),
            0 < self.alpha <= WEIGHT_UNIT,
        ensures
            match r {
                Ok(seg) => {
                    &&& seg@.len() <= MAX_WALK_LEN - 1
                    &&& forall|k: int| 0 <= k < seg@.len()
                        ==> self.graph.pos_map(if k == 0 { start } else { seg@[k - 1] })
                            .contains_key(#[trigger] seg@[k])
                    // with the damping check skipped, a start node with a
                    // positive neighbor always yields at least one step
                    &&& (skip_alpha_on_first_step
                        && (exists|t: NodeId| self.graph.pos_map(start)
                            .contains_key(t)))
                        ==> seg@.len() >= 1
                },
                Err(_) => false,
            },
    {
        Ok(self.walk_segment_capped(start, skip_alpha_on_first_step,
            MAX_WALK_LEN - 1))
    }

    /// Select one of `values` with probability proportional to its weight.
    /// `None` when the inputs do not describe a weighting: different lengths,
    /// no candidates, or a weight out of `(0, MAX_WEIGHT]`.
    pub fn random_choice(values: &Vec<NodeId>, weights: &Vec<Weight>)
        -> (r: Option<NodeId>)
        ensures
            r.is_some() == (values@.len() == weights@.len() && values@.len() > 0
                && (forall|i: int| 0 <= i < weights@.len()
                    ==> 0 <= (#[trigger] weights@[i]) <= MAX_WEIGHT)
                && total_weight(weights@) > 0),
            match r {
                Some(v) => exists|i: int| 0 <= i < values@.len()
                    && (#[trigger] values@[i]) == v && weights@[i] > 0,
                None => true,
            },
    {
        let n = values.len();
        if n != weights.len() || n == 0 {
            return None;
        }
        let mut pairs: Vec<(NodeId, Weight)> = Vec::new();
        let mut acc: i128 = 0;
        let mut i: usize = 0;
        while i < n
            invariant
                n == values@.len(),
                n == weights@.len(),
                i <= n,
                pairs@.len() == i,
                forall|j: int| 0 <= j < i ==> (#[trigger] pairs@[j])
                    == (values@[j], weights@[j]),
                forall|j: int| 0 <= j < i
                    ==> 0 <= (#[trigger] weights@[j]) <= MAX_WEIGHT,
                acc == crate::graph::sum_weights(pairs@),
                acc == total_weight(weights@.take(i as int)),
                0 <= acc <= i * MAX_WEIGHT,
            decreases n - i,
        {
            let w = weights[i];
            if w < 0 || w > MAX_WEIGHT {
                return None;
            }
            proof {
                assert(i * MAX_WEIGHT + MAX_WEIGHT == (i + 1) * MAX_WEIGHT)
                    by (nonlinear_arith);
                assert((i + 1) * MAX_WEIGHT <= usize::MAX as int * MAX_WEIGHT)
                    by (nonlinear_arith)
                    requires
                        i + 1 <= usize::MAX as int,
                ;
                crate::graph::lemma_sum_weights_push(pairs@,
                    (values@[i as int], w));
                lemma_total_weight_push(weights@.take(i as int), w);
                assert(weights@.take(i as int + 1)
                    =~= weights@.take(i as int).push(w));
            }
            pairs.push((values[i], w));
            acc = acc + (w as i128);
            i = i + 1;
        }
        proof {
            assert(weights@.take(n as int) =~= weights@);
            assert(pairs@.len() <= usize::MAX);
            assert(crate::graph::sum_weights(pairs@)
                <= usize::MAX as int * MAX_WEIGHT) by (nonlinear_arith)
                requires
                    crate::graph::sum_weights(pairs@)
                        <= pairs@.len() * MAX_WEIGHT,
                    pairs@.len() <= usize::MAX as int,
            ;
        }
        if acc == 0 {
            return None;
        }
        let r = rand_below(acc as u128);
        let idx = weighted_pick(&pairs, r as i128);
        proof {
            assert(pairs@[idx as int] == (values@[idx as int], weights@[idx as int]));
        }
        Some(values[idx])
    }

    /// Fill the empty walk slot `walk_id` with a fresh walk from `start`.
    pub fn perform_walk(&mut self, walk_id: WalkId, start: NodeId)
        requires
            old(self).graph.wf(),
            old(self).walks.wf(),
            0 < old(self).alpha <= WEIGHT_UNIT,
            (walk_id as int) < old(self).walks.wseq().len(),
            old(self).walks.wseq()[walk_id as int].len() == 0,
        ensures
            final(self).graph == old(self).graph,
            final(self).personal_hits == old(self).personal_hits,
            final(self).neg_hits == old(self).neg_hits,
            final(self).alpha == old(self).alpha,
            final(self).rng == old(self).rng,
            final(self).walks.wf(),
            final(self).walks.wseq().len() == old(self).walks.wseq().len(),
            forall|w: int| 0 <= w < old(self).walks.wseq().len() && w != walk_id
                ==> final(self).walks.wseq()[w] == old(self).walks.wseq()[w],
            final(self).walks.wseq()[walk_id as int].len() > 0,
            final(self).walks.wseq()[walk_id as int].len() <= MAX_WALK_LEN,
            final(self).walks.wseq()[walk_id as int][0] == start,
            walk_follows_edges(old(self).graph, final(self).walks.wseq()[walk_id as int]),
            forall|n: NodeId, w: WalkId, p: usize| w != walk_id
                ==> final(self).walks.has_pair(n, w, p)
                    == old(self).walks.has_pair(n, w, p),
    {
        let seg = self.walk_segment_capped(start, false, MAX_WALK_LEN - 1);
        let mut full: Vec<NodeId> = Vec::new();
        full.push(start);
        let mut i: usize = 0;
        let sn = seg.len();
        while i < sn
            invariant
                sn == seg@.len(),
                i <= sn,
                full@ == seq![start] + seg@.take(i as int),
            decreases sn - i,
        {
            full.push(seg[i]);
            proof {
                assert(full@ =~= seq![start] + seg@.take(i as int + 1));
            }
            i = i + 1;
        }
        proof {
            assert(full@ =~= seq![start] + seg@);
            assert(full@.len() == 1 + seg@.len());
            assert(full@[0] == start);
        }
        self.walks.extend_walk_and_register(walk_id, &full);
        proof {
            assert(final(self).walks.wseq()[walk_id as int]
                =~= old(self).walks.wseq()[walk_id as int] + full@);
            assert(final(self).walks.wseq()[walk_id as int] =~= full@);
            assert forall|w: int| 0 <= w < old(self).walks.wseq().len() && w != walk_id
                implies final(self).walks.wseq()[w] == old(self).walks.wseq()[w] by {
            }
            assert forall|k: int| 1 <= k < full@.len()
                implies self.graph.pos_map(full@[k - 1])
                    .contains_key(#[trigger] full@[k]) by {
                assert(full@[k] == seg@[k - 1]);
                if k == 1 {
                    assert(full@[0] == start);
                } else {
                    assert(full@[k - 1] == seg@[k - 2]);
                }
            }
        }
    }
}

} // verus!

verus! {

impl<D: Copy + core::default::Default> MeritRank<D> {
    /// Drop every walk of `ego`, reset its counter, and generate `num_walks`
    /// fresh walks from it, folding each into the counter and the penalty
    /// table. Fails exactly when `ego` is not in the graph.
    pub fn calculate(&mut self, ego: NodeId, num_walks: usize)
        -> (r: Result<(), MeritRankError>)
        requires
            old(self).wf(),
            old(self).walks.wseq().len() + num_walks <= MAX_WALKS,
        ensures
            final(self).wf(),
            final(self).graph == old(self).graph,
            final(self).alpha == old(self).alpha,
            match r {
                Ok(()) => {
                    let old_len = old(self).walks.wseq().len() as int;
                    &&& old(self).graph.has_node(ego)
                    &&& final(self).personal_hits@.contains_key(ego)
                    &&& final(self).walks.wseq().len()
                        == old(self).walks.wseq().len() + num_walks
                    // prior walks of the ego are emptied, every other prior
                    // walk is untouched
                    &&& forall|w: int| 0 <= w < old_len
                        ==> final(self).walks.wseq()[w]
                            == if crate::storage::WalkStorage::is_ego_walk(
                                    old(self).walks.wseq(), w, ego) {
                                Seq::<NodeId>::empty()
                            } else {
                                old(self).walks.wseq()[w]
                            }
                    // each new slot holds a walk of the ego whose steps
                    // follow positive edges
                    &&& forall|w: int| old_len <= w < final(self).walks.wseq().len()
                        ==> (#[trigger] final(self).walks.wseq()[w]).len() > 0
                            && final(self).walks.wseq()[w][0] == ego
                            && walk_follows_edges(old(self).graph,
                                final(self).walks.wseq()[w])
                    // counters and penalty tables of every other ego are
                    // untouched
                    &&& forall|e: NodeId| e != ego
                        ==> (final(self).personal_hits@.contains_key(e)
                                == old(self).personal_hits@.contains_key(e))
                            && (old(self).personal_hits@.contains_key(e)
                                ==> final(self).personal_hits@[e]
                                    == old(self).personal_hits@[e])
                    &&& forall|e: NodeId| e != ego
                        ==> (final(self).neg_hits@.contains_key(e)
                                == old(self).neg_hits@.contains_key(e))
                            && (old(self).neg_hits@.contains_key(e)
                                ==> final(self).neg_hits@[e] == old(self).neg_hits@[e])
                },
                Err(e) => e == MeritRankError::NodeDoesNotExist
                    && !old(self).graph.has_node(ego)
                    && *final(self) == *old(self),
            },
    {
        if !self.graph.contains_node(ego) {
            return Err(MeritRankError::NodeDoesNotExist);
        }
        let ghost s0 = *self;
        self.walks.drop_walks_from_node(ego);
        proof {
            // untouched egos keep matching counts; every walk of `ego` is
            // now empty
            assert forall|e: NodeId, t: NodeId| self.personal_hits@.contains_key(e)
                implies #[trigger] self.personal_hits@[e].count_of(t) as int
                    == if e == ego { hits_count(s0.walks.wseq(), ego, t) }
                    else { hits_count(self.walks.wseq(), e, t) } by {
                if e != ego {
                    assert forall|i: int| 0 <= i < s0.walks.wseq().len()
                        implies walk_hits(#[trigger] s0.walks.wseq()[i], e, t)
                            == walk_hits(self.walks.wseq()[i], e, t) by {
                        if crate::storage::WalkStorage::is_ego_walk(
                            s0.walks.wseq(), i, ego) {
                            assert(self.walks.wseq()[i]
                                =~= Seq::<NodeId>::empty());
                            assert(walk_hits(s0.walks.wseq()[i], e, t) == 0);
                        }
                    }
                    lemma_hits_pointwise(s0.walks.wseq(), self.walks.wseq(), e, t);
                }
            }
        }
        let negs = self.graph.neg_edges_map(ego);
        self.personal_hits.insert(ego, Counter::new());
        proof {
            assert forall|t: NodeId| hits_count(self.walks.wseq(), ego, t) == 0 by {
                assert forall|i: int| 0 <= i < self.walks.wseq().len()
                    implies walk_hits(#[trigger] self.walks.wseq()[i], ego, t)
                        == 0 by {
                    if crate::storage::WalkStorage::is_ego_walk(
                        s0.walks.wseq(), i, ego) {
                        assert(self.walks.wseq()[i] =~= Seq::<NodeId>::empty());
                    } else {
                        assert(self.walks.wseq()[i] == s0.walks.wseq()[i]);
                    }
                }
                lemma_hits_zero(self.walks.wseq(), ego, t);
            }
            assert(self.wf());
        }
        let ghost base_len = self.walks.wseq().len();
        proof {
            assert(base_len == old(self).walks.wseq().len());
        }
        let mut i: usize = 0;
        #[verifier::loop_isolation(false)]
        while i < num_walks
            invariant
                self.wf(),
                self.graph == old(self).graph,
                self.alpha == old(self).alpha,
                self.graph.has_node(ego),
                self.personal_hits@.contains_key(ego),
                self.walks.wseq().len() == base_len + i,
                base_len == old(self).walks.wseq().len(),
                base_len + num_walks <= MAX_WALKS,
                i <= num_walks,
                negs.wf(),
                negs@ == self.graph.neg_map(ego),
                forall|t: NodeId| #[trigger] negs@.contains_key(t)
                    ==> -MAX_WEIGHT <= negs@[t] < 0,
                forall|w: int| 0 <= w < base_len
                    ==> self.walks.wseq()[w]
                        == if crate::storage::WalkStorage::is_ego_walk(
                                old(self).walks.wseq(), w, ego) {
                            Seq::<NodeId>::empty()
                        } else {
                            old(self).walks.wseq()[w]
                        },
                forall|w: int| base_len <= w < base_len + i
                    ==> (#[trigger] self.walks.wseq()[w]).len() > 0
                        && self.walks.wseq()[w][0] == ego
                        && walk_follows_edges(old(self).graph, self.walks.wseq()[w]),
                forall|e: NodeId| e != ego
                    ==> (self.personal_hits@.contains_key(e)
                            == old(self).personal_hits@.contains_key(e))
                        && (old(self).personal_hits@.contains_key(e)
                            ==> self.personal_hits@[e] == old(self).personal_hits@[e]),
                forall|e: NodeId| e != ego
                    ==> (self.neg_hits@.contains_key(e)
                            == old(self).neg_hits@.contains_key(e))
                        && (old(self).neg_hits@.contains_key(e)
                            ==> self.neg_hits@[e] == old(self).neg_hits@[e]),
            decreases num_walks - i,
        {
            let ghost iter_s = *self;
            proof {
                assert forall|e: NodeId| e != ego
                    implies (iter_s.personal_hits@.contains_key(e)
                            == old(self).personal_hits@.contains_key(e))
                        && (old(self).personal_hits@.contains_key(e)
                            ==> iter_s.personal_hits@[e]
                                == old(self).personal_hits@[e])
                        && (iter_s.neg_hits@.contains_key(e)
                            == old(self).neg_hits@.contains_key(e))
                        && (old(self).neg_hits@.contains_key(e)
                            ==> iter_s.neg_hits@[e] == old(self).neg_hits@[e]) by {
                    assert(self.personal_hits@.contains_key(e)
                        == old(self).personal_hits@.contains_key(e));
                    assert(self.neg_hits@.contains_key(e)
                        == old(self).neg_hits@.contains_key(e));
                    if old(self).personal_hits@.contains_key(e) {
                        assert(self.personal_hits@[e] == old(self).personal_hits@[e]);
                    }
                    if old(self).neg_hits@.contains_key(e) {
                        assert(self.neg_hits@[e] == old(self).neg_hits@[e]);
                    }
                }
            }
            let ghost pre = *self;
            let wid = self.walks.get_next_free_walkid();
            proof {
                assert forall|e: NodeId, t: NodeId| self.personal_hits@.contains_key(e)
                    implies #[trigger] self.personal_hits@[e].count_of(t) as int
                        == hits_count(self.walks.wseq(), e, t) by {
                    lemma_hits_push(pre.walks.wseq(), Seq::<NodeId>::empty(), e, t);
                    assert(self.walks.wseq()
                        == pre.walks.wseq().push(Seq::<NodeId>::empty()));
                }
            }
            let ghost s1 = *self;
            self.perform_walk(wid, ego);
            let ghost nw = self.walks.wseq()[wid as int];
            proof {
                assert(self.walks.wseq() =~= s1.walks.wseq()
                    .update(wid as int, nw));
                assert forall|e: NodeId, t: NodeId|
                    self.personal_hits@.contains_key(e)
                    implies #[trigger] self.personal_hits@[e].count_of(t) as int
                        == hits_count(self.walks.wseq(), e, t)
                            - (if e == ego && nw.contains(t) { 1int } else { 0int })
                    by {
                    lemma_hits_update(s1.walks.wseq(), wid as int, nw, e, t);
                    assert(walk_hits(s1.walks.wseq()[wid as int], e, t) == 0);
                    assert(walk_hits(nw, e, t)
                        == if e == ego && nw.contains(t) { 1int } else { 0int });
                }
            }
            let wref = self.walks.get_walk(wid);
            let nodes = wref.get_nodes();
            let mut counter = match self.personal_hits.take(ego) {
                Some(c) => c,
                None => {
                    proof {
                        assert(false);
                    }
                    Counter::new()
                },
            };
            proof {
                assert forall|t: NodeId| counter.count_of(t) < u64::MAX by {
                    lemma_hits_bounds(self.walks.wseq(), ego, t);
                }
            }
            counter.increment_unique_counts(nodes);
            self.personal_hits.insert(ego, counter);
            proof {
                assert forall|e: NodeId, t: NodeId|
                    self.personal_hits@.contains_key(e)
                    implies #[trigger] self.personal_hits@[e].count_of(t) as int
                        == hits_count(self.walks.wseq(), e, t) by {
                    if e == ego {
                        assert(nodes@ == nw);
                    }
                }
                assert(self.wf());
            }
            let ghost pre_nh = self.neg_hits;
            update_negative_hits(&mut self.neg_hits, wref, &negs, false, self.alpha);
            proof {
                assert forall|e: NodeId| e != ego
                    implies (self.personal_hits@.contains_key(e)
                            == old(self).personal_hits@.contains_key(e))
                        && (old(self).personal_hits@.contains_key(e)
                            ==> self.personal_hits@[e]
                                == old(self).personal_hits@[e]) by {
                    assert(self.personal_hits@.contains_key(e)
                        == iter_s.personal_hits@.contains_key(e));
                    assert(iter_s.personal_hits@.contains_key(e)
                        == old(self).personal_hits@.contains_key(e));
                    if old(self).personal_hits@.contains_key(e) {
                        assert(self.personal_hits@[e] == iter_s.personal_hits@[e]);
                        assert(iter_s.personal_hits@[e]
                            == old(self).personal_hits@[e]);
                    }
                }
                assert forall|e: NodeId| e != ego
                    implies (self.neg_hits@.contains_key(e)
                            == old(self).neg_hits@.contains_key(e))
                        && (old(self).neg_hits@.contains_key(e)
                            ==> self.neg_hits@[e] == old(self).neg_hits@[e]) by {
                    assert(wref@[0] == ego);
                    assert(pre_nh == iter_s.neg_hits);
                    assert(self.neg_hits@.contains_key(e)
                        == pre_nh@.contains_key(e));
                    assert(pre_nh@.contains_key(e)
                        == old(self).neg_hits@.contains_key(e));
                    if old(self).neg_hits@.contains_key(e) {
                        assert(self.neg_hits@[e] == pre_nh@[e]);
                        assert(pre_nh@[e] == old(self).neg_hits@[e]);
                    }
                }
            }
            i = i + 1;
        }
        Ok(())
    }
}

} // verus!

verus! {

impl<D: Copy + core::default::Default> MeritRank<D> {
    /// Extend a previously truncated walk with a new random tail. With
    /// `force_first_step` the tail starts at the given node, re-drawn against
    /// the damping probability unless `skip_alpha_on_first_step` is set.
    /// Fails exactly when the walk is empty.
    pub fn recalc_invalidated_walk(&mut self, walk_id: WalkId,
        force_first_step: Option<NodeId>, skip_alpha_on_first_step: bool)
        -> (r: Result<(), MeritRankError>)
        requires
            old(self).wf(),
            (walk_id as int) < old(self).walks.wseq().len(),
        ensures
            final(self).wf(),
            final(self).graph == old(self).graph,
            final(self).alpha == old(self).alpha,
            final(self).neg_hits == old(self).neg_hits,
            final(self).walks.wseq().len() == old(self).walks.wseq().len(),
            forall|w: int| 0 <= w < old(self).walks.wseq().len() && w != walk_id
                ==> final(self).walks.wseq()[w] == old(self).walks.wseq()[w],
            final(self).walks.wseq()[walk_id as int]
                .take(old(self).walks.wseq()[walk_id as int].len() as int)
                == old(self).walks.wseq()[walk_id as int],
            match r {
                Ok(()) => {
                    let old_len = old(self).walks.wseq()[walk_id as int].len() as int;
                    let neww = final(self).walks.wseq()[walk_id as int];
                    &&& old_len > 0
                    // only the walk's own ego counter may change
                    &&& forall|e: NodeId|
                        e != old(self).walks.wseq()[walk_id as int][0]
                        ==> (final(self).personal_hits@.contains_key(e)
                                == old(self).personal_hits@.contains_key(e))
                            && (old(self).personal_hits@.contains_key(e)
                                ==> final(self).personal_hits@[e]
                                    == old(self).personal_hits@[e])
                    // a forced extension begins with the forced node
                    &&& (neww.len() > old_len && force_first_step.is_some()
                        ==> neww[old_len] == force_first_step.unwrap())
                    // an unforced extension steps out of the walk's last node
                    &&& (neww.len() > old_len && force_first_step.is_none()
                        ==> old(self).graph.pos_map(neww[old_len - 1])
                            .contains_key(neww[old_len]))
                    // every later appended step follows a positive edge
                    &&& forall|k: int| old_len + 1 <= k < neww.len()
                        ==> old(self).graph.pos_map(neww[k - 1])
                            .contains_key(#[trigger] neww[k])
                },
                Err(e) => e == MeritRankError::InvalidWalkLength
                    && old(self).walks.wseq()[walk_id as int].len() == 0
                    && *final(self) == *old(self),
            },
    {
        let wlen = self.walks.get_walk(walk_id).len();
        if wlen == 0 {
            proof {
                assert(old(self).walks.wseq()[walk_id as int]
                    .take(0) =~= old(self).walks.wseq()[walk_id as int]);
            }
            return Err(MeritRankError::InvalidWalkLength);
        }
        let ego = self.walks.get_walk(walk_id).get_node(0);
        let first_step = match force_first_step {
            Some(s) => s,
            None => self.walks.get_walk(walk_id).get_node(wlen - 1),
        };
        let mut skip = skip_alpha_on_first_step;
        let forced = force_first_step.is_some();
        if forced {
            if skip {
                skip = false;
            } else {
                let d = xorshift_read_u64(&mut self.rng) % (WEIGHT_UNIT as u64);
                if d >= self.alpha as u64 {
                    proof {
                        assert(self.walks.wseq()[walk_id as int]
                            .take(wlen as int)
                            =~= self.walks.wseq()[walk_id as int]);
                    }
                    return Ok(());
                }
            }
        }
        let head: usize = if forced {
            1
        } else {
            0
        };
        if wlen + head > MAX_WALK_LEN {
            proof {
                assert(self.walks.wseq()[walk_id as int].take(wlen as int)
                    =~= self.walks.wseq()[walk_id as int]);
            }
            return Ok(());
        }
        let cap = MAX_WALK_LEN - wlen - head;
        let seg0 = self.walk_segment_capped(first_step, skip, cap);
        let mut new_segment: Vec<NodeId> = Vec::new();
        if forced {
            new_segment.push(first_step);
        }
        let mut i: usize = 0;
        let sn = seg0.len();
        while i < sn
            invariant
                sn == seg0@.len(),
                i <= sn,
                new_segment@ == if forced { seq![first_step] + seg0@.take(i as int) }
                    else { seg0@.take(i as int) },
            decreases sn - i,
        {
            new_segment.push(seg0[i]);
            proof {
                if forced {
                    assert(new_segment@ =~= seq![first_step]
                        + seg0@.take(i as int + 1));
                } else {
                    assert(new_segment@ =~= seg0@.take(i as int + 1));
                }
            }
            i = i + 1;
        }
        proof {
            assert(seg0@.take(sn as int) =~= seg0@);
            assert(new_segment@.len() <= head + cap);
        }
        // the nodes the tail adds that the walk has not seen
        let wref = self.walks.get_walk(walk_id);
        let mut fresh: Vec<NodeId> = Vec::new();
        let mut k: usize = 0;
        let nsn = new_segment.len();
        while k < nsn
            invariant
                nsn == new_segment@.len(),
                k <= nsn,
                wref@ == self.walks.wseq()[walk_id as int],
                forall|t: NodeId| #[trigger] fresh@.contains(t)
                    == (new_segment@.take(k as int).contains(t) && !wref@.contains(t)),
            decreases nsn - k,
        {
            let nd = new_segment[k];
            let ghost fr0 = fresh@;
            if !wref.contains_node(nd) {
                fresh.push(nd);
            }
            proof {
                let tk1 = new_segment@.take(k as int + 1);
                let tk0 = new_segment@.take(k as int);
                assert(tk1.drop_last() =~= tk0);
                assert(tk1.last() == nd);
                assert forall|t: NodeId| #[trigger] tk1.contains(t)
                    == (tk0.contains(t) || t == nd) by {
                    if tk1.contains(t) {
                        let w = choose|w: int| 0 <= w < tk1.len()
                            && #[trigger] tk1[w] == t;
                        if w < k {
                            assert(tk0[w] == t);
                        }
                    }
                    if tk0.contains(t) {
                        let w = choose|w: int| 0 <= w < tk0.len()
                            && #[trigger] tk0[w] == t;
                        assert(tk1[w] == t);
                    }
                    if t == nd {
                        assert(tk1[k as int] == t);
                    }
                }
                if wref@.contains(nd) {
                    assert(fresh@ == fr0);
                } else {
                    assert(fresh@ == fr0.push(nd));
                    assert forall|t: NodeId| #[trigger] fresh@.contains(t)
                        == (fr0.contains(t) || t == nd) by {
                        if fresh@.contains(t) {
                            let w = choose|w: int| 0 <= w < fresh@.len()
                                && #[trigger] fresh@[w] == t;
                            if w < fr0.len() {
                                assert(fr0[w] == t);
                            }
                        }
                        if fr0.contains(t) {
                            let w = choose|w: int| 0 <= w < fr0.len()
                                && #[trigger] fr0[w] == t;
                            assert(fresh@[w] == t);
                        }
                        if t == nd {
                            assert(fresh@[fresh@.len() - 1] == t);
                        }
                    }
                }
            }
            k = k + 1;
        }
        proof {
            assert(new_segment@.take(nsn as int) =~= new_segment@);
        }
        let mut counter = match self.personal_hits.take(ego) {
            Some(c) => c,
            None => {
                proof {
                    assert(false);
                }
                Counter::new()
            },
        };
        proof {
            assert forall|t: NodeId| counter.count_of(t) < u64::MAX by {
                lemma_hits_bounds(self.walks.wseq(), ego, t);
            }
        }
        counter.increment_unique_counts(&fresh);
        self.personal_hits.insert(ego, counter);
        let ghost s1 = *self;
        self.walks.extend_walk_and_register(walk_id, &new_segment);
        proof {
            let ghost oldw = s1.walks.wseq()[walk_id as int];
            let ghost neww = self.walks.wseq()[walk_id as int];
            assert(neww == oldw + new_segment@);
            assert(self.walks.wseq() =~= s1.walks.wseq()
                .update(walk_id as int, neww));
            assert(neww[0] == oldw[0]);
            assert(neww.len() > 0);
            // the counter delta matches the hit delta of the extension
            assert forall|e: NodeId, t: NodeId| self.personal_hits@.contains_key(e)
                implies #[trigger] self.personal_hits@[e].count_of(t) as int
                    == hits_count(self.walks.wseq(), e, t) by {
                lemma_hits_update(s1.walks.wseq(), walk_id as int, neww, e, t);
                assert forall|t2: NodeId| #[trigger] neww.contains(t2)
                    == (oldw.contains(t2) || new_segment@.contains(t2)) by {
                    if neww.contains(t2) {
                        let w = choose|w: int| 0 <= w < neww.len()
                            && #[trigger] neww[w] == t2;
                        if w < oldw.len() {
                            assert(oldw[w] == t2);
                        } else {
                            assert(new_segment@[w - oldw.len()] == t2);
                        }
                    }
                    if oldw.contains(t2) {
                        let w = choose|w: int| 0 <= w < oldw.len()
                            && #[trigger] oldw[w] == t2;
                        assert(neww[w] == t2);
                    }
                    if new_segment@.contains(t2) {
                        let w = choose|w: int| 0 <= w < new_segment@.len()
                            && #[trigger] new_segment@[w] == t2;
                        assert(neww[w + oldw.len()] == t2);
                    }
                }
                if e == ego {
                    assert(walk_hits(neww, e, t) - walk_hits(oldw, e, t)
                        == if fresh@.contains(t) { 1int } else { 0int });
                } else {
                    assert(walk_hits(neww, e, t) == walk_hits(oldw, e, t));
                }
            }
            assert(final(self).walks.wseq()[walk_id as int]
                .take(old(self).walks.wseq()[walk_id as int].len() as int)
                =~= old(self).walks.wseq()[walk_id as int]);
            let ghost old_len = oldw.len() as int;
            if neww.len() > old_len {
                if forced {
                    assert(new_segment@[0] == first_step);
                    assert(neww[old_len] == new_segment@[0]);
                } else {
                    assert(new_segment@ == seg0@);
                    assert(neww[old_len] == seg0@[0]);
                    assert(self.graph.pos_map(first_step).contains_key(seg0@[0]));
                    assert(neww[old_len - 1] == oldw[old_len - 1]);
                    assert(first_step == oldw[old_len - 1]);
                }
            }
            assert forall|k: int| old_len + 1 <= k < neww.len()
                implies self.graph.pos_map(neww[k - 1])
                    .contains_key(#[trigger] neww[k]) by {
                let j = k - old_len;
                assert(neww[k] == new_segment@[j]);
                assert(neww[k - 1] == if j == 1 { new_segment@[0] }
                    else { new_segment@[j - 1] });
                if forced {
                    assert(new_segment@[j] == seg0@[j - 1]);
                    if j == 1 {
                        assert(new_segment@[0] == first_step);
                        assert(self.graph.pos_map(first_step)
                            .contains_key(seg0@[0]));
                    } else {
                        assert(new_segment@[j - 1] == seg0@[j - 2]);
                        assert(self.graph.pos_map(seg0@[j - 2])
                            .contains_key(seg0@[j - 1]));
                    }
                } else {
                    assert(new_segment@[j] == seg0@[j]);
                    assert(new_segment@[j - 1] == seg0@[j - 1]);
                    assert(self.graph.pos_map(seg0@[j - 1])
                        .contains_key(seg0@[j]));
                }
            }
            assert forall|e: NodeId| e != oldw[0]
                implies (self.personal_hits@.contains_key(e)
                        == old(self).personal_hits@.contains_key(e))
                    && (old(self).personal_hits@.contains_key(e)
                        ==> self.personal_hits@[e]
                            == old(self).personal_hits@[e]) by {
                assert(ego == oldw[0]);
            }
            assert(self.egos_tracked()) by {
                assert forall|w: int| 0 <= w < self.walks.wseq().len()
                    && (#[trigger] self.walks.wseq()[w]).len() > 0
                    implies self.personal_hits@.contains_key(
                        self.walks.wseq()[w][0]) by {
                    if w != walk_id {
                        assert(self.walks.wseq()[w] == s1.walks.wseq()[w]);
                    }
                }
            }
        }
        Ok(())
    }

    /// Add (or take back) the penalty projection of the negative edge
    /// `src -> dest` for every walk through `dest` that starts at `src`.
    ///
    /// The edge must sit in the negative bucket: penalty projections are
    /// defined for negative weights, and the sign-transition paths call this
    /// right after storing a negative weight or right before removing one.
    pub fn update_penalties_for_edge(&mut self, src: NodeId, dest: NodeId,
        remove_penalties: bool)
        requires
            old(self).wf(),
            old(self).graph.neg_map(src).contains_key(dest),
        ensures
            final(self).wf(),
            final(self).graph == old(self).graph,
            final(self).walks == old(self).walks,
            final(self).personal_hits == old(self).personal_hits,
            final(self).alpha == old(self).alpha,
            forall|e: NodeId| e != src
                ==> (final(self).neg_hits@.contains_key(e)
                        == old(self).neg_hits@.contains_key(e))
                    && (old(self).neg_hits@.contains_key(e)
                        ==> final(self).neg_hits@[e] == old(self).neg_hits@[e]),
            // the ego's table takes exactly the folded penalty projections of
            // the edge's weight over the walks through dest that start at src
            forall|t: NodeId| #[trigger] nh_val(final(self).neg_hits@, src, t)
                == fold_edge_penalties(nh_val(old(self).neg_hits@, src, t),
                    old(self).walks.wseq(), old(self).walks.visit_list(dest), 0,
                    src,
                    Map::<usize, i64>::empty().insert(dest,
                        old(self).graph.neg_map(src)[dest]),
                    old(self).alpha as int, remove_penalties, t),
    {
        let weight = match self.graph.edge_weight(src, dest) {
            Some(w) => w,
            None => {
                proof {
                    assert(false);
                }
                0
            },
        };
        proof {
            assert(crate::graph::entry_wf(src, self.graph.nodes@[src]));
            assert(!self.graph.pos_map(src).contains_key(dest));
            assert(weight == self.graph.neg_map(src)[dest]);
            assert(-MAX_WEIGHT <= weight < 0);
        }
        let mut negs: AssocMap<Weight> = AssocMap::new();
        negs.insert(dest, weight);
        proof {
            assert(negs@ =~= Map::<usize, i64>::empty().insert(dest, weight));
        }
        let visits = self.walks.get_visits_through_node(dest);
        let ghost lsq = visits@;
        let ghost ws = self.walks.wseq();
        let ghost nmap = negs@;
        let ghost av = self.alpha as int;
        let vn = visits.len();
        let mut k: usize = 0;
        while k < vn
            invariant
                lsq == old(self).walks.visit_list(dest),
                ws == old(self).walks.wseq(),
                nmap == negs@,
                negs@.contains_key(dest),
                av == old(self).alpha as int,
                visits@ == lsq,
                forall|t: NodeId| fold_edge_penalties(
                        #[trigger] nh_val(self.neg_hits@, src, t), ws, lsq,
                        k as int, src, nmap, av, remove_penalties, t)
                    == fold_edge_penalties(nh_val(old(self).neg_hits@, src, t),
                        ws, lsq, 0, src, nmap, av, remove_penalties, t),
                self.graph == old(self).graph,
                self.walks == old(self).walks,
                self.personal_hits == old(self).personal_hits,
                self.alpha == old(self).alpha,
                self.rng == old(self).rng,
                old(self).wf(),
                self.graph.wf(),
                self.walks.wf(),
                0 < self.alpha <= WEIGHT_UNIT,
                nh_wf(self.neg_hits),
                vn == visits@.len(),
                k <= vn,
                negs.wf(),
                forall|t: NodeId| #[trigger] negs@.contains_key(t)
                    ==> -MAX_WEIGHT <= negs@[t] < 0,
                forall|j: int| 0 <= j < vn
                    ==> self.walks.has_pair(dest, (#[trigger] visits@[j]).0,
                        visits@[j].1),
                forall|e: NodeId| e != src
                    ==> (self.neg_hits@.contains_key(e)
                            == old(self).neg_hits@.contains_key(e))
                        && (old(self).neg_hits@.contains_key(e)
                            ==> self.neg_hits@[e] == old(self).neg_hits@[e]),
            decreases vn - k,
        {
            let pr = visits[k];
            proof {
                assert(self.walks.has_pair(dest, pr.0, pr.1));
                assert(self.walks.pair_valid(dest, pr.0, pr.1));
            }
            let ghost pre_nh = self.neg_hits;
            let wref = self.walks.get_walk(pr.0);
            let ghost took = false;
            if wref.len() > 0 {
                if wref.get_node(0) == src {
                    proof {
                        took = true;
                        assert(wref@[pr.1 as int] == dest);
                        assert(wref@.contains(dest));
                        assert(negs@.contains_key(dest));
                    }
                    update_negative_hits(&mut self.neg_hits, wref, &negs,
                        remove_penalties, self.alpha);
                }
            }
            proof {
                assert forall|e: NodeId| e != src
                    implies (self.neg_hits@.contains_key(e)
                            == pre_nh@.contains_key(e))
                        && (pre_nh@.contains_key(e)
                            ==> self.neg_hits@[e] == pre_nh@[e]) by {
                }
                let w = lsq[k as int].0;
                assert(w == pr.0);
                assert(ws[w as int] == wref@);
                assert forall|t: NodeId| fold_edge_penalties(
                        #[trigger] nh_val(self.neg_hits@, src, t), ws, lsq,
                        k as int + 1, src, nmap, av, remove_penalties, t)
                    == fold_edge_penalties(nh_val(old(self).neg_hits@, src, t),
                        ws, lsq, 0, src, nmap, av, remove_penalties, t) by {
                    let sgn: int = if remove_penalties { -1int } else { 1int };
                    if took {
                        assert(nh_val(self.neg_hits@, src, t)
                            == spec_sat_add(nh_val(pre_nh@, src, t),
                                sgn * acc_val(spec_penalties(wref@, nmap, av), t)));
                        assert(fold_edge_penalties(nh_val(pre_nh@, src, t), ws,
                            lsq, k as int, src, nmap, av, remove_penalties, t)
                            == fold_edge_penalties(nh_val(self.neg_hits@, src, t),
                                ws, lsq, k as int + 1, src, nmap, av,
                                remove_penalties, t));
                    } else {
                        assert(self.neg_hits == pre_nh);
                        assert(!(ws[w as int].len() > 0 && ws[w as int][0] == src));
                        assert(fold_edge_penalties(nh_val(pre_nh@, src, t), ws,
                            lsq, k as int, src, nmap, av, remove_penalties, t)
                            == fold_edge_penalties(nh_val(pre_nh@, src, t), ws,
                                lsq, k as int + 1, src, nmap, av,
                                remove_penalties, t));
                    }
                }
            }
            k = k + 1;
        }
    }
}

} // verus!

verus! {

impl<D: Copy + core::default::Default> MeritRank<D> {
    /// An edge whose old weight was zero or positive takes the nonnegative
    /// weight `weight`. Walks through `src` are invalidated: their counter
    /// and penalty contributions past the visit are taken back, the suffixes
    /// are cut, the graph is updated, and every cut walk is regrown and
    /// folded back in.
    fn zp(&mut self, src: NodeId, dst: NodeId, weight: Weight)
        requires
            old(self).wf(),
            src != dst,
            0 <= weight <= MAX_WEIGHT,
            old(self).graph.has_node(src),
            old(self).graph.has_node(dst),
            !old(self).graph.neg_map(src).contains_key(dst),
        ensures
            final(self).wf(),
            final(self).alpha == old(self).alpha,
            forall|m: NodeId| final(self).graph.nodes@.contains_key(m)
                == old(self).graph.nodes@.contains_key(m),
            forall|s2: NodeId| s2 != src && old(self).graph.has_node(s2)
                ==> final(self).graph.nodes@[s2] == old(self).graph.nodes@[s2],
            final(self).graph.edge_weight_of(src, dst) == if weight > EPSILON {
                Some(weight)
            } else {
                None::<i64>
            },
            final(self).graph.pos_map(src) == if weight > EPSILON {
                old(self).graph.pos_map(src).insert(dst, weight)
            } else {
                old(self).graph.pos_map(src).remove(dst)
            },
            final(self).graph.neg_map(src) == old(self).graph.neg_map(src),
            final(self).walks.wseq().len() == old(self).walks.wseq().len(),
            // walks that never visit src are untouched
            forall|w: int| 0 <= w < old(self).walks.wseq().len()
                && !old(self).walks.wseq()[w].contains(src)
                ==> final(self).walks.wseq()[w] == old(self).walks.wseq()[w],
            // every walk that stepped src -> dst right after its first visit
            // of src is cut there and regrown along the updated graph
            forall|w: WalkId, p: usize| #[trigger] old(self).walks.has_pair(src, w, p)
                && p + 1 < old(self).walks.wseq()[w as int].len()
                && old(self).walks.wseq()[w as int][p + 1] == dst
                ==> cut_and_regrown(final(self).graph, old(self).walks.wseq(),
                    final(self).walks.wseq(), src, w, p),
    {
        let prob: i64 = if OPTIMIZE_INVALIDATION && weight > EPSILON
            && self.graph.contains_node(src) {
            let sum = self.graph.pos_weight_sum(src);
            proof {
                assert(0 <= (weight as i128) * (WEIGHT_UNIT as i128)
                    <= 1_000_000_000_000_000_000_000_000i128)
                    by (nonlinear_arith)
                    requires
                        0 <= weight <= MAX_WEIGHT,
                        MAX_WEIGHT == 1_000_000_000_000_000i64,
                        WEIGHT_UNIT == 1_000_000_000i64,
                ;
            }
            let num: i128 = (weight as i128) * (WEIGHT_UNIT as i128);
            let den: i128 = sum + (weight as i128);
            let p128: i128 = num / den;
            proof {
                assert(0 <= p128 <= WEIGHT_UNIT) by (nonlinear_arith)
                    requires
                        p128 == num / den,
                        num == (weight as i128) * (WEIGHT_UNIT as i128),
                        den == sum + (weight as i128),
                        0 < weight as i128,
                        weight as i128 <= MAX_WEIGHT as i128,
                        sum >= 0,
                ;
            }
            p128 as i64
        } else {
            0
        };
        let invalidated = self.walks.invalidate_walks_through_node(src, Some(dst),
            prob);
        let ghost inv_sq = invalidated@;
        let n_inv = invalidated.len();
        proof {
            assert forall|j: int| 0 <= j < n_inv
                implies old(self).walks.pair_valid(src, (#[trigger] inv_sq[j]).0,
                    inv_sq[j].1) by {
                assert(old(self).walks.has_pair(src, inv_sq[j].0, inv_sq[j].1));
                old(self).lemma_visits_index(src, inv_sq[j].0, inv_sq[j].1);
            }
        }
        let mut k: usize = 0;
        while k < n_inv
            invariant
                self.wf(),
                self.graph == old(self).graph,
                self.alpha == old(self).alpha,
                self.walks.wseq().len() == old(self).walks.wseq().len(),
                n_inv == inv_sq.len(),
                invalidated@ == inv_sq,
                k <= n_inv,
                crate::storage::pair_keys(inv_sq).no_duplicates(),
                forall|j: int| k <= j < n_inv
                    ==> self.walks.has_pair(src, (#[trigger] inv_sq[j]).0,
                        inv_sq[j].1),
                forall|j: int| 0 <= j < n_inv
                    ==> (#[trigger] inv_sq[j]).0 < self.walks.wseq().len()
                        && self.walks.wseq()[inv_sq[j].0 as int].len() > 0,
                forall|j: int| 0 <= j < n_inv
                    ==> old(self).walks.pair_valid(src, (#[trigger] inv_sq[j]).0,
                        inv_sq[j].1),
                forall|j: int| 0 <= j < k
                    ==> self.walks.wseq()[(#[trigger] inv_sq[j]).0 as int]
                        == old(self).walks.wseq()[inv_sq[j].0 as int]
                            .take(inv_sq[j].1 + 1),
                forall|j: int| k <= j < n_inv
                    ==> self.walks.wseq()[(#[trigger] inv_sq[j]).0 as int]
                        == old(self).walks.wseq()[inv_sq[j].0 as int],
                forall|w2: int| 0 <= w2 < self.walks.wseq().len()
                    && !old(self).walks.wseq()[w2].contains(src)
                    ==> self.walks.wseq()[w2] == old(self).walks.wseq()[w2],
            decreases n_inv - k,
        {
            let pr = invalidated[k];
            let w = pr.0;
            let p = pr.1;
            proof {
                assert(self.walks.has_pair(src, w, p));
                assert(self.walks.pair_valid(src, w, p));
            }
            let cut = p + 1;
            let ghost s_a = *self;
            let wref = self.walks.get_walk(w);
            let ego = wref.get_node(0);
            let negs = self.graph.neg_edges_map(ego);
            update_negative_hits(&mut self.neg_hits, wref, &negs, true, self.alpha);
            revert_counters_for_walk_from_pos(&mut self.personal_hits, wref, cut);
            self.walks.cut_walk(w, cut);
            proof {
                let oldw = s_a.walks.wseq()[w as int];
                let neww = oldw.take(cut as int);
                assert(self.walks.wseq() =~= s_a.walks.wseq()
                    .update(w as int, neww));
                assert(neww.len() == cut);
                assert(neww[0] == oldw[0]);
                assert(ego == oldw[0]);
                // counters still equal the hit counts
                assert forall|e: NodeId, t: NodeId| self.personal_hits@.contains_key(e)
                    implies #[trigger] self.personal_hits@[e].count_of(t) as int
                        == hits_count(self.walks.wseq(), e, t) by {
                    lemma_hits_update(s_a.walks.wseq(), w as int, neww, e, t);
                    lemma_contains_split(oldw, cut as int, t);
                    assert forall|t2: NodeId| #[trigger] neww.contains(t2)
                        == oldw.take(cut as int).contains(t2) by {
                    }
                    if e == ego {
                        assert(ph_cell(self.personal_hits@, ego, t)
                            == self.personal_hits@[ego].count_of(t));
                        assert(ph_cell(s_a.personal_hits@, ego, t)
                            == s_a.personal_hits@[ego].count_of(t));
                        if suffix_only(oldw, cut as int, t) {
                            lemma_hits_elem(s_a.walks.wseq(), w as int, ego, t);
                            assert(oldw.contains(t));
                            assert(walk_hits(oldw, ego, t) == 1);
                            assert(s_a.personal_hits@[ego].count_of(t) >= 1);
                            assert(!neww.contains(t));
                            assert(walk_hits(neww, ego, t) == 0);
                        } else {
                            assert(neww.contains(t) == oldw.contains(t));
                            assert(walk_hits(neww, ego, t)
                                == walk_hits(oldw, ego, t));
                        }
                    } else {
                        assert(self.personal_hits@.contains_key(e)
                            == s_a.personal_hits@.contains_key(e));
                        assert(self.personal_hits@[e] == s_a.personal_hits@[e]);
                        assert(walk_hits(oldw, e, t) == 0);
                        assert(walk_hits(neww, e, t) == 0);
                    }
                }
                // every walk keeps a nonempty prefix and its tracked ego
                assert forall|j: int| 0 <= j < n_inv
                    implies (#[trigger] inv_sq[j]).0 < self.walks.wseq().len()
                        && self.walks.wseq()[inv_sq[j].0 as int].len() > 0 by {
                    if inv_sq[j].0 != w {
                        assert(self.walks.wseq()[inv_sq[j].0 as int]
                            == s_a.walks.wseq()[inv_sq[j].0 as int]);
                    }
                }
                assert(self.egos_tracked()) by {
                    assert forall|w2: int| 0 <= w2 < self.walks.wseq().len()
                        && (#[trigger] self.walks.wseq()[w2]).len() > 0
                        implies self.personal_hits@.contains_key(
                            self.walks.wseq()[w2][0]) by {
                        if w2 != w {
                            assert(self.walks.wseq()[w2] == s_a.walks.wseq()[w2]);
                        }
                    }
                }
                // pending pairs survive: their walks differ from this one
                assert forall|j: int| k + 1 <= j < n_inv
                    implies self.walks.has_pair(src, (#[trigger] inv_sq[j]).0,
                        inv_sq[j].1) by {
                    assert(crate::storage::pair_keys(inv_sq)[j] == inv_sq[j].0);
                    assert(crate::storage::pair_keys(inv_sq)[k as int] == w);
                    assert(inv_sq[j].0 != w);
                }
                // this walk is now exactly the cut prefix; the rest keep
                // their previous shape
                assert(s_a.walks.wseq()[w as int]
                    == old(self).walks.wseq()[w as int]);
                assert(self.walks.wseq()[w as int]
                    == old(self).walks.wseq()[w as int].take(p + 1));
                assert forall|j: int| 0 <= j < k
                    implies self.walks.wseq()[(#[trigger] inv_sq[j]).0 as int]
                        == old(self).walks.wseq()[inv_sq[j].0 as int]
                            .take(inv_sq[j].1 + 1) by {
                    assert(crate::storage::pair_keys(inv_sq)[j] == inv_sq[j].0);
                    assert(crate::storage::pair_keys(inv_sq)[k as int] == w);
                    assert(inv_sq[j].0 != w);
                    assert(self.walks.wseq()[inv_sq[j].0 as int]
                        == s_a.walks.wseq()[inv_sq[j].0 as int]);
                }
                assert forall|j: int| k + 1 <= j < n_inv
                    implies self.walks.wseq()[(#[trigger] inv_sq[j]).0 as int]
                        == old(self).walks.wseq()[inv_sq[j].0 as int] by {
                    assert(crate::storage::pair_keys(inv_sq)[j] == inv_sq[j].0);
                    assert(crate::storage::pair_keys(inv_sq)[k as int] == w);
                    assert(inv_sq[j].0 != w);
                    assert(self.walks.wseq()[inv_sq[j].0 as int]
                        == s_a.walks.wseq()[inv_sq[j].0 as int]);
                }
                assert forall|w2: int| 0 <= w2 < self.walks.wseq().len()
                    && !old(self).walks.wseq()[w2].contains(src)
                    implies self.walks.wseq()[w2]
                        == old(self).walks.wseq()[w2] by {
                    assert(old(self).walks.wseq()[w as int][p as int] == src);
                    assert(old(self).walks.wseq()[w as int].contains(src));
                    assert(w2 != w);
                    assert(self.walks.wseq()[w2] == s_a.walks.wseq()[w2]);
                }
            }
            k = k + 1;
        }
        let ghost s_mid = *self;
        if weight <= EPSILON {
            if self.graph.contains_edge(src, dst) {
                self.graph.remove_edge(src, dst);
            }
            proof {
                assert(self.graph.pos_map(src)
                    =~= old(self).graph.pos_map(src).remove(dst));
                assert(self.graph.neg_map(src) =~= old(self).graph.neg_map(src));
            }
        } else {
            self.graph.add_edge(src, dst, weight);
            proof {
                assert(self.graph.neg_map(src) =~= old(self).graph.neg_map(src));
            }
        }
        let ghost g2 = self.graph;
        proof {
            assert(self.wf());
            if prob > 0 {
                assert(weight > EPSILON);
                assert(g2.pos_map(src).contains_key(dst));
            }
        }
        let mut k2: usize = 0;
        while k2 < n_inv
            invariant
                self.wf(),
                self.graph == g2,
                self.alpha == old(self).alpha,
                self.walks.wseq().len() == old(self).walks.wseq().len(),
                n_inv == inv_sq.len(),
                invalidated@ == inv_sq,
                k2 <= n_inv,
                0 <= prob <= WEIGHT_UNIT,
                prob > 0 ==> g2.pos_map(src).contains_key(dst),
                crate::storage::pair_keys(inv_sq).no_duplicates(),
                forall|j: int| 0 <= j < n_inv
                    ==> (#[trigger] inv_sq[j]).0 < self.walks.wseq().len(),
                forall|j: int| 0 <= j < n_inv
                    ==> old(self).walks.pair_valid(src, (#[trigger] inv_sq[j]).0,
                        inv_sq[j].1),
                forall|j: int| k2 <= j < n_inv
                    ==> self.walks.wseq()[(#[trigger] inv_sq[j]).0 as int]
                        == old(self).walks.wseq()[inv_sq[j].0 as int]
                            .take(inv_sq[j].1 + 1),
                forall|j: int| 0 <= j < k2
                    ==> cut_and_regrown(g2, old(self).walks.wseq(),
                        self.walks.wseq(), src, (#[trigger] inv_sq[j]).0,
                        inv_sq[j].1),
                forall|w2: int| 0 <= w2 < self.walks.wseq().len()
                    && !old(self).walks.wseq()[w2].contains(src)
                    ==> self.walks.wseq()[w2] == old(self).walks.wseq()[w2],
            decreases n_inv - k2,
        {
            let pr = invalidated[k2];
            let w = pr.0;
            let ghost p = pr.1;
            let ghost s_b = *self;
            let force = if prob > 0 {
                Some(dst)
            } else {
                None
            };
            let rres = self.recalc_invalidated_walk(w, force,
                OPTIMIZE_INVALIDATION && weight <= EPSILON);
            proof {
                let oldw = old(self).walks.wseq()[w as int];
                let prew = s_b.walks.wseq()[w as int];
                assert(prew == oldw.take(p + 1));
                assert(p < oldw.len());
                assert(prew.len() == p + 1);
                if rres.is_err() {
                    assert(false);
                }
                let neww = self.walks.wseq()[w as int];
                assert(neww.take(p + 1) == prew);
                if neww.len() > p + 1 {
                    if prob > 0 {
                        assert(neww[p + 1] == dst);
                        assert(g2.pos_map(src).contains_key(neww[p + 1]));
                    } else {
                        assert(self.graph.pos_map(neww[p as int])
                            .contains_key(neww[p + 1]));
                        assert(neww[p as int] == prew[p as int]);
                        assert(prew[p as int] == oldw[p as int]);
                        assert(oldw[p as int] == src);
                    }
                }
                assert(cut_and_regrown(g2, old(self).walks.wseq(),
                    self.walks.wseq(), src, w, p));
                // the other slots keep their shape
                assert forall|j: int| k2 + 1 <= j < n_inv
                    implies self.walks.wseq()[(#[trigger] inv_sq[j]).0 as int]
                        == old(self).walks.wseq()[inv_sq[j].0 as int]
                            .take(inv_sq[j].1 + 1) by {
                    assert(crate::storage::pair_keys(inv_sq)[j] == inv_sq[j].0);
                    assert(crate::storage::pair_keys(inv_sq)[k2 as int] == w);
                    assert(inv_sq[j].0 != w);
                    assert(self.walks.wseq()[inv_sq[j].0 as int]
                        == s_b.walks.wseq()[inv_sq[j].0 as int]);
                }
                assert forall|j: int| 0 <= j < k2
                    implies cut_and_regrown(g2, old(self).walks.wseq(),
                        self.walks.wseq(), src, (#[trigger] inv_sq[j]).0,
                        inv_sq[j].1) by {
                    assert(crate::storage::pair_keys(inv_sq)[j] == inv_sq[j].0);
                    assert(crate::storage::pair_keys(inv_sq)[k2 as int] == w);
                    assert(inv_sq[j].0 != w);
                    assert(self.walks.wseq()[inv_sq[j].0 as int]
                        == s_b.walks.wseq()[inv_sq[j].0 as int]);
                }
                assert forall|w2: int| 0 <= w2 < self.walks.wseq().len()
                    && !old(self).walks.wseq()[w2].contains(src)
                    implies self.walks.wseq()[w2]
                        == old(self).walks.wseq()[w2] by {
                    assert(oldw[p as int] == src);
                    assert(oldw.contains(src));
                    assert(w2 != w);
                    assert(self.walks.wseq()[w2] == s_b.walks.wseq()[w2]);
                }
            }
            let wref = self.walks.get_walk(w);
            if wref.len() > 0 {
                let ego = wref.get_node(0);
                let negs = self.graph.neg_edges_map(ego);
                update_negative_hits(&mut self.neg_hits, wref, &negs, false,
                    self.alpha);
            }
            k2 = k2 + 1;
        }
        proof {
            assert forall|w: WalkId, p: usize|
                #[trigger] old(self).walks.has_pair(src, w, p)
                && p + 1 < old(self).walks.wseq()[w as int].len()
                && old(self).walks.wseq()[w as int][p + 1] == dst
                implies cut_and_regrown(self.graph, old(self).walks.wseq(),
                    self.walks.wseq(), src, w, p) by {
                assert(old(self).walks.natural_pair((w, p), Some(dst)));
                assert(inv_sq.contains((w, p)));
                let j = choose|j: int| 0 <= j < inv_sq.len() && inv_sq[j] == (w, p);
                assert(inv_sq[j].0 == w && inv_sq[j].1 == p);
            }
        }
    }
}

} // verus!

verus! {

impl<D: Copy + core::default::Default> MeritRank<D> {
    /// A previously absent edge takes a negative weight: store it and apply
    /// its penalties.
    fn zn(&mut self, src: NodeId, dst: NodeId, weight: Weight)
        requires
            old(self).wf(),
            src != dst,
            -MAX_WEIGHT <= weight < 0,
            old(self).graph.has_node(src),
            old(self).graph.has_node(dst),
            !old(self).graph.pos_map(src).contains_key(dst),
        ensures
            final(self).wf(),
            final(self).alpha == old(self).alpha,
            final(self).walks == old(self).walks,
            final(self).personal_hits == old(self).personal_hits,
            forall|m: NodeId| final(self).graph.nodes@.contains_key(m)
                == old(self).graph.nodes@.contains_key(m),
            forall|s2: NodeId| s2 != src && old(self).graph.has_node(s2)
                ==> final(self).graph.nodes@[s2] == old(self).graph.nodes@[s2],
            final(self).graph.pos_map(src) == old(self).graph.pos_map(src),
            final(self).graph.neg_map(src)
                == old(self).graph.neg_map(src).insert(dst, weight),
            final(self).graph.edge_weight_of(src, dst) == Some(weight),
    {
        self.graph.add_edge(src, dst, weight);
        proof {
            assert(self.graph.pos_map(src) =~= old(self).graph.pos_map(src));
        }
        self.update_penalties_for_edge(src, dst, false);
    }

    /// A negative edge goes away: take back its penalties and remove it.
    fn nz(&mut self, src: NodeId, dst: NodeId)
        requires
            old(self).wf(),
            old(self).graph.neg_map(src).contains_key(dst),
        ensures
            final(self).wf(),
            final(self).alpha == old(self).alpha,
            final(self).walks == old(self).walks,
            final(self).personal_hits == old(self).personal_hits,
            forall|m: NodeId| final(self).graph.nodes@.contains_key(m)
                == old(self).graph.nodes@.contains_key(m),
            forall|s2: NodeId| s2 != src && old(self).graph.has_node(s2)
                ==> final(self).graph.nodes@[s2] == old(self).graph.nodes@[s2],
            final(self).graph.pos_map(src) == old(self).graph.pos_map(src),
            final(self).graph.neg_map(src)
                == old(self).graph.neg_map(src).remove(dst),
            final(self).graph.edge_weight_of(src, dst).is_none(),
    {
        self.update_penalties_for_edge(src, dst, true);
        self.graph.remove_edge(src, dst);
        proof {
            assert(crate::graph::entry_wf(src, old(self).graph.nodes@[src]));
            assert(self.graph.pos_map(src) =~= old(self).graph.pos_map(src));
        }
    }

    /// Set the weight of the edge `src -> dest`, dispatching on the signs of
    /// the old and the new weight and keeping every counter and penalty
    /// table consistent with the surviving walks.
    pub fn add_edge(&mut self, src: NodeId, dest: NodeId, weight: Weight)
        requires
            old(self).wf(),
            src != dest,
            -MAX_WEIGHT <= weight <= MAX_WEIGHT,
        ensures
            final(self).wf(),
            final(self).alpha == old(self).alpha,
            ({
                let ow = match old(self).graph.edge_weight_of(src, dest) {
                    Some(w) => w,
                    None => 0,
                };
                &&& (ow == weight ==> *final(self) == *old(self))
                &&& (ow != weight ==> {
                    &&& final(self).graph.edge_weight_of(src, dest)
                        == if weight < 0 {
                            Some(weight)
                        } else if weight > EPSILON {
                            Some(weight)
                        } else {
                            None::<i64>
                        }
                    &&& forall|m: NodeId| final(self).graph.nodes@.contains_key(m)
                        == (old(self).graph.nodes@.contains_key(m)
                            || m == src || m == dest)
                    &&& forall|s2: NodeId| s2 != src && old(self).graph.has_node(s2)
                        ==> final(self).graph.nodes@[s2]
                            == old(self).graph.nodes@[s2]
                    &&& final(self).walks.wseq().len()
                        == old(self).walks.wseq().len()
                    // walks that never visit src are untouched
                    &&& forall|w: int| 0 <= w < old(self).walks.wseq().len()
                        && !old(self).walks.wseq()[w].contains(src)
                        ==> final(self).walks.wseq()[w]
                            == old(self).walks.wseq()[w]
                    // transitions among zero and negative weights never touch
                    // the walks
                    &&& (ow <= 0 && weight <= 0
                        ==> final(self).walks == old(self).walks)
                    // whenever the positive side changes, every walk that
                    // stepped src -> dest right after its first visit of src
                    // is cut there and regrown along the updated graph
                    &&& ((weight > 0 || ow > 0)
                        ==> forall|w: WalkId, p: usize|
                            #[trigger] old(self).walks.has_pair(src, w, p)
                            && p + 1 < old(self).walks.wseq()[w as int].len()
                            && old(self).walks.wseq()[w as int][p + 1] == dest
                            ==> cut_and_regrown(final(self).graph,
                                old(self).walks.wseq(), final(self).walks.wseq(),
                                src, w, p))
                })
            }),
    {
        let old_weight = match self.graph.edge_weight(src, dest) {
            Some(w) => w,
            None => 0,
        };
        if old_weight == weight {
            return;
        }
        proof {
            if old(self).graph.has_node(src) {
                assert(crate::graph::entry_wf(src, old(self).graph.nodes@[src]));
            }
        }
        if !self.graph.contains_node(src) {
            self.graph.add_node(src, Default::default());
        }
        let ghost c1 = *self;
        if !self.graph.contains_node(dest) {
            self.graph.add_node(dest, Default::default());
        }
        let ghost s1 = *self;
        proof {
            assert forall|s2: NodeId| s2 != src && old(self).graph.has_node(s2)
                implies self.graph.nodes@[s2] == old(self).graph.nodes@[s2] by {
                assert(c1.graph.nodes@[s2] == old(self).graph.nodes@[s2]);
                assert(c1.graph.has_node(s2));
                assert(self.graph.nodes@[s2] == c1.graph.nodes@[s2]);
            }
            assert(self.wf());
            assert(self.graph.edge_weight_of(src, dest)
                == old(self).graph.edge_weight_of(src, dest));
            assert(self.graph.pos_map(src) == old(self).graph.pos_map(src));
            assert(self.graph.neg_map(src) == old(self).graph.neg_map(src));
            assert(old_weight > 0 ==> self.graph.pos_map(src).contains_key(dest)
                && self.graph.pos_map(src)[dest] == old_weight);
            assert(old_weight < 0 ==> self.graph.neg_map(src).contains_key(dest)
                && self.graph.neg_map(src)[dest] == old_weight);
            assert(old_weight == 0 ==> !self.graph.pos_map(src).contains_key(dest)
                && !self.graph.neg_map(src).contains_key(dest));
            assert(-MAX_WEIGHT <= old_weight <= MAX_WEIGHT);
        }
        let old_sign = crate::types::sign(old_weight);
        let new_sign = crate::types::sign(weight);
        if old_sign == 0 {
            if new_sign > 0 {
                self.zp(src, dest, weight);
            } else {
                self.zn(src, dest, weight);
            }
        } else if old_sign > 0 {
            if new_sign == 0 {
                self.zp(src, dest, 0);
            } else if new_sign > 0 {
                self.zp(src, dest, weight);
            } else {
                self.zp(src, dest, 0);
                let ghost m1 = *self;
                self.zn(src, dest, weight);
                proof {
                    assert forall|s2: NodeId| s2 != src && s1.graph.has_node(s2)
                        implies self.graph.nodes@[s2] == s1.graph.nodes@[s2] by {
                        assert(m1.graph.nodes@[s2] == s1.graph.nodes@[s2]);
                        assert(m1.graph.nodes@.contains_key(s2)
                            == s1.graph.nodes@.contains_key(s2));
                        assert(m1.graph.has_node(s2));
                        assert(self.graph.nodes@[s2] == m1.graph.nodes@[s2]);
                    }
                }
            }
        } else {
            if new_sign == 0 {
                self.nz(src, dest);
            } else if new_sign > 0 {
                self.nz(src, dest);
                let ghost m1 = *self;
                self.zp(src, dest, weight);
                proof {
                    assert forall|s2: NodeId| s2 != src && s1.graph.has_node(s2)
                        implies self.graph.nodes@[s2] == s1.graph.nodes@[s2] by {
                        assert(m1.graph.nodes@[s2] == s1.graph.nodes@[s2]);
                        assert(m1.graph.nodes@.contains_key(s2)
                            == s1.graph.nodes@.contains_key(s2));
                        assert(m1.graph.has_node(s2));
                        assert(self.graph.nodes@[s2] == m1.graph.nodes@[s2]);
                    }
                }
            } else {
                self.nz(src, dest);
                let ghost m1 = *self;
                self.zn(src, dest, weight);
                proof {
                    assert forall|s2: NodeId| s2 != src && s1.graph.has_node(s2)
                        implies self.graph.nodes@[s2] == s1.graph.nodes@[s2] by {
                        assert(m1.graph.nodes@[s2] == s1.graph.nodes@[s2]);
                        assert(m1.graph.nodes@.contains_key(s2)
                            == s1.graph.nodes@.contains_key(s2));
                        assert(m1.graph.has_node(s2));
                        assert(self.graph.nodes@[s2] == m1.graph.nodes@[s2]);
                    }
                }
            }
        }
        proof {
            if weight < 0 {
                assert(self.graph.edge_weight_of(src, dest) == Some(weight));
            } else if weight > EPSILON {
                assert(self.graph.edge_weight_of(src, dest) == Some(weight));
            } else {
                assert(self.graph.edge_weight_of(src, dest).is_none());
            }
            assert forall|m: NodeId| self.graph.nodes@.contains_key(m)
                == (old(self).graph.nodes@.contains_key(m) || m == src
                    || m == dest) by {
            }
            assert forall|s2: NodeId| s2 != src && old(self).graph.has_node(s2)
                implies self.graph.nodes@[s2] == old(self).graph.nodes@[s2] by {
                assert(s1.graph.nodes@[s2] == old(self).graph.nodes@[s2]);
                assert(s1.graph.has_node(s2));
            }
        }
    }
}

} // verus!

verus! {

impl<D: Copy + core::default::Default> MeritRank<D> {
    /// The peers of `ego` that were hit at least once, each with its score,
    /// sorted by score from the highest down, cut to `limit` entries when one
    /// is given. Fails exactly when no walks were calculated for `ego`.
    pub fn get_ranks(&self, ego: NodeId, limit: Option<usize>)
        -> (r: Result<Vec<(NodeId, Score)>, MeritRankError>)
        requires
            self.wf(),
        ensures
            match r {
                Ok(v) => {
                    let nkeys = self.personal_hits@[ego].counts.pairs@.len();
                    &&& self.personal_hits@.contains_key(ego)
                    &&& forall|i: int, j: int| 0 <= i < j < v@.len()
                        ==> (#[trigger] v@[i]).1 >= (#[trigger] v@[j]).1
                    &&& forall|i: int| 0 <= i < v@.len()
                        ==> self.personal_hits@[ego].counts@.contains_key(
                                (#[trigger] v@[i]).0)
                            && v@[i].1 as int == self.score_of(ego, v@[i].0)
                    &&& forall|i: int, j: int| 0 <= i < v@.len() && 0 <= j < v@.len()
                        && i != j ==> (#[trigger] v@[i]).0 != (#[trigger] v@[j]).0
                    &&& v@.len() == match limit {
                        Some(l) => if l < nkeys { l as int } else { nkeys as int },
                        None => nkeys as int,
                    }
                    // the entries are the top of the ranking: every counter
                    // key left out scores no more than the last kept entry
                    &&& (v@.len() > 0 ==> forall|t: NodeId|
                        #[trigger] self.personal_hits@[ego].counts@.contains_key(t)
                        ==> (exists|i: int| 0 <= i < v@.len()
                                && (#[trigger] v@[i]).0 == t)
                            || self.score_of(ego, t) <= v@[v@.len() - 1].1)
                },
                Err(e) => e == MeritRankError::NodeDoesNotExist
                    && !self.personal_hits@.contains_key(ego),
            },
    {
        let counter = match self.personal_hits.get(ego) {
            Some(c) => c,
            None => {
                return Err(MeritRankError::NodeDoesNotExist);
            },
        };
        let keys = counter.keys();
        let total = keys.len();
        proof {
            assert(keys@ =~= counter.counts.key_seq());
        }
        let mut work: Vec<(NodeId, Score)> = Vec::new();
        let mut i: usize = 0;
        while i < total
            invariant
                self.wf(),
                self.personal_hits@.contains_key(ego),
                counter == self.personal_hits@[ego],
                total == keys@.len(),
                i <= total,
                keys@.no_duplicates(),
                forall|x: NodeId| keys@.contains(x) == counter.counts@.contains_key(x),
                work@.len() == i,
                forall|j: int| 0 <= j < i ==> (#[trigger] work@[j]).0 == keys@[j]
                    && work@[j].1 as int == self.score_of(ego, keys@[j]),
            decreases total - i,
        {
            let k = keys[i];
            let s = match self.get_node_score(ego, k) {
                Ok(s) => s,
                Err(_) => {
                    proof {
                        assert(false);
                    }
                    0
                },
            };
            work.push((k, s));
            i = i + 1;
        }
        let ghost all_len = total as int;
        let mut out: Vec<(NodeId, Score)> = Vec::new();
        proof {
            assert forall|a: int, b: int|
                0 <= a < work@.len() && 0 <= b < work@.len() && a != b
                implies (#[trigger] work@[a]).0 != (#[trigger] work@[b]).0 by {
                assert(work@[a].0 == keys@[a]);
                assert(work@[b].0 == keys@[b]);
            }
            assert forall|t: NodeId| #[trigger] counter.counts@.contains_key(t)
                implies exists|b: int| 0 <= b < work@.len()
                    && (#[trigger] work@[b]).0 == t by {
                assert(keys@.contains(t));
                let b = choose|b: int| 0 <= b < keys@.len() && keys@[b] == t;
                assert(work@[b].0 == t);
            }
        }
        while work.len() > 0
            invariant
                self.wf(),
                self.personal_hits@.contains_key(ego),
                counter == self.personal_hits@[ego],
                out@.len() + work@.len() == all_len,
                forall|a: int, b: int| 0 <= a < b < out@.len()
                    ==> (#[trigger] out@[a]).1 >= (#[trigger] out@[b]).1,
                forall|a: int| 0 <= a < out@.len()
                    ==> counter.counts@.contains_key((#[trigger] out@[a]).0)
                        && out@[a].1 as int == self.score_of(ego, out@[a].0),
                forall|a: int| 0 <= a < work@.len()
                    ==> counter.counts@.contains_key((#[trigger] work@[a]).0)
                        && work@[a].1 as int == self.score_of(ego, work@[a].0),
                forall|a: int, b: int| 0 <= a < out@.len() && 0 <= b < out@.len()
                    && a != b ==> (#[trigger] out@[a]).0 != (#[trigger] out@[b]).0,
                forall|a: int, b: int| 0 <= a < work@.len() && 0 <= b < work@.len()
                    && a != b ==> (#[trigger] work@[a]).0 != (#[trigger] work@[b]).0,
                forall|a: int, b: int| 0 <= a < out@.len() && 0 <= b < work@.len()
                    ==> (#[trigger] out@[a]).0 != (#[trigger] work@[b]).0,
                forall|b: int| out@.len() > 0 && 0 <= b < work@.len()
                    ==> out@[out@.len() - 1].1 >= (#[trigger] work@[b]).1,
                forall|t: NodeId| #[trigger] counter.counts@.contains_key(t)
                    ==> (exists|a: int| 0 <= a < out@.len()
                            && (#[trigger] out@[a]).0 == t)
                        || (exists|b: int| 0 <= b < work@.len()
                            && (#[trigger] work@[b]).0 == t),
            decreases work@.len(),
        {
            let wn = work.len();
            let mut mx: usize = 0;
            let mut j: usize = 1;
            while j < wn
                invariant
                    wn == work@.len(),
                    mx < wn,
                    j <= wn,
                    1 <= j,
                    forall|a: int| 0 <= a < j
                        ==> work@[mx as int].1 >= (#[trigger] work@[a]).1,
                decreases wn - j,
            {
                if work[j].1 > work[mx].1 {
                    mx = j;
                }
                j = j + 1;
            }
            let ghost pre_work = work@;
            let ghost pre_out = out@;
            let item = work.swap_remove(mx);
            out.push(item);
            proof {
                assert(item == pre_work[mx as int]);
                assert(out@ == pre_out.push(item));
                assert forall|a: int| 0 <= a < work@.len()
                    implies exists|b: int| 0 <= b < pre_work.len()
                        && #[trigger] work@[a] == pre_work[b] && b != mx by {
                    if a == mx && mx < pre_work.len() - 1 {
                        assert(work@[a] == pre_work[pre_work.len() - 1]);
                    } else {
                        assert(work@[a] == pre_work[a]);
                    }
                }
                assert forall|a: int, b: int|
                    0 <= a < work@.len() && 0 <= b < work@.len() && a != b
                    implies (#[trigger] work@[a]).0 != (#[trigger] work@[b]).0 by {
                    let a0 = if a == mx && mx < pre_work.len() - 1 {
                        pre_work.len() - 1
                    } else {
                        a
                    };
                    let b0 = if b == mx && mx < pre_work.len() - 1 {
                        pre_work.len() - 1
                    } else {
                        b
                    };
                    assert(work@[a] == pre_work[a0]);
                    assert(work@[b] == pre_work[b0]);
                }
                assert forall|a: int| 0 <= a < work@.len()
                    implies counter.counts@.contains_key((#[trigger] work@[a]).0)
                        && work@[a].1 as int == self.score_of(ego, work@[a].0)
                        && (#[trigger] work@[a]).1 <= item.1 by {
                    let b = choose|b: int| 0 <= b < pre_work.len()
                        && #[trigger] work@[a] == pre_work[b] && b != mx;
                }
                assert forall|a: int, b: int| 0 <= a < out@.len()
                    && 0 <= b < work@.len()
                    implies (#[trigger] out@[a]).0 != (#[trigger] work@[b]).0 by {
                    let b0 = choose|b0: int| 0 <= b0 < pre_work.len()
                        && #[trigger] work@[b] == pre_work[b0] && b0 != mx;
                    if a < pre_out.len() {
                        assert(out@[a] == pre_out[a]);
                    } else {
                        assert(out@[a] == pre_work[mx as int]);
                        assert(pre_work[b0].0 != pre_work[mx as int].0);
                    }
                }
                assert forall|t: NodeId| #[trigger] counter.counts@.contains_key(t)
                    implies (exists|a: int| 0 <= a < out@.len()
                            && (#[trigger] out@[a]).0 == t)
                        || (exists|b: int| 0 <= b < work@.len()
                            && (#[trigger] work@[b]).0 == t) by {
                    if exists|a: int| 0 <= a < pre_out.len()
                        && (#[trigger] pre_out[a]).0 == t {
                        let a = choose|a: int| 0 <= a < pre_out.len()
                            && (#[trigger] pre_out[a]).0 == t;
                        assert(out@[a].0 == t);
                    } else {
                        let b = choose|b: int| 0 <= b < pre_work.len()
                            && (#[trigger] pre_work[b]).0 == t;
                        if b == mx {
                            assert(out@[out@.len() - 1].0 == t);
                        } else if b == pre_work.len() - 1 {
                            if mx < pre_work.len() - 1 {
                                assert(work@[mx as int] == pre_work[b]);
                            } else {
                                assert(false);
                            }
                        } else {
                            assert(work@[b] == pre_work[b]);
                        }
                    }
                }
            }
        }
        let ghost full = out@;
        proof {
            assert forall|t: NodeId| #[trigger] counter.counts@.contains_key(t)
                implies exists|a: int| 0 <= a < full.len()
                    && (#[trigger] full[a]).0 == t by {
            }
        }
        match limit {
            Some(l) => {
                if l < out.len() {
                    out.truncate(l);
                    proof {
                        assert(out@ =~= full.take(l as int));
                    }
                }
            },
            None => {},
        }
        proof {
            assert(out@ =~= full.take(out@.len() as int));
            if out@.len() > 0 {
                assert forall|t: NodeId|
                    #[trigger] counter.counts@.contains_key(t)
                    implies (exists|i: int| 0 <= i < out@.len()
                            && (#[trigger] out@[i]).0 == t)
                        || self.score_of(ego, t) <= out@[out@.len() - 1].1 by {
                    let a = choose|a: int| 0 <= a < full.len()
                        && (#[trigger] full[a]).0 == t;
                    if a < out@.len() {
                        assert(out@[a].0 == t);
                    } else {
                        assert(full[a].1 as int == self.score_of(ego, t));
                        assert(full[out@.len() - 1].1 >= full[a].1);
                        assert(out@[out@.len() - 1] == full[out@.len() - 1]);
                    }
                }
            }
        }
        Ok(out)
    }
}

} // verus!

verus! {

impl<D: Copy + core::default::Default> MeritRank<D> {
    /// Counter sanity: for every ego with a counter, every cell equals the
    /// number of that ego's walks that visit the target, and the stored
    /// total equals the sum of all cells.
    pub proof fn lemma_counter_sanity(self, ego: NodeId)
        requires
            self.wf(),
            self.personal_hits@.contains_key(ego),
        ensures
            forall|t: NodeId| #[trigger] self.personal_hits@[ego].count_of(t) as int
                == hits_count(self.walks.wseq(), ego, t),
            self.personal_hits@[ego].total as int
                == sum_counts(self.personal_hits@[ego].counts.pairs@),
    {
    }

    /// Visits index: the index holds `(w, p)` under `n` exactly when
    /// position `p` is the first visit of walk `w` to `n`.
    pub proof fn lemma_visits_index(self, n: NodeId, w: WalkId, p: usize)
        requires
            self.wf(),
        ensures
            self.walks.has_pair(n, w, p) == self.walks.pair_valid(n, w, p),
    {
        if self.walks.has_pair(n, w, p) {
            let lst = self.walks.visits@[n]@;
            let j = choose|j: int| 0 <= j < lst.len() && lst[j] == (w, p);
            assert(self.walks.entry_list_wf(n));
            assert(self.walks.pair_valid(n, (lst[j]).0, lst[j].1));
        }
        if self.walks.pair_valid(n, w, p) {
            assert(self.walks.wseq()[w as int][p as int] == n);
            assert(self.walks.has_pair(n, w, p));
        }
    }

    /// Non-negativity: no counter cell is ever below zero.
    pub proof fn lemma_counters_nonnegative(self, ego: NodeId, t: NodeId)
        requires
            self.wf(),
        ensures
            self.personal_hits@.contains_key(ego)
                ==> self.personal_hits@[ego].count_of(t) >= 0,
    {
    }

    /// Score range: with no penalty component, a score lies within
    /// `[0, WEIGHT_UNIT]`, the fixed-point unit interval.
    pub proof fn lemma_score_range(self, ego: NodeId, t: NodeId)
        requires
            self.wf(),
            self.personal_hits@.contains_key(ego),
            nh_val(self.neg_hits@, ego, t) == 0,
        ensures
            0 <= self.score_of(ego, t) <= WEIGHT_UNIT,
    {
        let c = self.personal_hits@[ego];
        let h = c.count_of(t) as int;
        let total = c.total as int;
        if c.counts@.contains_key(t) {
            c.counts.lemma_contains_at(t);
            crate::counter::lemma_sum_elem(c.counts.pairs@,
                c.counts.key_seq().index_of(t));
            assert(h <= total);
        } else {
            crate::counter::lemma_sum_nonneg(c.counts.pairs@);
            assert(h == 0);
        }
        if total > 0 {
            assert(0 <= (h * (WEIGHT_UNIT as int)) / total <= WEIGHT_UNIT)
                by (nonlinear_arith)
                requires
                    0 <= h <= total,
                    total > 0,
                    WEIGHT_UNIT == 1_000_000_000i64,
            ;
        }
    }

    /// Self-loop rejection: the graph representation cannot hold an edge
    /// from a node to itself.
    pub proof fn lemma_no_self_loops(self, n: NodeId)
        requires
            self.wf(),
        ensures
            self.graph.edge_weight_of(n, n).is_none(),
    {
        if self.graph.has_node(n) {
            assert(crate::graph::entry_wf(n, self.graph.nodes@[n]));
            if self.graph.pos_map(n).contains_key(n) {
                assert(false);
            }
            if self.graph.neg_map(n).contains_key(n) {
                assert(false);
            }
        }
    }
}

} // verus!

verus! {

/// Sum, over the walk slots, of the number of distinct nodes in each walk
/// of `e`.
pub open spec fn walks_distinct_total(ws: Seq<Seq<NodeId>>, e: NodeId) -> int
    decreases ws.len(),
{
    if ws.len() == 0 {
        0
    } else {
        walks_distinct_total(ws.drop_last(), e) + if ws.last().len() > 0
            && ws.last()[0] == e {
            distinct_count(ws.last()) as int
        } else {
            0
        }
    }
}

/// Sum of the hit counts of the listed targets.
pub open spec fn sum_hits(keys: Seq<NodeId>, ws: Seq<Seq<NodeId>>, e: NodeId) -> int
    decreases keys.len(),
{
    if keys.len() == 0 {
        0
    } else {
        sum_hits(keys.drop_last(), ws, e) + hits_count(ws, e, keys.last())
    }
}

/// Sum of one walk's contributions to the listed targets.
pub open spec fn walk_key_hits(keys: Seq<NodeId>, w: Seq<NodeId>, e: NodeId) -> int
    decreases keys.len(),
{
    if keys.len() == 0 {
        0
    } else {
        walk_key_hits(keys.drop_last(), w, e) + walk_hits(w, e, keys.last())
    }
}

/// The keys of a counter's cells, in storage order.
pub open spec fn cell_keys(s: Seq<(usize, u64)>) -> Seq<NodeId> {
    s.map_values(|p: (usize, u64)| p.0)
}

/// The distinct-node count of a walk is the size of its node set.
pub proof fn lemma_distinct_count_is_set_len(w: Seq<NodeId>)
    ensures
        distinct_count(w) == w.to_set().len(),
    decreases w.len(),
{
    broadcast use vstd::set::group_set_axioms;
    if w.len() == 0 {
        assert(w.to_set() =~= Set::<NodeId>::empty());
    } else {
        let wp = w.drop_last();
        lemma_distinct_count_is_set_len(wp);
        vstd::seq_lib::seq_to_set_is_finite::<NodeId>(wp);
        assert forall|x: NodeId| #[trigger] w.to_set().contains(x)
            == (wp.to_set().contains(x) || x == w.last()) by {
            if w.contains(x) {
                let i = choose|i: int| 0 <= i < w.len() && w[i] == x;
                if i < w.len() - 1 {
                    assert(wp[i] == x);
                    assert(wp.contains(x));
                }
            }
            if wp.contains(x) {
                let i = choose|i: int| 0 <= i < wp.len() && wp[i] == x;
                assert(w[i] == x);
                assert(w.contains(x));
            }
            if x == w.last() {
                assert(w.contains(x));
            }
        }
        assert(w.to_set() =~= wp.to_set().insert(w.last()));
        assert(wp.to_set().contains(w.last()) == wp.contains(w.last()));
    }
}

/// One ego walk's contribution over a set of distinct keys is the number of
/// keys it visits.
pub proof fn lemma_walk_key_hits_intersect(keys: Seq<NodeId>, w: Seq<NodeId>, e: NodeId)
    requires
        keys.no_duplicates(),
        w.len() > 0,
        w[0] == e,
    ensures
        walk_key_hits(keys, w, e) == keys.to_set().intersect(w.to_set()).len(),
    decreases keys.len(),
{
    broadcast use vstd::set::group_set_axioms;
    vstd::seq_lib::seq_to_set_is_finite::<NodeId>(w);
    if keys.len() == 0 {
        assert(keys.to_set() =~= Set::<NodeId>::empty());
        assert(keys.to_set().intersect(w.to_set()) =~= Set::<NodeId>::empty());
    } else {
        let kp = keys.drop_last();
        let t0 = keys.last();
        assert forall|a: int, b: int|
            0 <= a < kp.len() && 0 <= b < kp.len() && a != b
            implies kp[a] != kp[b] by {
            assert(kp[a] == keys[a]);
            assert(kp[b] == keys[b]);
        }
        lemma_walk_key_hits_intersect(kp, w, e);
        vstd::seq_lib::seq_to_set_is_finite::<NodeId>(kp);
        let sp = kp.to_set().intersect(w.to_set());
        let sf = keys.to_set().intersect(w.to_set());
        assert(sp.subset_of(kp.to_set()));
        vstd::set_lib::lemma_set_subset_finite::<NodeId>(kp.to_set(), sp);
        assert(!kp.contains(t0)) by {
            if kp.contains(t0) {
                let i = choose|i: int| 0 <= i < kp.len() && kp[i] == t0;
                assert(keys[i] == t0);
                assert(keys[keys.len() - 1] == t0);
            }
        }
        assert forall|x: NodeId| #[trigger] keys.to_set().contains(x)
            == (kp.to_set().contains(x) || x == t0) by {
            if keys.contains(x) {
                let i = choose|i: int| 0 <= i < keys.len() && keys[i] == x;
                if i < keys.len() - 1 {
                    assert(kp[i] == x);
                    assert(kp.contains(x));
                }
            }
            if kp.contains(x) {
                let i = choose|i: int| 0 <= i < kp.len() && kp[i] == x;
                assert(keys[i] == x);
                assert(keys.contains(x));
            }
            if x == t0 {
                assert(keys.contains(x));
            }
        }
        if w.contains(t0) {
            assert(walk_hits(w, e, t0) == 1);
            assert(sf =~= sp.insert(t0));
            assert(!sp.contains(t0));
            assert(sf.len() == sp.len() + 1);
        } else {
            assert(walk_hits(w, e, t0) == 0);
            assert(sf =~= sp);
        }
    }
}

/// When the keys cover every node the ego walk visits, its contribution is
/// its distinct-node count.
pub proof fn lemma_walk_key_hits_covered(keys: Seq<NodeId>, w: Seq<NodeId>, e: NodeId)
    requires
        keys.no_duplicates(),
        w.len() > 0,
        w[0] == e,
        forall|t: NodeId| #[trigger] w.contains(t) ==> keys.contains(t),
    ensures
        walk_key_hits(keys, w, e) == distinct_count(w),
{
    broadcast use vstd::set::group_set_axioms;
    lemma_walk_key_hits_intersect(keys, w, e);
    assert(keys.to_set().intersect(w.to_set()) =~= w.to_set());
    lemma_distinct_count_is_set_len(w);
}

/// A walk of another ego contributes nothing.
pub proof fn lemma_walk_key_hits_zero(keys: Seq<NodeId>, w: Seq<NodeId>, e: NodeId)
    requires
        !(w.len() > 0 && w[0] == e),
    ensures
        walk_key_hits(keys, w, e) == 0,
    decreases keys.len(),
{
    if keys.len() > 0 {
        lemma_walk_key_hits_zero(keys.drop_last(), w, e);
    }
}

/// Peeling the last walk slot out of a hit-count sum.
pub proof fn lemma_sum_hits_peel(keys: Seq<NodeId>, ws: Seq<Seq<NodeId>>, e: NodeId)
    requires
        ws.len() > 0,
    ensures
        sum_hits(keys, ws, e) == sum_hits(keys, ws.drop_last(), e)
            + walk_key_hits(keys, ws.last(), e),
    decreases keys.len(),
{
    if keys.len() > 0 {
        lemma_sum_hits_peel(keys.drop_last(), ws, e);
    }
}

/// With no walk slots there are no hits.
pub proof fn lemma_sum_hits_zero_arena(keys: Seq<NodeId>, ws: Seq<Seq<NodeId>>, e: NodeId)
    requires
        ws.len() == 0,
    ensures
        sum_hits(keys, ws, e) == 0,
    decreases keys.len(),
{
    if keys.len() > 0 {
        lemma_sum_hits_zero_arena(keys.drop_last(), ws, e);
    }
}

/// Exchanging the two sums: over covering distinct keys, the total of the hit
/// counts equals the total of the per-walk distinct-node counts.
pub proof fn lemma_sum_hits_walks(keys: Seq<NodeId>, ws: Seq<Seq<NodeId>>, e: NodeId)
    requires
        keys.no_duplicates(),
        forall|i: int, t: NodeId| 0 <= i < ws.len() && ws[i].len() > 0
            && ws[i][0] == e && #[trigger] ws[i].contains(t) ==> keys.contains(t),
    ensures
        sum_hits(keys, ws, e) == walks_distinct_total(ws, e),
    decreases ws.len(),
{
    if ws.len() == 0 {
        lemma_sum_hits_zero_arena(keys, ws, e);
    } else {
        lemma_sum_hits_peel(keys, ws, e);
        assert forall|i: int, t: NodeId| 0 <= i < ws.drop_last().len()
            && ws.drop_last()[i].len() > 0 && ws.drop_last()[i][0] == e
            && #[trigger] ws.drop_last()[i].contains(t)
            implies keys.contains(t) by {
            assert(ws.drop_last()[i] == ws[i]);
            assert(ws[i].contains(t));
        }
        lemma_sum_hits_walks(keys, ws.drop_last(), e);
        let lw = ws.last();
        if lw.len() > 0 && lw[0] == e {
            assert(ws[ws.len() - 1] == lw);
            assert forall|t: NodeId| #[trigger] lw.contains(t)
                implies keys.contains(t) by {
            }
            lemma_walk_key_hits_covered(keys, lw, e);
        } else {
            lemma_walk_key_hits_zero(keys, lw, e);
        }
    }
}

/// The sum of the cells equals the sum of the hit counts of the keys.
pub proof fn lemma_sum_cells_as_hits(s: Seq<(usize, u64)>, ws: Seq<Seq<NodeId>>,
    e: NodeId)
    requires
        forall|j: int| 0 <= j < s.len()
            ==> (#[trigger] s[j]).1 as int == hits_count(ws, e, s[j].0),
    ensures
        sum_counts(s) == sum_hits(cell_keys(s), ws, e),
    decreases s.len(),
{
    if s.len() > 0 {
        assert forall|j: int| 0 <= j < s.drop_last().len()
            implies (#[trigger] s.drop_last()[j]).1 as int
                == hits_count(ws, e, s.drop_last()[j].0) by {
            assert(s.drop_last()[j] == s[j]);
        }
        lemma_sum_cells_as_hits(s.drop_last(), ws, e);
        assert(cell_keys(s).drop_last() =~= cell_keys(s.drop_last()));
        assert(cell_keys(s).last() == s.last().0);
    }
}

impl<D: Copy + core::default::Default> MeritRank<D> {
    /// The stored counter total equals the sum, over the ego's walks, of the
    /// number of distinct nodes each walk visits.
    pub proof fn lemma_counter_total_walks_form(self, ego: NodeId)
        requires
            self.wf(),
            self.personal_hits@.contains_key(ego),
        ensures
            self.personal_hits@[ego].total as int
                == walks_distinct_total(self.walks.wseq(), ego),
    {
        let c = self.personal_hits@[ego];
        let ws = self.walks.wseq();
        let ks = cell_keys(c.counts.pairs@);
        assert forall|j: int| 0 <= j < c.counts.pairs@.len()
            implies (#[trigger] c.counts.pairs@[j]).1 as int
                == hits_count(ws, ego, c.counts.pairs@[j].0) by {
            c.counts.lemma_key_at(j);
            assert(c.count_of(c.counts.pairs@[j].0) == c.counts.pairs@[j].1);
        }
        lemma_sum_cells_as_hits(c.counts.pairs@, ws, ego);
        assert(ks =~= c.counts.key_seq());
        assert(ks.no_duplicates());
        assert forall|i: int, t: NodeId| 0 <= i < ws.len()
            && ws[i].len() > 0 && ws[i][0] == ego && #[trigger] ws[i].contains(t)
            implies ks.contains(t) by {
            lemma_hits_elem(ws, i, ego, t);
            assert(walk_hits(ws[i], ego, t) == 1);
            assert(hits_count(ws, ego, t) >= 1);
            assert(c.count_of(t) as int == hits_count(ws, ego, t));
            assert(c.counts@.contains_key(t));
            c.counts.lemma_contains_at(t);
            let j = c.counts.key_seq().index_of(t);
            assert(ks[j] == t);
        }
        lemma_sum_hits_walks(ks, ws, ego);
    }
}

} // verus!
