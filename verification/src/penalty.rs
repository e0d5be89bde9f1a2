//! Penalty projection of a walk: each visit to a negatively-rated node
//! spreads that node's weight over the rest of the walk with geometric decay,
//! by a fixed deterministic formula, so that applying and reverting the same
//! projection cancel exactly.

use vstd::prelude::*;
use crate::assoc::AssocMap;
use crate::types::{NodeId, MAX_WEIGHT, MAX_WALK_LEN, WEIGHT_UNIT};
use crate::walk::RandomWalk;

verus! {

/// Largest penalty magnitude one walk can accumulate on one node.
pub const PEN_LIMIT: i128 = 65_536 * 65_536 * 1_000_000_000_000_000;

/// The integer contents of a penalty accumulator.
pub open spec fn acc_view(m: AssocMap<i128>) -> Map<usize, int> {
    m@.map_values(|v: i128| v as int)
}

/// The cell of `k`, zero when absent.
pub open spec fn acc_val(acc: Map<usize, int>, k: usize) -> int {
    if acc.contains_key(k) {
        acc[k]
    } else {
        0
    }
}

/// Add `d` into the cell of `k`.
pub open spec fn acc_add(acc: Map<usize, int>, k: usize, d: int) -> Map<usize, int> {
    acc.insert(k, acc_val(acc, k) + d)
}

/// One decay step of a penalty magnitude.
pub open spec fn decay1(mag: int, alpha: int) -> int {
    (mag * alpha) / (WEIGHT_UNIT as int)
}

pub proof fn lemma_decay_bounds(mag: int, alpha: int)
    requires
        0 <= mag,
        0 < alpha <= WEIGHT_UNIT,
    ensures
        0 <= decay1(mag, alpha) <= mag,
{
    assert(0 <= (mag * alpha) / (WEIGHT_UNIT as int) <= mag) by (nonlinear_arith)
        requires
            0 <= mag,
            0 < alpha <= WEIGHT_UNIT,
    ;
}

/// Spread a penalty of magnitude `mag` from position `j` over the rest of the
/// walk, decaying at each step.
pub open spec fn apply_run(acc: Map<usize, int>, w: Seq<NodeId>, j: int, mag: int,
    alpha: int) -> Map<usize, int>
    decreases w.len() - j when j >= 0
{
    if j < 0 || j >= w.len() {
        acc
    } else {
        apply_run(acc_add(acc, w[j], -mag), w, j + 1, decay1(mag, alpha), alpha)
    }
}

/// Walk the positions from `i` on; each visit to a key of `negs` starts a
/// decaying run of its magnitude.
pub open spec fn penalties_from(acc: Map<usize, int>, w: Seq<NodeId>, i: int,
    negs: Map<usize, i64>, alpha: int) -> Map<usize, int>
    decreases w.len() - i when i >= 0
{
    if i < 0 || i >= w.len() {
        acc
    } else {
        let acc2 = if negs.contains_key(w[i]) {
            apply_run(acc, w, i, -(negs[w[i]] as int), alpha)
        } else {
            acc
        };
        penalties_from(acc2, w, i + 1, negs, alpha)
    }
}

/// The penalty each node of the walk receives from the negative weights
/// `negs`, as one map. Every cell is at most zero.
pub open spec fn spec_penalties(w: Seq<NodeId>, negs: Map<usize, i64>, alpha: int)
    -> Map<usize, int>
{
    penalties_from(Map::empty(), w, 0, negs, alpha)
}

impl RandomWalk {
    /// Compute the penalty projection of this walk for the negative weights
    /// `negs`.
    pub fn calculate_penalties(&self, negs: &AssocMap<i64>, alpha: i64)
        -> (r: AssocMap<i128>)
        requires
            negs.wf(),
            forall|t: NodeId| #[trigger] negs@.contains_key(t)
                ==> -MAX_WEIGHT <= negs@[t] < 0,
            0 < alpha <= WEIGHT_UNIT,
            self@.len() <= MAX_WALK_LEN,
        ensures
            r.wf(),
            acc_view(r) == spec_penalties(self@, negs@, alpha as int),
            forall|t: NodeId| #[trigger] r@.contains_key(t)
                ==> -PEN_LIMIT <= r@[t] <= 0,
    {
        let wl = self.len();
        let mut acc: AssocMap<i128> = AssocMap::new();
        let ghost goal = spec_penalties(self@, negs@, alpha as int);
        let ghost mut steps: int = 0;
        proof {
            assert(acc_view(acc) =~= Map::<usize, int>::empty());
        }
        let mut i: usize = 0;
        while i < wl
            invariant
                wl == self@.len(),
                wl <= MAX_WALK_LEN,
                i <= wl,
                negs.wf(),
                forall|t: NodeId| #[trigger] negs@.contains_key(t)
                    ==> -MAX_WEIGHT <= negs@[t] < 0,
                0 < alpha <= WEIGHT_UNIT,
                acc.wf(),
                penalties_from(acc_view(acc), self@, i as int, negs@, alpha as int) == goal,
                0 <= steps <= i * (MAX_WALK_LEN as int),
                forall|t: NodeId| #[trigger] acc@.contains_key(t)
                    ==> -(steps * MAX_WEIGHT) <= acc@[t] <= 0,
            decreases wl - i,
        {
            let node = self.get_node(i);
            match negs.get(node) {
                Some(wneg) => {
                    let w0: i64 = *wneg;
                    let mut mag: i128 = -(w0 as i128);
                    let ghost pre_acc = acc_view(acc);
                    let ghost pre_steps = steps;
                    let mut j: usize = i;
                    while j < wl
                        invariant
                            wl == self@.len(),
                            wl <= MAX_WALK_LEN,
                            i <= j <= wl,
                            i < wl,
                            0 < alpha <= WEIGHT_UNIT,
                            acc.wf(),
                            0 <= mag <= MAX_WEIGHT,
                            apply_run(acc_view(acc), self@, j as int, mag as int,
                                alpha as int)
                                == apply_run(pre_acc, self@, i as int,
                                    mag_start(w0), alpha as int),
                            steps == pre_steps + (j - i),
                            0 <= pre_steps <= i * (MAX_WALK_LEN as int),
                            forall|t: NodeId| #[trigger] acc@.contains_key(t)
                                ==> -(steps * MAX_WEIGHT) <= acc@[t] <= 0,
                        decreases wl - j,
                    {
                        let nd = self.get_node(j);
                        proof {
                            assert(steps < (MAX_WALK_LEN as int) * (MAX_WALK_LEN as int))
                                by (nonlinear_arith)
                                requires
                                    steps == pre_steps + (j - i),
                                    0 <= pre_steps <= i * (MAX_WALK_LEN as int),
                                    0 <= i < wl,
                                    i <= j < wl,
                                    wl <= MAX_WALK_LEN,
                            ;
                            assert((steps + 1) * MAX_WEIGHT <= PEN_LIMIT)
                                by (nonlinear_arith)
                                requires
                                    steps + 1 <= (MAX_WALK_LEN as int)
                                        * (MAX_WALK_LEN as int),
                                    0 <= steps,
                            ;
                            assert(steps * MAX_WEIGHT + MAX_WEIGHT
                                == (steps + 1) * MAX_WEIGHT) by (nonlinear_arith);
                        }
                        let ghost before = acc;
                        let cur: i128 = match acc.get(nd) {
                            Some(v) => *v,
                            None => 0,
                        };
                        acc.insert(nd, cur - mag);
                        proof {
                            assert(acc_view(acc) =~= acc_add(acc_view(before), nd,
                                -(mag as int)));
                            assert(apply_run(acc_view(before), self@, j as int,
                                mag as int, alpha as int)
                                == apply_run(acc_view(acc), self@, j as int + 1,
                                    decay1(mag as int, alpha as int), alpha as int));
                            lemma_decay_bounds(mag as int, alpha as int);
                        }
                        let next_mag: i128 = (mag * (alpha as i128))
                            / (WEIGHT_UNIT as i128);
                        mag = next_mag;
                        proof {
                            steps = pre_steps + (j - i) + 1;
                        }
                        j = j + 1;
                    }
                    proof {
                        assert(apply_run(acc_view(acc), self@, j as int, mag as int,
                            alpha as int) == acc_view(acc));
                        assert(penalties_from(acc_view(acc), self@, i as int + 1,
                            negs@, alpha as int) == goal);
                        assert(steps <= (i as int + 1) * (MAX_WALK_LEN as int))
                            by (nonlinear_arith)
                            requires
                                steps == pre_steps + (j - i),
                                0 <= pre_steps <= i * (MAX_WALK_LEN as int),
                                0 <= i,
                                i <= j,
                                j <= MAX_WALK_LEN,
                        ;
                    }
                },
                None => {
                    proof {
                        assert(penalties_from(acc_view(acc), self@, i as int + 1,
                            negs@, alpha as int) == goal);
                        assert(steps <= (i as int + 1) * (MAX_WALK_LEN as int))
                            by (nonlinear_arith)
                            requires
                                0 <= steps <= i * (MAX_WALK_LEN as int),
                                0 <= i,
                        ;
                    }
                },
            }
            i = i + 1;
        }
        proof {
            assert(acc_view(acc) == goal);
            assert forall|t: NodeId| #[trigger] acc@.contains_key(t)
                implies -PEN_LIMIT <= acc@[t] <= 0 by {
                assert(steps * MAX_WEIGHT <= PEN_LIMIT) by (nonlinear_arith)
                    requires
                        0 <= steps <= (MAX_WALK_LEN as int) * (MAX_WALK_LEN as int),
                ;
            }
        }
        acc
    }
}

/// The starting magnitude of a run for the negative weight `w0`.
pub open spec fn mag_start(w0: i64) -> int {
    -(w0 as int)
}

} // verus!
