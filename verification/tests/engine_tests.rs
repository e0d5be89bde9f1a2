use meritrank::errors::MeritRankError;
use meritrank::graph::Graph;
use meritrank::rank::MeritRank;
use meritrank::types::{Score, WEIGHT_UNIT};

const A: usize = 0;
const B: usize = 1;
const C: usize = 2;
const D: usize = 3;
const N_WALKS: usize = 10_000;

fn unit(x: f64) -> i64 {
    (x * WEIGHT_UNIT as f64) as i64
}

fn engine() -> MeritRank<u64> {
    MeritRank::new(Graph::new()).unwrap()
}

fn s1_engine() -> MeritRank<u64> {
    let mut mr = engine();
    mr.add_node(A, 0);
    mr.add_node(B, 0);
    mr.add_node(C, 0);
    mr.add_edge(A, B, unit(1.0));
    mr.add_edge(B, C, unit(1.0));
    mr
}

fn hit(mr: &MeritRank<u64>, ego: usize, t: usize) -> u64 {
    mr.get_personal_hits().get(ego).unwrap().get_count(t)
}

fn neg_hit(mr: &MeritRank<u64>, ego: usize, t: usize) -> i128 {
    match mr.neg_hits.get(ego) {
        Some(em) => match em.get(t) {
            Some(v) => *v,
            None => 0,
        },
        None => 0,
    }
}

#[test]
fn s1_two_hop_chain() {
    let mut mr = s1_engine();
    mr.calculate(A, N_WALKS).unwrap();
    let h_a = hit(&mr, A, A);
    let h_b = hit(&mr, A, B);
    let h_c = hit(&mr, A, C);
    assert_eq!(h_a, N_WALKS as u64);
    // a walk reaches B with probability alpha = 0.85, C with alpha^2
    assert!(h_b >= 8350 && h_b <= 8650, "h_b = {}", h_b);
    assert!(h_c >= 7050 && h_c <= 7400, "h_c = {}", h_c);
    let s_b = mr.get_node_score(A, B).unwrap();
    let s_c = mr.get_node_score(A, C).unwrap();
    assert!(s_b > s_c);
    // exact score formula against the exposed counters
    let total = mr.get_personal_hits().get(A).unwrap().total_count() as i128;
    assert_eq!(s_b, (h_b as i128 * WEIGHT_UNIT as i128) / total);
    assert_eq!(s_c, (h_c as i128 * WEIGHT_UNIT as i128) / total);
}

#[test]
fn s2_symmetric_fork() {
    let mut mr = engine();
    mr.add_node(A, 0);
    mr.add_node(B, 0);
    mr.add_node(C, 0);
    mr.add_edge(A, B, unit(1.0));
    mr.add_edge(A, C, unit(1.0));
    mr.calculate(A, N_WALKS).unwrap();
    let h_b = hit(&mr, A, B) as i64;
    let h_c = hit(&mr, A, C) as i64;
    // each side takes about alpha/2 of the walks
    assert!(h_b >= 3900 && h_b <= 4600, "h_b = {}", h_b);
    assert!(h_c >= 3900 && h_c <= 4600, "h_c = {}", h_c);
    assert!((h_b - h_c).abs() < 400, "gap = {}", h_b - h_c);
}

#[test]
fn s3_incremental_edge_addition() {
    let mut mr = s1_engine();
    mr.calculate(A, N_WALKS).unwrap();
    let s_c_before = mr.get_node_score(A, C).unwrap();
    let h_b_before = hit(&mr, A, B);
    mr.add_edge(A, C, unit(1.0));
    let s_c_after = mr.get_node_score(A, C).unwrap();
    let h_b_after = hit(&mr, A, B);
    assert!(s_c_after > s_c_before, "{} vs {}", s_c_after, s_c_before);
    // walks re-routed to C can only take hits away from B
    assert!(h_b_after <= h_b_before);
}

#[test]
fn s4_negative_edge_penalty() {
    let mut mr = s1_engine();
    mr.add_node(D, 0);
    mr.add_edge(B, D, unit(1.0));
    mr.add_edge(A, D, unit(-1.0));
    mr.calculate(A, N_WALKS).unwrap();
    let p_d = neg_hit(&mr, A, D);
    assert!(p_d < 0, "penalty = {}", p_d);
    let h_d = hit(&mr, A, D) as i128;
    let total = mr.get_personal_hits().get(A).unwrap().total_count() as i128;
    let s_d = mr.get_node_score(A, D).unwrap();
    // the penalty pulls the score below the bare hit fraction
    assert!(s_d < (h_d * WEIGHT_UNIT as i128) / total);
    // exact score formula including the penalty
    let num = h_d * WEIGHT_UNIT as i128 + p_d;
    let expect = if num >= 0 { num / total } else { -((-num) / total) };
    assert_eq!(s_d, expect);
}

#[test]
fn s5_edge_removal_collapses_score() {
    let mut mr = s1_engine();
    mr.calculate(A, N_WALKS).unwrap();
    mr.add_edge(A, C, unit(1.0));
    let s_c_with_edge = mr.get_node_score(A, C).unwrap();
    mr.add_edge(A, C, 0);
    let s_c_after = mr.get_node_score(A, C).unwrap();
    assert!(s_c_after < s_c_with_edge, "{} vs {}", s_c_after, s_c_with_edge);
    // every remaining first visit of C by a walk of A sits past position 1
    for (w, p) in mr.walks.get_visits_through_node(C) {
        let walk = mr.walks.get_walk(w);
        if walk.first_node() == Some(A) {
            assert!(p != 1, "walk {} still visits C at position 1", w);
        }
    }
}

#[test]
fn s6_sign_flip() {
    let mut mr = s1_engine();
    mr.calculate(A, N_WALKS).unwrap();
    let s_b_before = mr.get_node_score(A, B).unwrap();
    mr.add_edge(A, B, unit(-0.5));
    let s_b_after = mr.get_node_score(A, B).unwrap();
    assert!(s_b_after < s_b_before, "{} vs {}", s_b_after, s_b_before);
    assert!(neg_hit(&mr, A, B) <= 0);
    assert_eq!(mr.get_edge(A, B), Some(unit(-0.5)));
}

#[test]
fn batch_equivalence_of_build_orders() {
    let mut mr1 = engine();
    mr1.add_node(A, 0);
    mr1.add_node(B, 0);
    mr1.add_node(C, 0);
    mr1.add_edge(A, B, unit(1.0));
    mr1.add_edge(B, C, unit(1.0));
    mr1.calculate(A, N_WALKS).unwrap();

    let mut mr2 = engine();
    mr2.add_node(C, 0);
    mr2.add_edge(B, C, unit(1.0));
    mr2.add_node(A, 0);
    mr2.add_node(B, 0);
    mr2.add_edge(A, B, unit(1.0));
    mr2.calculate(A, N_WALKS).unwrap();

    let h1 = hit(&mr1, A, B) as i64;
    let h2 = hit(&mr2, A, B) as i64;
    assert!((h1 - h2).abs() < 450, "{} vs {}", h1, h2);
}

#[test]
fn add_edge_equal_weight_is_idempotent() {
    let mut mr = s1_engine();
    mr.calculate(A, N_WALKS).unwrap();
    mr.add_edge(A, C, unit(0.25));
    let ranks_once = mr.get_ranks(A, None).unwrap();
    let edge_once = mr.get_edge(A, C);
    mr.add_edge(A, C, unit(0.25));
    let ranks_twice = mr.get_ranks(A, None).unwrap();
    assert_eq!(edge_once, mr.get_edge(A, C));
    assert_eq!(ranks_once, ranks_twice);
}

#[test]
fn get_ranks_is_sorted_and_limited() {
    let mut mr = s1_engine();
    mr.add_node(D, 0);
    mr.add_edge(B, D, unit(0.5));
    mr.calculate(A, N_WALKS).unwrap();
    let ranks = mr.get_ranks(A, None).unwrap();
    assert!(ranks.len() >= 3);
    for pair in ranks.windows(2) {
        assert!(pair[0].1 >= pair[1].1);
    }
    let top2 = mr.get_ranks(A, Some(2)).unwrap();
    assert_eq!(top2.len(), 2);
    assert_eq!(top2[0], ranks[0]);
    assert_eq!(top2[1], ranks[1]);
    let wide = mr.get_ranks(A, Some(1000)).unwrap();
    assert_eq!(wide.len(), ranks.len());
}

#[test]
fn errors_on_missing_state() {
    let mut mr = engine();
    assert_eq!(mr.calculate(77, 10), Err(MeritRankError::NodeDoesNotExist));
    assert_eq!(mr.get_node_score(77, 1).unwrap_err(),
        MeritRankError::NodeIsNotCalculated);
    assert!(mr.get_ranks(77, None).is_err());
    assert_eq!(mr.get_node_data(77).unwrap_err(), MeritRankError::NodeDoesNotExist);
    mr.add_node(5, 42);
    assert_eq!(mr.get_node_data(5), Ok(42));
    assert_eq!(mr.get_edge(5, 6), None);
}

#[test]
fn calculate_with_zero_walks_gives_zero_scores() {
    let mut mr = s1_engine();
    mr.calculate(A, 0).unwrap();
    assert_eq!(mr.get_node_score(A, B), Ok(0));
    assert_eq!(mr.get_ranks(A, None).unwrap().len(), 0);
}

#[test]
fn scores_stay_in_unit_interval_without_negative_edges() {
    let mut mr = s1_engine();
    mr.add_node(D, 0);
    mr.add_edge(C, D, unit(0.7));
    mr.add_edge(B, D, unit(0.1));
    mr.calculate(A, 2_000).unwrap();
    for t in [A, B, C, D] {
        let s: Score = mr.get_node_score(A, t).unwrap();
        assert!(s >= 0);
        assert!(s <= WEIGHT_UNIT as i128);
    }
}

#[test]
fn penalty_is_exact_per_hit() {
    // A -> B -> X -> C positively, and A rates X negatively. Every walk
    // visits X at most once, right before any visit to C, so the penalty
    // tables take exact per-hit values: the full weight on X itself and one
    // damping factor on C.
    const X: usize = 4;
    let mut mr = engine();
    for n in [A, B, C, X] {
        mr.add_node(n, 0);
    }
    mr.add_edge(A, B, unit(1.0));
    mr.add_edge(B, X, unit(1.0));
    mr.add_edge(X, C, unit(1.0));
    mr.add_edge(A, X, unit(-1.0));
    mr.calculate(A, 3_000).unwrap();

    let h_x = hit(&mr, A, X) as i128;
    let h_c = hit(&mr, A, C) as i128;
    assert!(h_x > 0);
    assert!(h_c > 0);
    let w = WEIGHT_UNIT as i128;
    let alpha = meritrank::types::DEFAULT_ALPHA as i128;
    assert_eq!(neg_hit(&mr, A, X), -h_x * w);
    assert_eq!(neg_hit(&mr, A, C), -h_c * ((w * alpha) / w));
}

#[test]
fn recalc_of_empty_walk_fails() {
    let mut mr = s1_engine();
    mr.calculate(A, 10).unwrap();
    let id = mr.walks.get_next_free_walkid();
    assert_eq!(mr.recalc_invalidated_walk(id, None, false),
        Err(MeritRankError::InvalidWalkLength));
    assert_eq!(mr.recalc_invalidated_walk(id, Some(B), true),
        Err(MeritRankError::InvalidWalkLength));
}
