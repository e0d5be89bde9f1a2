use meritrank::bloom::{bloom_filter_add, bloom_filter_bits, bloom_filter_contains};
use meritrank::graph::Graph;
use meritrank::ops::{AugGraphOp, AugGraphOpcode, Response, ServiceRequestOpcode};
use meritrank::rank::{MeritRank, Neighbors};
use meritrank::types::{sign, WEIGHT_UNIT};

#[test]
fn bloom_filter_roundtrip() {
    let bits_a = bloom_filter_bits(32, 10, 12345);
    let bits_b = bloom_filter_bits(32, 10, 54321);
    assert_eq!(bits_a.len(), 32);
    assert_eq!(bits_b.len(), 32);
    // the same identity always hashes to the same bits
    assert_eq!(bits_a, bloom_filter_bits(32, 10, 12345));
    // distinct identities give distinct masks for these sizes
    assert_ne!(bits_a, bits_b);

    let mut mask = vec![0u64; 32];
    bloom_filter_add(&mut mask, &bits_a).unwrap();
    assert_eq!(bloom_filter_contains(&mask, &bits_a), Ok(true));
    assert_eq!(bloom_filter_contains(&mask, &bits_b), Ok(false));
    bloom_filter_add(&mut mask, &bits_b).unwrap();
    assert_eq!(bloom_filter_contains(&mask, &bits_b), Ok(true));
}

#[test]
fn bloom_filter_width_mismatch() {
    let bits = bloom_filter_bits(8, 3, 7);
    let mut mask = vec![0u64; 9];
    assert_eq!(bloom_filter_add(&mut mask, &bits), Err(()));
    assert_eq!(bloom_filter_contains(&mask, &bits), Err(()));
}

#[test]
fn sign_of_weights() {
    assert_eq!(sign(WEIGHT_UNIT), 1);
    assert_eq!(sign(-1), -1);
    assert_eq!(sign(0), 0);
}

#[test]
fn random_choice_picks_a_candidate() {
    let values = vec![10usize, 20, 30];
    let weights = vec![1i64, 1, 1_000_000];
    for _ in 0..20 {
        let pick = MeritRank::<u64>::random_choice(&values, &weights).unwrap();
        assert!(values.contains(&pick));
    }
    // zero-weight entries are allowed but never chosen
    for _ in 0..20 {
        let pick = MeritRank::<u64>::random_choice(&values, &vec![1i64, 0, 1]).unwrap();
        assert!(pick == 10 || pick == 30);
    }
    // invalid weightings are refused
    assert!(MeritRank::<u64>::random_choice(&values, &vec![1i64, 2]).is_none());
    assert!(MeritRank::<u64>::random_choice(&vec![], &vec![]).is_none());
    assert!(MeritRank::<u64>::random_choice(&values, &vec![0i64, 0, 0]).is_none());
    assert!(MeritRank::<u64>::random_choice(&values, &vec![1i64, -1, 1]).is_none());
}

#[test]
fn neighbors_weighted_by_sign() {
    let mut mr = MeritRank::<u64>::new(Graph::new()).unwrap();
    mr.add_node(1, 0);
    mr.add_node(2, 0);
    mr.add_node(3, 0);
    mr.add_edge(1, 2, WEIGHT_UNIT);
    mr.add_edge(1, 3, -WEIGHT_UNIT / 2);

    let pos = mr.neighbors_weighted(1, Neighbors::Positive).unwrap();
    assert_eq!(pos.get(2), Some(&WEIGHT_UNIT));
    assert_eq!(pos.get(3), None);

    let neg = mr.neighbors_weighted(1, Neighbors::Negative).unwrap();
    assert_eq!(neg.get(3), Some(&(-WEIGHT_UNIT / 2)));
    assert_eq!(neg.get(2), None);

    let all = mr.neighbors_weighted(1, Neighbors::All).unwrap();
    assert_eq!(all.get(2), Some(&WEIGHT_UNIT));
    assert_eq!(all.get(3), Some(&(-WEIGHT_UNIT / 2)));

    assert!(mr.neighbors_weighted(2, Neighbors::Positive).is_none());
    assert!(mr.neighbors_weighted(9, Neighbors::All).is_none());
}

#[test]
fn graph_edge_buckets() {
    let mut g: Graph<u64> = Graph::new();
    g.add_node(1, 0);
    g.add_node(2, 0);
    assert!(g.check_self_reference().is_ok());
    g.add_edge(1, 2, 5);
    assert_eq!(g.edge_weight(1, 2), Some(5));
    assert!(g.contains_edge(1, 2));
    g.add_edge(1, 2, -7);
    assert_eq!(g.edge_weight(1, 2), Some(-7));
    g.remove_edge(1, 2);
    assert_eq!(g.edge_weight(1, 2), None);
    assert!(!g.contains_edge(1, 2));
    assert!(g.contains_node(1));
    assert!(!g.contains_node(3));
    assert_eq!(g.get_node_data(1), Some(0));
}

#[test]
fn service_opcodes() {
    assert!(ServiceRequestOpcode::ReadScores.is_read());
    assert!(!ServiceRequestOpcode::WriteEdge.is_read());
    let op = AugGraphOp::new(AugGraphOpcode::WriteEdge, "ego".to_string());
    assert_eq!(op.opcode, AugGraphOpcode::WriteEdge);
    assert_eq!(op.ego_str, "ego");
    let r = Response { response: 9 };
    assert_eq!(r, Response { response: 9 });
}
