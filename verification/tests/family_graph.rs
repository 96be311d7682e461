use chessviz2::family::{build_table, FamilyKey};
use chessviz2::graph::{
    build_graph, can_add_piece, can_promote_to, can_remove_major, can_remove_minor,
    can_remove_piece, EdgeMeta, EdgeType, FamilyGraph,
};
use petgraph::graph::NodeIndex;

fn build_test_graph() -> FamilyGraph {
    let families = build_table();
    build_graph(&families)
}

fn node(key: FamilyKey) -> NodeIndex {
    NodeIndex::new(key.index())
}

fn get_edge<'a>(graph: &'a FamilyGraph, k1: FamilyKey, k2: FamilyKey) -> Option<&'a EdgeMeta> {
    graph.find_edge(node(k1), node(k2)).map(|e| graph.edge_weight(e).unwrap())
}

fn weight(meta: &EdgeMeta) -> f32 {
    meta.layout_weight as f32 / 100.0
}

#[test]
fn edge_count_plausibility() {
    let g = build_test_graph();
    let ec = g.edge_count();
    assert!(ec > 10_000, "too few edges: {ec}");
    assert!(ec < 500_000, "suspiciously many edges: {ec}");
}

#[test]
fn no_self_edges() {
    let g = build_test_graph();
    for e in g.edge_indices() {
        let (a, b) = g.edge_endpoints(e).unwrap();
        assert_ne!(a, b, "self-edge at node {a:?}");
    }
}

#[test]
fn starting_family_has_bminor_edge() {
    let g = build_test_graph();
    let start = FamilyKey { wnp_band: 8, bnp_band: 8, wp: 8, bp: 8 };
    let neighbor = FamilyKey { wnp_band: 7, bnp_band: 8, wp: 8, bp: 8 };
    let meta = get_edge(&g, start, neighbor)
        .expect("expected BMinor edge from starting family to (7,8,8,8)");
    assert!(
        meta.edge_types.contains(&EdgeType::BMinor),
        "edge missing BMinor type; got {:?}",
        meta.edge_types
    );
}

#[test]
fn pawn_capture_edge_has_c_and_d_with_correct_weight() {
    let g = build_test_graph();
    let f1 = FamilyKey { wnp_band: 8, bnp_band: 8, wp: 8, bp: 8 };
    let f2 = FamilyKey { wnp_band: 8, bnp_band: 8, wp: 8, bp: 7 };
    let meta = get_edge(&g, f1, f2).expect("expected C/D edge");
    assert!(meta.edge_types.contains(&EdgeType::C), "missing C");
    assert!(meta.edge_types.contains(&EdgeType::D), "missing D");
    assert!(
        (weight(meta) - 0.35).abs() < 1e-6,
        "expected weight 0.35, got {}",
        weight(meta)
    );
}

#[test]
fn weight_aggregation_uses_max() {
    let g = build_test_graph();
    let f1 = FamilyKey { wnp_band: 5, bnp_band: 5, wp: 4, bp: 4 };
    let f2 = FamilyKey { wnp_band: 4, bnp_band: 5, wp: 4, bp: 4 };
    let meta = get_edge(&g, f1, f2).expect("expected BMinor+BMajor edge");
    assert!(meta.edge_types.contains(&EdgeType::BMinor), "missing BMinor");
    assert!(meta.edge_types.contains(&EdgeType::BMajor), "missing BMajor");
    assert!(
        (weight(meta) - 0.30).abs() < 1e-6,
        "expected weight 0.30, got {}",
        weight(meta)
    );
}

#[test]
fn promotion_edge_is_type_e() {
    let g = build_test_graph();
    let f1 = FamilyKey { wnp_band: 0, bnp_band: 0, wp: 1, bp: 0 };
    let f2 = FamilyKey { wnp_band: 1, bnp_band: 0, wp: 0, bp: 0 };
    let meta = get_edge(&g, f1, f2).expect("expected E edge for bare promotion");
    assert!(meta.edge_types.contains(&EdgeType::E), "missing E type");
    assert!(
        (weight(meta) - 0.02).abs() < 1e-6,
        "expected weight 0.02, got {}",
        weight(meta)
    );
}

#[test]
fn node_count_is_6561() {
    let g = build_test_graph();
    assert_eq!(g.node_count(), 6561);
}

// ── Further checks of the graph layer ─────────────────────────────────────

#[test]
fn nodes_carry_keys_in_index_order() {
    let g = build_test_graph();
    for i in [0usize, 1, 80, 729, 6560] {
        assert_eq!(g[NodeIndex::new(i)], FamilyKey::from_index(i));
    }
}

#[test]
fn edges_join_lower_index_first_and_are_unique() {
    let g = build_test_graph();
    let mut seen = std::collections::HashSet::new();
    for e in g.edge_indices() {
        let (a, b) = g.edge_endpoints(e).unwrap();
        assert!(a.index() < b.index());
        assert!(seen.insert((a.index(), b.index())), "duplicate edge {a:?}-{b:?}");
        let meta = g.edge_weight(e).unwrap();
        assert!(!meta.edge_types.is_empty());
    }
}

#[test]
fn edges_are_undirected_and_band_jumps_bounded() {
    let g = build_test_graph();
    // (6,5,4,4) -> (5,5,4,4) is a capture; the edge is found from either end.
    let a = FamilyKey { wnp_band: 5, bnp_band: 5, wp: 4, bp: 4 };
    let b = FamilyKey { wnp_band: 6, bnp_band: 5, wp: 4, bp: 4 };
    assert!(get_edge(&g, a, b).is_some());
    assert!(get_edge(&g, b, a).is_some());
    // No single capture takes band 8 [27-31] down to band 0.
    let far = FamilyKey { wnp_band: 0, bnp_band: 5, wp: 4, bp: 4 };
    assert!(get_edge(&g, FamilyKey { wnp_band: 8, bnp_band: 5, wp: 4, bp: 4 }, far).is_none());
}

#[test]
fn capturing_promotion_edge() {
    let g = build_test_graph();
    // White pawn promotes (band 0 -> 1) while capturing a black pawn.
    let f1 = FamilyKey { wnp_band: 0, bnp_band: 0, wp: 1, bp: 1 };
    let f2 = FamilyKey { wnp_band: 1, bnp_band: 0, wp: 0, bp: 0 };
    let meta = get_edge(&g, f1, f2).expect("expected F-with-C edge");
    assert_eq!(meta.edge_types, vec![EdgeType::FWithC]);
    assert_eq!(meta.layout_weight, 2);
}

#[test]
fn v0_weights_in_hundredths() {
    assert_eq!(EdgeType::D.v0_weight(), 35);
    assert_eq!(EdgeType::BMinor.v0_weight(), 30);
    assert_eq!(EdgeType::BMajor.v0_weight(), 10);
    assert_eq!(EdgeType::C.v0_weight(), 8);
    assert_eq!(EdgeType::E.v0_weight(), 2);
    assert_eq!(EdgeType::FWithBMinor.v0_weight(), 2);
    assert_eq!(EdgeType::FWithBMajor.v0_weight(), 2);
    assert_eq!(EdgeType::FWithC.v0_weight(), 2);
}

#[test]
fn edge_meta_takes_max_weight() {
    let m = EdgeMeta::from_types(vec![EdgeType::C, EdgeType::D, EdgeType::E]);
    assert_eq!(m.layout_weight, 35);
    assert_eq!(m.edge_types, vec![EdgeType::C, EdgeType::D, EdgeType::E]);
    let m = EdgeMeta::from_types(vec![EdgeType::BMajor]);
    assert_eq!(m.layout_weight, 10);
}

#[test]
fn band_reachability_helpers() {
    // Band 8 [27-31] minus 3 reaches [24-28]: overlaps band 7 [21-26].
    assert!(can_remove_piece(8, 7, 3));
    assert!(can_remove_minor(8, 7));
    // Band 8 minus 3 cannot reach band 5 [12-15].
    assert!(!can_remove_piece(8, 5, 3));
    // A piece worth more than every value of the band cannot be removed.
    assert!(!can_remove_piece(1, 0, 5));
    // Same-band captures are not band-crossing.
    assert!(!can_remove_minor(5, 5));
    assert!(can_remove_major(5, 4));
    // Band 0 plus 3 lands in band 1; band 8 plus 9 exceeds 31.
    assert!(can_add_piece(0, 1, 3));
    assert!(!can_add_piece(8, 8, 9));
    assert!(can_promote_to(0, 1));
    assert!(!can_promote_to(1, 1));
    assert!(!can_promote_to(0, 8));
}

#[test]
fn lone_king_taking_last_pawn_is_an_edge() {
    // The black king takes white's last pawn: bare kings remain.
    let g = build_test_graph();
    let f1 = FamilyKey { wnp_band: 0, bnp_band: 0, wp: 1, bp: 0 };
    let f2 = FamilyKey { wnp_band: 0, bnp_band: 0, wp: 0, bp: 0 };
    let meta = get_edge(&g, f1, f2).expect("expected C edge for a king capture");
    assert_eq!(meta.edge_types, vec![EdgeType::C]);
    assert_eq!(meta.layout_weight, 8);
    // With pawns on both sides, a king capture and a pawn capture both apply.
    let f3 = FamilyKey { wnp_band: 0, bnp_band: 0, wp: 1, bp: 1 };
    let f4 = FamilyKey { wnp_band: 0, bnp_band: 0, wp: 1, bp: 0 };
    let meta = get_edge(&g, f3, f4).expect("expected C/D edge");
    assert_eq!(meta.edge_types, vec![EdgeType::C, EdgeType::D]);
}
