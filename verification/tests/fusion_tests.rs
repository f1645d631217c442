use quojo_rust::graph::{EdgeType, NodeIndex, SpiderType, ZXError, ZXGraph};

const FULL: f64 = 4294967296.0;
const TAU: f64 = 2.0 * std::f64::consts::PI;

fn units(rad: f64) -> i64 {
    ((rad / TAU) * FULL).round() as i64
}

fn radians(u: u64) -> f64 {
    (u as f64) / FULL * TAU
}

fn sorted_neighbor_slots(g: &ZXGraph, n: NodeIndex) -> Vec<usize> {
    let mut slots: Vec<usize> = g.neighbors(n).unwrap().iter().map(|h| h.slot).collect();
    slots.sort();
    slots
}

#[test]
fn two_spiders_fuse_into_one() {
    // Two Z(1.0) spiders joined by one regular edge: one fusion, one
    // node of phase 2.0 (below a full turn, so unwrapped), no edges.
    let mut g = ZXGraph::new();
    let n1 = g.add_node(SpiderType::Z, units(1.0));
    let n2 = g.add_node(SpiderType::Z, units(1.0));
    g.add_edge(n1, n2, EdgeType::Regular).unwrap();
    assert_eq!(g.fuse_spiders(), 1);
    let survivors = g.node_handles();
    assert_eq!(survivors.len(), 1);
    assert_eq!(g.edge_handles().len(), 0);
    let (kind, phase) = g.node_data(survivors[0]).unwrap();
    assert_eq!(kind, SpiderType::Z);
    assert_eq!(phase as i64, 2 * units(1.0));
    assert!((radians(phase) - 2.0).abs() < 1e-6);
}

#[test]
fn fusion_phase_law_wraps_past_full_turn() {
    // 1.5*pi + 1.0*pi = 2.5*pi, which normalizes to 0.5*pi exactly.
    let mut g = ZXGraph::new();
    let n1 = g.add_node(SpiderType::Z, units(1.5 * std::f64::consts::PI));
    let n2 = g.add_node(SpiderType::Z, units(1.0 * std::f64::consts::PI));
    g.add_edge(n1, n2, EdgeType::Regular).unwrap();
    assert_eq!(g.fuse_spiders(), 1);
    let survivors = g.node_handles();
    let (_, phase) = g.node_data(survivors[0]).unwrap();
    assert_eq!(phase as i64, units(0.5 * std::f64::consts::PI));
}

#[test]
fn fusion_edge_union_keeps_parallel_edges() {
    // A joined to {C, D} plus the fusing edge to B; B joined to {D, E}
    // plus the fusing edge to A. The survivor ends with edges to
    // {C, D, D, E} (two parallel edges to D), and B is gone.
    let mut g = ZXGraph::new();
    let a = g.add_node(SpiderType::Z, 0);
    let b = g.add_node(SpiderType::Z, 0);
    let c = g.add_node(SpiderType::X, 0);
    let d = g.add_node(SpiderType::X, 0);
    let e = g.add_node(SpiderType::X, 0);
    g.add_edge(a, c, EdgeType::Regular).unwrap();
    g.add_edge(a, d, EdgeType::Regular).unwrap();
    g.add_edge(b, d, EdgeType::Regular).unwrap();
    g.add_edge(b, e, EdgeType::Regular).unwrap();
    let fusing = g.add_edge(a, b, EdgeType::Regular).unwrap();
    g.fuse_spider_pair(a, b, fusing).unwrap();
    assert!(g.node_data(b).is_none());
    assert_eq!(g.node_handles().len(), 4);
    assert_eq!(sorted_neighbor_slots(&g, a), vec![c.slot, d.slot, d.slot, e.slot]);
}

#[test]
fn five_cycle_manual_fusion() {
    // Five Z spiders with phases 1.0..5.0 and edges
    // 0-1, 0-3, 1-2, 1-4, 3-4, 3-2, 4-2. Fusing n0 and n1 must
    // succeed, leave one node fewer, and give the survivor the union
    // of both incident sets minus the fusing edge.
    let mut g = ZXGraph::new();
    let n: Vec<NodeIndex> =
        (0..5).map(|i| g.add_node(SpiderType::Z, units(1.0 + i as f64))).collect();
    let e01 = g.add_edge(n[0], n[1], EdgeType::Regular).unwrap();
    g.add_edge(n[0], n[3], EdgeType::Regular).unwrap();
    g.add_edge(n[1], n[2], EdgeType::Regular).unwrap();
    g.add_edge(n[1], n[4], EdgeType::Regular).unwrap();
    g.add_edge(n[3], n[4], EdgeType::Regular).unwrap();
    g.add_edge(n[3], n[2], EdgeType::Regular).unwrap();
    g.add_edge(n[4], n[2], EdgeType::Regular).unwrap();
    let r = g.fuse_spider_pair(n[0], n[1], e01);
    assert_ne!(r, Err(ZXError::KindMismatch));
    assert_eq!(r, Ok(()));
    assert_eq!(g.node_handles().len(), 4);
    assert!(g.node_data(n[1]).is_none());
    // Survivor n0 takes n1's edges to n2 and n4 beside its own to n3.
    assert_eq!(sorted_neighbor_slots(&g, n[0]), vec![n[2].slot, n[3].slot, n[4].slot]);
    let (_, phase) = g.node_data(n[0]).unwrap();
    assert_eq!(phase as i64, units(1.0) + units(2.0));
}

#[test]
fn saturation_is_idempotent() {
    // Once fuse_spiders has exhausted all candidates, a second call
    // finds none and reports zero.
    let mut g = ZXGraph::new();
    let n: Vec<NodeIndex> = (0..4).map(|i| g.add_node(SpiderType::Z, units(i as f64))).collect();
    g.add_edge(n[0], n[1], EdgeType::Regular).unwrap();
    g.add_edge(n[1], n[2], EdgeType::Regular).unwrap();
    g.add_edge(n[2], n[3], EdgeType::Regular).unwrap();
    let first = g.fuse_spiders();
    assert!(first > 0);
    assert_eq!(g.fuse_spiders(), 0);
}

#[test]
fn fuse_spiders_on_empty_graph_returns_zero() {
    let mut g = ZXGraph::new();
    assert_eq!(g.fuse_spiders(), 0);
}

#[test]
fn fusion_count_is_bounded_by_nodes_minus_one() {
    // A chain of five same-kind spiders collapses with at most four
    // fusions (here exactly four).
    let mut g = ZXGraph::new();
    let n: Vec<NodeIndex> = (0..5).map(|i| g.add_node(SpiderType::Z, units(i as f64))).collect();
    for w in n.windows(2) {
        g.add_edge(w[0], w[1], EdgeType::Regular).unwrap();
    }
    let count = g.fuse_spiders();
    assert!(count <= 4);
    assert_eq!(count, 4);
    assert_eq!(g.node_handles().len(), 1);
}

#[test]
fn lowest_slot_node_survives() {
    let mut g = ZXGraph::new();
    let a = g.add_node(SpiderType::Z, 0);
    let b = g.add_node(SpiderType::Z, 0);
    // The edge lists the higher slot first; the tie-break still picks
    // the lower slot as survivor.
    g.add_edge(b, a, EdgeType::Regular).unwrap();
    assert_eq!(g.fuse_spiders(), 1);
    assert!(g.node_data(a).is_some());
    assert!(g.node_data(b).is_none());
}

#[test]
fn hadamard_edges_are_not_candidates() {
    let mut g = ZXGraph::new();
    let a = g.add_node(SpiderType::Z, 0);
    let b = g.add_node(SpiderType::Z, 0);
    g.add_edge(a, b, EdgeType::Hadamard).unwrap();
    assert_eq!(g.fuse_spiders(), 0);
    assert_eq!(g.node_handles().len(), 2);
}

#[test]
fn different_kinds_are_not_candidates() {
    let mut g = ZXGraph::new();
    let a = g.add_node(SpiderType::Z, 0);
    let b = g.add_node(SpiderType::X, 0);
    g.add_edge(a, b, EdgeType::Regular).unwrap();
    assert_eq!(g.fuse_spiders(), 0);
}

#[test]
fn decorative_spiders_never_fuse() {
    let mut g = ZXGraph::new();
    let a = g.add_node(SpiderType::Decorative, 0);
    let b = g.add_node(SpiderType::Decorative, 0);
    g.add_edge(a, b, EdgeType::Regular).unwrap();
    assert_eq!(g.fuse_spiders(), 0);
}

#[test]
fn self_loops_are_not_candidates() {
    let mut g = ZXGraph::new();
    let a = g.add_node(SpiderType::Z, 0);
    g.add_edge(a, a, EdgeType::Regular).unwrap();
    assert_eq!(g.fuse_spiders(), 0);
    assert_eq!(g.edge_handles().len(), 1);
}

#[test]
fn manual_fusion_of_equal_handles_is_self_fusion() {
    let mut g = ZXGraph::new();
    let a = g.add_node(SpiderType::Z, 0);
    let lp = g.add_edge(a, a, EdgeType::Regular).unwrap();
    assert_eq!(g.fuse_spider_pair(a, a, lp), Err(ZXError::SelfFusion));
    // All-or-nothing: nothing was touched.
    assert_eq!(g.node_handles().len(), 1);
    assert_eq!(g.edge_handles().len(), 1);
}

#[test]
fn manual_fusion_of_different_kinds_is_kind_mismatch() {
    let mut g = ZXGraph::new();
    let a = g.add_node(SpiderType::Z, units(1.0));
    let b = g.add_node(SpiderType::X, units(2.0));
    let e = g.add_edge(a, b, EdgeType::Regular).unwrap();
    assert_eq!(g.fuse_spider_pair(a, b, e), Err(ZXError::KindMismatch));
    // All-or-nothing: both nodes and the edge are untouched.
    assert_eq!(g.node_handles().len(), 2);
    assert_eq!(g.node_data(a).unwrap().1 as i64, units(1.0));
    assert_eq!(g.node_data(b).unwrap().1 as i64, units(2.0));
    assert!(g.edge_data(e).is_some());
}

#[test]
fn manual_fusion_of_decorative_pair_is_kind_mismatch() {
    let mut g = ZXGraph::new();
    let a = g.add_node(SpiderType::Decorative, 0);
    let b = g.add_node(SpiderType::Decorative, 0);
    let e = g.add_edge(a, b, EdgeType::Regular).unwrap();
    assert_eq!(g.fuse_spider_pair(a, b, e), Err(ZXError::KindMismatch));
}

#[test]
fn manual_fusion_with_dead_handle_is_invalid_handle() {
    let mut g = ZXGraph::new();
    let a = g.add_node(SpiderType::Z, 0);
    let b = g.add_node(SpiderType::Z, 0);
    let e = g.add_edge(a, b, EdgeType::Regular).unwrap();
    let c = g.add_node(SpiderType::Z, 0);
    g.remove_node(c).unwrap();
    assert_eq!(g.fuse_spider_pair(a, c, e), Err(ZXError::InvalidHandle));
    assert_eq!(g.node_handles().len(), 2);
    assert!(g.edge_data(e).is_some());
}

#[test]
fn manual_fusion_with_unrelated_edge_is_invalid_handle() {
    let mut g = ZXGraph::new();
    let a = g.add_node(SpiderType::Z, 0);
    let b = g.add_node(SpiderType::Z, 0);
    let c = g.add_node(SpiderType::Z, 0);
    g.add_edge(a, b, EdgeType::Regular).unwrap();
    let bc = g.add_edge(b, c, EdgeType::Regular).unwrap();
    // bc does not join the pair (a, b).
    assert_eq!(g.fuse_spider_pair(a, b, bc), Err(ZXError::InvalidHandle));
}

#[test]
fn victim_self_loop_is_dropped_by_fusion() {
    let mut g = ZXGraph::new();
    let a = g.add_node(SpiderType::Z, 0);
    let b = g.add_node(SpiderType::Z, 0);
    g.add_edge(b, b, EdgeType::Regular).unwrap();
    let ab = g.add_edge(a, b, EdgeType::Regular).unwrap();
    g.fuse_spider_pair(a, b, ab).unwrap();
    // No self-loop is introduced on the survivor.
    assert_eq!(g.neighbors(a).unwrap(), vec![]);
    assert_eq!(g.edge_handles().len(), 0);
}

#[test]
fn survivor_self_loop_is_kept_by_fusion() {
    let mut g = ZXGraph::new();
    let a = g.add_node(SpiderType::Z, 0);
    let b = g.add_node(SpiderType::Z, 0);
    let lp = g.add_edge(a, a, EdgeType::Regular).unwrap();
    let ab = g.add_edge(a, b, EdgeType::Regular).unwrap();
    g.fuse_spider_pair(a, b, ab).unwrap();
    assert_eq!(g.neighbors(a).unwrap(), vec![a]);
    assert_eq!(g.edge_data(lp), Some(EdgeType::Regular));
}

#[test]
fn parallel_edges_between_the_pair_all_disappear() {
    let mut g = ZXGraph::new();
    let a = g.add_node(SpiderType::Z, 0);
    let b = g.add_node(SpiderType::Z, 0);
    g.add_edge(a, b, EdgeType::Regular).unwrap();
    g.add_edge(a, b, EdgeType::Regular).unwrap();
    g.add_edge(a, b, EdgeType::Hadamard).unwrap();
    assert_eq!(g.fuse_spiders(), 1);
    assert_eq!(g.node_handles().len(), 1);
    assert_eq!(g.edge_handles().len(), 0);
}

#[test]
fn migrated_edges_keep_their_kind() {
    let mut g = ZXGraph::new();
    let a = g.add_node(SpiderType::Z, 0);
    let b = g.add_node(SpiderType::Z, 0);
    let c = g.add_node(SpiderType::X, 0);
    let ab = g.add_edge(a, b, EdgeType::Regular).unwrap();
    g.add_edge(b, c, EdgeType::Hadamard).unwrap();
    g.fuse_spider_pair(a, b, ab).unwrap();
    let edges = g.edge_handles();
    assert_eq!(edges.len(), 1);
    assert_eq!(g.edge_data(edges[0]), Some(EdgeType::Hadamard));
    assert_eq!(g.edge_endpoints(edges[0]), Some((a, c)));
}

#[test]
fn fusion_purges_victim_from_boundary_sets() {
    let mut g = ZXGraph::new();
    let a = g.add_input_node(SpiderType::Z, 0);
    let b = g.add_output_node(SpiderType::Z, 0);
    let ab = g.add_edge(a, b, EdgeType::Regular).unwrap();
    g.fuse_spider_pair(a, b, ab).unwrap();
    assert_eq!(g.input_set(), vec![a]);
    assert!(g.output_set().is_empty());
}

#[test]
fn saturation_collapses_mixed_graph_to_fixpoint() {
    // A Z-chain hanging off an X-pair through a Hadamard edge: the Z
    // side collapses, the Hadamard edge survives, the X pair fuses.
    let mut g = ZXGraph::new();
    let z1 = g.add_node(SpiderType::Z, units(0.5));
    let z2 = g.add_node(SpiderType::Z, units(0.75));
    let x1 = g.add_node(SpiderType::X, units(0.25));
    let x2 = g.add_node(SpiderType::X, units(1.25));
    g.add_edge(z1, z2, EdgeType::Regular).unwrap();
    g.add_edge(z2, x1, EdgeType::Hadamard).unwrap();
    g.add_edge(x1, x2, EdgeType::Regular).unwrap();
    assert_eq!(g.fuse_spiders(), 2);
    assert_eq!(g.node_handles().len(), 2);
    assert_eq!(g.edge_handles().len(), 1);
    assert_eq!(g.fuse_spiders(), 0);
    let (_, zp) = g.node_data(z1).unwrap();
    assert_eq!(zp as i64, units(0.5) + units(0.75));
    let (_, xp) = g.node_data(x1).unwrap();
    assert_eq!(xp as i64, units(0.25) + units(1.25));
}
