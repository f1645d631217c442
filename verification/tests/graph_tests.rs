use quojo_rust::graph::{EdgeType, SpiderType, ZXError, ZXGraph};

const FULL: f64 = 4294967296.0;
const TAU: f64 = 2.0 * std::f64::consts::PI;

fn units(rad: f64) -> i64 {
    ((rad / TAU) * FULL).round() as i64
}

#[test]
fn new_graph_is_empty() {
    let g = ZXGraph::new();
    assert_eq!(g.node_handles().len(), 0);
    assert_eq!(g.edge_handles().len(), 0);
    assert_eq!(g.input_set().len(), 0);
    assert_eq!(g.output_set().len(), 0);
}

#[test]
fn add_node_stores_kind_and_phase() {
    let mut g = ZXGraph::new();
    let n = g.add_node(SpiderType::Z, units(1.0));
    let (kind, phase) = g.node_data(n).unwrap();
    assert_eq!(kind, SpiderType::Z);
    assert_eq!(phase as i64, units(1.0));
}

#[test]
fn add_node_normalizes_phase_on_insertion() {
    let mut g = ZXGraph::new();
    // 2.5 turns normalizes to half a turn.
    let n = g.add_node(SpiderType::X, (FULL as i64) * 2 + (FULL as i64) / 2);
    let (_, phase) = g.node_data(n).unwrap();
    assert_eq!(phase, (FULL as u64) / 2);
    // A negative angle normalizes into [0, FULL).
    let m = g.add_node(SpiderType::Z, -(FULL as i64) / 4);
    let (_, phase_m) = g.node_data(m).unwrap();
    assert_eq!(phase_m, 3 * (FULL as u64) / 4);
}

#[test]
fn handles_are_distinct_while_live() {
    let mut g = ZXGraph::new();
    let a = g.add_node(SpiderType::Z, 0);
    let b = g.add_node(SpiderType::Z, 0);
    let c = g.add_node(SpiderType::X, 0);
    assert_ne!(a, b);
    assert_ne!(b, c);
    assert_ne!(a, c);
}

#[test]
fn freed_slot_is_reused_last_in_first_out() {
    let mut g = ZXGraph::new();
    let a = g.add_node(SpiderType::Z, 0);
    let b = g.add_node(SpiderType::Z, 0);
    let c = g.add_node(SpiderType::Z, 0);
    assert_eq!((a.slot, b.slot, c.slot), (0, 1, 2));
    g.remove_node(a).unwrap();
    g.remove_node(c).unwrap();
    // Last freed, first reused.
    let d = g.add_node(SpiderType::X, 0);
    assert_eq!(d.slot, 2);
    let e = g.add_node(SpiderType::X, 0);
    assert_eq!(e.slot, 0);
    // The table grows only when no freed slot is left.
    let f = g.add_node(SpiderType::X, 0);
    assert_eq!(f.slot, 3);
}

#[test]
fn stale_handle_to_reused_slot_stays_dead() {
    let mut g = ZXGraph::new();
    let a = g.add_node(SpiderType::Z, 0);
    g.remove_node(a).unwrap();
    let b = g.add_node(SpiderType::X, 0);
    // Same slot, new occupant: the old handle must not alias it.
    assert_eq!(b.slot, a.slot);
    assert_ne!(a, b);
    assert!(g.node_data(a).is_none());
    assert!(g.node_data(b).is_some());
    assert_eq!(g.remove_node(a), Err(ZXError::InvalidHandle));
}

#[test]
fn remove_node_twice_fails() {
    let mut g = ZXGraph::new();
    let a = g.add_node(SpiderType::Z, 0);
    assert_eq!(g.remove_node(a), Ok(()));
    assert_eq!(g.remove_node(a), Err(ZXError::InvalidHandle));
}

#[test]
fn remove_edge_twice_fails() {
    let mut g = ZXGraph::new();
    let a = g.add_node(SpiderType::Z, 0);
    let b = g.add_node(SpiderType::Z, 0);
    let e = g.add_edge(a, b, EdgeType::Regular).unwrap();
    assert_eq!(g.remove_edge(e), Ok(()));
    assert_eq!(g.remove_edge(e), Err(ZXError::InvalidHandle));
}

#[test]
fn add_edge_with_dead_endpoint_fails() {
    let mut g = ZXGraph::new();
    let a = g.add_node(SpiderType::Z, 0);
    let b = g.add_node(SpiderType::Z, 0);
    g.remove_node(b).unwrap();
    assert_eq!(g.add_edge(a, b, EdgeType::Regular), Err(ZXError::InvalidHandle));
    // The failed call mutated nothing.
    assert_eq!(g.edge_handles().len(), 0);
}

#[test]
fn remove_node_removes_incident_edges() {
    let mut g = ZXGraph::new();
    let a = g.add_node(SpiderType::Z, 0);
    let b = g.add_node(SpiderType::Z, 0);
    let c = g.add_node(SpiderType::Z, 0);
    let ab = g.add_edge(a, b, EdgeType::Regular).unwrap();
    let bc = g.add_edge(b, c, EdgeType::Hadamard).unwrap();
    let ca = g.add_edge(c, a, EdgeType::Regular).unwrap();
    g.remove_node(b).unwrap();
    assert!(g.edge_data(ab).is_none());
    assert!(g.edge_data(bc).is_none());
    assert_eq!(g.edge_data(ca), Some(EdgeType::Regular));
    assert_eq!(g.neighbors(a).unwrap(), vec![c]);
    assert_eq!(g.neighbors(c).unwrap(), vec![a]);
}

#[test]
fn neighbors_of_self_loop_is_self() {
    let mut g = ZXGraph::new();
    let a = g.add_node(SpiderType::Z, 0);
    g.add_edge(a, a, EdgeType::Regular).unwrap();
    assert_eq!(g.neighbors(a).unwrap(), vec![a]);
}

#[test]
fn parallel_edges_appear_once_each_in_neighbors() {
    let mut g = ZXGraph::new();
    let a = g.add_node(SpiderType::Z, 0);
    let b = g.add_node(SpiderType::X, 0);
    g.add_edge(a, b, EdgeType::Regular).unwrap();
    g.add_edge(a, b, EdgeType::Hadamard).unwrap();
    assert_eq!(g.neighbors(a).unwrap(), vec![b, b]);
    assert_eq!(g.neighbors(b).unwrap(), vec![a, a]);
}

#[test]
fn neighbors_of_dead_handle_fails() {
    let mut g = ZXGraph::new();
    let a = g.add_node(SpiderType::Z, 0);
    g.remove_node(a).unwrap();
    assert_eq!(g.neighbors(a), Err(ZXError::InvalidHandle));
}

#[test]
fn edge_endpoints_reports_the_pair() {
    let mut g = ZXGraph::new();
    let a = g.add_node(SpiderType::Z, 0);
    let b = g.add_node(SpiderType::X, 0);
    let e = g.add_edge(a, b, EdgeType::Hadamard).unwrap();
    assert_eq!(g.edge_endpoints(e), Some((a, b)));
}

#[test]
fn boundary_marking_round_trip() {
    let mut g = ZXGraph::new();
    let a = g.add_input_node(SpiderType::Z, 0);
    let b = g.add_output_node(SpiderType::Z, 0);
    let c = g.add_node(SpiderType::X, 0);
    assert!(g.is_input_node(a));
    assert!(!g.is_input_node(c));
    assert!(g.is_output_node(b));
    g.set_as_input(c).unwrap();
    assert!(g.is_input_node(c));
    g.unset_as_input(c);
    assert!(!g.is_input_node(c));
    assert_eq!(g.input_set(), vec![a]);
    assert_eq!(g.output_set(), vec![b]);
}

#[test]
fn set_as_input_is_idempotent() {
    let mut g = ZXGraph::new();
    let a = g.add_node(SpiderType::Z, 0);
    g.set_as_input(a).unwrap();
    g.set_as_input(a).unwrap();
    assert_eq!(g.input_set(), vec![a]);
}

#[test]
fn set_as_input_on_dead_handle_fails() {
    let mut g = ZXGraph::new();
    let a = g.add_node(SpiderType::Z, 0);
    g.remove_node(a).unwrap();
    assert_eq!(g.set_as_input(a), Err(ZXError::InvalidHandle));
    assert_eq!(g.set_as_output(a), Err(ZXError::InvalidHandle));
}

#[test]
fn remove_node_purges_boundary_sets() {
    let mut g = ZXGraph::new();
    let a = g.add_input_node(SpiderType::Z, 0);
    let b = g.add_output_node(SpiderType::Z, 0);
    g.set_as_output(a).unwrap();
    g.remove_node(a).unwrap();
    assert!(g.input_set().is_empty());
    assert_eq!(g.output_set(), vec![b]);
}

#[test]
fn handle_enumeration_is_sparse_and_sorted() {
    let mut g = ZXGraph::new();
    let a = g.add_node(SpiderType::Z, 0);
    let b = g.add_node(SpiderType::Z, 0);
    let c = g.add_node(SpiderType::Z, 0);
    g.remove_node(b).unwrap();
    let handles = g.node_handles();
    assert_eq!(handles, vec![a, c]);
    let e1 = g.add_edge(a, c, EdgeType::Regular).unwrap();
    let e2 = g.add_edge(c, a, EdgeType::Hadamard).unwrap();
    assert_eq!(g.edge_handles(), vec![e1, e2]);
}
