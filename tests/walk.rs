use frontier_paths::graph::{GraphError, GraphStore};
use frontier_paths::traversal::{traverse, TraceEvent, INFINITY};

fn fixture() -> GraphStore {
    let mut g = GraphStore::new();
    let start = g.add_node("start".to_string());
    let a = g.add_node("a".to_string());
    let b = g.add_node("b".to_string());
    let c = g.add_node("c".to_string());
    let d = g.add_node("d".to_string());
    let e = g.add_node("e".to_string());
    let f = g.add_node("f".to_string());
    g.add_edge(start, a, 2).unwrap();
    g.add_edge(start, b, 6).unwrap();
    g.add_edge(a, c, 5).unwrap();
    g.add_edge(b, c, 8).unwrap();
    g.add_edge(c, d, 10).unwrap();
    g.add_edge(c, e, 15).unwrap();
    g.add_edge(d, e, 6).unwrap();
    g.add_edge(e, f, 6).unwrap();
    g.add_edge(d, f, 2).unwrap();
    g
}

#[test]
fn fixture_distances() {
    let g = fixture();
    let t = traverse(&g, 0).unwrap();
    assert_eq!(t.distances, vec![0, 2, 6, 14, 24, 29, 35]);
    assert_eq!(t.visited, vec![true; 7]);
}

#[test]
fn fixture_trace_opening() {
    let g = fixture();
    let t = traverse(&g, 0).unwrap();
    assert_eq!(
        t.trace[..7].to_vec(),
        vec![
            TraceEvent::Explore { node: 0 },
            TraceEvent::Relaxed { node: 1, before: INFINITY, after: 2 },
            TraceEvent::Relaxed { node: 2, before: INFINITY, after: 6 },
            TraceEvent::Visited { parent: 0, node: 1 },
            TraceEvent::Explore { node: 2 },
            TraceEvent::AlreadyVisited { node: 0 },
            TraceEvent::Relaxed { node: 3, before: INFINITY, after: 14 },
        ]
    );
}

#[test]
fn neighbors_in_insertion_order() {
    let g = fixture();
    assert_eq!(g.neighbors(3).unwrap(), vec![(1, 5), (2, 8), (4, 10), (5, 15)]);
    assert_eq!(g.neighbors(6).unwrap(), vec![(5, 6), (4, 2)]);
    assert_eq!(g.neighbors(0).unwrap(), vec![(1, 2), (2, 6)]);
    assert_eq!(g.neighbors(1).unwrap(), vec![(0, 2), (3, 5)]);
}

#[test]
fn start_distance_is_zero_from_every_node() {
    let g = fixture();
    for s in 0..g.node_count() {
        let t = traverse(&g, s).unwrap();
        assert_eq!(t.distances[s], 0);
        assert!(t.visited[s]);
    }
}

#[test]
fn unreachable_node_keeps_infinity() {
    let mut g = GraphStore::new();
    let x = g.add_node("x".to_string());
    let y = g.add_node("y".to_string());
    let z = g.add_node("z".to_string());
    let w = g.add_node("w".to_string());
    g.add_edge(x, y, 3).unwrap();
    g.add_edge(z, w, 1).unwrap();
    let t = traverse(&g, x).unwrap();
    assert_eq!(t.distances, vec![0, 3, INFINITY, INFINITY]);
    assert_eq!(t.visited, vec![true, true, false, false]);
}

#[test]
fn lone_node() {
    let mut g = GraphStore::new();
    g.add_node("only".to_string());
    let t = traverse(&g, 0).unwrap();
    assert_eq!(t.distances, vec![0]);
    assert_eq!(t.visited, vec![true]);
    assert_eq!(t.trace, vec![TraceEvent::Explore { node: 0 }]);
}

#[test]
fn distances_only_go_down_in_trace() {
    let g = fixture();
    let t = traverse(&g, 0).unwrap();
    let mut last = vec![INFINITY; g.node_count()];
    last[0] = 0;
    for ev in &t.trace {
        if let TraceEvent::Relaxed { node, before, after } = *ev {
            assert_eq!(before, last[node]);
            assert!(after < before);
            last[node] = after;
        }
    }
    assert_eq!(last, t.distances);
}

#[test]
fn each_node_settled_at_most_once() {
    let g = fixture();
    let t = traverse(&g, 0).unwrap();
    let mut seen = vec![false; g.node_count()];
    seen[0] = true;
    for ev in &t.trace {
        if let TraceEvent::Visited { node, .. } = *ev {
            assert!(!seen[node]);
            seen[node] = true;
        }
    }
    assert_eq!(seen, t.visited);
}

#[test]
fn add_edge_is_symmetric() {
    let mut g = GraphStore::new();
    let u = g.add_node("u".to_string());
    let v = g.add_node("v".to_string());
    assert_eq!(g.add_edge(u, v, 4), Ok(()));
    assert!(g.neighbors(u).unwrap().contains(&(v, 4)));
    assert!(g.neighbors(v).unwrap().contains(&(u, 4)));
}

#[test]
fn self_loop_seen_once() {
    let mut g = GraphStore::new();
    let u = g.add_node("u".to_string());
    g.add_edge(u, u, 9).unwrap();
    assert_eq!(g.neighbors(u).unwrap(), vec![(u, 9)]);
    let t = traverse(&g, u).unwrap();
    assert_eq!(t.distances, vec![0]);
}

#[test]
fn add_edge_unknown_node_leaves_graph() {
    let mut g = GraphStore::new();
    let u = g.add_node("u".to_string());
    assert_eq!(g.add_edge(u, 5, 1), Err(GraphError::InvalidNode));
    assert_eq!(g.add_edge(7, u, 1), Err(GraphError::InvalidNode));
    assert_eq!(g.neighbors(u).unwrap(), vec![]);
    assert_eq!(g.node_count(), 1);
}

#[test]
fn add_edge_negative_weight_refused() {
    let mut g = GraphStore::new();
    let u = g.add_node("u".to_string());
    let v = g.add_node("v".to_string());
    assert_eq!(g.add_edge(u, v, -1), Err(GraphError::NegativeWeight));
    assert_eq!(g.neighbors(u).unwrap(), vec![]);
    assert_eq!(g.add_edge(u, v, 0), Ok(()));
    assert_eq!(g.neighbors(v).unwrap(), vec![(u, 0)]);
}

#[test]
fn traverse_unknown_start_refused() {
    let g = fixture();
    assert!(matches!(traverse(&g, 7), Err(GraphError::InvalidNode)));
    let empty = GraphStore::new();
    assert!(matches!(traverse(&empty, 0), Err(GraphError::InvalidNode)));
}

#[test]
fn traverse_twice_same_result() {
    let g = fixture();
    let a = traverse(&g, 2).unwrap();
    let b = traverse(&g, 2).unwrap();
    assert_eq!(a.distances, b.distances);
    assert_eq!(a.visited, b.visited);
    assert_eq!(a.trace, b.trace);
}

#[test]
fn labels_and_unknown_label() {
    let g = fixture();
    assert_eq!(g.node_label(0), Ok("start".to_string()));
    assert_eq!(g.node_label(6), Ok("f".to_string()));
    assert_eq!(g.node_label(7), Err(GraphError::InvalidNode));
}

#[test]
fn sums_hold_at_infinity() {
    let mut g = GraphStore::new();
    let x = g.add_node("x".to_string());
    let y = g.add_node("y".to_string());
    let z = g.add_node("z".to_string());
    let q = g.add_node("q".to_string());
    g.add_edge(x, y, i64::MAX).unwrap();
    g.add_edge(y, z, i64::MAX).unwrap();
    g.add_edge(z, q, 5).unwrap();
    let t = traverse(&g, x).unwrap();
    assert_eq!(t.distances, vec![0, i64::MAX as u64, 2 * (i64::MAX as u64), INFINITY]);
}

#[test]
fn tie_goes_to_first_seen_edge() {
    let mut g = GraphStore::new();
    let s = g.add_node("s".to_string());
    let p = g.add_node("p".to_string());
    let r = g.add_node("r".to_string());
    g.add_edge(s, p, 3).unwrap();
    g.add_edge(s, r, 3).unwrap();
    let t = traverse(&g, s).unwrap();
    assert_eq!(t.trace[3], TraceEvent::Visited { parent: s, node: p });
    assert_eq!(t.distances, vec![0, 3, 3]);
}
