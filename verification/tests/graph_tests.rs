use mcode::graph::Graph;
use mcode::graph::NodeIx;

fn triangle_plus_edge() -> Graph {
    // A-B(1), B-C(1), C-A(1) form a triangle; D-E(1) is a disjoint edge.
    let mut g = Graph::with_capacity(8);
    g.add_edge("A".to_string(), "B".to_string(), 1);
    g.add_edge("B".to_string(), "C".to_string(), 1);
    g.add_edge("C".to_string(), "A".to_string(), 1);
    g.add_edge("D".to_string(), "E".to_string(), 1);
    g
}

fn ix(g: &mut Graph, id: &str) -> NodeIx {
    g.add_node(id.to_string())
}

#[test]
fn add_node_is_idempotent() {
    let mut g = Graph::with_capacity(4);
    let a1 = g.add_node("A".to_string());
    let b = g.add_node("B".to_string());
    let a2 = g.add_node("A".to_string());
    assert_eq!(a1, a2);
    assert_ne!(a1, b);
    assert_eq!(g.nodes.len(), 2);
}

#[test]
fn add_edge_registers_both_endpoints_once() {
    let mut g = Graph::with_capacity(4);
    let e1 = g.add_edge("A".to_string(), "B".to_string(), 7);
    let e2 = g.add_edge("A".to_string(), "B".to_string(), 9);
    assert_eq!(g.nodes.len(), 2);
    assert_eq!(g.edges.len(), 2);
    assert_ne!(e1, e2);
    let a = g.add_node("A".to_string());
    let b = g.add_node("B".to_string());
    let edge = g.edge(e1);
    assert_eq!(edge.w, 7);
    assert!(edge.a == a || edge.b == a);
    assert!(edge.a == b || edge.b == b);
}

#[test]
fn neighbors_yield_other_endpoints() {
    let mut g = triangle_plus_edge();
    let a = ix(&mut g, "A");
    let b = ix(&mut g, "B");
    let c = ix(&mut g, "C");
    let mut seen = Vec::new();
    let mut it = g.neighbors(a);
    while let Some(nb) = it.next() {
        seen.push(nb);
    }
    seen.sort_by_key(|n| n.0);
    let mut expect = vec![b, c];
    expect.sort_by_key(|n| n.0);
    assert_eq!(seen, expect);
}

#[test]
fn direct_connection_finds_first_edge_weight() {
    let mut g = Graph::with_capacity(4);
    g.add_edge("A".to_string(), "B".to_string(), 5);
    g.add_edge("A".to_string(), "B".to_string(), 8);
    let a = ix(&mut g, "A");
    let b = ix(&mut g, "B");
    let c = g.add_node("C".to_string());
    assert_eq!(g.direct_connection(a, b), Some(5));
    assert_eq!(g.direct_connection(b, a), Some(5));
    assert_eq!(g.direct_connection(a, c), None);
}

#[test]
fn bfs_unbounded_visits_exactly_the_component() {
    let mut g = triangle_plus_edge();
    let a = ix(&mut g, "A");
    let b = ix(&mut g, "B");
    let c = ix(&mut g, "C");
    let d = ix(&mut g, "D");
    let e = ix(&mut g, "E");
    let mut vis = g.bfs(a, 0);
    vis.sort_by_key(|n| n.0);
    let mut expect = vec![a, b, c];
    expect.sort_by_key(|n| n.0);
    assert_eq!(vis, expect);
    let mut vis_d = g.bfs(d, 0);
    vis_d.sort_by_key(|n| n.0);
    let mut expect_d = vec![d, e];
    expect_d.sort_by_key(|n| n.0);
    assert_eq!(vis_d, expect_d);
}

#[test]
fn bfs_large_depth_also_covers_the_component() {
    let mut g = triangle_plus_edge();
    let a = ix(&mut g, "A");
    let mut vis = g.bfs(a, 100);
    vis.sort_by_key(|n| n.0);
    assert_eq!(vis.len(), 3);
}

#[test]
fn bfs_depth_bounds_the_hops() {
    // a path A-B-C-D: one expansion round from A reaches only A and B
    let mut g = Graph::with_capacity(4);
    g.add_edge("A".to_string(), "B".to_string(), 1);
    g.add_edge("B".to_string(), "C".to_string(), 1);
    g.add_edge("C".to_string(), "D".to_string(), 1);
    let a = ix(&mut g, "A");
    let b = ix(&mut g, "B");
    let c = ix(&mut g, "C");
    let mut vis = g.bfs(a, 1);
    vis.sort_by_key(|n| n.0);
    let mut expect = vec![a, b];
    expect.sort_by_key(|n| n.0);
    assert_eq!(vis, expect);
    let mut vis2 = g.bfs(a, 2);
    vis2.sort_by_key(|n| n.0);
    let mut expect2 = vec![a, b, c];
    expect2.sort_by_key(|n| n.0);
    assert_eq!(vis2, expect2);
}

#[test]
fn connected_is_symmetric_and_respects_components() {
    let mut g = triangle_plus_edge();
    let a = ix(&mut g, "A");
    let c = ix(&mut g, "C");
    let d = ix(&mut g, "D");
    assert!(g.connected(a, c, 0));
    assert!(g.connected(c, a, 0));
    assert!(!g.connected(a, d, 0));
    assert!(!g.connected(d, a, 0));
}

#[test]
fn subgraph_holds_component_with_deduplicated_edges() {
    let mut g = triangle_plus_edge();
    // a parallel edge and a self-loop must not survive in the subgraph
    g.add_edge("A".to_string(), "B".to_string(), 1);
    g.add_edge("C".to_string(), "C".to_string(), 1);
    let a = ix(&mut g, "A");
    let sub = g.subgraph(a);
    let mut ids: Vec<String> = sub.nodes.iter().map(|n| n.id.clone()).collect();
    ids.sort();
    assert_eq!(ids, vec!["A".to_string(), "B".to_string(), "C".to_string()]);
    assert_eq!(sub.edges.len(), 3);
    for e in &sub.edges {
        assert_ne!(e.a, e.b);
        let ia = sub.nodes[e.a.0 as usize].id.clone();
        let ib = sub.nodes[e.b.0 as usize].id.clone();
        // every subgraph edge joins two nodes of the component
        assert!(ids.contains(&ia) && ids.contains(&ib));
    }
}

#[test]
fn subgraph_of_isolated_node_is_empty() {
    let mut g = triangle_plus_edge();
    let f = g.add_node("F".to_string());
    let sub = g.subgraph(f);
    assert_eq!(sub.nodes.len(), 0);
    assert_eq!(sub.edges.len(), 0);
}
