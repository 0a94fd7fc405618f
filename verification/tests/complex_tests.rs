use mcode::assign::assign_complex;
use mcode::graph::Graph;
use mcode::graph::NodeIx;
use std::collections::HashMap;

fn triangle_plus_edge() -> Graph {
    let mut g = Graph::with_capacity(8);
    g.add_edge("A".to_string(), "B".to_string(), 1);
    g.add_edge("B".to_string(), "C".to_string(), 1);
    g.add_edge("C".to_string(), "A".to_string(), 1);
    g.add_edge("D".to_string(), "E".to_string(), 1);
    g
}

fn density(g: &Graph) -> f64 {
    let n = g.nodes.len() as f64;
    let mut v = n * (n - 1.0);
    if v == 0.0 {
        v = 1.0;
    }
    2.0 * g.edges.len() as f64 / v
}

#[test]
fn kcore_of_triangle_component_is_two() {
    let mut g = triangle_plus_edge();
    let a = g.add_node("A".to_string());
    let sub = g.subgraph(a);
    let (k, kg) = sub.kcore();
    assert_eq!(k, 2);
    assert_eq!(kg.nodes.len(), 3);
    assert_eq!(kg.edges.len(), 3);
    assert_eq!(density(&kg), 1.0);
    let weight = k as f64 * density(&kg);
    assert_eq!(weight, 2.0);
}

#[test]
fn global_kcore_discards_the_degree_one_tail() {
    let g = triangle_plus_edge();
    let (k, kg) = g.kcore();
    assert_eq!(k, 2);
    let mut ids: Vec<String> = kg.nodes.iter().map(|n| n.id.clone()).collect();
    ids.sort();
    assert_eq!(ids, vec!["A".to_string(), "B".to_string(), "C".to_string()]);
    assert_eq!(kg.edges.len(), 3);
}

#[test]
fn kcore_of_remainder_is_lower() {
    // removing the computed 2-core (the triangle) leaves D-E, whose own
    // peeling stops below two
    let mut rest = Graph::with_capacity(2);
    rest.add_edge("D".to_string(), "E".to_string(), 1);
    let (k, kg) = rest.kcore();
    assert!(k < 2);
    assert_eq!(k, 1);
    // the survivors of the last pass are the pair that the first pass emptied
    assert_eq!(kg.nodes.len(), 2);
    assert_eq!(kg.edges.len(), 1);
}

#[test]
fn kcore_of_empty_graph() {
    let g = Graph::with_capacity(0);
    let (k, kg) = g.kcore();
    assert_eq!(k, 1);
    assert_eq!(kg.nodes.len(), 0);
}

/// Gate flags for one edge, derived the way the traversal compares weights:
/// the step from `u` to `v` may merge when `w[v] > w[u] * (1 - density)`.
fn gates_for(g: &Graph, weights: &HashMap<String, f32>, density: f32) -> Vec<(bool, bool)> {
    g.edges
        .iter()
        .map(|e| {
            let wa = weights[&g.nodes[e.a.0 as usize].id];
            let wb = weights[&g.nodes[e.b.0 as usize].id];
            (wb > wa * (1.0 - density), wa > wb * (1.0 - density))
        })
        .collect()
}

#[test]
fn assignment_splits_triangle_and_tail_into_two_complexes() {
    let mut g = triangle_plus_edge();
    let mut weights: HashMap<String, f32> = HashMap::new();
    weights.insert("A".to_string(), 2.0);
    weights.insert("B".to_string(), 2.0);
    weights.insert("C".to_string(), 2.0);
    weights.insert("D".to_string(), 0.1);
    weights.insert("E".to_string(), 0.1);
    let gates = gates_for(&g, &weights, 0.5);
    let seed = g.add_node("A".to_string());
    let result = assign_complex(&g, &gates, seed);

    assert_eq!(result.len(), 5);
    let by_id: HashMap<String, NodeIx> =
        result.iter().map(|(id, c)| (id.clone(), *c)).collect();
    assert_eq!(by_id.len(), 5);
    // the triangle folds into one complex, the tail into another
    assert_eq!(by_id["A"], by_id["B"]);
    assert_eq!(by_id["B"], by_id["C"]);
    assert_eq!(by_id["D"], by_id["E"]);
    assert_ne!(by_id["A"], by_id["D"]);
    let mut distinct: Vec<u32> = result.iter().map(|(_, c)| c.0).collect();
    distinct.sort();
    distinct.dedup();
    assert_eq!(distinct.len(), 2);
}

#[test]
fn assignment_covers_every_node_exactly_once() {
    let g = triangle_plus_edge();
    let gates: Vec<(bool, bool)> = g.edges.iter().map(|_| (false, false)).collect();
    let result = assign_complex(&g, &gates, NodeIx(0));
    assert_eq!(result.len(), g.nodes.len());
    let mut ids: Vec<String> = result.iter().map(|(id, _)| id.clone()).collect();
    ids.sort();
    let mut expect: Vec<String> = g.nodes.iter().map(|n| n.id.clone()).collect();
    expect.sort();
    assert_eq!(ids, expect);
    // with every gate shut, no merge happens: five singleton complexes
    let mut distinct: Vec<u32> = result.iter().map(|(_, c)| c.0).collect();
    distinct.sort();
    distinct.dedup();
    assert_eq!(distinct.len(), 5);
}

#[test]
fn assignment_with_open_gates_tracks_components() {
    let g = triangle_plus_edge();
    let gates: Vec<(bool, bool)> = g.edges.iter().map(|_| (true, true)).collect();
    let result = assign_complex(&g, &gates, NodeIx(0));
    let by_id: HashMap<String, NodeIx> =
        result.iter().map(|(id, c)| (id.clone(), *c)).collect();
    assert_eq!(by_id["A"], by_id["B"]);
    assert_eq!(by_id["B"], by_id["C"]);
    assert_eq!(by_id["D"], by_id["E"]);
    assert_ne!(by_id["A"], by_id["D"]);
}
