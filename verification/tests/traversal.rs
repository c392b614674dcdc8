use fconex::{Graph, NodeId};

fn visited<T>(graph: &Graph<T>) -> Vec<NodeId> {
    let mut seen = Vec::new();
    graph.walk(|node| seen.push(node.id()));
    seen
}

#[test]
fn walk_goes_deep_before_it_goes_wide() {
    let mut g = Graph::new();
    let n: Vec<NodeId> = (0..6).map(|i| g.new_node(i)).collect();
    g.link(n[0], n[1]);
    g.link(n[0], n[2]);
    g.link(n[1], n[3]);
    g.link(n[3], n[2]);
    g.link(n[2], n[4]);
    g.link(n[4], n[0]);
    assert_eq!(visited(&g), vec![0, 1, 3, 2, 4]);
    assert_eq!(g.walk_order(), vec![0, 1, 3, 2, 4]);
}

#[test]
fn walk_visits_each_node_once() {
    let mut g = Graph::new();
    let a = g.new_node("A");
    let b = g.new_node("B");
    g.link(a, b);
    g.link(a, b);
    g.link(b, a);
    g.link(a, a);
    assert_eq!(visited(&g), vec![a, b]);
}

#[test]
fn walk_leaves_out_what_the_first_node_does_not_reach() {
    let mut g = Graph::new();
    let a = g.new_node("A");
    let b = g.new_node("B");
    let c = g.new_node("C");
    g.link(c, a);
    g.link(a, b);
    assert_eq!(visited(&g), vec![a, b]);
}

#[test]
fn walk_of_an_empty_graph_visits_nothing() {
    let g: Graph<u8> = Graph::new();
    assert!(visited(&g).is_empty());
    assert!(g.walk_order().is_empty());
}

#[test]
fn walk_hands_the_nodes_to_the_visitor() {
    let mut g = Graph::new();
    let a = g.new_node("A");
    let b = g.new_node("B");
    g.link(a, b);
    let mut values = Vec::new();
    g.walk(|node| values.push(*node.value()));
    assert_eq!(values, vec!["A", "B"]);
}

#[test]
fn walk_of_a_subgraph_starts_at_its_smallest_identifier() {
    let mut g = Graph::new();
    let n: Vec<NodeId> = (0..4).map(|i| g.new_node(i)).collect();
    g.link(n[0], n[1]);
    g.link(n[2], n[3]);
    g.link(n[3], n[2]);
    let parts = g.f_conex();
    assert_eq!(parts.len(), 3);
    assert_eq!(visited(&parts[2]), vec![2, 3]);
}
