use fconex::{Arrow, Graph, NodeId, NodeSet};

fn ids<T>(graph: &Graph<T>) -> Vec<NodeId> {
    graph.iter().iter().map(|node| node.id()).collect()
}

fn arrows<T>(graph: &Graph<T>) -> Vec<(NodeId, NodeId)> {
    let mut found = Vec::new();
    for node in graph.iter() {
        for arrow in node.outgoing() {
            found.push((arrow.from, arrow.to));
        }
    }
    found
}

fn set(ids: &[NodeId]) -> NodeSet {
    ids.iter().copied().collect()
}

#[test]
fn linear_chain_gives_four_singletons() {
    let mut g = Graph::new();
    let a = g.new_node("A");
    let b = g.new_node("B");
    let c = g.new_node("C");
    let d = g.new_node("D");
    g.link(a, b);
    g.link(b, c);
    g.link(c, d);
    let parts = g.f_conex();
    assert_eq!(parts.len(), 4);
    assert_eq!(ids(&parts[0]), vec![a]);
    assert_eq!(ids(&parts[1]), vec![b]);
    assert_eq!(ids(&parts[2]), vec![c]);
    assert_eq!(ids(&parts[3]), vec![d]);
    for part in &parts {
        assert!(arrows(part).is_empty());
    }
}

#[test]
fn single_cycle_gives_one_component() {
    let mut g = Graph::new();
    let a = g.new_node("A");
    let b = g.new_node("B");
    let c = g.new_node("C");
    g.link(a, b);
    g.link(b, c);
    g.link(c, a);
    let parts = g.f_conex();
    assert_eq!(parts.len(), 1);
    assert_eq!(ids(&parts[0]), vec![a, b, c]);
    assert_eq!(arrows(&parts[0]), vec![(a, b), (b, c), (c, a)]);
    assert_eq!(*parts[0].node(b).value(), "B");
}

#[test]
fn two_disjoint_cycles_give_two_components() {
    let mut g = Graph::new();
    let a = g.new_node("A");
    let b = g.new_node("B");
    let c = g.new_node("C");
    let d = g.new_node("D");
    g.link(a, b);
    g.link(b, a);
    g.link(c, d);
    g.link(d, c);
    let parts = g.f_conex();
    assert_eq!(parts.len(), 2);
    assert_eq!(ids(&parts[0]), vec![a, b]);
    assert_eq!(arrows(&parts[0]), vec![(a, b), (b, a)]);
    assert_eq!(ids(&parts[1]), vec![c, d]);
    assert_eq!(arrows(&parts[1]), vec![(c, d), (d, c)]);
}

#[test]
fn pendant_node_is_a_component_of_its_own() {
    let mut g = Graph::new();
    let a = g.new_node("A");
    let b = g.new_node("B");
    let c = g.new_node("C");
    g.link(a, b);
    g.link(b, a);
    g.link(a, c);
    let parts = g.f_conex();
    assert_eq!(parts.len(), 2);
    assert_eq!(ids(&parts[0]), vec![a, b]);
    assert_eq!(arrows(&parts[0]), vec![(a, b), (b, a)]);
    assert_eq!(ids(&parts[1]), vec![c]);
    assert!(arrows(&parts[1]).is_empty());
    assert!(parts[1].node(c).outgoing().is_empty());
}

#[test]
fn pendant_node_keeps_its_incoming_list() {
    let mut g = Graph::new();
    let a = g.new_node("A");
    let b = g.new_node("B");
    let c = g.new_node("C");
    g.link(a, b);
    g.link(b, a);
    g.link(a, c);
    let parts = g.f_conex();
    assert_eq!(parts[1].node(c).incoming(), &[Arrow { from: a, to: c }]);
    assert_eq!(parts[0].node(a).incoming(), &[Arrow { from: b, to: a }]);
}

#[test]
fn empty_graph_gives_no_component() {
    let g: Graph<&str> = Graph::new();
    assert!(g.f_conex().is_empty());
}

#[test]
fn components_partition_the_nodes() {
    let mut g = Graph::new();
    let n: Vec<NodeId> = (0..7).map(|i| g.new_node(i)).collect();
    g.link(n[0], n[3]);
    g.link(n[3], n[5]);
    g.link(n[5], n[0]);
    g.link(n[1], n[2]);
    g.link(n[2], n[1]);
    g.link(n[5], n[1]);
    g.link(n[4], n[6]);
    let parts = g.f_conex();
    let listed: Vec<Vec<NodeId>> = parts.iter().map(ids).collect();
    assert_eq!(listed, vec![vec![0, 3, 5], vec![1, 2], vec![4], vec![6]]);
    let mut all: Vec<NodeId> = listed.concat();
    all.sort();
    assert_eq!(all, n);
    assert_eq!(arrows(&parts[0]), vec![(0, 3), (3, 5), (5, 0)]);
    assert_eq!(arrows(&parts[1]), vec![(1, 2), (2, 1)]);
}

#[test]
fn self_loop_stays_in_its_component() {
    let mut g = Graph::new();
    let a = g.new_node("A");
    let b = g.new_node("B");
    g.link(a, a);
    g.link(a, b);
    let parts = g.f_conex();
    assert_eq!(parts.len(), 2);
    assert_eq!(arrows(&parts[0]), vec![(a, a)]);
    assert!(arrows(&parts[1]).is_empty());
}

#[test]
fn f_conex_leaves_the_graph_as_it_was() {
    let mut g = Graph::new();
    let a = g.new_node("A");
    let b = g.new_node("B");
    g.link(a, b);
    g.link(b, a);
    let first = g.f_conex();
    let second = g.f_conex();
    assert_eq!(first.len(), second.len());
    assert_eq!(arrows(&g), vec![(a, b), (b, a)]);
    assert_eq!(arrows(&first[0]), arrows(&second[0]));
}

#[test]
fn nplus_is_the_direct_forward_image() {
    let mut g = Graph::new();
    let a = g.new_node("A");
    let b = g.new_node("B");
    let c = g.new_node("C");
    let d = g.new_node("D");
    g.link(a, b);
    g.link(a, c);
    g.link(c, d);
    assert_eq!(g.nplus(&set(&[a])), set(&[b, c]));
    assert_eq!(g.nplus(&set(&[a, c])), set(&[b, c, d]));
    assert_eq!(g.nplus(&set(&[d])), set(&[]));
    assert_eq!(g.nplus(&set(&[])), set(&[]));
}

#[test]
fn nplus_holds_a_node_of_the_set_only_if_an_arrow_leads_back() {
    let mut g = Graph::new();
    let a = g.new_node("A");
    let b = g.new_node("B");
    g.link(a, b);
    assert_eq!(g.nplus(&set(&[a, b])), set(&[b]));
    g.link(b, a);
    assert_eq!(g.nplus(&set(&[a, b])), set(&[a, b]));
}

#[test]
fn nminus_is_the_direct_backward_image() {
    let mut g = Graph::new();
    let a = g.new_node("A");
    let b = g.new_node("B");
    let c = g.new_node("C");
    let d = g.new_node("D");
    g.link(a, b);
    g.link(a, c);
    g.link(c, d);
    assert_eq!(g.nminus(&set(&[d])), set(&[c]));
    assert_eq!(g.nminus(&set(&[b, c])), set(&[a]));
    assert_eq!(g.nminus(&set(&[a])), set(&[]));
}

#[test]
fn closures_follow_the_arrows_to_the_end() {
    let mut g = Graph::new();
    let a = g.new_node("A");
    let b = g.new_node("B");
    let c = g.new_node("C");
    let d = g.new_node("D");
    g.link(a, b);
    g.link(b, c);
    g.link(c, b);
    g.link(d, a);
    assert_eq!(g.forward_closure(a), set(&[a, b, c]));
    assert_eq!(g.forward_closure(c), set(&[b, c]));
    assert_eq!(g.backward_closure(c), set(&[a, b, c, d]));
    assert_eq!(g.backward_closure(d), set(&[d]));
}

#[test]
fn subgraph_keeps_the_arrows_that_end_inside() {
    let mut g = Graph::new();
    let a = g.new_node("A");
    let b = g.new_node("B");
    let c = g.new_node("C");
    g.link(a, b);
    g.link(b, c);
    g.link(c, a);
    let sub = g.subgraph_of(&set(&[a, b]));
    assert_eq!(ids(&sub), vec![a, b]);
    assert_eq!(sub.node(a).outgoing(), &[Arrow { from: a, to: b }]);
    assert!(sub.node(b).outgoing().is_empty());
    assert_eq!(sub.node(a).incoming(), &[Arrow { from: c, to: a }]);
    assert_eq!(sub.node(b).incoming(), &[Arrow { from: a, to: b }]);
    assert_eq!(*sub.node(a).value(), "A");
    assert!(!sub.contains(c));
}

#[test]
fn subgraph_on_no_node_is_empty() {
    let mut g = Graph::new();
    g.new_node("A");
    let sub = g.subgraph_of(&set(&[]));
    assert!(sub.iter().is_empty());
}

#[test]
fn nodes_share_a_component_where_each_reaches_the_other() {
    let mut g = Graph::new();
    let n: Vec<NodeId> = (0..6).map(|i| g.new_node(i)).collect();
    for (from, to) in [(0, 1), (1, 2), (2, 0), (2, 3), (3, 4), (4, 3), (5, 0)] {
        g.link(n[from], n[to]);
    }
    let parts = g.f_conex();
    let part_of = |id: NodeId| parts.iter().position(|part| part.contains(id)).unwrap();
    for &u in &n {
        for &v in &n {
            let mutual = g.forward_closure(u).contains(&v) && g.forward_closure(v).contains(&u);
            assert_eq!(part_of(u) == part_of(v), mutual);
        }
    }
}

#[test]
fn a_closed_component_can_be_decomposed_again() {
    let mut g = Graph::new();
    let a = g.new_node("A");
    let b = g.new_node("B");
    g.link(a, b);
    g.link(b, a);
    let parts = g.f_conex();
    assert!(parts[0].is_well_formed());
    let again = parts[0].f_conex();
    assert_eq!(again.len(), 1);
    assert_eq!(arrows(&again[0]), vec![(a, b), (b, a)]);
}

#[test]
fn new_node_on_a_subgraph_adds_a_node_and_leaves_the_others() {
    let mut g = Graph::new();
    let a = g.new_node('A');
    let mut sub = g.subgraph_of(&set(&[a]));
    let b = sub.new_node('B');
    assert_ne!(b, a);
    assert_eq!(b, 1);
    assert_eq!(ids(&sub), vec![a, b]);
    assert_eq!(*sub.node(a).value(), 'A');
    assert_eq!(*sub.node(b).value(), 'B');
    assert_eq!(ids(&g), vec![a]);
}

#[test]
fn new_node_on_a_component_takes_an_identifier_that_the_graph_has_not_used() {
    let mut g = Graph::new();
    let n: Vec<NodeId> = (0..4).map(|i| g.new_node(i)).collect();
    g.link(n[2], n[3]);
    g.link(n[3], n[2]);
    let mut parts = g.f_conex();
    assert_eq!(ids(&parts[2]), vec![2, 3]);
    let added = parts[2].new_node(9);
    assert_eq!(added, 4);
    assert_eq!(ids(&parts[2]), vec![2, 3, 4]);
    assert_eq!(*parts[2].node(2).value(), 2);
    assert_eq!(arrows(&parts[2]), vec![(2, 3), (3, 2)]);
}

#[test]
fn new_node_or_get_on_a_subgraph_finds_its_nodes() {
    let mut g = Graph::new();
    let a = g.new_node("A");
    g.new_node("B");
    let mut sub = g.subgraph_of(&set(&[a]));
    assert_eq!(sub.new_node_or_get("A"), a);
    assert_eq!(sub.next(), 2);
    assert_eq!(sub.new_node_or_get("B"), 2);
    assert_eq!(sub.next(), 3);
    assert_eq!(ids(&sub), vec![0, 2]);
}
