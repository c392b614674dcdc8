use fconex::{read_graph, Arrow, Graph};

fn pair(from: &str, to: &str) -> (String, String) {
    (from.to_string(), to.to_string())
}

#[test]
fn read_graph_makes_one_node_for_each_label() {
    let g = read_graph(vec![pair("A", "B"), pair("B", "C"), pair("C", "A")]);
    assert_eq!(g.iter().len(), 3);
    assert_eq!(g.find(&"A".to_string()), Some(0));
    assert_eq!(g.find(&"B".to_string()), Some(1));
    assert_eq!(g.find(&"C".to_string()), Some(2));
    assert_eq!(g.node(0).outgoing(), &[Arrow { from: 0, to: 1 }]);
    assert_eq!(g.node(0).incoming(), &[Arrow { from: 2, to: 0 }]);
    assert_eq!(g.next(), 3);
}

#[test]
fn read_graph_takes_the_first_label_of_a_pair_first() {
    let g = read_graph(vec![pair("to", "from"), pair("other", "to")]);
    assert_eq!(*g.node(0).value(), "to");
    assert_eq!(*g.node(1).value(), "from");
    assert_eq!(*g.node(2).value(), "other");
    assert_eq!(g.node(2).outgoing(), &[Arrow { from: 2, to: 0 }]);
}

#[test]
fn read_graph_of_no_pair_is_empty() {
    let g: Graph<String> = read_graph(Vec::new());
    assert!(g.iter().is_empty());
    assert_eq!(g.next(), 0);
}

#[test]
fn read_graph_keeps_a_repeated_pair_twice() {
    let g = read_graph(vec![pair("A", "B"), pair("A", "B")]);
    assert_eq!(g.node(0).outgoing().len(), 2);
    assert_eq!(g.node(1).incoming().len(), 2);
}

#[test]
fn read_graph_then_f_conex_finds_the_cycles() {
    let g = read_graph(vec![pair("A", "B"), pair("B", "A"), pair("A", "C"), pair("D", "D")]);
    let parts = g.f_conex();
    let sizes: Vec<usize> = parts.iter().map(|part| part.iter().len()).collect();
    assert_eq!(sizes, vec![2, 1, 1]);
}

#[test]
fn read_graph_works_on_labels_of_any_type() {
    let g = read_graph(vec![(10, 20), (20, 30), (10, 30)]);
    assert_eq!(g.iter().len(), 3);
    assert_eq!(g.find(&30), Some(2));
}

#[test]
fn new_nodes_adds_the_values_in_their_order() {
    let mut g = Graph::new();
    g.new_node("first");
    let [a, b, c] = g.new_nodes(["A", "B", "C"]);
    assert_eq!([a, b, c], [1, 2, 3]);
    assert_eq!(*g.node(b).value(), "B");
    assert_eq!(g.next(), 4);
    let none: [u64; 0] = g.new_nodes([]);
    assert!(none.is_empty());
    assert_eq!(g.iter().len(), 4);
}

#[test]
fn a_built_graph_is_well_formed() {
    let mut g = Graph::new();
    let [a, b, c] = g.new_nodes(["A", "B", "C"]);
    assert!(g.is_well_formed());
    g.link(a, b);
    g.link(b, a);
    g.link(a, c);
    g.link(c, c);
    assert!(g.is_well_formed());
    assert!(g.has_joined_arrows());
}

#[test]
fn a_subgraph_may_record_arrows_from_outside() {
    let mut g = Graph::new();
    let [a, b, c] = g.new_nodes(["A", "B", "C"]);
    g.link(a, b);
    g.link(b, a);
    g.link(a, c);
    let parts = g.f_conex();
    assert!(parts[1].contains(c));
    assert!(!parts[1].is_well_formed());
    assert!(parts[0].is_well_formed());
    assert!(parts[1].has_joined_arrows());
    assert!(parts[0].has_joined_arrows());
    assert_eq!(parts[0].next(), 3);
    assert_eq!(parts[1].next(), 3);
}
