use fconex::{Arrow, Graph, Node};

#[test]
fn new_node_or_get_twice_gives_the_same_node() {
    let mut g = Graph::new();
    let first = g.new_node_or_get("X".to_string());
    let second = g.new_node_or_get("X".to_string());
    assert_eq!(first, second);
    assert_eq!(g.iter().len(), 1);
}

#[test]
fn new_node_hands_out_identifiers_from_zero() {
    let mut g = Graph::new();
    assert_eq!(g.new_node("A"), 0);
    assert_eq!(g.new_node("B"), 1);
    assert_eq!(g.new_node("A"), 2);
    assert_eq!(g.iter().len(), 3);
    assert!(g.node(2).outgoing().is_empty());
    assert!(g.node(2).incoming().is_empty());
    assert_eq!(*g.node(1).value(), "B");
    assert_eq!(g.node(1).id(), 1);
}

#[test]
fn find_gives_the_first_node_with_the_value() {
    let mut g = Graph::new();
    g.new_node("A");
    g.new_node("B");
    g.new_node("B");
    assert_eq!(g.find(&"B"), Some(1));
    assert_eq!(g.find(&"A"), Some(0));
    assert_eq!(g.find(&"C"), None);
}

#[test]
fn new_node_or_get_adds_a_node_where_none_is_found() {
    let mut g = Graph::new();
    let a = g.new_node_or_get("A");
    let b = g.new_node_or_get("B");
    assert_eq!((a, b), (0, 1));
    assert_eq!(g.new_node_or_get("A"), 0);
    assert_eq!(g.iter().len(), 2);
}

#[test]
fn link_records_the_arrow_on_both_ends() {
    let mut g = Graph::new();
    let a = g.new_node("A");
    let b = g.new_node("B");
    g.link(a, b);
    g.link(a, b);
    g.link(b, a);
    let arrow = Arrow { from: a, to: b };
    let back = Arrow { from: b, to: a };
    assert_eq!(g.node(a).outgoing(), &[arrow, arrow]);
    assert_eq!(g.node(b).incoming(), &[arrow, arrow]);
    assert_eq!(g.node(b).outgoing(), &[back]);
    assert_eq!(g.node(a).incoming(), &[back]);
}

#[test]
fn every_outgoing_arrow_has_its_mirror() {
    let mut g = Graph::new();
    let n: Vec<u64> = (0..5).map(|i| g.new_node(i)).collect();
    for (from, to) in [(0, 1), (1, 2), (2, 0), (3, 3), (4, 0), (0, 4), (0, 1)] {
        g.link(n[from], n[to]);
    }
    for node in g.iter() {
        for arrow in node.outgoing() {
            assert_eq!(arrow.from, node.id());
            assert!(g.node(arrow.to).incoming().contains(arrow));
        }
        for arrow in node.incoming() {
            assert_eq!(arrow.to, node.id());
            assert!(g.node(arrow.from).outgoing().contains(arrow));
        }
    }
}

#[test]
fn link_of_a_node_to_itself_records_a_loop() {
    let mut g = Graph::new();
    let a = g.new_node("A");
    g.link(a, a);
    let arrow = Arrow { from: a, to: a };
    assert_eq!(g.node(a).outgoing(), &[arrow]);
    assert_eq!(g.node(a).incoming(), &[arrow]);
}

#[test]
fn iter_lists_the_nodes_by_identifier() {
    let mut g = Graph::new();
    for i in 0..20 {
        g.new_node(i * 10);
    }
    let listed: Vec<u64> = g.iter().iter().map(|node| node.id()).collect();
    assert_eq!(listed, (0..20).collect::<Vec<u64>>());
    let values: Vec<i32> = g.iter().iter().map(|node| *node.value()).collect();
    assert_eq!(values[7], 70);
}

#[test]
fn contains_tells_the_identifiers_in_use() {
    let mut g = Graph::new();
    assert!(!g.contains(0));
    g.new_node("A");
    assert!(g.contains(0));
    assert!(!g.contains(1));
}

#[test]
fn node_link_records_the_arrow_on_both_nodes() {
    let mut a = Node::new("A", 3);
    let mut b = Node::new("B", 5);
    let arrow = Arrow { from: 3, to: 5 };
    assert_eq!(a.link(&mut b).id(), 3);
    assert_eq!(a.outgoing(), &[arrow]);
    assert!(a.incoming().is_empty());
    assert_eq!(b.incoming(), &[arrow]);
    assert!(b.outgoing().is_empty());
    assert_eq!(*a.value(), "A");
}

#[test]
fn clone_of_a_node_has_lists_of_its_own() {
    let mut a = Node::new("A", 0);
    let mut b = Node::new("B", 1);
    a.link(&mut b);
    let mut copy = a.clone();
    copy.link(&mut b);
    assert_eq!(a.outgoing().len(), 1);
    assert_eq!(copy.outgoing().len(), 2);
    assert_eq!(copy.id(), 0);
    assert_eq!(*copy.value(), "A");
}
