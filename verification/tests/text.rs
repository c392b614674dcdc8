use fconex::{decimal_text, output_graph_rudimentary, Graph, NodeId};
use std::collections::HashMap;

#[test]
fn to_dot_lists_nodes_and_arrows_by_identifier() {
    let mut g = Graph::new();
    let a = g.new_node("A");
    let b = g.new_node("B");
    let c = g.new_node("C");
    g.link(b, c);
    g.link(a, b);
    g.link(a, c);
    assert_eq!(
        g.to_dot(),
        "digraph {\n0 [label=\"A\"];\n0 -> 1;\n0 -> 2;\n1 [label=\"B\"];\n1 -> 2;\n2 [label=\"C\"];\n}"
    );
}

#[test]
fn to_dot_of_an_empty_graph_is_the_bare_wrapper() {
    let g: Graph<String> = Graph::new();
    assert_eq!(g.to_dot(), "digraph {\n}");
}

#[test]
fn to_dot_writes_identifiers_of_several_digits() {
    let mut g = Graph::new();
    for i in 0..12 {
        g.new_node(i * 100);
    }
    g.link(11, 10);
    let text = g.to_dot();
    assert!(text.ends_with("10 [label=\"1000\"];\n11 [label=\"1100\"];\n11 -> 10;\n}"));
    assert_eq!(text.lines().count(), 15);
}

#[test]
fn to_dot_with_takes_the_labels_it_is_given() {
    let mut g = Graph::new();
    let a = g.new_node(1.5f32.to_bits());
    let b = g.new_node(2.5f32.to_bits());
    g.link(a, b);
    let mut labels = HashMap::new();
    labels.insert(a, "first".to_string());
    labels.insert(b, "second".to_string());
    assert_eq!(
        g.to_dot_with(&labels),
        "digraph {\n0 [label=\"first\"];\n0 -> 1;\n1 [label=\"second\"];\n}"
    );
}

#[test]
fn labels_display_the_values() {
    let mut g = Graph::new();
    g.new_node(-7);
    g.new_node(40);
    let labels = g.labels();
    assert_eq!(labels.len(), 2);
    assert_eq!(labels[&0], "-7");
    assert_eq!(labels[&1], "40");
}

#[test]
fn dump_has_one_line_for_each_arrow() {
    let mut g = Graph::new();
    let a = g.new_node("A");
    let b = g.new_node("B");
    let c = g.new_node("C");
    g.link(b, a);
    g.link(a, b);
    g.link(a, c);
    assert_eq!(output_graph_rudimentary(&g), "{\n\tA B\n\tA C\n\tB A\n}");
}

#[test]
fn dump_of_a_graph_without_arrows_is_the_bare_wrapper() {
    let mut g = Graph::new();
    g.new_node("A");
    assert_eq!(output_graph_rudimentary(&g), "{\n}");
}

#[test]
fn dump_of_a_component_names_the_values() {
    let mut g = Graph::new();
    let n: Vec<NodeId> = ["x", "y", "z"].into_iter().map(|v| g.new_node(v)).collect();
    g.link(n[0], n[1]);
    g.link(n[1], n[2]);
    g.link(n[2], n[1]);
    let parts = g.f_conex();
    assert_eq!(output_graph_rudimentary(&parts[0]), "{\n}");
    assert_eq!(output_graph_rudimentary(&parts[1]), "{\n\ty z\n\tz y\n}");
    assert_eq!(parts[1].to_dot(), "digraph {\n1 [label=\"y\"];\n1 -> 2;\n2 [label=\"z\"];\n2 -> 1;\n}");
}

#[test]
fn decimal_text_writes_numbers_without_leading_zeros() {
    assert_eq!(decimal_text(0), "0");
    assert_eq!(decimal_text(9), "9");
    assert_eq!(decimal_text(10), "10");
    assert_eq!(decimal_text(1234567890), "1234567890");
    assert_eq!(decimal_text(u64::MAX), "18446744073709551615");
}
