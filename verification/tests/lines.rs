use fconex::{add_line, parse_line, read_graph, Line};

fn edge(from: &str, to: &str) -> Line {
    Line::Edge(from.to_string(), to.to_string())
}

#[test]
fn a_line_of_two_words_names_an_arrow() {
    assert_eq!(parse_line("A B"), edge("A", "B"));
    assert_eq!(parse_line("from to"), edge("from", "to"));
}

#[test]
fn white_space_around_the_words_is_left_out() {
    assert_eq!(parse_line("  A \t  B  "), edge("A", "B"));
    assert_eq!(parse_line("\tA\tB\r"), edge("A", "B"));
    assert_eq!(parse_line("A\u{3000}B"), edge("A", "B"));
}

#[test]
fn words_after_the_second_are_left_out() {
    assert_eq!(parse_line("A B C D"), edge("A", "B"));
}

#[test]
fn a_line_without_words_is_blank() {
    assert_eq!(parse_line(""), Line::Blank);
    assert_eq!(parse_line("   \t "), Line::Blank);
}

#[test]
fn a_line_of_one_word_is_incomplete() {
    assert_eq!(parse_line("A"), Line::Incomplete);
    assert_eq!(parse_line("  lonely  "), Line::Incomplete);
}

#[test]
fn words_may_hold_any_character_that_is_no_white_space() {
    assert_eq!(parse_line("a->b c;d"), edge("a->b", "c;d"));
    assert_eq!(parse_line("é ü"), edge("é", "ü"));
}

#[test]
fn add_line_collects_the_pairs() {
    let mut pairs = Vec::new();
    assert!(add_line(&mut pairs, "A B"));
    assert!(add_line(&mut pairs, ""));
    assert!(add_line(&mut pairs, " B   C  trailing"));
    assert_eq!(
        pairs,
        vec![("A".to_string(), "B".to_string()), ("B".to_string(), "C".to_string())]
    );
    assert!(!add_line(&mut pairs, "alone"));
    assert_eq!(pairs.len(), 2);
}

#[test]
fn lines_build_a_graph() {
    let mut pairs = Vec::new();
    for line in "A B\n\nB C\n  C   A \n".lines() {
        assert!(add_line(&mut pairs, line));
    }
    let g = read_graph(pairs);
    assert_eq!(g.iter().len(), 3);
    assert_eq!(g.f_conex().len(), 1);
    assert_eq!(g.to_dot(), "digraph {\n0 [label=\"A\"];\n0 -> 1;\n1 [label=\"B\"];\n1 -> 2;\n2 [label=\"C\"];\n2 -> 0;\n}");
}
