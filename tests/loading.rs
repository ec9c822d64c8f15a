use graph_kahn::{first_two_tokens, Edge, Graph, LoadError};

fn lines(ls: &[&str]) -> Vec<String> {
    ls.iter().map(|s| s.to_string()).collect()
}

#[test]
fn comments_and_blank_lines_are_skipped() {
    let g = Graph::read_lines(&lines(&["# comment", "% other", "", "   ", "a,b"])).unwrap();
    assert_eq!(g.node_count(), 2);
    assert_eq!(g.edges(), &vec![Edge(0, 1)]);
}

#[test]
fn comma_and_space_both_separate() {
    let g = Graph::read_lines(&lines(&["a b", "b,c", "c  ,  d extra tokens"])).unwrap();
    assert_eq!(g.node_count(), 4);
    assert_eq!(g.label(3), "d");
    assert_eq!(g.edges(), &vec![Edge(0, 1), Edge(1, 2), Edge(2, 3)]);
}

#[test]
fn loading_dedups_labels() {
    let g = Graph::read_lines(&lines(&["x,y", "y,x", "x,z"])).unwrap();
    assert_eq!(g.node_count(), 3);
    assert_eq!(g.label(0), "x");
    assert_eq!(g.label(1), "y");
    assert_eq!(g.label(2), "z");
    assert_eq!(g.edges(), &vec![Edge(0, 1), Edge(1, 0), Edge(0, 2)]);
}

#[test]
fn self_loop_lines_register_but_add_no_edge() {
    let g = Graph::read_lines(&lines(&["a,a", "a,b", "b b"])).unwrap();
    assert_eq!(g.node_count(), 2);
    assert_eq!(g.edges(), &vec![Edge(0, 1)]);
    for e in g.edges() {
        assert_ne!(e.0, e.1);
    }
}

#[test]
fn single_token_line_is_malformed() {
    let r = Graph::read_lines(&lines(&["# header", "A"]));
    assert!(matches!(r, Err(LoadError::MalformedLine(1))));
}

#[test]
fn first_malformed_line_is_reported() {
    let r = Graph::read_lines(&lines(&["a,b", ",c,", "d", "e,f"]));
    assert!(matches!(r, Err(LoadError::MalformedLine(1))));
}

#[test]
fn empty_source_gives_empty_graph() {
    let g = Graph::read_lines(&Vec::new()).unwrap();
    assert_eq!(g.node_count(), 0);
    assert_eq!(g.edge_count(), 0);
}

#[test]
fn tokens_skip_empty_fields() {
    assert_eq!(
        first_two_tokens(",,from  to,x"),
        Some(("from".to_string(), "to".to_string()))
    );
    assert_eq!(first_two_tokens("only"), None);
    assert_eq!(first_two_tokens(" , "), None);
}

#[test]
fn unicode_blank_lines_are_skipped() {
    let src = lines(&["\u{0B}", "a,b", "\u{A0}\u{3000}\u{2028}", "\t \u{85}"]);
    let g = Graph::read_lines(&src).unwrap();
    assert_eq!(g.node_count(), 2);
    assert_eq!(g.edges(), &vec![Edge(0, 1)]);
}
