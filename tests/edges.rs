use graph_kahn::{Edge, Graph};

fn three_nodes() -> Graph {
    let mut g = Graph::new();
    g.register_node("a");
    g.register_node("b");
    g.register_node("c");
    g
}

#[test]
fn self_loop_is_dropped() {
    let mut g = three_nodes();
    g.add_edge(1, 1);
    assert_eq!(g.edge_count(), 0);
    g.add_edge(0, 1);
    assert_eq!(g.edges(), &vec![Edge(0, 1)]);
}

#[test]
fn multi_edges_are_kept() {
    let mut g = three_nodes();
    g.add_edge(0, 1);
    g.add_edge(0, 1);
    assert_eq!(g.edge_count(), 2);
}

#[test]
fn collect_edges_keeps_storage_order() {
    let mut g = three_nodes();
    g.add_edge(0, 2);
    g.add_edge(1, 2);
    g.add_edge(0, 1);
    let from_a = g.collect_edges(|e: &Edge| e.0 == 0);
    assert_eq!(from_a, vec![Edge(0, 2), Edge(0, 1)]);
    assert_eq!(g.edge_count(), 3);
}

#[test]
fn incoming_edges_are_detected() {
    let mut g = three_nodes();
    g.add_edge(0, 2);
    assert!(g.has_incoming_edges(2));
    assert!(!g.has_incoming_edges(0));
    assert!(!g.has_incoming_edges(1));
}

#[test]
fn remove_edge_takes_one_occurrence() {
    let mut g = three_nodes();
    g.add_edge(0, 1);
    g.add_edge(1, 2);
    g.add_edge(0, 1);
    g.remove_edge(&Edge(0, 1));
    assert_eq!(g.edges(), &vec![Edge(1, 2), Edge(0, 1)]);
    g.remove_edge(&Edge(0, 1));
    assert_eq!(g.edges(), &vec![Edge(1, 2)]);
}

#[test]
fn indegrees_count_edges_per_target() {
    let mut g = three_nodes();
    g.add_edge(0, 2);
    g.add_edge(1, 2);
    g.add_edge(0, 2);
    g.add_edge(2, 1);
    assert_eq!(g.indegrees(), vec![0, 1, 3]);
}

#[test]
fn frontier_is_ascending_nodes_without_incoming() {
    let mut g = Graph::new();
    for l in ["n0", "n1", "n2", "n3", "n4"] {
        g.register_node(l);
    }
    g.add_edge(3, 1);
    g.add_edge(0, 4);
    assert_eq!(g.collect_nodes_without_incoming(), vec![0, 2, 3]);
}
