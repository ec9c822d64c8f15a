use graph_kahn::{residue_listing, topo_sort, Edge, Graph, SortOutcome, RESIDUE_LIST_LIMIT};

fn lines(ls: &[&str]) -> Vec<String> {
    ls.iter().map(|s| s.to_string()).collect()
}

fn position(order: &[usize], v: usize) -> usize {
    order.iter().position(|&x| x == v).unwrap()
}

fn labels_of(g: &Graph, order: &[usize]) -> Vec<String> {
    order.iter().map(|&i| g.label(i).to_string()).collect()
}

#[test]
fn end_to_end_example_orders_labels() {
    let mut g = Graph::read_lines(&lines(&["# comment", "A,B", "B,C", "A,C"])).unwrap();
    let order = match topo_sort(&mut g) {
        SortOutcome::Acyclic(o) => o,
        SortOutcome::Cyclic(_) => panic!("the example has no cycle"),
    };
    assert_eq!(labels_of(&g, &order), vec!["A", "B", "C"]);
}

#[test]
fn every_edge_goes_forward() {
    let src = ["a,b", "a,c", "b,d", "c,d", "d,e", "c,e", "f,a"];
    let mut g = Graph::read_lines(&lines(&src)).unwrap();
    let edges = g.edges().clone();
    let order = match topo_sort(&mut g) {
        SortOutcome::Acyclic(o) => o,
        SortOutcome::Cyclic(_) => panic!("acyclic input"),
    };
    for Edge(u, v) in edges {
        assert!(position(&order, u) < position(&order, v));
    }
}

#[test]
fn acyclic_order_holds_every_node_once() {
    let mut g = Graph::read_lines(&lines(&["a,b", "c,d", "e,e", "b,d"])).unwrap();
    let n = g.node_count();
    match topo_sort(&mut g) {
        SortOutcome::Acyclic(o) => {
            assert_eq!(o.len(), n);
            let mut sorted = o.clone();
            sorted.sort();
            assert_eq!(sorted, (0..n).collect::<Vec<_>>());
        }
        SortOutcome::Cyclic(_) => panic!("acyclic input"),
    }
    assert_eq!(g.edge_count(), 0);
}

#[test]
fn two_cycle_leaves_two_edges() {
    let mut g = Graph::read_lines(&lines(&["A,B", "B,A", "C,C"])).unwrap();
    let c = 2;
    assert_eq!(g.label(c), "C");
    match topo_sort(&mut g) {
        SortOutcome::Cyclic(o) => assert_eq!(o, vec![c]),
        SortOutcome::Acyclic(_) => panic!("the input has a cycle"),
    }
    assert_eq!(g.edge_count(), 2);
    assert_eq!(residue_listing(&g), Some(&vec![Edge(0, 1), Edge(1, 0)]));
}

#[test]
fn node_reached_twice_is_placed_once() {
    let mut g = Graph::read_lines(&lines(&["a,c", "b,c", "a,c", "c,d"])).unwrap();
    match topo_sort(&mut g) {
        SortOutcome::Acyclic(o) => {
            assert_eq!(o.len(), 4);
            assert_eq!(o.iter().filter(|&&x| x == 1).count(), 1);
            for (u, v) in [(0, 1), (2, 1), (1, 3)] {
                assert!(position(&o, u) < position(&o, v));
            }
        }
        SortOutcome::Cyclic(_) => panic!("acyclic input"),
    }
}

#[test]
fn nodes_behind_a_cycle_stay_unplaced() {
    let mut g = Graph::read_lines(&lines(&["s,a", "a,b", "b,a", "b,t"])).unwrap();
    match topo_sort(&mut g) {
        SortOutcome::Cyclic(o) => assert_eq!(labels_of(&g, &o), vec!["s"]),
        SortOutcome::Acyclic(_) => panic!("the input has a cycle"),
    }
    assert_eq!(g.edges(), &vec![Edge(1, 2), Edge(2, 1), Edge(2, 3)]);
}

#[test]
fn empty_graph_sorts_to_nothing() {
    let mut g = Graph::new();
    match topo_sort(&mut g) {
        SortOutcome::Acyclic(o) => assert!(o.is_empty()),
        SortOutcome::Cyclic(_) => panic!("no edges"),
    }
}

#[test]
fn large_residue_is_not_listed() {
    let mut src = Vec::new();
    for k in 0..RESIDUE_LIST_LIMIT {
        src.push(format!("r{},r{}", k, (k + 1) % RESIDUE_LIST_LIMIT));
    }
    let mut g = Graph::read_lines(&src).unwrap();
    match topo_sort(&mut g) {
        SortOutcome::Cyclic(o) => assert!(o.is_empty()),
        SortOutcome::Acyclic(_) => panic!("the input is one cycle"),
    }
    assert_eq!(g.edge_count(), RESIDUE_LIST_LIMIT);
    assert_eq!(residue_listing(&g), None);
}
