use graph_kahn::{Node, NodeRegistry};

#[test]
fn node_keeps_its_label() {
    let n = Node::new("alpha");
    assert_eq!(n.0, "alpha");
}

#[test]
fn same_label_twice_gives_same_index() {
    let mut r = NodeRegistry::new();
    let a = r.register("A");
    let b = r.register("B");
    assert_eq!(r.register("A"), a);
    assert_eq!(r.register("B"), b);
    assert_eq!(r.size(), 2);
}

#[test]
fn distinct_labels_get_dense_indices() {
    let mut r = NodeRegistry::new();
    let labels = ["x", "y", "z", "w", "v"];
    for (k, l) in labels.iter().enumerate() {
        assert_eq!(r.register(l), k);
    }
    assert_eq!(r.size(), labels.len());
    for (k, l) in labels.iter().enumerate() {
        assert_eq!(r.label(k), *l);
    }
}

#[test]
fn empty_label_is_registered_like_any_other() {
    let mut r = NodeRegistry::new();
    assert_eq!(r.register(""), 0);
    assert_eq!(r.register("a"), 1);
    assert_eq!(r.register(""), 0);
    assert_eq!(r.size(), 2);
}

#[test]
fn find_reports_registered_labels_only() {
    let mut r = NodeRegistry::new();
    r.register("p");
    r.register("q");
    assert_eq!(r.find("q"), Some(1));
    assert_eq!(r.find("r"), None);
}

#[test]
fn repeated_labels_are_numbered_by_first_occurrence() {
    let mut r = NodeRegistry::new();
    let got: Vec<usize> = ["b", "a", "b", "c", "a"].iter().map(|l| r.register(l)).collect();
    assert_eq!(got, vec![0, 1, 0, 2, 1]);
    assert_eq!(r.size(), 3);
}
