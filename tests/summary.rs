use graph_kahn::to_string;

#[test]
fn summary_of_empty_vec() {
    let v: Vec<u8> = Vec::new();
    assert_eq!(to_string(&v), "[vec/0]");
}

#[test]
fn summary_gives_length_in_decimal() {
    assert_eq!(to_string(&vec![1, 2, 3]), "[vec/3]");
    assert_eq!(to_string(&vec!['x'; 12]), "[vec/12]");
    assert_eq!(to_string(&vec![0u8; 1305]), "[vec/1305]");
}
