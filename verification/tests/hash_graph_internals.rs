use graph_rs::compare_vectors_for_element_equality;

#[test]
fn vector_element_equality() {
    let vec1 = vec![3, 5, 10];
    let vec2 = vec![10, 3, 5];

    assert!(compare_vectors_for_element_equality(&vec1, &vec2));
}

#[test]
fn vector_element_inequality() {
    assert!(!compare_vectors_for_element_equality(&vec![1, 2], &vec![1, 3]));
    assert!(!compare_vectors_for_element_equality(&vec![1, 1, 2], &vec![1, 2, 2]));
    assert!(!compare_vectors_for_element_equality(&vec![1], &vec![1, 1]));
    assert!(compare_vectors_for_element_equality(&vec![], &vec![]));
}
