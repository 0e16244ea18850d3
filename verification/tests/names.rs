use oxidelica_flatten::names::{element_name, index_tuples};

#[test]
fn elements_are_named_by_their_subscripts() {
    assert_eq!(element_name("T", &vec![2]), "T[2]");
    assert_eq!(element_name("A", &vec![1, 3]), "A[1,3]");
}

#[test]
fn index_tuples_run_in_row_major_order() {
    assert_eq!(
        index_tuples(&vec![2, 2]),
        vec![vec![1, 1], vec![1, 2], vec![2, 1], vec![2, 2]]
    );
}
