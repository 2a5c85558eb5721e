use optopus::formula::multiply;

#[test]
fn multiply_merges_variables_and_adds_powers() {
    assert_eq!(multiply(&[(0, 1), (2, 3)], &[(1, 2), (2, 1)]), vec![(0, 1), (1, 2), (2, 4)]);
    assert_eq!(multiply(&[(5, 2)], &[]), vec![(5, 2)]);
    assert_eq!(multiply(&[], &[]), Vec::<(usize, u32)>::new());
}

#[test]
fn multiply_orders_the_variables_of_unsorted_lists() {
    assert_eq!(multiply(&[(3, 1), (1, 1)], &[(3, 2)]), vec![(1, 1), (3, 3)]);
    assert_eq!(multiply(&[(2, 1), (2, 1)], &[(2, 1)]), vec![(2, 3)]);
}
