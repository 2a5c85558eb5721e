use optopus::interaction::interaction_neighbors;

#[test]
fn neighbours_from_monomials_and_constraints() {
    let objective = vec![vec![0, 1], vec![2], vec![4, 4]];
    let constraints = vec![vec![vec![1], vec![3, 1]]];
    let r = interaction_neighbors(&objective, &constraints, 5);
    assert_eq!(r, vec![vec![1], vec![0, 3], vec![], vec![1], vec![]]);
}

#[test]
fn neighbour_lists_are_sorted_and_unique() {
    let objective = vec![vec![3, 0, 2], vec![2, 0]];
    let constraints = vec![vec![vec![4], vec![0]], vec![vec![4, 0]]];
    let r = interaction_neighbors(&objective, &constraints, 5);
    assert_eq!(r[0], vec![2, 3, 4]);
    assert_eq!(r[2], vec![0, 3]);
    assert_eq!(r[4], vec![0]);
}
