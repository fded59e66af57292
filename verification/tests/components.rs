use pid_legend::components::components;

#[test]
fn touching_pairs_join_strokes_into_groups_in_sheet_order() {
    assert_eq!(
        components(5, &[(0, 2), (3, 4)]),
        vec![vec![0, 2], vec![1], vec![3, 4]]
    );
    // Joined transitively, whichever way round a pair is given.
    assert_eq!(components(4, &[(3, 1), (1, 0)]), vec![vec![0, 1, 3], vec![2]]);
    // A stroke touching itself is still alone.
    assert_eq!(components(2, &[(1, 1)]), vec![vec![0], vec![1]]);
    assert!(components(0, &[]).is_empty());
}

#[test]
fn a_gap_in_the_pairs_breaks_a_chain_in_two() {
    let chain = [(0, 1), (1, 2), (3, 4), (4, 5)];
    assert_eq!(components(6, &chain), vec![vec![0, 1, 2], vec![3, 4, 5]]);
    let bridged = [(0, 1), (1, 2), (2, 3), (3, 4), (4, 5)];
    assert_eq!(components(6, &bridged), vec![vec![0, 1, 2, 3, 4, 5]]);
}
