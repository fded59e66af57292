use pid_legend::carry::carried_lines;

fn nums(values: &[&str]) -> Vec<String> {
    values.iter().map(|v| v.to_string()).collect()
}

#[test]
fn an_unlettered_run_carries_the_numbers_of_the_lettered_runs_it_continues() {
    // 0 (100) - 1 - 2 - 3 (200); 4 alone.
    let numbers = vec![nums(&["100"]), nums(&[]), nums(&[]), nums(&["200"]), nums(&[])];
    let next = vec![vec![1], vec![0, 2], vec![1, 3], vec![2], vec![]];
    let lines = carried_lines(&numbers, &next);
    assert_eq!(lines[0], nums(&["100"]));
    assert_eq!(lines[1], nums(&["100", "200"]));
    assert_eq!(lines[2], nums(&["100", "200"]));
    assert_eq!(lines[3], nums(&["200"]));
    assert!(lines[4].is_empty(), "no lettered run reaches it");
}

#[test]
fn a_lettered_run_keeps_its_own_numbers_and_stops_the_ones_behind_it() {
    // 0 (A) - 1 (B, A-typo lettered twice) - 2: 2 gets only B.
    let numbers = vec![nums(&["A"]), nums(&["B", "B"]), nums(&[])];
    let next = vec![vec![1], vec![0, 2], vec![1]];
    let lines = carried_lines(&numbers, &next);
    assert_eq!(lines[0], nums(&["A"]));
    assert_eq!(lines[1], nums(&["B"]), "its own, once");
    assert_eq!(lines[2], nums(&["B"]));
}
