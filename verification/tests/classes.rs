use pid_legend::classes::{by_class, ranked};

fn key(class: &str, label: &str) -> (String, String) {
    (class.to_string(), label.to_string())
}

#[test]
fn symbols_are_grouped_by_class_most_frequent_first() {
    let symbols = vec![
        key("gate", "闸阀"),
        key("butterfly", "蝶阀"),
        key("gate", "闸阀"),
        key("ball-valve", "球阀"),
        key("butterfly", "蝶阀"),
        key("gate", "闸阀"),
        key("check", "止回阀"),
    ];
    let groups = by_class(&symbols);
    assert_eq!(
        groups,
        vec![
            (key("gate", "闸阀"), vec![0, 2, 5]),
            (key("butterfly", "蝶阀"), vec![1, 4]),
            (key("ball-valve", "球阀"), vec![3]),
            (key("check", "止回阀"), vec![6]),
        ]
    );
}

#[test]
fn one_class_with_two_labels_makes_two_groups_ordered_by_label() {
    let symbols = vec![key("valve", "b"), key("valve", "a")];
    assert_eq!(by_class(&symbols), vec![(key("valve", "a"), vec![1]), (key("valve", "b"), vec![0])]);
    assert!(by_class(&[]).is_empty());
}

#[test]
fn the_most_frequent_entries_come_first_and_ties_by_key() {
    let counts = vec![
        ("BV".to_string(), 2),
        ("GV".to_string(), 5),
        ("AV".to_string(), 2),
        ("XV".to_string(), 1),
        ("CV".to_string(), 5),
    ];
    let top = ranked(&counts, 3);
    assert_eq!(
        top,
        vec![("CV".to_string(), 5), ("GV".to_string(), 5), ("AV".to_string(), 2)]
    );
    assert_eq!(ranked(&counts, 10).len(), 5, "no more than there are");
    assert!(ranked(&counts, 0).is_empty());
}
