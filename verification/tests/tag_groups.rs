use pid_legend::tag_groups::{plot_groups, GroupSource, PlotGroup};

fn symbol(tag: Option<&str>, handles: &[u64], tag_handles: &[u64]) -> GroupSource {
    sized(tag, handles, tag_handles, 1)
}

/// A symbol of side `side`: the grouping reads sizes by rank, and the sides
/// rank as the areas do.
fn sized(tag: Option<&str>, handles: &[u64], tag_handles: &[u64], side: u64) -> GroupSource {
    GroupSource {
        tag: tag.map(str::to_string),
        size: side,
        handles: handles.to_vec(),
        tag_handles: tag_handles.to_vec(),
    }
}

fn names(groups: &[PlotGroup]) -> Vec<(&str, Vec<&str>)> {
    groups
        .iter()
        .map(|g| (g.tag.as_str(), g.members.iter().map(String::as_str).collect()))
        .collect()
}

#[test]
fn a_tagged_symbol_is_a_group_over_its_entities_and_its_tag() {
    let symbols = vec![
        symbol(Some("BUV-3101"), &[0x2A], &[0x2B]),
        symbol(None, &[0x30], &[]),
        symbol(Some("XV-0407"), &[0x40, 0x41, 0x41], &[]),
        symbol(Some(" "), &[0x50], &[]),
        symbol(Some("PSV0407A"), &[], &[]),
        symbol(Some("GV0326A + GV0326B"), &[0x60, 0], &[0x61, 0x62]),
    ];
    let groups = plot_groups(&symbols);
    assert_eq!(
        names(&groups),
        [
            ("BUV-3101", vec!["42", "43"]),
            ("XV-0407", vec!["64", "65"]),
            ("GV0326A + GV0326B", vec!["96", "97", "98"]),
        ]
    );
}

#[test]
fn an_entity_two_symbols_claim_goes_with_the_smaller_one() {
    let symbols = vec![
        sized(Some("TD-0208"), &[0x10, 0x11, 0x20], &[], 40),
        sized(Some("S"), &[0x21, 0x20], &[], 3),
        sized(Some("S"), &[0x20], &[], 30),
    ];
    let groups = plot_groups(&symbols);
    assert_eq!(
        names(&groups),
        [("TD-0208", vec!["16", "17"]), ("S", vec!["32", "33"])]
    );
    // The same handle in two symbols of one size stays with the first.
    let tie = vec![
        sized(Some("A"), &[0x10, 0x20], &[], 5),
        sized(Some("B"), &[0x11, 0x20], &[], 5),
    ];
    let groups = plot_groups(&tie);
    assert_eq!(groups[0].members, ["16", "32"]);
    assert_eq!(groups[1].members, ["17"]);
}

#[test]
fn group_members_sort_as_text_and_the_tag_is_trimmed() {
    let groups = plot_groups(&[symbol(Some(" XV-1 "), &[9, 10, 100], &[])]);
    assert_eq!(groups[0].tag, "XV-1");
    assert_eq!(groups[0].members, ["10", "100", "9"]);
}
