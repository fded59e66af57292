use pid_legend::orphans::{sort_orphans, OrphanInput};

fn words(values: &[&str]) -> Vec<String> {
    values.iter().map(|v| v.to_string()).collect()
}

fn input(lettering: &[&str], carried: &[&str], claimed_elsewhere: bool) -> OrphanInput {
    OrphanInput {
        lettering: words(lettering),
        taken: vec![false; lettering.len()],
        min_chars: 4,
        shapes: vec![("BUV-9999".to_string(), "蝶阀".to_string()), ("XV-9999*".to_string(), "XV".to_string())],
        carried: words(carried),
        claimed_elsewhere,
    }
}

#[test]
fn lettering_is_sorted_into_orphans_ranges_and_duplicates() {
    let out = sort_orphans(&input(
        &["BUV-3102", "BUV-3101", "BUV-3101/3103", "XV-0407A～0409A", "NOTE", "BUV-3102", "S"],
        &["BUV-3101", "XV-0408A"],
        false,
    ));
    let orphans: Vec<(String, Vec<String>)> =
        out.orphan_tags.iter().map(|g| (g.label.clone(), g.tags.clone())).collect();
    assert_eq!(
        orphans,
        [
            ("XV".to_string(), words(&["XV-0407A", "XV-0409A"])),
            ("蝶阀".to_string(), words(&["BUV-3102", "BUV-3103"])),
        ]
    );
    let duplicates: Vec<(String, Vec<String>)> =
        out.duplicate_tags.iter().map(|g| (g.label.clone(), g.tags.clone())).collect();
    assert_eq!(duplicates, [("蝶阀".to_string(), words(&["BUV-3101"]))]);
    assert_eq!(out.range_annotations.len(), 2);
    let xv = &out.range_annotations[0];
    assert_eq!(xv.label, "XV");
    assert_eq!(xv.annotations[0].value, "XV-0407A～0409A");
    assert_eq!(xv.annotations[0].members, words(&["XV-0407A", "XV-0408A", "XV-0409A"]));
    assert_eq!(xv.annotations[0].missing, words(&["XV-0407A", "XV-0409A"]));
    let buv = &out.range_annotations[1];
    assert_eq!(buv.annotations[0].members, words(&["BUV-3101", "BUV-3103"]), "a slash lists, it does not span");
    assert_eq!(buv.annotations[0].missing, words(&["BUV-3103"]));
}

#[test]
fn carried_lettering_is_an_orphan_when_the_rules_say_so() {
    let out = sort_orphans(&input(&["BUV-3101"], &["BUV-3101"], true));
    assert!(out.duplicate_tags.is_empty());
    assert_eq!(out.orphan_tags[0].tags, words(&["BUV-3101"]));
}

#[test]
fn taken_and_short_lettering_is_left_alone() {
    let mut i = input(&["BUV-3101", "BUV-3102"], &[], false);
    i.taken[0] = true;
    i.min_chars = 9;
    let out = sort_orphans(&i);
    assert!(out.orphan_tags.is_empty() && out.duplicate_tags.is_empty() && out.range_annotations.is_empty());
}
