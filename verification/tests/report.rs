use pid_legend::export::End;
use pid_legend::line_index::{Pipes, Run};
use pid_legend::report::{
    class_line, duplicate_line, group_line, line_line, more_shapes_line, near_part, orphan_line,
    pick, pipe_line, range_line, tag_split, unknown_block_line, ClassTags,
};
use pid_legend::rules::RangeAnnotation;

fn words(values: &[&str]) -> Vec<String> {
    values.iter().map(|v| v.to_string()).collect()
}

#[test]
fn the_group_line_counts_tags_and_manual_tags() {
    assert_eq!(group_line(&[]), None);
    assert_eq!(
        group_line(&[(true, true), (true, false), (false, true)]).unwrap(),
        "  GROUP 3 manual symbols, 2 tagged (1 manual tags)"
    );
}

#[test]
fn a_class_line_lists_its_tags_sorted_with_repeats() {
    assert_eq!(class_line("蝶阀", "butterfly", 3, &None), "  蝶阀 (butterfly) x3");
    let tags = ClassTags {
        distances: Some("1.5..4.0".to_string()),
        tags: words(&["BUV-2", "BUV-1", "BUV-2"]),
        untagged_at: words(&["(10, 20)", "(30, 40)"]),
    };
    assert_eq!(
        class_line("蝶阀", "butterfly", 5, &Some(tags)),
        "  蝶阀 (butterfly) x5  tagged 3/5  at 1.5..4.0 mm: BUV-1, BUV-2, BUV-2  UNTAGGED at (10, 20) (30, 40)"
    );
    let none_tagged = ClassTags { distances: None, tags: Vec::new(), untagged_at: Vec::new() };
    assert_eq!(class_line("球阀", "ball", 1, &Some(none_tagged)), "  球阀 (ball) x1  tagged 0/1");
}

#[test]
fn leftover_lines_name_what_is_left() {
    assert_eq!(unknown_block_line("MYSTERY on 0", 2), "  UNKNOWN BLOCK MYSTERY on 0 x2 -- add it to the rules");
    assert_eq!(near_part(&[]), "");
    assert_eq!(near_part(&[("NOTE".to_string(), 1), ("DN50".to_string(), 3)]), "  near: NOTE, DN50 x3");
    assert_eq!(more_shapes_line(20), None);
    assert_eq!(more_shapes_line(23).unwrap(), "  ... and 3 more unknown shapes");
    assert_eq!(
        orphan_line("蝶阀", &words(&["BUV-9", "BUV-10"])),
        "  ORPHAN 蝶阀 tags (no symbol claimed them): BUV-9, BUV-10"
    );
    assert_eq!(duplicate_line("蝶阀", &words(&["BUV-1"])), "  DUPLICATE 蝶阀 tags (a symbol already carries them): BUV-1");
    let annotations = vec![
        RangeAnnotation { value: "BUV-1/2".to_string(), members: words(&["BUV-1", "BUV-2"]), missing: Vec::new() },
        RangeAnnotation {
            value: "XV-0407A～0409A".to_string(),
            members: words(&["XV-0407A", "XV-0408A", "XV-0409A"]),
            missing: words(&["XV-0408A", "XV-0409A"]),
        },
    ];
    assert_eq!(
        range_line("XV", &annotations),
        "  RANGE XV annotations, 1/2 with every member on a symbol: BUV-1/2, XV-0407A～0409A (missing XV-0408A, XV-0409A)"
    );
}

fn run(numbers: &[&str], lines: &[&str]) -> Run {
    Run { numbers: words(numbers), lines: words(lines), segments: 1, ends: [End::Open, End::Open], handles: Vec::new() }
}

#[test]
fn the_pipe_line_counts_runs_by_how_they_are_numbered() {
    let mut pipes = Pipes {
        runs: vec![run(&["100-FW"], &["100-FW"]), run(&[], &["100-FW", "200-FW"]), run(&[], &[])],
        segments: 0,
        ports: 6,
        connected_ports: 5,
        open_ends: 2,
        families: Vec::new(),
    };
    assert_eq!(pipe_line(&pipes), None);
    pipes.segments = 4;
    assert_eq!(
        pipe_line(&pipes).unwrap(),
        "  PIPE 4 strokes -> 3 runs: 1 lettered, 2 on a line (1 on two), 1 on none; 5/6 connection points on a pipe, 2 open ends"
    );
}

#[test]
fn a_line_lists_the_symbols_on_it_once_each_sorted() {
    assert_eq!(
        line_line("100-FW", 4, "100", &words(&["BUV-3", "BUV-1", "BUV-3"])),
        "  LINE 100-FW: 4 runs, 100 mm, symbols: BUV-1, BUV-3"
    );
    assert_eq!(line_line("80-FS", 1, "12", &[]), "  LINE 80-FS: 1 runs, 12 mm, symbols: -");
}

#[test]
fn a_class_line_names_the_tagged_and_places_the_reported_untagged() {
    let (tagged, untagged) = tag_split(&[true, false, false, true], &[false, true, false, true]);
    assert_eq!(tagged, vec![0, 3]);
    assert_eq!(untagged, vec![1]);
    assert_eq!(pick(&[false, true, true]), vec![1, 2]);
    assert!(pick(&[]).is_empty());
}

#[test]
fn runs_on_no_line_are_picked_in_order() {
    let pipes = Pipes {
        runs: vec![run(&[], &[]), run(&["100-FW"], &["100-FW"]), run(&[], &[])],
        segments: 3,
        ports: 0,
        connected_ports: 0,
        open_ends: 0,
        families: Vec::new(),
    };
    assert_eq!(pipes.off_line_runs(), vec![0, 2]);
}
