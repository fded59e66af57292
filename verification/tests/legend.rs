use pid_legend::legend::{
    fnv1a, hash_color, is_legend_layer, is_shape_class, layer_for_class, legend_layers, line_color,
    pipe_layer, pipe_layers, run_layers, PIPE_NONE_COLOR, PIPE_NONE_LAYER, SHAPE_LAYER,
};
use pid_legend::ranges::expand_range;

fn words(values: &[&str]) -> Vec<String> {
    values.iter().map(|v| v.to_string()).collect()
}

#[test]
fn hash_colours_are_bright() {
    for h in [0u64, 1, 12345, u64::MAX, 0xdead_beef] {
        let [r, g, b] = hash_color(h);
        assert!(r.max(g).max(b) >= 200, "{h}: {r} {g} {b}");
    }
    assert_ne!(hash_color(1), hash_color(100));
}

#[test]
fn legend_layer_names() {
    assert_eq!(layer_for_class("butterfly"), "PID-LEGEND-BUTTERFLY");
    assert_eq!(layer_for_class("shape-1a2b3c4d"), SHAPE_LAYER);
    assert_eq!(pipe_layer("100-FW"), "PID-PIPE-100-FW");
    assert!(is_legend_layer("PID-LEGEND-TANK"));
    assert!(is_legend_layer(SHAPE_LAYER));
    assert!(is_legend_layer("PID-PIPE-200-FS-31001-A2"));
    assert!(is_legend_layer(PIPE_NONE_LAYER));
    assert!(!is_legend_layer("VALVE_消防"));
    assert!(!is_legend_layer("PIPE-消防"));
}

#[test]
fn a_range_annotation_expands_to_the_tags_it_names() {
    assert_eq!(
        expand_range("XV-0407A～0409A"),
        Some(words(&["XV-0407A", "XV-0408A", "XV-0409A"]))
    );
    assert_eq!(
        expand_range("XV-0410A~0410D"),
        Some(words(&["XV-0410A", "XV-0410B", "XV-0410C", "XV-0410D"]))
    );
    assert_eq!(expand_range("XV-0407D/0407E"), Some(words(&["XV-0407D", "XV-0407E"])));
    assert_eq!(
        expand_range("LA-0303～0307"),
        Some(words(&["LA-0303", "LA-0304", "LA-0305", "LA-0306", "LA-0307"]))
    );
    assert_eq!(
        expand_range("LA-0326～LA-0327"),
        Some(words(&["LA-0326", "LA-0327"])),
        "a repeated prefix is allowed"
    );
    assert_eq!(expand_range("XV-0407A"), None);
    assert_eq!(expand_range("PR-0301A 1/2\""), None);
    assert_eq!(expand_range("XV-0407A～0409B"), None);
    assert_eq!(expand_range("LA-0307～0303"), None);
    assert_eq!(expand_range("XV-0407A～HS-0409A"), None);
    assert_eq!(expand_range("LA-0001～0999"), None, "too wide to be a group");
}

// ── the library's own checks ────────────────────────────────────────────

#[test]
fn fnv1a_has_its_published_values() {
    assert_eq!(fnv1a(b""), 0xcbf2_9ce4_8422_2325);
    assert_eq!(fnv1a(b"a"), 0xaf63_dc4c_8601_ec8c);
}

#[test]
fn a_hash_colour_has_an_exact_value() {
    // Hue 0 (hash 0): full red, the ramp's floor on green and blue.
    assert_eq!(hash_color(0), [238, 43, 43]);
}

#[test]
fn a_line_colour_is_the_same_on_every_call() {
    assert_eq!(line_color("100-FW"), line_color("100-FW"));
    assert_eq!(line_color("100-FW"), hash_color(fnv1a("100-FW".as_bytes())));
}

#[test]
fn shape_classes_and_run_layers() {
    assert!(is_shape_class("shape-00ff"));
    assert!(!is_shape_class("butterfly"));
    assert_eq!(run_layers(&words(&["100-FW", "80-FS"])), ["PID-PIPE-100-FW", "PID-PIPE-80-FS"]);
    assert_eq!(run_layers(&[]), [PIPE_NONE_LAYER]);
}

#[test]
fn pipe_layers_give_each_line_its_colour_and_unnumbered_runs_grey() {
    let runs = vec![words(&["200-FW", "100-FW"]), Vec::new(), words(&["100-FW"])];
    let layers = pipe_layers(&runs);
    assert_eq!(
        layers,
        vec![
            ("PID-PIPE-100-FW".to_string(), line_color("100-FW")),
            ("PID-PIPE-200-FW".to_string(), line_color("200-FW")),
            (PIPE_NONE_LAYER.to_string(), PIPE_NONE_COLOR),
        ]
    );
}

#[test]
fn legend_layers_name_each_class_once_and_shapes_share_one_white_layer() {
    let symbols = vec![
        ("gate".to_string(), [1, 2, 3]),
        ("shape-5311cc3f".to_string(), [9, 9, 9]),
        ("gate".to_string(), [4, 5, 6]),
        ("shape-aa".to_string(), [7, 7, 7]),
    ];
    let layers = legend_layers(&symbols, &[words(&["100-FW"])]);
    assert_eq!(
        layers,
        vec![
            ("PID-LEGEND-GATE".to_string(), [4, 5, 6]),
            (SHAPE_LAYER.to_string(), [255, 255, 255]),
            ("PID-PIPE-100-FW".to_string(), line_color("100-FW")),
        ]
    );
}
