use pid_legend::primitive::{Axis, PrimKind, Shape};
use pid_legend::rules::{
    accepts_tag, class_for_tag, default_true, inner_matches, layer_fallback, reports_untagged, wants_tag,
    LayerPrefixRule, OrphanRules, RangeAnnotation, ShapeClass, TagClass, TagClassRules,
};

fn words(values: &[&str]) -> Vec<String> {
    values.iter().map(|v| v.to_string()).collect()
}

#[test]
fn a_tag_is_at_least_four_characters() {
    for tag in ["XV-3201", "BUV-3101", "P-01", "接图 DWG-0100SP02-03"] {
        assert!(accepts_tag(4, tag), "{tag}");
    }
    for not in ["S", "K", " S ", "V-1", "S点", ""] {
        assert!(!accepts_tag(4, not), "{not:?}");
    }
    assert!(accepts_tag(1, "S"));
    assert!(!accepts_tag(1, " "));
}

#[test]
fn a_range_annotation_lists_the_members_no_symbol_carries() {
    let a = RangeAnnotation::of(
        "BUV-1/3".into(),
        words(&["BUV-1", "BUV-2", "BUV-3"]),
        &words(&["BUV-2", "XV-9"]),
    );
    assert_eq!(a.value, "BUV-1/3");
    assert_eq!(a.members, ["BUV-1", "BUV-2", "BUV-3"]);
    assert_eq!(a.missing, ["BUV-1", "BUV-3"]);
}

#[test]
fn the_first_layer_rule_whose_prefix_fits_wins() {
    let rule = |prefix: &str, class: &str| LayerPrefixRule {
        prefix: prefix.into(),
        class: class.into(),
        label: class.into(),
    };
    let rules = [rule("VALVE", "valve"), rule("VALVE_", "other"), rule("PUMP", "pump")];
    assert_eq!(layer_fallback(&rules, "VALVE_消防"), Some(0));
    assert_eq!(layer_fallback(&rules, "PUMP-1"), Some(2));
    assert_eq!(layer_fallback(&rules, "PIPE"), None);
}

#[test]
fn a_circle_rule_reads_its_inner_lettering() {
    assert!(inner_matches(&words(&["S", "K"]), None, &words(&["S"])));
    assert!(!inner_matches(&words(&["S K"]), None, &words(&["S"])));
    assert!(inner_matches(&words(&["E H"]), Some("tag"), &words(&["E", "H"])));
    assert!(inner_matches(&[], Some("tag"), &words(&["XV", "3201"])));
    assert!(!inner_matches(&[], Some("tag"), &words(&["E", "H"])));
    assert!(inner_matches(&[], Some("empty"), &[]));
    assert!(!inner_matches(&[], Some("empty"), &words(&["S"])));
    assert!(inner_matches(&[], None, &words(&["anything"])));
}

#[test]
fn small_rule_defaults() {
    assert!(default_true());
    assert!(!OrphanRules::default().claimed_elsewhere);
    assert!(reports_untagged(None, true));
    assert!(!reports_untagged(Some(false), true));
}

#[test]
fn shapes_read_their_command_names() {
    assert_eq!(Shape::from_id("PYR"), Some(Shape::Pyramid));
    assert_eq!(Shape::from_id("PYRAMID"), Some(Shape::Pyramid));
    assert_eq!(Shape::from_id("box"), None);
    for shape in [Shape::Box, Shape::Wedge, Shape::Cylinder, Shape::Cone, Shape::Sphere, Shape::Pyramid, Shape::Torus] {
        assert_eq!(Shape::from_id(shape.name()), Some(shape));
    }
    assert!(!Shape::Box.radial() && Shape::Cone.radial());
    assert!(!Shape::Sphere.needs_height() && Shape::Cylinder.needs_height());
    assert_eq!(Shape::Torus.footprint_points(), 3);
    assert_eq!(Shape::Box.footprint_points(), 2);
    assert_eq!(PrimKind::Poly.letter(), 'L');
    assert_eq!(PrimKind::Arc.letter(), 'A');
    assert_eq!(Axis::Horizontal.other(), Axis::Vertical);
}

fn shape_class(shape: Option<&str>, class: &str, label: &str, color: [u8; 3]) -> ShapeClass {
    ShapeClass {
        shape: shape.map(|s| s.to_string()),
        class: TagClass { class: class.to_string(), label: label.to_string(), color },
    }
}

fn class_rules() -> TagClassRules {
    TagClassRules {
        tag_classes: vec![
            shape_class(Some("BV9999*"), "ball-valve", "球阀", [255, 170, 0]),
            shape_class(Some("GV9999*"), "gate", "闸阀", [0, 200, 0]),
        ],
        blocks: vec![
            shape_class(Some("BUV-9999"), "ignore", "", [0, 0, 0]),
            shape_class(Some("BUV-9999"), "butterfly", "蝶阀", [255, 140, 0]),
            shape_class(None, "check", "止回阀", [1, 2, 3]),
            shape_class(Some("*DWG-*"), "sheet-ref", "接图", [9, 9, 9]),
            shape_class(Some("LA-9999"), "loading-arm", "装卸臂", [0, 128, 128]),
        ],
        circles: vec![
            shape_class(Some("T?-9999"), "tank", "储罐", [0, 0, 255]),
            shape_class(Some("P-9999"), "pump", "泵", [128, 0, 128]),
        ],
    }
}

#[test]
fn a_tag_names_its_class_by_shape_in_rule_order() {
    let rules = class_rules();
    let class = |tag: &str| class_for_tag(tag, &rules).map(|c| c.class);
    assert_eq!(class("BV0301"), Some("ball-valve".to_string()));
    assert_eq!(class("GV0326A + GV0326B"), Some("gate".to_string()));
    assert_eq!(class("  GV0326A + BV0301"), Some("gate".to_string()));
    assert_eq!(class("BUV-3101"), Some("butterfly".to_string()));
    assert_eq!(class("LA-0302"), Some("loading-arm".to_string()));
    assert_eq!(class("TG-0101"), Some("tank".to_string()));
    assert_eq!(class("接 DWG-0100FF02-05"), Some("sheet-ref".to_string()));
    assert_eq!(class("P-0407"), Some("pump".to_string()));
    assert_eq!(class("HELLO"), None);
    assert_eq!(class(""), None);
    let ball = class_for_tag("BV0301", &rules).unwrap();
    assert_eq!((ball.label.as_str(), ball.color), ("球阀", [255, 170, 0]));
}

#[test]
fn a_class_wants_a_tag_when_its_rule_says_how_to_read_one() {
    assert!(!wants_tag(false, false, false));
    assert!(wants_tag(true, false, false));
    assert!(wants_tag(false, true, false));
    assert!(wants_tag(false, false, true));
}
