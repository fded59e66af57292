use pid_legend::groups::{block_class, derive_tag, effective_tag, group_class, group_name, BlockClass};
use pid_legend::rules::{ShapeClass, TagClass, TagClassRules};
use pid_legend::tags::{GroupTag, TagHow, TagRead, TagSource};

fn words(values: &[&str]) -> Vec<String> {
    values.iter().map(|v| v.to_string()).collect()
}

fn shapes() -> Vec<String> {
    words(&["BV9999*", "GV9999*", "BUV-9999", "*DWG-*", "T?-9999", "P-9999*", "LA-9999*"])
}

fn derive(texts: &[&str]) -> Option<(String, TagHow)> {
    derive_tag(&words(texts), &shapes(), 4).map(|r| (r.value, r.how))
}

#[test]
fn a_group_reads_its_tag_from_its_own_lettering() {
    assert_eq!(derive(&["BUV-3101"]), Some(("BUV-3101".into(), TagHow::Shape)));
    assert_eq!(
        derive(&["BUV-3101", "1/2\"NPT"]),
        Some(("BUV-3101".into(), TagHow::Shape)),
        "the size is not the tag, wherever it is lettered"
    );
    // Two shaped pieces, an assembly in reading order: top first.
    assert_eq!(derive(&["GV0326A", "GV0326B"]), Some(("GV0326A + GV0326B".into(), TagHow::Shape)));
    assert_eq!(derive(&["XV", "3201"]), Some(("XV-3201".into(), TagHow::Bubble)));
    assert_eq!(derive(&["ANY-THING"]), Some(("ANY-THING".into(), TagHow::Single)));
    assert_eq!(
        derive(&["ANY-THING", "NO"]),
        Some(("ANY-THING".into(), TagHow::Single)),
        "a short piece beside the one long one does not make a join"
    );
    assert_eq!(derive(&[]), None, "no lettering, no tag");
    assert_eq!(derive(&["S"]), None, "too short");
    assert_eq!(derive(&["XV-0407A～0409A"]), None, "a range annotation names several symbols");
    assert_eq!(derive(&["DN100", "1.6MPa"]), None, "two unshaped pieces are not a tag of both");
    // A range annotation beside a real tag does not get in its way.
    assert_eq!(derive(&["XV-0407A～0409A", "BV0301"]), Some(("BV0301".into(), TagHow::Shape)));
}

#[test]
fn a_manual_tag_is_the_stored_value_and_an_auto_tag_is_read_again() {
    let read = Some(TagRead { value: "BUV-3101".to_string(), how: TagHow::Shape });
    let manual = GroupTag { name: Some("BUV-9000".to_string()), source: TagSource::Manual };
    assert_eq!(effective_tag(&manual, read.clone()), Some("BUV-9000".to_string()));
    let auto = GroupTag { name: Some("BUV-9000".to_string()), source: TagSource::Auto };
    assert_eq!(effective_tag(&auto, read), Some("BUV-3101".to_string()));
    assert_eq!(effective_tag(&auto, None), None);
    let untagged = GroupTag { name: None, source: TagSource::Manual };
    assert_eq!(effective_tag(&untagged, None), None);
}

fn class(name: &str) -> TagClass {
    TagClass { class: name.to_string(), label: name.to_uppercase(), color: [1, 2, 3] }
}

#[test]
fn a_group_is_classed_by_block_then_circle_then_tag_then_the_manual_class() {
    let rules = TagClassRules {
        tag_classes: vec![ShapeClass { shape: Some("BV9999*".to_string()), class: class("ball-valve") }],
        blocks: Vec::new(),
        circles: Vec::new(),
    };
    let manual = class("manual");
    let tag = Some("BV0301".to_string());
    assert_eq!(group_class(Some(class("gate")), Some(class("bubble")), &tag, &rules, &manual).class, "gate");
    assert_eq!(group_class(None, Some(class("bubble")), &tag, &rules, &manual).class, "bubble");
    assert_eq!(group_class(None, None, &tag, &rules, &manual).class, "ball-valve");
    assert_eq!(group_class(None, None, &Some("HELLO".to_string()), &rules, &manual).class, "manual");
    assert_eq!(group_class(None, None, &None, &rules, &manual), manual);

    let blocks = vec![
        BlockClass { block: "$TITLE".to_string(), class: class("ignore") },
        BlockClass { block: "$VALVE$00000316".to_string(), class: class("butterfly") },
    ];
    assert_eq!(block_class(&words(&["$TITLE", "$VALVE$00000316"]), &blocks), Some(class("butterfly")));
    assert_eq!(block_class(&words(&["$TITLE"]), &blocks), None);
    assert_eq!(block_class(&words(&["$OTHER"]), &blocks), None);
}

#[test]
fn a_group_is_named_by_itself_its_dictionary_key_or_its_handle() {
    assert_eq!(group_name("VALVE-1", &Some("*A1".to_string()), 42), "VALVE-1");
    assert_eq!(group_name("  ", &Some("*A1".to_string()), 42), "*A1");
    assert_eq!(group_name("", &None, 4711), "#4711");
    assert_eq!(group_name("", &None, 0), "#0");
}
