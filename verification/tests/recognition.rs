use pid_legend::legend::hash_color;
use pid_legend::recognition::{
    bubble_offers, inner_tag, lettering_text, shape_id, shape_symbol, take_free, unknown_block,
    InnerTag,
};
use pid_legend::rules::{LayerPrefixRule, TagClass};

fn words(values: &[&str]) -> Vec<String> {
    values.iter().map(|v| v.to_string()).collect()
}

#[test]
fn the_lettering_inside_a_symbol_is_its_tag_or_just_lettering() {
    // A bubble's two lines compose.
    assert_eq!(
        inner_tag(&words(&["XV", "3201"]), &None, 4),
        InnerTag::Tag("XV-3201".to_string())
    );
    // The lone S of a spray point is too short to be a tag.
    assert_eq!(inner_tag(&words(&["S"]), &None, 4), InnerTag::Lettered);
    assert_eq!(inner_tag(&[], &None, 4), InnerTag::Unread);
    // With a shape, only lettering of that shape is read.
    let shape = Some("BUV-9999".to_string());
    assert_eq!(
        inner_tag(&words(&["BUV-3101", "DN50"]), &shape, 4),
        InnerTag::Tag("BUV-3101".to_string())
    );
    assert_eq!(inner_tag(&words(&["DN50"]), &shape, 4), InnerTag::Unread);
}

#[test]
fn a_block_no_rule_names_falls_back_on_its_layer() {
    let fallbacks = vec![
        LayerPrefixRule { prefix: "EVALVE_".into(), class: "evalve".into(), label: "电动阀".into() },
        LayerPrefixRule { prefix: "VALVE_".into(), class: "valve".into(), label: "阀门".into() },
    ];
    let u = unknown_block("$VALVE$99", "VALVE_FW", &fallbacks);
    assert_eq!(u.class, "valve");
    assert_eq!(u.label, "阀门 $VALVE$99");
    assert_eq!(u.key, "$VALVE$99 on VALVE_FW");
    let u = unknown_block("TITLE", "0", &fallbacks);
    assert_eq!(u.class, "unknown");
    assert_eq!(u.label, "未知块 TITLE");
    assert_eq!(u.key, "TITLE on 0");
}

#[test]
fn only_a_bubble_lettered_for_the_rule_offers_its_tag() {
    let tag = Some("XV-3201".to_string());
    assert!(bubble_offers("bubble", &tag, "XV"));
    assert!(bubble_offers("bubble-panel", &tag, "XV"));
    assert!(!bubble_offers("bubble", &Some("HS-3201".to_string()), "XV"));
    assert!(!bubble_offers("valve", &tag, "XV"));
    assert!(!bubble_offers("bubble", &None, "XV"));
    // The letters must end at the hyphen.
    assert!(!bubble_offers("bubble", &Some("XVA-1".to_string()), "XV"));
}

#[test]
fn an_exploded_shape_is_named_by_its_rule_or_by_its_id() {
    let valve = TagClass { class: "valve".into(), label: "阀门".into(), color: [1, 2, 3] };
    assert_eq!(shape_symbol("abc", 7, &Some(valve.clone()), false), Some((valve, true)));
    let ignore = TagClass { class: "ignore".into(), label: "".into(), color: [0, 0, 0] };
    assert_eq!(shape_symbol("abc", 7, &Some(ignore), true), None);
    let (class, known) = shape_symbol("abc", 7, &None, true).unwrap();
    assert!(!known);
    assert_eq!(class.class, "shape-abc");
    assert_eq!(class.label, "图形 abc");
    assert_eq!(class.color, hash_color(7));
    assert_eq!(shape_symbol("abc", 7, &None, false), None, "seen once, not a symbol");
}

#[test]
fn an_entity_reads_as_lettering_or_not() {
    // TEXT reads trimmed; MTEXT with its paragraph breaks as spaces; blank
    // text is not lettering.
    assert_eq!(lettering_text(" BUV-3101 ", false), Some("BUV-3101".to_string()));
    assert_eq!(lettering_text("XV", false), Some("XV".to_string()));
    assert_eq!(
        lettering_text("XV-0301\\P防爆电动平板闸阀", true),
        Some("XV-0301 防爆电动平板闸阀".to_string())
    );
    assert_eq!(lettering_text("  ", false), None);
    assert_eq!(lettering_text("\\P", true), None, "a break alone is blank");
    // TEXT keeps a backslash-P as written.
    assert_eq!(lettering_text("A\\PB", false), Some("A\\PB".to_string()));
}

#[test]
fn a_shape_id_is_its_hash_folded_to_eight_hex_digits() {
    assert_eq!(shape_id(0x0000_0001_0000_0002), "00000003");
    assert_eq!(shape_id(0xdead_beef_0000_0000), "deadbeef");
    assert_eq!(shape_id(u64::MAX), "00000000");
    let h: u64 = 0x0123_4567_89ab_cdef;
    assert_eq!(shape_id(h), format!("{:08x}", (h >> 32) as u32 ^ h as u32));
}

#[test]
fn claims_offered_nearest_first_take_what_is_still_free() {
    // (lettering, symbol), nearest first.
    let claims = [(0, 0), (1, 0), (1, 1), (2, 1), (2, 2)];
    let mut texts = vec![false; 3];
    let mut symbols = vec![false; 3];
    let taken = take_free(&claims, &mut texts, &mut symbols);
    assert_eq!(taken, vec![0, 2, 4]);
    assert_eq!(texts, vec![true, true, true]);
    assert_eq!(symbols, vec![true, true, true]);
    // What is marked already stays out.
    let mut texts = vec![false, true, false];
    let mut symbols = vec![false; 3];
    let taken = take_free(&claims, &mut texts, &mut symbols);
    assert_eq!(taken, vec![0, 3]);
}
