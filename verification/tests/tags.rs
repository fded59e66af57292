use pid_legend::tags::{compose_tag, shape_matches, tag_from_lettering, GroupTag, TagHow, TagSource};

fn words(values: &[&str]) -> Vec<String> {
    values.iter().map(|v| v.to_string()).collect()
}

#[test]
fn inner_lettering_composes_a_bubble_tag() {
    assert_eq!(compose_tag(&words(&["XV", "3201"])), Some("XV-3201".to_string()));
    assert_eq!(compose_tag(&words(&["HS", "0320A"])), Some("HS-0320A".to_string()));
    assert_eq!(compose_tag(&words(&["FQRC", "0301"])), Some("FQRC-0301".to_string()));
    assert_eq!(compose_tag(&words(&["S"])), None);
    assert_eq!(compose_tag(&[]), None);
    assert_eq!(compose_tag(&words(&["E", "H"])), None);
}

#[test]
fn tag_shapes() {
    assert!(shape_matches("BUV-9999", "BUV-3101"));
    assert!(!shape_matches("BUV-9999", "BUV-310"));
    assert!(!shape_matches("BUV-9999", "BUV-31011"));
    assert!(!shape_matches("BUV-9999", "XV-3101"));
    assert!(shape_matches("T?-9999", "TG-0101"));
    assert!(shape_matches("T?-9999", "TD-0208"));
    assert!(!shape_matches("T?-9999", "T-0208"));
    assert!(shape_matches("DWG-*", "DWG-0100FF02-04"));
    assert!(!shape_matches("DWG-*", "接 DWG-0100FF02-04"));
    assert!(shape_matches("*DWG-*", "接 DWG-0100FF02-04"));
    assert!(shape_matches("*DWG-*", "DWG-0100FF02-04"));
    assert!(!shape_matches("*DWG-*", "接图"));
    assert!(shape_matches("BV9999*", "BV0301A"));
    assert!(shape_matches("BV9999*", "BV0301"));
    assert!(!shape_matches("BV9999*", "BV030"));
    assert!(!shape_matches("CV9999*", "CVV0319"));
    assert!(shape_matches("P-9999*", "P-0302A"));
}

fn read(texts: &[&str], shapes: &[&str]) -> Option<(String, TagHow)> {
    tag_from_lettering(texts, shapes).map(|r| (r.value, r.how))
}

#[test]
fn lettering_reads_as_a_shape_a_composition_a_single_piece_or_a_join() {
    let shapes = ["BUV-9999", "BV9999*", "*DWG-*"];
    assert_eq!(read(&["BUV-3101"], &shapes), Some(("BUV-3101".into(), TagHow::Shape)));
    assert_eq!(
        read(&["1/2\"NPT", "BV0301A 1/2\""], &shapes),
        Some(("BV0301A 1/2\"".into(), TagHow::Shape))
    );
    assert_eq!(
        read(&["GV0326A", "GV0326B", "DN50"], &["GV9999*"]),
        Some(("GV0326A + GV0326B".into(), TagHow::Shape))
    );
    assert_eq!(read(&["XV", "3201"], &shapes), Some(("XV-3201".into(), TagHow::Bubble)));
    assert_eq!(read(&["HS", "0320A"], &[]), Some(("HS-0320A".into(), TagHow::Bubble)));
    assert_eq!(read(&["FQRC", "0301"], &[]), Some(("FQRC-0301".into(), TagHow::Bubble)));
    assert_eq!(read(&["S"], &[]), Some(("S".into(), TagHow::Single)));
    assert_eq!(read(&["P-0407"], &shapes), Some(("P-0407".into(), TagHow::Single)));
    assert_eq!(read(&["E", "H"], &[]), Some(("E H".into(), TagHow::Joined)));
    assert_eq!(read(&[], &shapes), None);
}

#[test]
fn a_group_tag_is_written_into_and_read_from_the_description() {
    assert_eq!(GroupTag::parse(""), None);
    assert_eq!(GroupTag::parse("a collection of related entities"), None);
    assert_eq!(
        GroupTag::parse("tagName=BUV-3101;tagSource=auto"),
        Some(GroupTag::auto(Some("BUV-3101".into())))
    );
    assert_eq!(
        GroupTag::parse("tagName=BUV-3101"),
        Some(GroupTag::auto(Some("BUV-3101".into()))),
        "no source reads as auto"
    );
    assert_eq!(
        GroupTag::parse(" tagName = XV-0001 ; tagSource = MANUAL "),
        Some(GroupTag::manual("XV-0001")),
        "spacing and case of the source do not matter"
    );
    assert_eq!(
        GroupTag::parse("tagName=;tagSource=auto"),
        Some(GroupTag::auto(None)),
        "marked, no tag"
    );

    let tag = GroupTag::auto(Some("BUV-3101".into()));
    let written = tag.write_into("");
    assert_eq!(written, "tagName=BUV-3101;tagSource=auto");
    assert_eq!(GroupTag::parse(&written), Some(tag.clone()));
    let manual = GroupTag::manual("BUV-3199");
    assert_eq!(manual.write_into(&written), "tagName=BUV-3199;tagSource=manual");

    let foreign = "备注=阀门 A=B;tagName=OLD;color=red;tagSource=manual;tagName=DUP";
    assert_eq!(tag.write_into(foreign), "备注=阀门 A=B;tagName=BUV-3101;color=red;tagSource=auto");
    assert_eq!(GroupTag::strip(foreign), "备注=阀门 A=B;color=red");
    assert_eq!(GroupTag::parse(&GroupTag::strip(foreign)), None);

    assert_eq!(GroupTag::manual("  BV0301;BV0302 ").name, Some("BV0301；BV0302".into()));
    assert_eq!(GroupTag::manual("   ").name, None);
    assert_eq!(GroupTag::auto(None).write_into(""), "tagName=;tagSource=auto");
}

// ── the library's own checks ────────────────────────────────────────────

#[test]
fn a_written_tag_reads_back_over_foreign_text() {
    for description in ["", "x=1", "tagName=OLD;y=2;tagSource=auto"] {
        for tag in [GroupTag::auto(Some("A-1".into())), GroupTag::manual("B-2"), GroupTag::auto(None)] {
            assert_eq!(GroupTag::parse(&tag.write_into(description)), Some(tag.clone()));
        }
    }
}

#[test]
fn the_source_word_reads_back() {
    assert_eq!(TagSource::Auto.as_str(), "auto");
    assert_eq!(TagSource::Manual.as_str(), "manual");
    assert_eq!(TagSource::parse(" Manual "), TagSource::Manual);
    assert_eq!(TagSource::parse("anything"), TagSource::Auto);
    assert_eq!(TagSource::default(), TagSource::Auto);
}

#[test]
fn a_star_at_either_end_matches_any_text_there() {
    assert!(shape_matches("*", ""));
    assert!(shape_matches("*", "anything"));
    assert!(!shape_matches("9", ""));
    assert!(shape_matches("", ""));
    assert!(!shape_matches("", "x"));
}

#[test]
fn writing_a_tag_twice_is_writing_it_once_and_keeps_the_rest() {
    let tag = GroupTag::manual("FV-0101");
    for description in ["", "a=1;tagName=X;b=2;tagSource=auto;tagName=Y", " note ; color=red "] {
        let once = tag.write_into(description);
        assert_eq!(tag.write_into(&once), once);
        assert_eq!(GroupTag::strip(&once), GroupTag::strip(description));
    }
}

#[test]
fn a_tag_with_loose_spacing_still_writes_once() {
    let tag = GroupTag { name: Some("  FV-0102 ".to_string()), source: TagSource::Auto };
    let once = tag.write_into("note=x; tagName=old");
    assert_eq!(once, "note=x;tagName=  FV-0102 ;tagSource=auto");
    assert_eq!(tag.write_into(&once), once);
    assert_eq!(GroupTag::strip(&once), "note=x");
}
