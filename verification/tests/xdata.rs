use pid_legend::xdata::{
    attach_step, attach_steps, attached_handles, count_changed, desired_records, is_legend_record,
    resolved_by, AttachStep, CurrentRecord, DesiredRecord, RunFacts, SymbolFacts,
};

fn words(values: &[&str]) -> Vec<String> {
    values.iter().map(|v| v.to_string()).collect()
}

fn symbol(handle: u64, tag: &str, source: &str, group: Option<&str>) -> SymbolFacts {
    SymbolFacts {
        label: "蝶阀".to_string(),
        tag: Some(tag.to_string()),
        lines: words(&["100-FW"]),
        group: group.map(|g| g.to_string()),
        source: source.to_string(),
        handles: vec![handle],
    }
}

#[test]
fn resolved_value_distinguishes_block_circle_shape_and_manual_group_sources() {
    let s = symbol(1, "BUV-1", "$VALVE$00000316", None);
    assert_eq!(resolved_by(&s.group, &s.source), "legend:block");
    let s = symbol(1, "XV-1", "circle r=2.5", None);
    assert_eq!(resolved_by(&s.group, &s.source), "legend:circle");
    let s = symbol(1, "BV1", "shape 5311cc3f", None);
    assert_eq!(resolved_by(&s.group, &s.source), "legend:shape:5311cc3f");
    let s = symbol(1, "BUV-1", "group *A1", Some("*A1"));
    assert_eq!(resolved_by(&s.group, &s.source), "legend:group:*A1");
}

/// Applies the attach decisions to a small set of entities, each with the
/// record it carries, and returns how many records changed.
fn attach(entities: &mut Vec<(u64, Option<Vec<String>>)>, wanted: &[(u64, Vec<String>)]) -> usize {
    let mut changed = 0;
    for (handle, record) in entities.iter_mut() {
        let current = record.as_ref().map(|strings| CurrentRecord {
            strings: strings.clone(),
            only_strings: true,
        });
        let want = wanted.iter().find(|(h, _)| h == handle).map(|(_, r)| r.clone());
        match attach_step(&current, &want) {
            AttachStep::Keep => {}
            AttachStep::Write => {
                *record = want;
                changed += 1;
            }
            AttachStep::Remove => {
                *record = None;
                changed += 1;
            }
        }
    }
    changed
}

#[test]
fn recognition_xdata_round_trips_and_purge_keeps_authored_identity_and_groups() {
    let (grouped, pipe, authored) = (10u64, 11u64, 12u64);
    let symbols = vec![
        symbol(grouped, "BUV-3201", "group VALVE-1", Some("VALVE-1")),
        symbol(authored, "BUV-9999", "$VALVE$00000316", None),
    ];
    let runs = vec![RunFacts { handles: vec![pipe], lines: words(&["100-FW", "200-FW"]) }];
    let wanted: Vec<(u64, Vec<String>)> = desired_records(&symbols, &runs)
        .into_iter()
        .map(|(h, r)| (h, r.into_xdata()))
        .collect();

    let authored_record = words(&["class=PIDProcessVessel", "label=V-1", "resolved=direct"]);
    let mut entities = vec![(grouped, None), (pipe, None), (authored, Some(authored_record.clone()))];

    assert_eq!(attach(&mut entities, &wanted), 2);
    assert_eq!(attach(&mut entities, &wanted), 0);
    assert_eq!(
        entities[0].1,
        Some(words(&[
            "class=蝶阀",
            "label=BUV-3201",
            "lines=100-FW",
            "resolved=legend:group:VALVE-1",
        ]))
    );
    assert_eq!(
        entities[1].1,
        Some(words(&["class=PIDPipeline", "label=100-FW", "label=200-FW", "resolved=legend:pipe"]))
    );
    assert_eq!(entities[2].1, Some(authored_record.clone()), "recognition does not cover published .pid identity");

    let marked: Vec<(u64, bool)> = entities
        .iter()
        .map(|(h, r)| (*h, r.as_ref().is_some_and(|r| is_legend_record(r))))
        .collect();
    assert_eq!(attached_handles(&marked), vec![grouped, pipe]);

    // Purging removes exactly the recognition records.
    let mut removed = 0;
    for (_, record) in entities.iter_mut() {
        if record.as_ref().is_some_and(|r| is_legend_record(r)) {
            *record = None;
            removed += 1;
        }
    }
    assert_eq!(removed, 2);
    assert_eq!(entities[2].1, Some(authored_record));
}

#[test]
fn the_first_symbol_keeps_an_entity_it_shares() {
    let first = symbol(5, "BUV-1", "$VALVE$1", None);
    let mut second = symbol(5, "XV-2", "circle r=2.5", None);
    second.label = "XV".to_string();
    let runs = vec![RunFacts { handles: vec![5, 3], lines: words(&["300-FW"]) }];
    let out = desired_records(&[first, second], &runs);
    assert_eq!(out.len(), 2);
    assert_eq!(out[0].0, 3);
    assert!(out[0].1.pipe);
    assert_eq!(out[1].0, 5);
    assert_eq!(out[1].1.class, "蝶阀");
    assert_eq!(out[1].1.labels, words(&["BUV-1"]));
    assert_eq!(out[1].1.resolved.as_deref(), Some("legend:block"));
}

#[test]
fn a_pipe_entity_collects_the_lines_of_every_run_it_is_in() {
    let runs = vec![
        RunFacts { handles: vec![7], lines: words(&["200-FW", "100-FW"]) },
        RunFacts { handles: vec![7, 8], lines: words(&["100-FW", "050-CW"]) },
    ];
    let out = desired_records(&[], &runs);
    assert_eq!(out.len(), 2);
    assert_eq!(out[0].0, 7);
    assert_eq!(out[0].1.labels, words(&["050-CW", "100-FW", "200-FW"]));
    assert_eq!(out[1].0, 8);
    assert_eq!(out[1].1.labels, words(&["050-CW", "100-FW"]));
    let entries = out[1].1.clone().into_xdata();
    assert_eq!(entries, words(&["class=PIDPipeline", "label=050-CW", "label=100-FW", "resolved=legend:pipe"]));
}

#[test]
fn an_empty_tag_gives_no_label_and_empty_values_are_left_out() {
    let mut s = symbol(1, "", "$VALVE$1", None);
    s.lines = Vec::new();
    let r = DesiredRecord::for_symbol(&s);
    assert!(r.labels.is_empty());
    assert_eq!(r.into_xdata(), words(&["class=蝶阀", "resolved=legend:block"]));
}

#[test]
fn an_authored_record_is_never_touched_and_a_stale_one_is_removed() {
    let authored = Some(CurrentRecord { strings: words(&["resolved=direct"]), only_strings: true });
    assert_eq!(attach_step(&authored, &Some(words(&["class=X"]))), AttachStep::Keep);
    assert_eq!(attach_step(&authored, &None), AttachStep::Keep);
    let stale = Some(CurrentRecord { strings: words(&["resolved=legend:pipe"]), only_strings: true });
    assert_eq!(attach_step(&stale, &None), AttachStep::Remove);
    assert_eq!(attach_step(&stale, &Some(words(&["resolved=legend:pipe"]))), AttachStep::Keep);
    let mixed = Some(CurrentRecord { strings: words(&["resolved=legend:pipe"]), only_strings: false });
    assert_eq!(attach_step(&mixed, &Some(words(&["resolved=legend:pipe"]))), AttachStep::Write);
    assert_eq!(attach_step(&None, &None), AttachStep::Keep);
    assert!(!is_legend_record(&words(&["label=resolved=legend:x"])));
}

#[test]
fn attached_handles_are_sorted_by_value() {
    assert_eq!(attached_handles(&[(9, true), (2, false), (4, true), (1, true)]), vec![1, 4, 9]);
}

#[test]
fn a_document_attached_twice_changes_nothing_the_second_time() {
    let wanted = words(&["class=X", "resolved=legend:block"]);
    let desired = vec![(10u64, wanted.clone()), (30u64, words(&["class=Y", "resolved=legend:pipe"]))];
    let record = |values: &[&str]| Some(CurrentRecord { strings: words(values), only_strings: true });
    let entities = vec![
        (10u64, None),
        (20u64, record(&["class=Z", "resolved=legend:shape:1"])),
        (30u64, record(&["class=Y", "resolved=legend:pipe"])),
        (40u64, record(&["class=mine"])),
    ];
    let steps = attach_steps(&entities, &desired);
    assert_eq!(steps, vec![AttachStep::Write, AttachStep::Remove, AttachStep::Keep, AttachStep::Keep]);
    assert_eq!(count_changed(&steps), 2);
    let after = vec![
        (10u64, Some(CurrentRecord { strings: wanted, only_strings: true })),
        (20u64, None),
        (30u64, record(&["class=Y", "resolved=legend:pipe"])),
        (40u64, record(&["class=mine"])),
    ];
    let again = attach_steps(&after, &desired);
    assert!(again.iter().all(|s| *s == AttachStep::Keep));
    assert_eq!(count_changed(&again), 0);
}
