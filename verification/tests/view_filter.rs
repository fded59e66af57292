use pid_legend::view_filter::{
    is_hidden_sheet_layer, pid_keys, switch_role, switch_sheet_layer, PidKeys, PidViewFilter,
    Switched,
};
use pid_legend::view_summary::{role_rank, PidViewRow, PidViewSummary};

fn strings(values: &[&str]) -> Vec<String> {
    values.iter().map(|v| v.to_string()).collect()
}

/// What an entity's `PID_SEMANTICS` strings state; no record states nothing.
fn keys_of(pairs: &[&str]) -> PidKeys {
    if pairs.is_empty() {
        PidKeys::default()
    } else {
        pid_keys(&strings(pairs))
    }
}

/// The record a filter leaves in the drawing, `None` for none.
fn store(filter: &PidViewFilter) -> Option<Vec<String>> {
    filter.stored_record()
}

fn load(record: &Option<Vec<String>>) -> Option<PidViewFilter> {
    record.as_ref().map(|entries| PidViewFilter::from_record(entries))
}

#[test]
fn hidden_sheet_layer_names_are_trimmed_case_folded_and_space_insensitive() {
    for name in [
        "Hidden",
        " hidden ",
        "HIDDENOBJECTS",
        "Hidden Objects",
        "Hidden\t  Objects",
        "Invisible",
    ] {
        assert!(is_hidden_sheet_layer(name), "{name:?}");
    }
    assert!(!is_hidden_sheet_layer("Visible"));
    assert!(!is_hidden_sheet_layer("Labels"));
}

#[test]
fn a_stored_filter_reads_back_and_an_empty_one_leaves_no_record() {
    let mut record: Option<Vec<String>> = None;
    assert_eq!(load(&record), None);

    let mut filter = PidViewFilter::default();
    filter.set_layer("Labels", false);
    filter.set_layer("Hidden Objects", false);
    filter.set_role("text", false);
    record = store(&filter);
    assert_eq!(load(&record).as_ref(), Some(&filter));
    assert_eq!(filter.layers_off(), ["Hidden Objects", "Labels"]);

    filter.set_layer("Labels", true);
    record = store(&filter);
    assert_eq!(
        load(&record).as_ref(),
        Some(&filter),
        "a re-store replaces the record rather than appending to it"
    );

    filter.set_layer("Hidden Objects", true);
    filter.set_role("text", true);
    assert!(filter.is_empty());
    record = store(&filter);
    assert_eq!(load(&record), None);
    assert!(record.is_none());
}

#[test]
fn apply_darkens_by_layer_or_role_and_leaves_foreign_records_alone() {
    let keys = vec![
        keys_of(&["sheet_layer=Labels", "role=text"]),
        keys_of(&["sheet_layer=Default", "role=text"]),
        keys_of(&["sheet_layer=Default", "role=geometry"]),
        keys_of(&["role=frame"]),
        keys_of(&["class=蝶阀", "resolved=legend:block"]),
        keys_of(&[]),
    ];
    let mut dark = vec![false; 6];

    let mut filter = PidViewFilter::default();
    assert_eq!(filter.apply(&keys, &mut dark), 0);
    assert_eq!(dark, [false; 6]);

    filter.set_layer("Labels", false);
    assert_eq!(filter.apply(&keys, &mut dark), 1);
    assert_eq!(dark, [true, false, false, false, false, false]);

    filter.set_role("text", false);
    assert_eq!(filter.apply(&keys, &mut dark), 1, "the Labels text was dark already");
    assert_eq!(dark, [true, true, false, false, false, false]);

    filter.set_role("frame", false);
    assert_eq!(filter.apply(&keys, &mut dark), 1);
    assert_eq!(
        dark,
        [true, true, false, true, false, false],
        "a layerless entity answers to its role"
    );

    // A foreign `invisible` is neither set nor cleared.
    dark[4] = true;
    let all_on = PidViewFilter::default();
    assert_eq!(all_on.apply(&keys, &mut dark), 3);
    assert_eq!(dark, [false, false, false, false, true, false]);
}

#[test]
fn the_initial_filter_switches_off_only_the_hidden_sheet_layers_present() {
    let keys = vec![
        keys_of(&["sheet_layer=Labels", "role=text"]),
        keys_of(&["sheet_layer=HiddenObjects", "role=geometry"]),
        keys_of(&["sheet_layer=Hidden Objects", "role=geometry"]),
        keys_of(&["role=frame"]),
    ];
    let filter = PidViewFilter::initial(&keys);
    assert_eq!(
        filter.layers_off(),
        ["Hidden Objects", "HiddenObjects"],
        "each spelling the drawing uses is its own switch"
    );
    assert_eq!(filter.roles_off().len(), 0);
    assert!(PidViewFilter::initial(&[]).is_empty());
}

fn rows(rows: &[PidViewRow]) -> Vec<(String, usize, bool)> {
    rows.iter().map(|row| (row.name.clone(), row.entities, row.on)).collect()
}

#[test]
fn the_summary_counts_by_name_orders_roles_by_vocabulary_and_reads_the_filter() {
    let keys = vec![
        keys_of(&["sheet_layer=Labels", "role=text"]),
        keys_of(&["sheet_layer=Labels", "role=geometry"]),
        keys_of(&["sheet_layer=Default", "role=geometry"]),
        keys_of(&["sheet_layer=HiddenObjects", "role=geometry"]),
        keys_of(&["role=frame"]),
        keys_of(&["role=connectivity"]),
        keys_of(&["role=zzz-unknown"]),
        keys_of(&["class=蝶阀", "resolved=legend:block"]),
        keys_of(&[]),
    ];
    assert!(PidViewSummary::of(None, &[]).is_empty());

    let summary = PidViewSummary::of(None, &keys);
    assert_eq!(
        rows(&summary.layers),
        [
            ("Default".to_string(), 1, true),
            ("HiddenObjects".to_string(), 1, true),
            ("Labels".to_string(), 2, true),
        ],
        "no record stored reads as everything on"
    );
    assert_eq!(
        rows(&summary.roles),
        [
            ("geometry".to_string(), 3, true),
            ("text".to_string(), 1, true),
            ("connectivity".to_string(), 1, true),
            ("frame".to_string(), 1, true),
            ("zzz-unknown".to_string(), 1, true),
        ]
    );

    let mut filter = PidViewFilter::default();
    filter.set_layer("HiddenObjects", false);
    filter.set_role("frame", false);
    let record = store(&filter);
    let summary = PidViewSummary::of(load(&record), &keys);
    assert!(!summary.layers.iter().find(|row| row.name == "HiddenObjects").unwrap().on);
    assert!(summary.layers.iter().find(|row| row.name == "Labels").unwrap().on);
    assert!(!summary.roles.iter().find(|row| row.name == "frame").unwrap().on);
}

#[test]
fn a_switch_stores_applies_and_releases_the_hidden_layer_only_when_lighting_it() {
    let keys = vec![
        keys_of(&["sheet_layer=Labels", "role=text"]),
        keys_of(&["sheet_layer=HiddenObjects", "role=geometry"]),
        keys_of(&["role=frame"]),
    ];
    // PID-HIDDEN exists and is off; the second entity sits on it.
    let mut hidden_off = Some(true);
    let on_hidden = [false, true, false];
    let mut dark = vec![false; 3];
    let initial = PidViewFilter::initial(&keys);
    let mut record = store(&initial);
    initial.apply(&keys, &mut dark);
    assert_eq!(dark, [false, true, false]);

    let (filter, switched) =
        switch_sheet_layer(load(&record), "Labels", false, &keys, &on_hidden, &mut dark, &mut hidden_off);
    record = store(&filter);
    assert_eq!(switched, Switched { entities: 1, released_hidden_layer: false });
    assert_eq!(dark, [true, true, false]);
    assert_eq!(load(&record).unwrap().layers_off(), ["HiddenObjects", "Labels"]);
    assert_eq!(hidden_off, Some(true));

    let (filter, switched) =
        switch_sheet_layer(load(&record), "Labels", true, &keys, &on_hidden, &mut dark, &mut hidden_off);
    record = store(&filter);
    assert_eq!(
        switched,
        Switched { entities: 1, released_hidden_layer: false },
        "nothing lit sits on PID-HIDDEN, so the layer stays as it was"
    );
    assert_eq!(hidden_off, Some(true));

    let (filter, switched) = switch_sheet_layer(
        load(&record),
        "HiddenObjects",
        true,
        &keys,
        &on_hidden,
        &mut dark,
        &mut hidden_off,
    );
    record = store(&filter);
    assert_eq!(switched, Switched { entities: 1, released_hidden_layer: true });
    assert_eq!(dark, [false, false, false]);
    assert_eq!(hidden_off, Some(false));
    assert!(load(&record).is_none(), "all on leaves no record");

    let (filter, switched) = switch_sheet_layer(
        load(&record),
        "HiddenObjects",
        false,
        &keys,
        &on_hidden,
        &mut dark,
        &mut hidden_off,
    );
    record = store(&filter);
    assert_eq!(switched, Switched { entities: 1, released_hidden_layer: false });
    assert_eq!(hidden_off, Some(false), "off never touches the table");

    let (filter, switched) = switch_role(load(&record), "frame", false, &keys, &mut dark);
    record = store(&filter);
    assert_eq!(switched, Switched { entities: 1, released_hidden_layer: false });
    assert_eq!(dark, [false, true, true]);
    let (_, switched) = switch_role(load(&record), "frame", false, &keys, &mut dark);
    assert_eq!(switched.entities, 0, "switching what is already off changes nothing");
}

// ── the library's own checks ────────────────────────────────────────────

#[test]
fn the_first_key_of_each_kind_wins_and_the_key_is_cut_off() {
    let k = pid_keys(&strings(&["role=text", "sheet_layer=A", "role=frame", "sheet_layer=B"]));
    assert_eq!(k.sheet_layer.as_deref(), Some("A"));
    assert_eq!(k.role.as_deref(), Some("text"));
    let none = pid_keys(&strings(&["class=x", "layer=y"]));
    assert_eq!(none, PidKeys::default());
}

#[test]
fn the_record_lists_layers_then_roles_sorted_and_foreign_entries_are_skipped() {
    let mut f = PidViewFilter::new();
    f.set_role("text", false);
    f.set_layer("b", false);
    f.set_layer("a", false);
    assert_eq!(f.to_record(), ["layer_off=a", "layer_off=b", "role_off=text"]);
    let read = PidViewFilter::from_record(&strings(&["color=red", "role_off=x", "layer_off=y"]));
    assert_eq!(read.layers_off(), ["y"]);
    assert_eq!(read.roles_off(), ["x"]);
    assert!(PidViewFilter::new().stored_record().is_none());
}

#[test]
fn applying_twice_changes_nothing_the_second_time() {
    let keys = vec![keys_of(&["sheet_layer=L", "role=r"]), keys_of(&["role=r"]), keys_of(&[])];
    let mut f = PidViewFilter::new();
    f.set_role("r", false);
    let mut dark = vec![false, false, true];
    assert_eq!(f.apply(&keys, &mut dark), 2);
    assert_eq!(f.apply(&keys, &mut dark), 0);
    assert_eq!(dark, [true, true, true]);
}

#[test]
fn roles_rank_by_vocabulary_and_unknown_ones_last() {
    assert_eq!(role_rank("geometry"), 0);
    assert_eq!(role_rank("frame"), 11);
    assert_eq!(role_rank("zzz-unknown"), 12);
}

#[test]
fn invisible_for_reads_both_axes() {
    let mut f = PidViewFilter::new();
    f.set_layer("L", false);
    assert_eq!(f.invisible_for(&keys_of(&["sheet_layer=L"])), Some(true));
    assert_eq!(f.invisible_for(&keys_of(&["sheet_layer=M", "role=x"])), Some(false));
    assert_eq!(f.invisible_for(&keys_of(&[])), None);
    assert!(f.layer_is_on("M"));
    assert!(!f.layer_is_on("L"));
    assert!(f.role_is_on("x"));
}
