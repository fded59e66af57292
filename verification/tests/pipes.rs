use pid_legend::pipes::{template_groups, PipeRules};

#[test]
fn line_numbers_have_a_size_a_service_and_maybe_a_number_and_class() {
    let rules = PipeRules::default();
    for good in ["80-FS", "150-FW", "200-FS-31001-A2", "100-FW-32002-B1", "100-CGA-0319-A1", "200-FS-3100-A2"] {
        assert!(rules.is_line_number(good), "{good}");
    }
    for bad in [
        "BUV-3101",
        "XV-3201",
        "DWG-0100FF02-04",
        "80-",
        "-FS",
        "80-fs",
        "80-FSXX",
        "200-FS-310-A2",
        "200-FS-31001-AA",
        "200-FS-31001",
        "100-CGA-0319",
        "1/2\"NPT",
        "5000m",
    ] {
        assert!(!rules.is_line_number(bad), "{bad}");
    }
}

#[test]
fn a_line_family_is_the_service_and_the_sequence_number() {
    let rules = PipeRules::default();
    assert_eq!(rules.line_family("200-FS-31001-A2"), "FS-31001");
    assert_eq!(rules.line_family("150-FS-31001-B1"), "FS-31001");
    assert_eq!(rules.line_family("100-FW-32002-B1"), "FW-32002");
    assert_eq!(rules.line_family("100-CGA-0319-A1"), "CGA-0319");
    assert_eq!(rules.line_family("80-CGA-0319-B2"), "CGA-0319");
    assert_eq!(rules.line_family("80-FS"), "80-FS");
    assert_eq!(rules.line_family("150-FW"), "150-FW");
    assert_eq!(rules.line_family("BUV-3101"), "BUV-3101");
}

#[test]
fn the_rules_file_can_respell_the_line_numbers_and_their_family() {
    let rules = PipeRules {
        number_pattern: vec!["(?<unit>[0-9]{2})-(?<fluid>[A-Z]+)-(?<no>[0-9]+)".to_string()],
        family: "{fluid}{no}".to_string(),
        ..PipeRules::default()
    };
    assert!(rules.is_line_number("12-CW-7"));
    assert!(!rules.is_line_number("200-FS-31001-A2"));
    assert_eq!(rules.line_family("12-CW-7"), "CW7");
    assert_eq!(rules.line_family("200-FS-31001-A2"), "200-FS-31001-A2");
}

#[test]
fn validate_rejects_a_pattern_that_does_not_compile_or_a_family_group_no_pattern_has() {
    assert_eq!(PipeRules::default().validate(), Ok(()));
    let broken = PipeRules { number_pattern: vec!["(?<size>[0-9]+".to_string()], ..PipeRules::default() };
    let err = broken.validate().unwrap_err();
    assert!(err.contains("pipes.number_pattern"), "{err}");
    let unnamed = PipeRules { family: "{service}-{area}".to_string(), ..PipeRules::default() };
    let err = unnamed.validate().unwrap_err();
    assert!(err.contains("{area}"), "{err}");
    assert!(!broken.is_line_number("200-FS-31001-A2"));
}

#[test]
fn a_pipe_layer_is_matched_by_prefix_regardless_of_case() {
    let rules = PipeRules { layer_prefixes: vec!["PIPE".to_string()], ..PipeRules::default() };
    assert!(rules.is_pipe_layer("PIPE-消防"));
    assert!(rules.is_pipe_layer("pipe"));
    assert!(!rules.is_pipe_layer("VALVE_消防"));
    assert!(!rules.is_pipe_layer("PIP"));
}

// ── the library's own checks ────────────────────────────────────────────

#[test]
fn a_template_names_its_groups_up_to_an_open_brace() {
    assert_eq!(template_groups("{service}-{seq}"), ["service", "seq"]);
    assert_eq!(template_groups("plain"), Vec::<String>::new());
    assert_eq!(template_groups("{a}x{b"), ["a"]);
}

#[test]
fn an_open_brace_in_the_template_leaves_the_value_its_own_family() {
    let rules = PipeRules { family: "{service}-{seq".to_string(), ..PipeRules::default() };
    assert_eq!(rules.line_family("200-FS-31001-A2"), "200-FS-31001-A2");
}

#[test]
fn the_family_error_names_the_template_and_the_group() {
    let rules = PipeRules { family: "{area}".to_string(), ..PipeRules::default() };
    assert_eq!(
        rules.validate().unwrap_err(),
        "pipes.family \"{area}\" names a group {area} no number_pattern captures"
    );
}
