use pid_legend::export::{csv_cell, csv_row, end_csv, line_endpoints, push_unique, End, ExportFormat, ExportReceipt, SymbolName};

#[test]
fn export_format_is_selected_from_a_case_insensitive_extension() {
    assert_eq!(ExportFormat::for_path("legend.JSON").unwrap(), ExportFormat::Json);
    assert_eq!(ExportFormat::for_path("legend.csv").unwrap(), ExportFormat::Csv);
    assert!(ExportFormat::for_path("legend.txt").is_err());
}

// ── the library's own checks ────────────────────────────────────────────

#[test]
fn a_path_without_the_right_extension_is_named_in_the_error() {
    assert_eq!(
        ExportFormat::for_path("out/legend").unwrap_err(),
        "P&ID export path must end in .json or .csv: out/legend"
    );
    assert_eq!(ExportFormat::Json.name(), "json");
    assert_eq!(ExportFormat::Csv.name(), "csv");
    let receipt = ExportReceipt { format: ExportFormat::Csv, bytes: 12 };
    assert_eq!(receipt.bytes, 12);
}

#[test]
fn a_cell_is_quoted_only_when_it_must_be() {
    assert_eq!(csv_cell("BUV-1"), "BUV-1");
    assert_eq!(csv_cell("BUV-1, \"north\""), "\"BUV-1, \"\"north\"\"\"");
    assert_eq!(csv_cell("a\nb"), "\"a\nb\"");
    assert_eq!(csv_cell(""), "");
}

#[test]
fn a_row_joins_its_cells_and_ends_the_line() {
    let mut out: Vec<char> = "x\n".chars().collect();
    csv_row(&mut out, &["a".to_string(), "b,c".to_string(), String::new()]);
    assert_eq!(out.iter().collect::<String>(), "x\na,\"b,c\",\n");
    let mut empty: Vec<char> = Vec::new();
    csv_row(&mut empty, &[]);
    assert_eq!(empty, ['\n']);
}

#[test]
fn push_unique_keeps_the_first_of_each() {
    let mut values = Vec::new();
    for v in ["b", "a", "b", "c", "a"] {
        push_unique(&mut values, v.to_string());
    }
    assert_eq!(values, ["b", "a", "c"]);
}

fn symbols() -> Vec<SymbolName> {
    vec![
        SymbolName { tag: Some("BUV-1".into()), label: "蝶阀".into() },
        SymbolName { tag: None, label: "蝶阀".into() },
    ]
}

#[test]
fn an_end_is_named_by_tag_label_or_kind() {
    assert_eq!(end_csv(End::Symbol(0), &symbols()), "BUV-1");
    assert_eq!(end_csv(End::Symbol(1), &symbols()), "蝶阀 #2");
    assert_eq!(end_csv(End::Symbol(9), &symbols()), "symbol #10");
    assert_eq!(end_csv(End::Tee, &symbols()), "tee");
    assert_eq!(end_csv(End::Open, &symbols()), "open");
    assert_eq!(end_csv(End::Loop, &symbols()), "loop");
}

#[test]
fn a_line_lists_every_endpoint_of_its_runs_once() {
    let runs = [
        (End::Open, End::Symbol(0)),
        (End::Symbol(0), End::Symbol(1)),
        (End::Symbol(1), End::Open),
        (End::Open, End::Symbol(0)),
    ];
    let (from, to) = line_endpoints(&runs, &symbols());
    assert_eq!(from, ["open", "BUV-1", "蝶阀 #2"]);
    assert_eq!(to, ["BUV-1", "蝶阀 #2", "open"]);
}
