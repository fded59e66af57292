use pid_legend::csv::{csv_number, to_csv, CsvSymbol};
use pid_legend::export::End;
use pid_legend::line_index::{Pipes, Run};

fn symbol(tag: &str, x_mm: f64, y_mm: f64) -> CsvSymbol {
    CsvSymbol {
        class: "butterfly".to_string(),
        label: "蝶阀".to_string(),
        tag: Some(tag.to_string()),
        x_mm: Some(format!("{x_mm:.6}")),
        y_mm: Some(format!("{y_mm:.6}")),
        lines: vec!["100-FW".to_string()],
        source: "$VALVE$00000316".to_string(),
    }
}

fn run(from: End, to: End) -> Run {
    Run {
        numbers: vec!["100-FW".to_string()],
        lines: vec!["100-FW".to_string()],
        segments: 1,
        ends: [from, to],
        handles: Vec::new(),
    }
}

#[test]
fn csv_lists_symbols_and_every_endpoint_on_a_numbered_line() {
    // Symbols at (20, 40), (40, 40), (60, 40) drawing units, two per millimetre.
    let mut symbols = vec![symbol("BUV-1", 10.0, 20.0), symbol("BUV-2", 20.0, 20.0), symbol("BUV-3", 30.0, 20.0)];
    symbols[0].tag = Some("BUV-1, \"north\"".to_string());
    let pipes = Pipes {
        runs: vec![
            run(End::Open, End::Symbol(0)),
            run(End::Symbol(0), End::Symbol(1)),
            run(End::Symbol(1), End::Symbol(2)),
            run(End::Symbol(2), End::Open),
        ],
        segments: 4,
        ports: 6,
        connected_ports: 6,
        open_ends: 2,
        families: vec![("100-FW".to_string(), "100-FW".to_string())],
    };
    // Runs of 10, 20, 30 and 40 mm.
    let lengths = vec![("100-FW".to_string(), format!("{:.6}", 10.0 + 20.0 + 30.0 + 40.0))];
    let csv = to_csv(&symbols, &pipes, &lengths);
    assert!(csv.starts_with("class,label,tag,x_mm,y_mm,lines,source\n"));
    assert!(csv.contains("\"BUV-1, \"\"north\"\"\""));
    assert!(csv.contains("butterfly,蝶阀,\"BUV-1, \"\"north\"\"\",10,20,100-FW"));
    assert!(csv.contains("\nline,family,runs,length_mm,from,to\n"));
    let line = csv.lines().find(|line| line.starts_with("100-FW,")).expect("pipe line row");
    assert!(line.contains(",4,100,"));
    for endpoint in ["BUV-1, \"\"north\"\"", "BUV-2", "BUV-3", "open"] {
        assert!(line.contains(endpoint), "{endpoint}: {line}");
    }
}

#[test]
fn the_whole_document_has_an_exact_text() {
    let mut s = symbol("BUV-1", 1.5, -0.0000001);
    s.lines = vec!["100-FW".to_string(), "200-FW".to_string()];
    let pipes = Pipes {
        runs: vec![run(End::Symbol(0), End::Tee), run(End::Loop, End::Symbol(5))],
        segments: 2,
        ports: 0,
        connected_ports: 0,
        open_ends: 0,
        families: Vec::new(),
    };
    let csv = to_csv(&[s], &pipes, &[]);
    assert_eq!(
        csv,
        "class,label,tag,x_mm,y_mm,lines,source\n\
         butterfly,蝶阀,BUV-1,1.5,0,100-FW + 200-FW,$VALVE$00000316\n\
         \n\
         line,family,runs,length_mm,from,to\n\
         100-FW,100-FW,2,,BUV-1 | loop,tee | symbol #6\n"
    );
}

#[test]
fn numbers_lose_their_trailing_zeros() {
    assert_eq!(csv_number(&Some("12.500000".to_string())), "12.5");
    assert_eq!(csv_number(&Some("100.000000".to_string())), "100");
    assert_eq!(csv_number(&Some("-0.000000".to_string())), "0");
    assert_eq!(csv_number(&Some("-2.000001".to_string())), "-2.000001");
    assert_eq!(csv_number(&None), "");
}
