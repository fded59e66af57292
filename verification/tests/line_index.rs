use pid_legend::export::End;
use pid_legend::line_index::{Pipes, Run};
use pid_legend::pipes::PipeRules;

fn run(lines: &[&str]) -> Run {
    Run {
        numbers: Vec::new(),
        lines: lines.iter().map(|l| l.to_string()).collect(),
        segments: 1,
        ends: [End::Open, End::Open],
        handles: Vec::new(),
    }
}

fn pipes(runs: Vec<Run>) -> Pipes {
    Pipes { runs, segments: 0, ports: 0, connected_ports: 0, open_ends: 0, families: Vec::new() }
}

#[test]
fn by_family_unites_the_sizes_of_one_line_and_leaves_short_codes_alone() {
    let mut pipes = pipes(vec![
        run(&["200-FS-31001-A2"]),
        run(&["150-FS-31001-A2"]),
        run(&["80-FS"]),
        run(&[]),
    ]);
    pipes.index_families(&PipeRules::default());
    assert_eq!(pipes.family_of("150-FS-31001-A2"), "FS-31001");
    assert_eq!(pipes.family_of("80-FS"), "80-FS");
    // A number the runs do not carry was never indexed: its own family.
    assert_eq!(pipes.family_of("300-FS-31001-A2"), "300-FS-31001-A2");
    let families = pipes.by_family();
    assert_eq!(
        families.iter().map(|(f, _)| f.as_str()).collect::<Vec<_>>(),
        ["80-FS", "FS-31001"],
        "one family per short code, one per service-number"
    );
    let fs = &families.iter().find(|(f, _)| f == "FS-31001").unwrap().1;
    assert_eq!(
        fs.iter().map(|(l, _)| l.as_str()).collect::<Vec<_>>(),
        ["150-FS-31001-A2", "200-FS-31001-A2"],
        "both sizes of the line sit in its family"
    );
    assert_eq!(families.iter().find(|(f, _)| f == "80-FS").unwrap().1.len(), 1);
}

#[test]
fn by_line_lists_the_runs_of_each_number_in_run_order() {
    let pipes = pipes(vec![run(&["B", "A"]), run(&["A"]), run(&[]), run(&["B"])]);
    let index = pipes.by_line();
    assert_eq!(index, vec![("A".to_string(), vec![0, 1]), ("B".to_string(), vec![0, 3])]);
}

#[test]
fn symbols_on_a_line_are_the_symbols_its_runs_end_at_each_once() {
    let mut a = run(&["100-FW"]);
    a.ends = [End::Symbol(4), End::Tee];
    let mut b = run(&["100-FW", "200-FW"]);
    b.ends = [End::Symbol(1), End::Symbol(4)];
    let mut c = run(&["200-FW"]);
    c.ends = [End::Symbol(7), End::Open];
    let pipes = pipes(vec![a, b, c]);
    assert_eq!(pipes.symbols_on("100-FW"), vec![1, 4]);
    assert_eq!(pipes.symbols_on("200-FW"), vec![1, 4, 7]);
    assert!(pipes.symbols_on("300-FW").is_empty());
}

#[test]
fn index_families_covers_lettered_numbers_too() {
    let mut r = run(&["200-FS-31001-A2"]);
    r.numbers = vec!["150-FS-31001-A2".to_string()];
    let mut pipes = pipes(vec![r]);
    pipes.index_families(&PipeRules::default());
    assert_eq!(
        pipes.families,
        vec![
            ("150-FS-31001-A2".to_string(), "FS-31001".to_string()),
            ("200-FS-31001-A2".to_string(), "FS-31001".to_string()),
        ]
    );
}

#[test]
fn the_lines_at_a_symbol_are_those_of_the_runs_ending_there_sorted_once() {
    let mut a = run(&["200-FW", "100-FW"]);
    a.ends = [End::Symbol(2), End::Tee];
    let mut b = run(&["100-FW"]);
    b.ends = [End::Open, End::Symbol(2)];
    let mut c = run(&["300-FW"]);
    c.ends = [End::Symbol(1), End::Open];
    let pipes = pipes(vec![a, b, c, run(&["400-FW"])]);
    assert_eq!(pipes.lines_at(2), vec!["100-FW".to_string(), "200-FW".to_string()]);
    assert_eq!(pipes.lines_at(1), vec!["300-FW".to_string()]);
    assert!(pipes.lines_at(0).is_empty(), "no run reaches it");
}
