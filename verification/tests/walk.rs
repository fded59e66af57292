use pid_legend::export::End;
use pid_legend::walk::walk_runs;

#[test]
fn a_run_goes_from_a_symbol_to_an_open_end() {
    let runs = walk_runs(&[(0, 1), (1, 2)], &[Some(7), None, None]);
    assert_eq!(runs.len(), 1);
    assert_eq!(runs[0].vertices, vec![0, 1, 2]);
    assert_eq!(runs[0].strokes, vec![0, 1]);
    assert_eq!(runs[0].ends, [End::Symbol(7), End::Open]);
}

#[test]
fn a_closed_ring_is_one_loop() {
    let runs = walk_runs(&[(0, 1), (1, 2), (2, 0)], &[None, None, None]);
    assert_eq!(runs.len(), 1);
    assert_eq!(runs[0].vertices, vec![0, 1, 2, 0]);
    assert_eq!(runs[0].strokes, vec![0, 1, 2]);
    assert_eq!(runs[0].ends, [End::Loop, End::Loop]);
}

#[test]
fn a_tee_cuts_three_runs() {
    let runs = walk_runs(&[(0, 1), (1, 2), (1, 3)], &[None, None, None, None]);
    assert_eq!(runs.len(), 3);
    assert_eq!(runs[0].vertices, vec![0, 1]);
    assert_eq!(runs[0].ends, [End::Open, End::Tee]);
    assert_eq!(runs[1].vertices, vec![1, 2]);
    assert_eq!(runs[1].ends, [End::Tee, End::Open]);
    assert_eq!(runs[2].vertices, vec![1, 3]);
    assert_eq!(runs[2].ends, [End::Tee, End::Open]);
}

#[test]
fn a_run_is_walked_back_from_its_first_stroke() {
    let runs = walk_runs(&[(1, 2), (0, 1)], &[None, None, None]);
    assert_eq!(runs.len(), 1);
    assert_eq!(runs[0].vertices, vec![0, 1, 2]);
    assert_eq!(runs[0].strokes, vec![1, 0]);
    assert_eq!(runs[0].ends, [End::Open, End::Open]);
}

#[test]
fn a_stroke_of_no_length_is_in_no_run() {
    let runs = walk_runs(&[(0, 0), (0, 1)], &[None, None]);
    assert_eq!(runs.len(), 1);
    assert_eq!(runs[0].strokes, vec![1]);
    assert!(walk_runs(&[(2, 2)], &[None, None, None]).is_empty());
}

#[test]
fn a_symbol_on_a_ring_opens_it() {
    let runs = walk_runs(&[(0, 1), (1, 2), (2, 0)], &[None, Some(4), None]);
    assert_eq!(runs.len(), 1);
    assert_eq!(runs[0].vertices, vec![1, 2, 0, 1]);
    assert_eq!(runs[0].strokes, vec![1, 2, 0]);
    assert_eq!(runs[0].ends, [End::Symbol(4), End::Symbol(4)]);
}
