use pid_legend::signature::{signature, Stroke};

fn stroke(kind: char, r: i64, pts: &[(i64, i64)]) -> Stroke {
    Stroke { kind, r, pts: pts.to_vec() }
}

#[test]
fn a_shape_has_the_same_signature_however_it_is_turned_or_mirrored() {
    // A bowtie of two strokes and a dot, turned a quarter and mirrored.
    let shape = [
        stroke('L', 0, &[(-3, -2), (3, 2)]),
        stroke('L', 0, &[(-3, 2), (3, -2)]),
        stroke('C', 1, &[(0, 5)]),
    ];
    let turned = [
        stroke('L', 0, &[(2, -3), (-2, 3)]),
        stroke('L', 0, &[(-2, -3), (2, 3)]),
        stroke('C', 1, &[(-5, 0)]),
    ];
    let mirrored = [
        stroke('C', 1, &[(0, -5)]),
        stroke('L', 0, &[(3, 2), (-3, -2)]),
        stroke('L', 0, &[(3, -2), (-3, 2)]),
    ];
    assert_eq!(signature(&shape), signature(&turned));
    assert_eq!(signature(&shape), signature(&mirrored));
    // Another shape signs otherwise.
    let other = [stroke('L', 0, &[(-3, -2), (3, 2)]), stroke('C', 1, &[(0, 5)])];
    assert_ne!(signature(&shape), signature(&other));
}

#[test]
fn a_signature_is_the_lowest_text_of_the_sorted_rows() {
    // One point: of its eight images, (-1, -2) writes lowest.
    assert_eq!(signature(&[stroke('L', 0, &[(1, 2)])]), "L0:[(-1, -2)]");
    // Rows sort and join; a stroke is read the way round that comes first.
    assert_eq!(
        signature(&[stroke('L', 0, &[(0, 0), (1, 0)]), stroke('C', 3, &[(0, 0)])]),
        "C3:[(0, 0)]|L0:[(-1, 0), (0, 0)]"
    );
    assert_eq!(signature(&[]), "");
}
