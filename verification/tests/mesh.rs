use pid_legend::mesh::mesh_outline;

/// The key of a point: its bit pattern, so shared corners match exactly.
fn key(x: f32, y: f32) -> u64 {
    ((x.to_bits() as u64) << 32) | y.to_bits() as u64
}

fn point(k: u64) -> (f32, f32) {
    (f32::from_bits((k >> 32) as u32), f32::from_bits(k as u32))
}

fn area(ring: &[u64]) -> f64 {
    let mut sum = 0.0;
    for i in 0..ring.len() {
        let (p, q) = (point(ring[i]), point(ring[(i + 1) % ring.len()]));
        sum += (p.0 * q.1 - q.0 * p.1) as f64;
    }
    sum * 0.5
}

#[test]
fn a_two_triangle_square_comes_out_as_one_square() {
    // The shared diagonal must cancel: what is left is the outline.
    let tris = [
        [key(0.0, 0.0), key(10.0, 0.0), key(10.0, 10.0)],
        [key(0.0, 0.0), key(10.0, 10.0), key(0.0, 10.0)],
    ];
    let rings = mesh_outline(&tris).expect("a clean manifold");
    assert_eq!(rings.len(), 1);
    assert_eq!(rings[0].len(), 4, "{:?}", rings[0]);
    let corners: Vec<(f32, f32)> = rings[0].iter().map(|k| point(*k)).collect();
    for corner in [(0.0, 0.0), (10.0, 0.0), (10.0, 10.0), (0.0, 10.0)] {
        assert!(
            corners.contains(&corner),
            "{corner:?} missing from {corners:?}"
        );
    }
}

#[test]
fn a_glyph_counter_survives_as_its_own_ring() {
    // A square annulus: outer ring counter-clockwise, hole clockwise, meshed
    // into eight triangles. Both rings stay, the hole wound the other way.
    let outer = [key(0.0, 0.0), key(30.0, 0.0), key(30.0, 30.0), key(0.0, 30.0)];
    let inner = [key(10.0, 10.0), key(20.0, 10.0), key(20.0, 20.0), key(10.0, 20.0)];
    let mut tris = Vec::new();
    for i in 0..4 {
        let (o0, o1) = (outer[i], outer[(i + 1) % 4]);
        let (i0, i1) = (inner[i], inner[(i + 1) % 4]);
        tris.push([o0, o1, i1]);
        tris.push([o0, i1, i0]);
    }
    let rings = mesh_outline(&tris).expect("a clean manifold");
    assert_eq!(rings.len(), 2, "outline and counter");
    let areas: Vec<f64> = rings.iter().map(|r| area(r)).collect();
    assert!(
        areas.iter().any(|a| (*a - 900.0).abs() < 1e-3),
        "no 30×30 outline in {areas:?}"
    );
    assert!(
        areas.iter().any(|a| (*a + 100.0).abs() < 1e-3),
        "no 10×10 hole wound the other way in {areas:?}"
    );
}

#[test]
fn a_mesh_that_is_not_a_manifold_falls_back_instead_of_guessing() {
    // Two triangles meeting at a single point: the walk would have to guess
    // which edge leaves the shared vertex.
    let bowtie = [
        [key(0.0, 0.0), key(10.0, 0.0), key(5.0, 5.0)],
        [key(5.0, 5.0), key(10.0, 10.0), key(0.0, 10.0)],
    ];
    assert!(mesh_outline(&bowtie).is_none());
    // A degenerate triangle is not a mesh either.
    let degenerate = [[key(0.0, 0.0), key(10.0, 0.0), key(0.0, 0.0)]];
    assert!(mesh_outline(&degenerate).is_none());
}

#[test]
fn mesh_rings_start_at_the_first_corner_and_follow_the_winding() {
    // Keys as plain numbers: the square 1-2-3-4 split along 1-3.
    let rings = mesh_outline(&[[1, 2, 3], [1, 3, 4]]).unwrap();
    assert_eq!(rings, vec![vec![1, 2, 3, 4]]);
    // The hole of the annulus comes second: its first corner comes later.
    let outer = [1u64, 2, 3, 4];
    let inner = [11u64, 12, 13, 14];
    let mut tris = Vec::new();
    for i in 0..4 {
        tris.push([outer[i], outer[(i + 1) % 4], inner[(i + 1) % 4]]);
        tris.push([outer[i], inner[(i + 1) % 4], inner[i]]);
    }
    let rings = mesh_outline(&tris).unwrap();
    assert_eq!(rings, vec![vec![1, 2, 3, 4], vec![12, 11, 14, 13]]);
}

#[test]
fn a_mesh_with_an_edge_run_twice_one_way_or_no_outline_has_none() {
    // Two copies of one triangle run every edge twice the same way.
    assert!(mesh_outline(&[[1, 2, 3], [1, 2, 3]]).is_none());
    // A triangle and its mirror cancel to nothing.
    assert!(mesh_outline(&[[1, 2, 3], [3, 2, 1]]).is_none());
    // No triangles, no outline.
    assert!(mesh_outline(&[]).is_none());
    // One triangle is its own outline.
    assert_eq!(mesh_outline(&[[5, 6, 7]]), Some(vec![vec![5, 6, 7]]));
}
