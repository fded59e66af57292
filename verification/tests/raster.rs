use pid_legend::raster::{compare, diff_map, Flavor, Raster, RasterCmp};

fn page(width: u32, height: u32, paint: impl Fn(u32, u32) -> [u8; 3]) -> Raster {
    let rows: Vec<Vec<[u8; 3]>> =
        (0..height).map(|y| (0..width).map(|x| paint(x, y)).collect()).collect();
    Raster::from_rows(width, rows).expect("a rectangular picture")
}

fn white() -> [u8; 3] {
    [255, 255, 255]
}

/// A vertical dark line from `x0` to `x1`, softened one pixel each side the
/// way an anti-aliasing kernel would.
fn line(x: u32, x0: u32, x1: u32) -> [u8; 3] {
    if (x0..=x1).contains(&x) {
        [20, 20, 20]
    } else if x + 1 == x0 || x == x1 + 1 {
        [140, 140, 140]
    } else {
        white()
    }
}

#[test]
fn an_edge_one_pixel_over_is_not_a_defect() {
    let a = page(96, 96, |x, _| line(x, 40, 42));
    let b = page(96, 96, |x, _| line(x, 41, 43));
    let verdict = compare(&a, &b, &RasterCmp::default()).unwrap();
    assert_eq!(
        verdict.defects_total, 0,
        "a one-pixel shift under a different kernel is rasterisation noise, not a defect"
    );
}

#[test]
fn a_missing_line_is_caught_where_it_is_missing() {
    let a = page(96, 96, |x, _| line(x, 40, 42));
    let b = page(96, 96, |_, _| white());
    let verdict = compare(&a, &b, &RasterCmp::default()).unwrap();
    assert!(!verdict.ok(), "a whole missing line passed");
    assert!(verdict.worst.0 == 40 / 32, "worst tile at {:?}", verdict.worst);
}

#[test]
fn a_flat_patch_of_the_wrong_shade_is_caught() {
    let a = page(96, 96, |_, _| [200, 200, 200]);
    let b = page(96, 96, |_, _| [195, 195, 195]);
    let verdict = compare(&a, &b, &RasterCmp::default()).unwrap();
    assert!(!verdict.ok(), "five grey steps across a flat patch is a wrong colour, not noise");
    let c = page(96, 96, |_, _| [198, 198, 198]);
    let verdict = compare(&a, &c, &RasterCmp::default()).unwrap();
    assert_eq!(verdict.defects_total, 0);
}

#[test]
fn a_wrong_hue_hides_from_grey_but_not_from_this() {
    let a = page(96, 96, |_, _| [200, 100, 100]);
    let b = page(96, 96, |_, _| [100, 200, 100]);
    let verdict = compare(&a, &b, &RasterCmp::default()).unwrap();
    assert!(!verdict.ok());
}

#[test]
fn the_border_band_is_excused_and_the_interior_is_not() {
    let with_row = |row: u32| page(96, 96, move |_, y| if y == row { [20, 20, 20] } else { white() });
    let blank = page(96, 96, |_, _| white());
    let at_edge = compare(&with_row(0), &blank, &RasterCmp::default()).unwrap();
    assert_eq!(at_edge.defects_total, 0, "the border band is not judged");
    let inside = compare(&with_row(4), &blank, &RasterCmp::default()).unwrap();
    assert!(!inside.ok(), "a missing row four pixels in is a defect");
}

#[test]
fn pages_align_at_the_bottom_left_where_the_pdf_anchors_them() {
    let rule = |height: u32| {
        move |_: u32, y: u32| {
            if height - y == 40 {
                [20, 20, 20]
            } else {
                [255, 255, 255]
            }
        }
    };
    let a = page(96, 94, rule(94));
    let b = page(96, 96, rule(96));
    let verdict = compare(&a, &b, &RasterCmp::default()).unwrap();
    assert_eq!(verdict.defects_total, 0, "a two-row rounding difference read as a page-wide shift");
}

fn bar(seam: Option<(u32, u8)>) -> impl Fn(u32, u32) -> [u8; 3] {
    move |x, _| {
        if let Some((at, value)) = seam {
            if x == at {
                return [value; 3];
            }
        }
        if (30..=60).contains(&x) {
            [20, 20, 20]
        } else if x + 1 == 30 || x == 61 {
            [140, 140, 140]
        } else {
            [255, 255, 255]
        }
    }
}

#[test]
fn poppler_may_underpaint_a_seam_inside_solid_ink_but_the_svg_may_not() {
    let solid = page(96, 96, bar(None));
    let seamed = page(96, 96, bar(Some((45, 70))));
    let verdict = compare(&seamed, &solid, &RasterCmp::default()).unwrap();
    assert_eq!(verdict.defects_total, 0, "a conflation seam was charged");
    let verdict = compare(&solid, &seamed, &RasterCmp::default()).unwrap();
    assert!(!verdict.ok(), "an SVG-side seam was excused");
}

#[test]
fn a_deep_crack_is_conflation_but_a_broad_light_patch_is_not() {
    let solid = page(96, 96, bar(None));
    let cracked = page(96, 96, bar(Some((45, 220))));
    let verdict = compare(&cracked, &solid, &RasterCmp::default()).unwrap();
    assert_eq!(verdict.defects_total, 0, "a deep thin crack was charged");
    let base = bar(None);
    let patched = page(96, 96, move |x, y| if (40..=52).contains(&x) { [150, 150, 150] } else { base(x, y) });
    let verdict = compare(&patched, &solid, &RasterCmp::default()).unwrap();
    assert!(!verdict.ok(), "a broad light patch was excused as conflation");
}

#[test]
fn the_pdf_floor_inside_ink_is_excused_and_the_svg_floor_is_not() {
    let solid = page(96, 96, bar(None));
    let base = bar(None);
    let floored = page(96, 96, move |x, y| {
        let v = base(x, y);
        if v == [20, 20, 20] {
            [45, 45, 45]
        } else {
            v
        }
    });
    let verdict = compare(&floored, &solid, &RasterCmp::default()).unwrap();
    assert_eq!(verdict.defects_total, 0, "the conflated interior was charged");
    let verdict = compare(&solid, &floored, &RasterCmp::default()).unwrap();
    assert!(!verdict.ok(), "an SVG-side floor was excused");
}

#[test]
fn sizes_a_rounding_step_apart_compare_and_worse_do_not() {
    let a = page(96, 96, |x, _| line(x, 40, 42));
    let b = page(95, 96, |x, _| line(x, 40, 42));
    assert!(compare(&a, &b, &RasterCmp::default()).unwrap().ok());
    let c = page(80, 96, |x, _| line(x, 40, 42));
    let error = compare(&a, &c, &RasterCmp::default()).expect_err("16 px apart");
    assert!(error.contains("different sizes"), "{error}");
}

// ── the library's own checks ────────────────────────────────────────────

#[test]
fn the_size_message_names_both_pages() {
    let a = page(10, 20, |_, _| white());
    let b = page(3, 20, |_, _| white());
    assert_eq!(compare(&a, &b, &RasterCmp::default()).unwrap_err(), "the pages are different sizes: 10×20 vs 3×20");
}

#[test]
fn the_verdict_counts_tiles_and_points_at_the_last_worst_one() {
    // Two isolated dark dots in an otherwise white page, one per tile.
    let dot = |x: u32, y: u32| if (x, y) == (5, 5) || (x, y) == (40, 5) { [0, 0, 0] } else { white() };
    let a = page(64, 32, dot);
    let b = page(64, 32, |_, _| white());
    let cfg = RasterCmp { tile_budget: 0, ..RasterCmp::default() };
    let v = compare(&a, &b, &cfg).unwrap();
    assert_eq!((v.width, v.height, v.tiles_x, v.tiles_y), (64, 32, 2, 1));
    assert_eq!(v.defects.len(), 64 * 32);
    assert_eq!(v.tile_counts.iter().map(|c| *c as u64).sum::<u64>(), v.defects_total);
    assert_eq!(v.tile_counts[0], v.tile_counts[1]);
    assert_eq!(v.worst, (1, 0, v.tile_counts[1]), "ties go to the last tile");
    assert_eq!(v.failing_tiles(), 2);
    assert!(!v.ok());
}

#[test]
fn identical_pages_have_no_defects() {
    let a = page(40, 30, |x, y| [(x * 6) as u8, (y * 8) as u8, 128]);
    let b = page(40, 30, |x, y| [(x * 6) as u8, (y * 8) as u8, 128]);
    let v = compare(&a, &b, &RasterCmp::default()).unwrap();
    assert_eq!(v.defects_total, 0);
    assert!(v.defects.iter().all(|d| !d));
    assert!(v.ok());
}

#[test]
fn a_ragged_picture_is_refused() {
    assert!(Raster::from_rows(2, vec![vec![[0, 0, 0]; 2], vec![[0, 0, 0]; 1]]).is_none());
    let p = Raster::from_rows(2, vec![vec![[1, 2, 3], [4, 5, 6]]]).unwrap();
    assert_eq!((p.width(), p.height()), (2, 1));
    assert_eq!(p.pixel(1, 0), [4, 5, 6]);
}

#[test]
fn the_flavour_follows_the_executable_name() {
    assert_eq!(Flavor::for_executable("/usr/bin/MuTool.exe"), Flavor::MuTool);
    assert_eq!(Flavor::for_executable("/usr/bin/pdftoppm"), Flavor::PdfToPpm);
}

#[test]
fn the_defect_picture_marks_defects_red_and_fades_the_rest() {
    // A taller PDF page: the overlap is its bottom rows.
    let a = page(4, 5, |x, y| if y == 0 { [0, 0, 0] } else if x == 1 { [0, 0, 0] } else { [200, 100, 3] });
    let b = page(4, 4, |_, _| [200, 100, 3]);
    let v = compare(&a, &b, &RasterCmp::default()).unwrap();
    let d = diff_map(&a, &v);
    assert_eq!((d.width(), d.height()), (v.width, v.height));
    for y in 0..d.height() {
        for x in 0..d.width() {
            let i = (y * d.width() + x) as usize;
            let p = a.pixel(x, y + 1);
            let want = if v.defects[i] {
                [255, 0, 0]
            } else {
                [255 - (255 - p[0]) / 4, 255 - (255 - p[1]) / 4, 255 - (255 - p[2]) / 4]
            };
            assert_eq!(d.pixel(x, y), want);
        }
    }
    // The faded page colour has an exact value.
    let any_plain = (0..d.height()).flat_map(|y| (0..d.width()).map(move |x| (x, y))).find(|&(x, y)| {
        !v.defects[(y * d.width() + x) as usize] && x != 1
    });
    if let Some((x, y)) = any_plain {
        assert_eq!(d.pixel(x, y), [242, 217, 192]);
    }
}

#[test]
fn a_page_compared_with_itself_has_no_defect() {
    let a = page(40, 30, |x, y| [(x * 7 % 256) as u8, (y * 11 % 256) as u8, ((x + y) * 5 % 256) as u8]);
    let v = compare(&a, &a, &RasterCmp::default()).unwrap();
    assert!(v.defects.iter().all(|d| !d));
    assert_eq!(v.defects_total, 0);
    assert!(v.ok());
}
