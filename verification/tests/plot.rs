use pid_legend::plot::{
    GlyphSnapshot, GlyphState, MissingGlyph, PdfPlotOptions, PlotAssets, PlotGroupSplits, PlotReport,
};

#[test]
fn a_snapshot_counts_the_visible_quads_it_cannot_draw() {
    let snapshot = GlyphSnapshot::of(&[10, 11, 11, 12], 99);
    assert_eq!(snapshot.glyphs(), 3);
    let quads = [(true, 10), (true, 13), (false, 14), (true, 99), (true, 15)];
    assert_eq!(snapshot.missing_in(&quads), 2, "an invisible quad and the solid texel are not glyphs");
    let assets = PlotAssets::for_pages(Some(snapshot));
    assert_eq!(assets.stale_glyphs(&[quads.to_vec(), vec![(true, 16)]]), 3);
    assert_eq!(PlotAssets::for_pages(None).stale_glyphs(&[quads.to_vec()]), 0);
}

#[test]
fn only_a_job_with_text_wants_a_snapshot() {
    assert!(!PlotAssets::needs_snapshot(&[vec![0, 0], vec![]]));
    assert!(PlotAssets::needs_snapshot(&[vec![0], vec![0, 6]]));
}

#[test]
fn text_is_incomplete_when_the_atlas_failed_or_a_quad_was_lost() {
    let mut r = PlotReport::new();
    assert!(!r.text_is_incomplete());
    r.missing_glyphs = 1;
    r.first_missing = Some(MissingGlyph { wire: "w".into(), quad: 0 });
    assert!(r.text_is_incomplete());
    let mut u = PlotReport::new();
    u.atlas_unavailable = true;
    assert!(u.text_is_incomplete());
}

#[test]
fn the_first_text_item_takes_the_snapshot_once() {
    let mut state = GlyphState::new(None);
    assert!(state.wants_capture());
    assert!(!state.ensure(None));
    assert!(state.report.atlas_unavailable, "an atlas that gave nothing is reported");
    assert!(!state.wants_capture());
    assert!(!state.ensure(Some(GlyphSnapshot::of(&[1], 0))), "later captures are ignored");

    let mut handed = GlyphState::new(Some(GlyphSnapshot::of(&[1], 0)));
    assert!(!handed.wants_capture());
    assert!(handed.ensure(None));
    assert!(!handed.report.atlas_unavailable);
}

#[test]
fn the_plot_options_default_to_object_lineweights_only() {
    let o = PdfPlotOptions::default();
    assert!(o.object_lineweights && !o.scale_lineweights && !o.transparency && !o.stamp && !o.merge_lines);
    assert_eq!(PlotGroupSplits::default(), PlotGroupSplits { wires: 0, hatches: 0, wipeouts: 0, images: 0 });
}
