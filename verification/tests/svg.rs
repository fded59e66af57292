use pid_legend::plot::{MissingGlyph, PlotReport};
use pid_legend::svg::{
    check_targets, first_case_insensitive_clash, one_page, page_error, page_paths, refusal,
    wants_gzip, MissingGlyphs, SvgError, SvgOptions, SvgWriteOptions,
};
use std::path::Path;

#[test]
fn one_page_keeps_its_name_and_several_are_all_numbered() {
    let base = "/plots/site plan.svg";
    assert_eq!(page_paths(base, 1), vec![base.to_string()]);
    let three = page_paths(base, 3);
    let names: Vec<String> = three
        .iter()
        .map(|p| Path::new(p).file_name().unwrap().to_string_lossy().into_owned())
        .collect();
    assert_eq!(names, ["site plan-001.svg", "site plan-002.svg", "site plan-003.svg"]);
    assert!(three.iter().all(|p| Path::new(p).parent() == Path::new(base).parent()));
}

#[test]
fn a_case_only_difference_is_the_same_file() {
    let paths: Vec<String> =
        ["a/Plan.svg", "a/other.svg", "a/plan.svg"].iter().map(|p| p.to_string()).collect();
    assert_eq!(first_case_insensitive_clash(&paths), Some((0, 2)));
    assert_eq!(first_case_insensitive_clash(&paths[..2]), None);
}

// ── the library's own checks ────────────────────────────────────────────

fn report(missing: usize, unavailable: bool) -> PlotReport {
    let mut r = PlotReport::new();
    r.missing_glyphs = missing;
    r.atlas_unavailable = unavailable;
    if missing > 0 {
        r.first_missing = Some(MissingGlyph { wire: "label".into(), quad: 3 });
    }
    r
}

#[test]
fn an_incomplete_page_is_refused_by_default_and_says_which_wire() {
    let strict = SvgOptions::default();
    let error = refusal(&strict, &report(2, false)).expect("refused");
    assert_eq!(error.message(), "2 glyph(s) are missing from the page, first on 'label' at quad 3");
    let lenient = SvgOptions { missing_glyphs: MissingGlyphs::Report, ..SvgOptions::default() };
    assert!(refusal(&lenient, &report(2, false)).is_none());
    assert!(refusal(&strict, &report(0, false)).is_none());
    let gone = refusal(&strict, &report(0, true)).expect("refused");
    assert_eq!(
        gone.message(),
        "the glyph atlas could not be read, so the page would have carried no text at all"
    );
}

#[test]
fn every_error_says_what_happened() {
    assert_eq!(SvgError::Unsupported("the plot stamp").message(), "SVG export does not support the plot stamp");
    assert_eq!(SvgError::Invalid("x".into()).message(), "cannot write SVG: x");
    assert_eq!(SvgError::Io("disk full".into()).message(), "cannot write SVG: disk full");
    let inner = SvgError::Invalid("bad".into());
    assert_eq!(page_error(3, 1, inner).message(), "page 2: cannot write SVG: bad");
    assert_eq!(page_error(1, 0, SvgError::Invalid("bad".into())).message(), "cannot write SVG: bad");
    let partial = SvgError::Partial {
        published: vec!["a-001.svg".into(), "a-002.svg".into()],
        failed: "a-003.svg".into(),
        reason: "denied".into(),
    };
    assert_eq!(
        partial.message(),
        "cannot write a-003.svg: denied (2 already written: a-001.svg, a-002.svg)"
    );
    let nothing = SvgError::Partial { published: vec![], failed: "a.svg".into(), reason: "denied".into() };
    assert_eq!(nothing.message(), "cannot write a.svg: denied (nothing was written)");
}

#[test]
fn a_download_is_one_page() {
    assert!(one_page(1).is_ok());
    assert_eq!(one_page(0).unwrap_err().message(), "cannot write SVG: no pages were selected");
    assert_eq!(
        one_page(3).unwrap_err().message(),
        "cannot write SVG: a download is one page and this job has 3; plot one layout at a time"
    );
}

#[test]
fn targets_that_clash_or_exist_stop_the_job_unless_forced() {
    let paths: Vec<String> = ["p-001.svg", "p-002.svg", "P-001.SVG"].iter().map(|p| p.to_string()).collect();
    assert_eq!(
        check_targets(&paths, &[false, false, false], true).unwrap_err().message(),
        "cannot write SVG: pages 1 and 3 would both write P-001.SVG (paths that differ only in case are the same file on Windows)"
    );
    let fine: Vec<String> = ["p-001.svg", "p-002.svg"].iter().map(|p| p.to_string()).collect();
    assert_eq!(
        check_targets(&fine, &[true, true], false).unwrap_err().message(),
        "cannot write SVG: these files already exist: p-001.svg, p-002.svg"
    );
    assert!(check_targets(&fine, &[true, true], true).is_ok());
    assert!(check_targets(&fine, &[false, false], false).is_ok());
}

#[test]
fn only_an_svgz_target_is_gzipped() {
    assert!(wants_gzip("plot.svgz"));
    assert!(wants_gzip("plot.SVGZ"));
    assert!(!wants_gzip("plot.svg"));
    assert!(!wants_gzip("plot"));
}

#[test]
fn the_write_options_default_to_strict_and_careful() {
    let o = SvgWriteOptions::default();
    assert!(!o.force && !o.dry_run);
    assert_eq!(o.svg.missing_glyphs, MissingGlyphs::Refuse);
    assert_eq!(o.svg.decimals, None);
}

#[test]
fn a_job_of_no_pages_is_refused() {
    let none: Vec<String> = Vec::new();
    assert_eq!(
        check_targets(&none, &[], true).unwrap_err().message(),
        "cannot write SVG: no pages were selected"
    );
}

#[test]
fn a_clash_is_reported_before_files_that_exist() {
    let paths: Vec<String> = ["a.svg", "A.SVG"].iter().map(|p| p.to_string()).collect();
    assert_eq!(
        check_targets(&paths, &[true, true], false).unwrap_err().message(),
        "cannot write SVG: pages 1 and 2 would both write A.SVG (paths that differ only in case are the same file on Windows)"
    );
}
