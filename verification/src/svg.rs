//! The SVG writer's decisions that are not drawing: its options and report,
//! its errors and what they say, which pages it refuses, and where a
//! multi-page job's files go.

use vstd::prelude::*;

use crate::paths::{
    extension_of, file_stem_of, joined_path, lowercase_of, lowercased, parent_of, path_extension,
    path_file_stem, path_join, path_parent,
};
use crate::plot::PlotReport;
use crate::ranges::{dec_chars, dec_digits, dec_value, lemma_padded_value, padded, padded_chars};
use crate::text::{append, is_digit, ascii_lower, chars_of, ends_with, join, lower_seq, same, starts_with, string_of, views};

verus! {

/// A drawing whose text is quietly incomplete looks fine and is not.
#[derive(Debug, Clone, Copy, PartialEq, Eq, Structural)]
pub enum MissingGlyphs {
    /// Refuse the page and name the first quad that was lost.
    Refuse,
    /// Write the page anyway and count them in the report.
    Report,
}

impl Default for MissingGlyphs {
    fn default() -> (m: MissingGlyphs)
        ensures
            m == MissingGlyphs::Refuse,
    {
        MissingGlyphs::Refuse
    }
}

#[derive(Debug, Clone, Copy, PartialEq, Eq, Structural)]
pub struct SvgOptions {
    /// Decimal places for path coordinates; `None` derives them from the
    /// plot scale.
    pub decimals: Option<usize>,
    /// What to do about text the glyph atlas could not supply.
    pub missing_glyphs: MissingGlyphs,
}

impl Default for SvgOptions {
    fn default() -> (o: SvgOptions)
        ensures
            o == (SvgOptions { decimals: None, missing_glyphs: MissingGlyphs::Refuse }),
    {
        SvgOptions { decimals: None, missing_glyphs: MissingGlyphs::Refuse }
    }
}

/// What the writer had to do, for the caller to report or refuse.
#[derive(Debug, Clone, Copy, PartialEq, Eq, Structural)]
pub struct SvgReport {
    /// Drawing elements written (paths and the page background).
    pub elements: usize,
    /// Clip paths defined.
    pub clip_paths: usize,
    /// The file uses `mix-blend-mode: multiply`.
    pub needs_mix_blend_mode: bool,
    /// Glyph / fill meshes written as one outline.
    pub mesh_outlines: usize,
    /// Meshes written as one path of triangle sub-paths instead.
    pub mesh_fallbacks: usize,
    /// Glyph quads the atlas had no geometry for.
    pub missing_glyphs: usize,
}

impl Default for SvgReport {
    fn default() -> (r: SvgReport)
        ensures
            r == (SvgReport {
                elements: 0,
                clip_paths: 0,
                needs_mix_blend_mode: false,
                mesh_outlines: 0,
                mesh_fallbacks: 0,
                missing_glyphs: 0,
            }),
    {
        SvgReport {
            elements: 0,
            clip_paths: 0,
            needs_mix_blend_mode: false,
            mesh_outlines: 0,
            mesh_fallbacks: 0,
            missing_glyphs: 0,
        }
    }
}

/// Where one page went, and what it needed.
#[derive(Debug, Clone)]
pub struct SvgPageOutcome {
    pub path: String,
    pub report: SvgReport,
    pub bytes: usize,
}

/// The result of writing a plot job.
#[derive(Debug, Clone)]
pub struct SvgBatch {
    pub pages: Vec<SvgPageOutcome>,
    /// Nothing was written: the pages were rendered and the paths resolved,
    /// but the files were not published.
    pub dry_run: bool,
}

#[derive(Debug, Clone, Copy, PartialEq, Eq, Structural)]
pub struct SvgWriteOptions {
    pub svg: SvgOptions,
    /// Replace files that are already there.
    pub force: bool,
    /// Render and resolve the paths, write nothing.
    pub dry_run: bool,
}

impl Default for SvgWriteOptions {
    fn default() -> (o: SvgWriteOptions)
        ensures
            o.svg == (SvgOptions { decimals: None, missing_glyphs: MissingGlyphs::Refuse }),
            !o.force,
            !o.dry_run,
    {
        SvgWriteOptions { svg: SvgOptions::default(), force: false, dry_run: false }
    }
}

// ── errors ──────────────────────────────────────────────────────────────

#[derive(Debug)]
pub enum SvgError {
    /// The page asks for something SVG cannot carry faithfully.
    Unsupported(&'static str),
    /// A coordinate, length or page dimension that cannot be serialised.
    Invalid(String),
    /// The page's text is incomplete and the caller asked not to be handed a
    /// drawing like that.
    MissingGlyphs {
        count: usize,
        atlas_unavailable: bool,
        /// The wire and quad index of the first one lost.
        first: Option<(String, usize)>,
    },
    /// Writing failed; what the I/O error said.
    Io(String),
    /// Which page of a multi-page job failed.
    Page { page: usize, source: Box<SvgError> },
    /// A page could not be written after earlier pages had already been
    /// published.
    Partial { published: Vec<String>, failed: String, reason: String },
}

pub open spec fn atlas_unavailable_text() -> Seq<char> {
    "the glyph atlas could not be read, so the page would have carried no text at all"@
}

/// What an error says.
pub open spec fn error_text(e: SvgError) -> Seq<char>
    decreases e,
{
    match e {
        SvgError::Unsupported(what) => "SVG export does not support "@ + what@,
        SvgError::Invalid(what) => "cannot write SVG: "@ + what@,
        SvgError::MissingGlyphs { count, atlas_unavailable, first } => if atlas_unavailable {
            atlas_unavailable_text()
        } else {
            dec_digits(count as nat) + " glyph(s) are missing from the page"@ + match first {
                Some((wire, quad)) => ", first on '"@ + wire@ + "' at quad "@ + dec_digits(
                    quad as nat,
                ),
                None => Seq::<char>::empty(),
            }
        },
        SvgError::Io(error) => "cannot write SVG: "@ + error@,
        SvgError::Page { page, source } => "page "@ + dec_digits(page as nat) + ": "@ + error_text(
            *source,
        ),
        SvgError::Partial { published, failed, reason } => "cannot write "@ + failed@ + ": "@
            + reason@ + if published.len() == 0 {
            " (nothing was written)"@
        } else {
            " ("@ + dec_digits(published.len() as nat) + " already written: "@ + join(
                views(published@),
                ", "@,
            ) + ")"@
        },
    }
}

fn lit(s: &str) -> (v: Vec<char>)
    ensures
        v@ == s@,
{
    chars_of(s)
}

fn joined_strings(items: &Vec<String>, sep: &[char]) -> (out: Vec<char>)
    ensures
        out@ == join(views(items@), sep@),
{
    let ghost vs = views(items@);
    let mut out: Vec<char> = Vec::new();
    let mut i: usize = 0;
    while i < items.len()
        invariant
            i <= items@.len(),
            vs == views(items@),
            out@ == join(vs.take(i as int), sep@),
        decreases items@.len() - i,
    {
        proof {
            crate::text::lemma_join_push(vs.take(i as int), vs[i as int], sep@);
            assert(vs.take(i + 1) =~= vs.take(i as int).push(vs[i as int]));
        }
        if i > 0 {
            append(&mut out, sep);
        }
        let c = chars_of(items[i].as_str());
        append(&mut out, c.as_slice());
        i += 1;
    }
    assert(vs.take(items@.len() as int) =~= vs);
    out
}

fn error_chars(e: &SvgError) -> (out: Vec<char>)
    ensures
        out@ == error_text(*e),
    decreases e,
{
    match e {
        SvgError::Unsupported(what) => {
            let mut out = lit("SVG export does not support ");
            append(&mut out, lit(what).as_slice());
            out
        },
        SvgError::Invalid(what) => {
            let mut out = lit("cannot write SVG: ");
            append(&mut out, chars_of(what.as_str()).as_slice());
            out
        },
        SvgError::MissingGlyphs { count, atlas_unavailable, first } => {
            if *atlas_unavailable {
                let out = lit(
                    "the glyph atlas could not be read, so the page would have carried no text at all",
                );
                return out;
            }
            let mut out = dec_chars(*count);
            append(&mut out, lit(" glyph(s) are missing from the page").as_slice());
            match first {
                Some((wire, quad)) => {
                    append(&mut out, lit(", first on '").as_slice());
                    append(&mut out, chars_of(wire.as_str()).as_slice());
                    append(&mut out, lit("' at quad ").as_slice());
                    append(&mut out, dec_chars(*quad).as_slice());
                },
                None => {},
            }
            out
        },
        SvgError::Io(error) => {
            let mut out = lit("cannot write SVG: ");
            append(&mut out, chars_of(error.as_str()).as_slice());
            out
        },
        SvgError::Page { page, source } => {
            let mut out = lit("page ");
            append(&mut out, dec_chars(*page).as_slice());
            append(&mut out, lit(": ").as_slice());
            let inner = error_chars(source);
            append(&mut out, inner.as_slice());
            out
        },
        SvgError::Partial { published, failed, reason } => {
            let mut out = lit("cannot write ");
            append(&mut out, chars_of(failed.as_str()).as_slice());
            append(&mut out, lit(": ").as_slice());
            append(&mut out, chars_of(reason.as_str()).as_slice());
            if published.len() == 0 {
                append(&mut out, lit(" (nothing was written)").as_slice());
            } else {
                append(&mut out, lit(" (").as_slice());
                append(&mut out, dec_chars(published.len()).as_slice());
                append(&mut out, lit(" already written: ").as_slice());
                let sep = lit(", ");
                append(&mut out, joined_strings(published, sep.as_slice()).as_slice());
                append(&mut out, lit(")").as_slice());
            }
            out
        },
    }
}

impl SvgError {
    /// What the error says, as its `Display` would.
    pub fn message(&self) -> (m: String)
        ensures
            m@ == error_text(*self),
    {
        string_of(error_chars(self).as_slice())
    }
}

// ── refusing a page ─────────────────────────────────────────────────────

/// The error a page is refused with when its text is incomplete and the
/// options say refuse; `None` when the page may be written.
pub fn refusal(options: &SvgOptions, plot: &PlotReport) -> (r: Option<SvgError>)
    ensures
        r is Some <==> (options.missing_glyphs == MissingGlyphs::Refuse && (plot.atlas_unavailable
            || plot.missing_glyphs > 0)),
        r matches Some(SvgError::MissingGlyphs { count, atlas_unavailable, first }) ==> count
            == plot.missing_glyphs && atlas_unavailable == plot.atlas_unavailable && match first {
            Some((w, q)) => plot.first_missing matches Some(m) && w@ == m.wire@ && q == m.quad,
            None => plot.first_missing is None,
        },
        r is Some ==> r matches Some(SvgError::MissingGlyphs { .. }),
{
    if options.missing_glyphs == MissingGlyphs::Refuse && plot.text_is_incomplete() {
        let first = match &plot.first_missing {
            Some(m) => Some((m.wire.clone(), m.quad)),
            None => None,
        };
        Some(
            SvgError::MissingGlyphs {
                count: plot.missing_glyphs,
                atlas_unavailable: plot.atlas_unavailable,
                first,
            },
        )
    } else {
        None
    }
}

/// A download is one page: the check an in-memory job makes on its page
/// count before rendering.
pub fn one_page(pages: usize) -> (r: Result<(), SvgError>)
    ensures
        r is Ok <==> pages == 1,
        pages == 0 ==> (r matches Err(SvgError::Invalid(m)) && m@ == "no pages were selected"@),
        pages > 1 ==> (r matches Err(SvgError::Invalid(m)) && m@
            == "a download is one page and this job has "@ + dec_digits(pages as nat)
            + "; plot one layout at a time"@),
{
    if pages == 1 {
        Ok(())
    } else if pages == 0 {
        Err(SvgError::Invalid(string_of(lit("no pages were selected").as_slice())))
    } else {
        let mut m = lit("a download is one page and this job has ");
        append(&mut m, dec_chars(pages).as_slice());
        append(&mut m, lit("; plot one layout at a time").as_slice());
        Err(SvgError::Invalid(string_of(m.as_slice())))
    }
}

/// The error page `index` of a `pages`-page job failed with: wrapped with
/// its 1-based number when the job has several pages.
pub fn page_error(pages: usize, index: usize, error: SvgError) -> (e: SvgError)
    requires
        index < pages,
    ensures
        pages > 1 ==> (e matches SvgError::Page { page, source } && page == index + 1 && *source
            == error),
        pages <= 1 ==> e == error,
{
    if pages > 1 {
        SvgError::Page { page: index + 1, source: Box::new(error) }
    } else {
        error
    }
}

// ── files ───────────────────────────────────────────────────────────────

pub open spec fn or_else(o: Option<Seq<char>>, d: Seq<char>) -> Seq<char> {
    match o {
        Some(s) => s,
        None => d,
    }
}

/// The file of page `n` (1-based) of a job written to `base`:
/// `stem-nnn.extension` beside it.
pub open spec fn numbered_path(base: Seq<char>, n: nat) -> Seq<char> {
    path_join(
        or_else(path_parent(base), Seq::<char>::empty()),
        or_else(path_file_stem(base), "plot"@) + seq!['-'] + padded(n, 3) + seq!['.'] + or_else(
            path_extension(base),
            "svg"@,
        ),
    )
}

/// SVG has no pages, so a multi-page job is a file each. One page keeps
/// the name it was given; several are numbered `stem-001.svg`,
/// `stem-002.svg`, ... in request order -- all of them, including the
/// first.
pub fn page_paths(base: &str, pages: usize) -> (out: Vec<String>)
    ensures
        pages <= 1 ==> views(out@) == seq![base@],
        pages > 1 ==> views(out@) == Seq::new(pages as nat, |i: int| numbered_path(base@, (i + 1) as nat)),
{
    if pages <= 1 {
        let mut out: Vec<String> = Vec::new();
        out.push(string_of(chars_of(base).as_slice()));
        assert(views(out@) =~= seq![base@]);
        return out;
    }
    let parent = match parent_of(base) {
        Some(p) => p,
        None => string_of(Vec::<char>::new().as_slice()),
    };
    let stem = match file_stem_of(base) {
        Some(s) => chars_of(s.as_str()),
        None => lit("plot"),
    };
    let extension = match extension_of(base) {
        Some(e) => chars_of(e.as_str()),
        None => lit("svg"),
    };
    assert(parent@ == or_else(path_parent(base@), Seq::<char>::empty()));
    let mut out: Vec<String> = Vec::new();
    let mut k: usize = 0;
    while k < pages
        invariant
            k <= pages,
            pages > 1,
            parent@ == or_else(path_parent(base@), Seq::<char>::empty()),
            stem@ == or_else(path_file_stem(base@), "plot"@),
            extension@ == or_else(path_extension(base@), "svg"@),
            out@.len() == k,
            forall|i: int| 0 <= i < k ==> #[trigger] out@[i]@ == numbered_path(base@, (i + 1) as nat),
        decreases pages - k,
    {
        let mut name: Vec<char> = Vec::new();
        append(&mut name, stem.as_slice());
        name.push('-');
        append(&mut name, padded_chars(k + 1, 3).as_slice());
        name.push('.');
        append(&mut name, extension.as_slice());
        let file = string_of(name.as_slice());
        assert(file@ == or_else(path_file_stem(base@), "plot"@) + seq!['-'] + padded((k + 1) as nat, 3) + seq!['.'] + or_else(path_extension(base@), "svg"@));
        out.push(joined_path(parent.as_str(), file.as_str()));
        k += 1;
    }
    assert(views(out@) =~= Seq::new(pages as nat, |i: int| numbered_path(base@, (i + 1) as nat)));
    out
}

/// The first pair of paths that name the same file on a case-insensitive
/// filesystem: the first path whose lowercase an earlier one shares, with
/// that earlier one.
pub fn first_case_insensitive_clash(paths: &[String]) -> (r: Option<(usize, usize)>)
    ensures
        r is None ==> forall|a: int, b: int|
            0 <= a < b < paths@.len() ==> lowercased(#[trigger] paths@[a]@) != lowercased(
                #[trigger] paths@[b]@,
            ),
        r matches Some((i, j)) ==> is_first_clash(views(paths@), i as int, j as int),
{
    let mut seen: Vec<Vec<char>> = Vec::new();
    let mut j: usize = 0;
    while j < paths.len()
        invariant
            j <= paths@.len(),
            seen@.len() == j,
            forall|k: int| 0 <= k < j ==> #[trigger] seen@[k]@ == lowercased(paths@[k]@),
            forall|a: int, b: int|
                0 <= a < b < j ==> lowercased(#[trigger] paths@[a]@) != lowercased(
                    #[trigger] paths@[b]@,
                ),
        decreases paths@.len() - j,
    {
        let low = chars_of(lowercase_of(paths[j].as_str()).as_str());
        let mut i: usize = 0;
        while i < j
            invariant
                i <= j < paths@.len(),
                seen@.len() == j,
                low@ == lowercased(paths@[j as int]@),
                forall|k: int| 0 <= k < j ==> #[trigger] seen@[k]@ == lowercased(paths@[k]@),
                forall|k: int| 0 <= k < i ==> lowercased(#[trigger] paths@[k]@) != low@,
                forall|a: int, b: int|
                    0 <= a < b < j ==> lowercased(#[trigger] paths@[a]@) != lowercased(
                        #[trigger] paths@[b]@,
                    ),
            decreases j - i,
        {
            if same(seen[i].as_slice(), low.as_slice()) {
                proof {
                    let ps = views(paths@);
                    assert(ps[i as int] == paths@[i as int]@ && ps[j as int] == paths@[j as int]@);
                    assert forall|a: int, b: int| 0 <= a < b < j implies lowercased(#[trigger] ps[a]) != lowercased(#[trigger] ps[b]) by {
                        assert(ps[a] == paths@[a]@ && ps[b] == paths@[b]@);
                    }
                }
                return Some((i, j));
            }
            i += 1;
        }
        seen.push(low);
        j += 1;
    }
    None
}

/// `paths[j]` is the first path whose lowercase an earlier one, `paths[i]`,
/// shares.
pub open spec fn is_first_clash(paths: Seq<Seq<char>>, i: int, j: int) -> bool {
    &&& 0 <= i < j < paths.len()
    &&& lowercased(paths[i]) == lowercased(paths[j])
    &&& forall|a: int, b: int|
        0 <= a < b < j ==> lowercased(#[trigger] paths[a]) != lowercased(#[trigger] paths[b])
}

/// Two of `paths` are one file where case does not count.
pub open spec fn has_clash(paths: Seq<Seq<char>>) -> bool {
    exists|i: int, j: int| 0 <= i < j < paths.len() && lowercased(#[trigger] paths[i]) == lowercased(#[trigger] paths[j])
}

/// What a clash between pages `i` and `j` (0-based) on `path` is reported
/// as.
pub open spec fn clash_text(i: int, j: int, path: Seq<char>) -> Seq<char> {
    "pages "@ + dec_digits((i + 1) as nat) + " and "@ + dec_digits((j + 1) as nat)
        + " would both write "@ + path + " (paths that differ only in case are the same file on Windows)"@
}

pub open spec fn existing(paths: Seq<Seq<char>>, exists: Seq<bool>) -> Seq<Seq<char>>
    decreases paths.len(),
{
    if paths.len() == 0 || exists.len() == 0 {
        Seq::<Seq<char>>::empty()
    } else if exists.last() {
        existing(paths.drop_last(), exists.drop_last()).push(paths.last())
    } else {
        existing(paths.drop_last(), exists.drop_last())
    }
}

/// Whether a job may write `paths`: it must write at least one page, no two
/// of them may be one file on a case-insensitive filesystem, and unless
/// `force` none may exist already (`exists[i]` says whether `paths[i]`
/// does).
pub fn check_targets(paths: &[String], exists: &[bool], force: bool) -> (r: Result<(), SvgError>)
    requires
        exists@.len() == paths@.len(),
        paths@.len() < usize::MAX,
    ensures
        paths@.len() == 0 ==> (r matches Err(SvgError::Invalid(m)) && m@ == "no pages were selected"@),
        r is Ok <==> (paths@.len() > 0 && (forall|i: int, j: int|
            0 <= i < j < paths@.len() ==> lowercased(#[trigger] paths@[i]@) != lowercased(
                #[trigger] paths@[j]@,
            )) && (force || forall|i: int| 0 <= i < exists@.len() ==> !#[trigger] exists@[i])),
        paths@.len() > 0 && has_clash(views(paths@)) ==> (r matches Err(SvgError::Invalid(m)) && exists|
            i: int,
            j: int,
        |
            #![trigger clash_text(i, j, paths@[j]@)]
            is_first_clash(views(paths@), i, j) && m@ == clash_text(i, j, paths@[j]@)),
        paths@.len() > 0 && !has_clash(views(paths@)) && !force && (exists|k: int|
            0 <= k < exists@.len() && #[trigger] exists@[k]) ==> (r matches Err(SvgError::Invalid(m)) && m@
            == "these files already exist: "@ + join(existing(views(paths@), exists@), ", "@)),
        r is Err ==> r matches Err(SvgError::Invalid(_)),
{
    if paths.len() == 0 {
        let m = lit("no pages were selected");
        return Err(SvgError::Invalid(string_of(m.as_slice())));
    }
    match first_case_insensitive_clash(paths) {
        Some((first, second)) => {
            let mut m = lit("pages ");
            append(&mut m, dec_chars(first + 1).as_slice());
            append(&mut m, lit(" and ").as_slice());
            append(&mut m, dec_chars(second + 1).as_slice());
            append(&mut m, lit(" would both write ").as_slice());
            append(&mut m, chars_of(paths[second].as_str()).as_slice());
            append(
                &mut m,
                lit(" (paths that differ only in case are the same file on Windows)").as_slice(),
            );
            assert(is_first_clash(views(paths@), first as int, second as int));
            assert(m@ == clash_text(first as int, second as int, paths@[second as int]@));
            return Err(SvgError::Invalid(string_of(m.as_slice())));
        },
        None => {},
    }
    if !force {
        let ghost ps = views(paths@);
        let mut taken: Vec<String> = Vec::new();
        let mut i: usize = 0;
        while i < paths.len()
            invariant
                i <= paths@.len(),
                exists@.len() == paths@.len(),
                ps == views(paths@),
                views(taken@) == existing(ps.take(i as int), exists@.take(i as int)),
                taken@.len() == 0 <==> forall|k: int| 0 <= k < i ==> !#[trigger] exists@[k],
            decreases paths@.len() - i,
        {
            assert(ps.take(i + 1).drop_last() =~= ps.take(i as int));
            assert(exists@.take(i + 1).drop_last() =~= exists@.take(i as int));
            if exists[i] {
                let ghost before = taken@;
                taken.push(paths[i].clone());
                assert(views(taken@) =~= views(before).push(paths@[i as int]@));
            }
            i += 1;
        }
        assert(ps.take(paths@.len() as int) =~= ps);
        assert(exists@.take(paths@.len() as int) =~= exists@);
        if taken.len() > 0 {
            let mut m = lit("these files already exist: ");
            let sep = lit(", ");
            append(&mut m, joined_strings(&taken, sep.as_slice()).as_slice());
            return Err(SvgError::Invalid(string_of(m.as_slice())));
        }
    }
    Ok(())
}

/// Whether a job written to `base` is gzipped: only when its extension says
/// `.svgz`, in any case.
pub fn wants_gzip(base: &str) -> (b: bool)
    ensures
        b == (path_extension(base@) matches Some(e) && lower_seq(e) == "svgz"@),
{
    let svgz = lit("svgz");
    match extension_of(base) {
        Some(e) => {
            let low = ascii_lower(chars_of(e.as_str()).as_slice());
            same(low.as_slice(), svgz.as_slice())
        },
        None => false,
    }
}

/// Every page of a job of several pages keeps the base path's extension:
/// page `n` is a file beside the base whose name is the base's stem (or
/// `plot`), a hyphen, the number `n` in at least three digits, then a dot
/// and the base's extension (or `svg` when the base has none) at its end.
pub proof fn law_numbered_pages_keep_the_extension(base: Seq<char>, n: nat)
    ensures
        exists|dir: Seq<char>, name: Seq<char>|
            #![trigger path_join(dir, name)]
            numbered_path(base, n) == path_join(dir, name) && dir == or_else(path_parent(base), Seq::<char>::empty())
                && starts_with(name, or_else(path_file_stem(base), "plot"@) + seq!['-']) && ends_with(
                name,
                seq!['.'] + or_else(path_extension(base), "svg"@),
            ),
        exists|number: Seq<char>|
            #![trigger dec_value(number)]
            numbered_path(base, n) == path_join(
                or_else(path_parent(base), Seq::<char>::empty()),
                or_else(path_file_stem(base), "plot"@) + seq!['-'] + number + seq!['.'] + or_else(
                    path_extension(base),
                    "svg"@,
                ),
            ) && dec_value(number) == n && number.len() >= 3 && forall|i: int|
                0 <= i < number.len() ==> is_digit(#[trigger] number[i]),
{
    lemma_padded_value(n, 3);
    assert(dec_value(padded(n, 3)) == n);
    let dir = or_else(path_parent(base), Seq::<char>::empty());
    let head = or_else(path_file_stem(base), "plot"@) + seq!['-'];
    let tail = seq!['.'] + or_else(path_extension(base), "svg"@);
    let name = head + padded(n, 3) + tail;
    assert(name =~= or_else(path_file_stem(base), "plot"@) + seq!['-'] + padded(n, 3) + seq!['.'] + or_else(
        path_extension(base),
        "svg"@,
    ));
    assert(name.take(head.len() as int) =~= head);
    assert(name.skip(name.len() - tail.len()) =~= tail);
    assert(numbered_path(base, n) == path_join(dir, name));
}

} // verus!
