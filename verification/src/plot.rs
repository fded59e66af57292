//! What the plot traversal hands its backends besides drawing operations:
//! the pen and fill vocabulary, the page options, the glyph snapshot a
//! page's text is drawn from, and the report of what text it lost.

use vstd::prelude::*;

verus! {

#[derive(Clone, Copy, Debug, PartialEq, Eq, Structural)]
pub enum LineCap {
    Butt,
    Round,
    /// PDF "projecting square".
    Square,
}

#[derive(Clone, Copy, Debug, PartialEq, Eq, Structural)]
pub enum LineJoin {
    Miter,
    Round,
    Bevel,
}

#[derive(Clone, Copy, Debug, PartialEq, Eq, Structural)]
pub enum FillRule {
    NonZero,
    EvenOdd,
}

#[derive(Clone, Copy, Debug, PartialEq, Eq, Structural)]
pub enum PlotBlend {
    Normal,
    Multiply,
}

/// A device font a backend may have built in. Not glyph geometry.
#[derive(Clone, Copy, Debug, PartialEq, Eq, Structural)]
pub enum BuiltinFace {
    Helvetica,
}

/// Output controls shared by preview, PDF export, and printer rendering.
#[derive(Debug, Clone, Copy, PartialEq, Eq, Structural)]
pub struct PdfPlotOptions {
    pub object_lineweights: bool,
    pub scale_lineweights: bool,
    pub transparency: bool,
    pub stamp: bool,
    pub merge_lines: bool,
}

impl Default for PdfPlotOptions {
    /// Object lineweights on, everything else off.
    fn default() -> (o: PdfPlotOptions)
        ensures
            o == (PdfPlotOptions {
                object_lineweights: true,
                scale_lineweights: false,
                transparency: false,
                stamp: false,
                merge_lines: false,
            }),
    {
        PdfPlotOptions {
            object_lineweights: true,
            scale_lineweights: false,
            transparency: false,
            stamp: false,
            merge_lines: false,
        }
    }
}

/// End indexes of the first paper/model render group in each flat input
/// list.
#[derive(Debug, Clone, Copy, PartialEq, Eq, Structural)]
pub struct PlotGroupSplits {
    pub wires: usize,
    pub hatches: usize,
    pub wipeouts: usize,
    pub images: usize,
}

impl Default for PlotGroupSplits {
    fn default() -> (s: PlotGroupSplits)
        ensures
            s == (PlotGroupSplits { wires: 0, hatches: 0, wipeouts: 0, images: 0 }),
    {
        PlotGroupSplits { wires: 0, hatches: 0, wipeouts: 0, images: 0 }
    }
}

// ── the glyph snapshot ──────────────────────────────────────────────────

/// The baked glyph geometry a page's text needs, lifted out of the atlas:
/// the atlas tiles it has geometry for, by key, and the key of the atlas's
/// solid texel, which is no glyph.
#[derive(Debug)]
pub struct GlyphSnapshot {
    keys: Vec<u64>,
    solid_key: u64,
}

/// Whether `s` holds no key twice.
pub open spec fn no_repeats(s: Seq<u64>) -> bool {
    forall|i: int, j: int| 0 <= i < j < s.len() ==> s[i] != s[j]
}

/// A glyph quad as the snapshot judges it: whether it is visible (an
/// invisible quad is never looked up) and the atlas key it carries.
pub open spec fn missing(table: Set<u64>, solid: u64, quad: (bool, u64)) -> bool {
    quad.0 && quad.1 != solid && !table.contains(quad.1)
}

/// How many of `quads` the snapshot has no geometry for.
pub open spec fn missing_count(table: Set<u64>, solid: u64, quads: Seq<(bool, u64)>) -> nat
    decreases quads.len(),
{
    if quads.len() == 0 {
        0
    } else {
        missing_count(table, solid, quads.drop_last()) + if missing(table, solid, quads.last()) {
            1nat
        } else {
            0nat
        }
    }
}

impl View for GlyphSnapshot {
    type V = (Set<u64>, u64);

    closed spec fn view(&self) -> (Set<u64>, u64) {
        (self.keys@.to_set(), self.solid_key)
    }
}

impl GlyphSnapshot {
    #[verifier::type_invariant]
    spec fn well_formed(self) -> bool {
        no_repeats(self.keys@)
    }

    /// A snapshot of an atlas whose table holds geometry for `table_keys`
    /// and whose solid texel has the key `solid_key`.
    pub fn of(table_keys: &[u64], solid_key: u64) -> (s: GlyphSnapshot)
        ensures
            s@.0 == table_keys@.to_set(),
            s@.1 == solid_key,
    {
        let mut keys: Vec<u64> = Vec::new();
        let mut i: usize = 0;
        while i < table_keys.len()
            invariant
                i <= table_keys@.len(),
                no_repeats(keys@),
                keys@.to_set() == table_keys@.take(i as int).to_set(),
            decreases table_keys@.len() - i,
        {
            let k = table_keys[i];
            assert(table_keys@.take(i + 1) == table_keys@.take(i as int).push(k));
            proof {
                lemma_push_to_set(table_keys@.take(i as int), k);
            }
            if !has_key(&keys, k) {
                let ghost before = keys@;
                keys.push(k);
                assert(keys@ == before.push(k));
                proof {
                    lemma_push_to_set(before, k);
                }
            } else {
                assert(keys@.to_set().contains(k));
                assert(keys@.to_set() =~= table_keys@.take(i + 1).to_set());
            }
            i += 1;
        }
        assert(table_keys@.take(table_keys@.len() as int) =~= table_keys@);
        GlyphSnapshot { keys, solid_key }
    }

    /// The number of glyphs the snapshot has geometry for.
    pub fn glyphs(&self) -> (n: usize)
        ensures
            n == self@.0.len(),
    {
        proof {
            use_type_invariant(self);
            self.keys@.unique_seq_to_set();
        }
        self.keys.len()
    }

    /// The visible glyph quads among `quads` this snapshot has no geometry
    /// for -- exactly the quads the text pass would have to skip. Each quad
    /// is whether it is visible and the atlas key it carries.
    pub fn missing_in(&self, quads: &[(bool, u64)]) -> (n: usize)
        ensures
            n == missing_count(self@.0, self@.1, quads@),
    {
        let mut n: usize = 0;
        let mut i: usize = 0;
        while i < quads.len()
            invariant
                i <= quads@.len(),
                n <= i,
                n == missing_count(self@.0, self@.1, quads@.take(i as int)),
            decreases quads@.len() - i,
        {
            assert(quads@.take(i + 1).drop_last() =~= quads@.take(i as int));
            let (visible, key) = quads[i];
            if visible && key != self.solid_key && !has_key(&self.keys, key) {
                n += 1;
            }
            i += 1;
        }
        assert(quads@.take(quads@.len() as int) =~= quads@);
        n
    }
}

impl Clone for GlyphSnapshot {
    fn clone(&self) -> (s: GlyphSnapshot)
        ensures
            s@ == self@,
    {
        proof {
            use_type_invariant(self);
        }
        let keys = self.keys.clone();
        assert(keys@ =~= self.keys@);
        GlyphSnapshot { keys, solid_key: self.solid_key }
    }
}

proof fn lemma_push_to_set<A>(s: Seq<A>, x: A)
    ensures
        s.push(x).to_set() == s.to_set().insert(x),
{
    assert forall|e: A| #[trigger] s.push(x).to_set().contains(e) <==> s.to_set().insert(x).contains(e) by {
        if s.push(x).contains(e) {
            let j = choose|j: int| 0 <= j < s.push(x).len() && s.push(x)[j] == e;
            if j < s.len() {
                assert(s[j] == e);
            }
        }
        if s.contains(e) {
            let j = choose|j: int| 0 <= j < s.len() && s[j] == e;
            assert(s.push(x)[j] == e);
        }
        if e == x {
            assert(s.push(x)[s.len() as int] == x);
        }
    }
    assert(s.push(x).to_set() =~= s.to_set().insert(x));
}

fn has_key(keys: &Vec<u64>, k: u64) -> (b: bool)
    ensures
        b == keys@.contains(k),
{
    let mut i: usize = 0;
    while i < keys.len()
        invariant
            i <= keys@.len(),
            forall|j: int| 0 <= j < i ==> keys@[j] != k,
        decreases keys@.len() - i,
    {
        if keys[i] == k {
            return true;
        }
        i += 1;
    }
    false
}

/// Inputs the emitter would otherwise read from the environment.
#[derive(Clone, Debug)]
pub struct PlotAssets {
    /// Text of the plot stamp; `None` reads the clock and the user name.
    pub stamp_label: Option<String>,
    /// Glyph geometry for this page; `None` takes one snapshot when the
    /// page's first text item is reached.
    pub glyphs: Option<GlyphSnapshot>,
}

/// The missing quads over every page, page by page.
pub open spec fn stale_count(table: Set<u64>, solid: u64, pages: Seq<Seq<(bool, u64)>>) -> nat
    decreases pages.len(),
{
    if pages.len() == 0 {
        0
    } else {
        stale_count(table, solid, pages.drop_last()) + missing_count(table, solid, pages.last())
    }
}

/// The quads over every page.
pub open spec fn quad_count(pages: Seq<Seq<(bool, u64)>>) -> nat
    decreases pages.len(),
{
    if pages.len() == 0 {
        0
    } else {
        quad_count(pages.drop_last()) + pages.last().len()
    }
}

proof fn lemma_missing_at_most(table: Set<u64>, solid: u64, quads: Seq<(bool, u64)>)
    ensures
        missing_count(table, solid, quads) <= quads.len(),
    decreases quads.len(),
{
    if quads.len() > 0 {
        lemma_missing_at_most(table, solid, quads.drop_last());
    }
}

proof fn lemma_stale_at_most(table: Set<u64>, solid: u64, pages: Seq<Seq<(bool, u64)>>)
    ensures
        stale_count(table, solid, pages) <= quad_count(pages),
    decreases pages.len(),
{
    if pages.len() > 0 {
        lemma_stale_at_most(table, solid, pages.drop_last());
        lemma_missing_at_most(table, solid, pages.last());
    }
}

pub open spec fn pages_view(pages: Seq<Vec<(bool, u64)>>) -> Seq<Seq<(bool, u64)>> {
    pages.map_values(|p: Vec<(bool, u64)>| p@)
}

impl PlotAssets {
    /// Whether a job's pages carry text at all -- a job without any takes
    /// no snapshot. `text_quads[p][w]` is how many glyph quads wire `w` of
    /// page `p` carries.
    pub fn needs_snapshot(text_quads: &[Vec<usize>]) -> (b: bool)
        ensures
            b == exists|p: int, w: int|
                0 <= p < text_quads@.len() && 0 <= w < text_quads@[p]@.len()
                    && #[trigger] text_quads@[p]@[w] > 0,
    {
        let mut p: usize = 0;
        while p < text_quads.len()
            invariant
                p <= text_quads@.len(),
                forall|q: int, w: int|
                    0 <= q < p && 0 <= w < text_quads@[q]@.len() ==> #[trigger] text_quads@[q]@[w]
                        == 0,
            decreases text_quads@.len() - p,
        {
            let mut w: usize = 0;
            while w < text_quads[p].len()
                invariant
                    p < text_quads@.len(),
                    w <= text_quads@[p as int]@.len(),
                    forall|q: int, v: int|
                        0 <= q < p && 0 <= v < text_quads@[q]@.len() ==> #[trigger] text_quads@[q]@[v]
                            == 0,
                    forall|v: int| 0 <= v < w ==> #[trigger] text_quads@[p as int]@[v] == 0,
                decreases text_quads@[p as int]@.len() - w,
            {
                if text_quads[p][w] > 0 {
                    return true;
                }
                w += 1;
            }
            p += 1;
        }
        false
    }

    /// Assets for a job whose pages are already laid out: the one glyph
    /// snapshot shared by every page (taken only when
    /// [`Self::needs_snapshot`] says the job has text), and no stamp label.
    pub fn for_pages(snapshot: Option<GlyphSnapshot>) -> (a: PlotAssets)
        ensures
            a.stamp_label.is_none(),
            a.glyphs == snapshot,
    {
        PlotAssets { stamp_label: None, glyphs: snapshot }
    }

    /// Glyph quads on `pages` the snapshot cannot draw -- the count a strict
    /// backend would refuse the job over. Zero when there is no snapshot.
    pub fn stale_glyphs(&self, pages: &[Vec<(bool, u64)>]) -> (n: usize)
        requires
            quad_count(pages_view(pages@)) <= usize::MAX,
        ensures
            n == match self.glyphs {
                Some(s) => stale_count(s@.0, s@.1, pages_view(pages@)),
                None => 0,
            },
    {
        match &self.glyphs {
            None => 0,
            Some(snapshot) => {
                let ghost ps = pages_view(pages@);
                let mut n: usize = 0;
                let mut i: usize = 0;
                while i < pages.len()
                    invariant
                        i <= pages@.len(),
                        ps == pages_view(pages@),
                        quad_count(ps) <= usize::MAX,
                        n == stale_count(snapshot@.0, snapshot@.1, ps.take(i as int)),
                    decreases pages@.len() - i,
                {
                    assert(ps.take(i + 1).drop_last() =~= ps.take(i as int));
                    assert(ps.take(i + 1).last() == pages@[i as int]@);
                    proof {
                        lemma_stale_at_most(snapshot@.0, snapshot@.1, ps.take(i + 1));
                        lemma_quad_count_prefix(ps, i + 1);
                    }
                    let m = snapshot.missing_in(pages[i].as_slice());
                    n = n + m;
                    i += 1;
                }
                assert(ps.take(pages@.len() as int) =~= ps);
                n
            },
        }
    }
}

proof fn lemma_quad_count_prefix(pages: Seq<Seq<(bool, u64)>>, k: int)
    requires
        0 <= k <= pages.len(),
    ensures
        quad_count(pages.take(k)) <= quad_count(pages),
    decreases pages.len(),
{
    if k < pages.len() {
        assert(pages.drop_last().take(k) =~= pages.take(k));
        lemma_quad_count_prefix(pages.drop_last(), k);
    } else {
        assert(pages.take(k) =~= pages);
    }
}

// ── what the traversal lost ─────────────────────────────────────────────

/// A glyph quad the atlas had no geometry for.
#[derive(Clone, Debug, PartialEq, Eq)]
pub struct MissingGlyph {
    /// The wire the quad belongs to, as the scene names it.
    pub wire: String,
    /// Its index among that wire's quads.
    pub quad: usize,
}

/// What the traversal could and could not put on the page.
#[derive(Clone, Debug)]
pub struct PlotReport {
    /// Wires carrying text that the page drew from.
    pub text_items: usize,
    /// Glyph quads skipped because the snapshot had no geometry for them.
    pub missing_glyphs: usize,
    /// The first one, to point at.
    pub first_missing: Option<MissingGlyph>,
    /// The atlas could not be read at all, so no text was drawn.
    pub atlas_unavailable: bool,
}

impl PlotReport {
    /// Nothing drawn, nothing lost.
    pub fn new() -> (r: PlotReport)
        ensures
            r.text_items == 0,
            r.missing_glyphs == 0,
            r.first_missing.is_none(),
            !r.atlas_unavailable,
    {
        PlotReport { text_items: 0, missing_glyphs: 0, first_missing: None, atlas_unavailable: false }
    }

    /// Whether text was lost -- the thing a strict backend refuses to
    /// publish.
    pub fn text_is_incomplete(&self) -> (b: bool)
        ensures
            b == (self.atlas_unavailable || self.missing_glyphs > 0),
    {
        self.atlas_unavailable || self.missing_glyphs > 0
    }
}

/// The page's glyph snapshot and what it could not supply.
pub struct GlyphState {
    pub snapshot: Option<GlyphSnapshot>,
    /// The snapshot was asked for (or handed in) already.
    pub tried: bool,
    pub report: PlotReport,
}

impl GlyphState {
    /// The state for a page handed `snapshot`: one handed in counts as
    /// tried.
    pub fn new(snapshot: Option<GlyphSnapshot>) -> (g: GlyphState)
        ensures
            g.tried == snapshot.is_some(),
            g.snapshot == snapshot,
            g.report.missing_glyphs == 0,
            g.report.first_missing.is_none(),
            !g.report.atlas_unavailable,
            g.report.text_items == 0,
    {
        let tried = snapshot.is_some();
        GlyphState { tried, snapshot, report: PlotReport::new() }
    }

    /// Whether the page's first text item has to take the snapshot now.
    pub fn wants_capture(&self) -> (b: bool)
        ensures
            b == !self.tried,
    {
        !self.tried
    }

    /// Settle the page's snapshot at a text item: on the first one, take
    /// `captured` (what capturing the atlas gave; ignored afterwards) and
    /// record that the atlas was unavailable when it gave nothing. Returns
    /// whether there is a snapshot to draw from.
    pub fn ensure(&mut self, captured: Option<GlyphSnapshot>) -> (has: bool)
        ensures
            final(self).tried,
            final(self).snapshot == if old(self).tried {
                old(self).snapshot
            } else {
                captured
            },
            final(self).report.atlas_unavailable == (old(self).report.atlas_unavailable || (
            !old(self).tried && captured.is_none())),
            final(self).report.missing_glyphs == old(self).report.missing_glyphs,
            final(self).report.text_items == old(self).report.text_items,
            final(self).report.first_missing == old(self).report.first_missing,
            has == final(self).snapshot.is_some(),
    {
        if !self.tried {
            self.tried = true;
            self.snapshot = captured;
            if self.snapshot.is_none() {
                self.report.atlas_unavailable = true;
            }
        }
        self.snapshot.is_some()
    }
}

} // verus!
