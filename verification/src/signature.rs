//! The signature of an exploded shape: a text that is the same for every
//! placement of the shape at any rotation by a quarter turn or mirror. Each
//! stroke is written by kind, radius and points about the shape's centre,
//! all in quanta; the strokes' rows are sorted and joined, under each of the
//! square's eight symmetries, and the symmetry whose text sorts lowest
//! gives the signature.

use vstd::prelude::*;

use crate::ranges::{dec_chars_u64, dec_digits};
use crate::sorted::{lemma_lex_irreflexive, lemma_lex_total, lemma_lex_transitive, lex_less, lex_lt, sorted, sorted_names};
use crate::text::{append, chars_of, join, joined, string_of, views};

verus! {

/// One stroke as the signature reads it: its kind's letter, its radius and
/// its points, in quanta about the shape's centre.
#[derive(Debug, Clone, PartialEq, Eq)]
pub struct Stroke {
    pub kind: char,
    pub r: i64,
    pub pts: Vec<(i64, i64)>,
}

/// The `k`-th symmetry of the square: the identity, the three quarter
/// turns, and the four mirrors.
pub open spec fn sym(k: int, p: (int, int)) -> (int, int) {
    let (x, y) = p;
    if k == 0 {
        (x, y)
    } else if k == 1 {
        (-y, x)
    } else if k == 2 {
        (-x, -y)
    } else if k == 3 {
        (y, -x)
    } else if k == 4 {
        (-x, y)
    } else if k == 5 {
        (y, x)
    } else if k == 6 {
        (x, -y)
    } else {
        (-y, -x)
    }
}

/// The points as integers.
pub open spec fn ints(pts: Seq<(i64, i64)>) -> Seq<(int, int)> {
    pts.map_values(|p: (i64, i64)| (p.0 as int, p.1 as int))
}

/// `a` comes before `b` point by point, a point by its first coordinate and
/// then its second, a proper prefix first.
pub open spec fn pts_lt(a: Seq<(int, int)>, b: Seq<(int, int)>) -> bool
    decreases a.len(),
{
    if a.len() == 0 {
        b.len() > 0
    } else if b.len() == 0 {
        false
    } else if a[0] != b[0] {
        a[0].0 < b[0].0 || (a[0].0 == b[0].0 && a[0].1 < b[0].1)
    } else {
        pts_lt(a.drop_first(), b.drop_first())
    }
}

/// A stroke reads the same from either end: the way round that comes first.
pub open spec fn oriented(pts: Seq<(int, int)>) -> Seq<(int, int)> {
    if pts_lt(pts.reverse(), pts) {
        pts.reverse()
    } else {
        pts
    }
}

/// An integer in decimal, with a minus sign when negative.
pub open spec fn int_text(v: int) -> Seq<char> {
    if v < 0 {
        seq!['-'] + dec_digits((-v) as nat)
    } else {
        dec_digits(v as nat)
    }
}

/// A point as `(x, y)`.
pub open spec fn pair_text(p: (int, int)) -> Seq<char> {
    seq!['('] + int_text(p.0) + seq![',', ' '] + int_text(p.1) + seq![')']
}

/// Points as `[(x, y), (x, y)]`.
pub open spec fn list_text(pts: Seq<(int, int)>) -> Seq<char> {
    seq!['['] + join(pts.map_values(|p: (int, int)| pair_text(p)), seq![',', ' ']) + seq![']']
}

/// A stroke's row under symmetry `k`: kind, radius, `:` and its points.
pub open spec fn row(s: Stroke, k: int) -> Seq<char> {
    seq![s.kind] + int_text(s.r as int) + seq![':'] + list_text(
        oriented(ints(s.pts@).map_values(|p: (int, int)| sym(k, p))),
    )
}

/// The rows of the strokes under symmetry `k`.
pub open spec fn rows(strokes: Seq<Stroke>, k: int) -> Seq<Seq<char>> {
    strokes.map_values(|s: Stroke| row(s, k))
}

/// The sorted arrangement of `s`, repeats kept.
pub open spec fn sort_of(s: Seq<Seq<char>>) -> Seq<Seq<char>> {
    choose|t: Seq<Seq<char>>| sorted(t) && t.to_multiset() == s.to_multiset()
}

/// The text of the shape under symmetry `k`: its rows sorted, joined `|`.
pub open spec fn sym_text(strokes: Seq<Stroke>, k: int) -> Seq<char> {
    join(sort_of(rows(strokes, k)), seq!['|'])
}

/// The lowest text under the first `n` symmetries, the first on a tie.
pub open spec fn lowest(strokes: Seq<Stroke>, n: int) -> Seq<char>
    decreases n,
{
    if n <= 1 {
        sym_text(strokes, 0)
    } else {
        let before = lowest(strokes, n - 1);
        if lex_lt(sym_text(strokes, n - 1), before) {
            sym_text(strokes, n - 1)
        } else {
            before
        }
    }
}

/// Every coordinate has a negation.
pub open spec fn negatable(strokes: Seq<Stroke>) -> bool {
    forall|i: int, j: int|
        0 <= i < strokes.len() && 0 <= j < strokes[i].pts@.len() ==> (#[trigger] strokes[i].pts@[j]).0
            > i64::MIN && strokes[i].pts@[j].1 > i64::MIN
}

/// Two sorted arrangements of the same names are the same.
proof fn lemma_sorted_unique(a: Seq<Seq<char>>, b: Seq<Seq<char>>)
    requires
        sorted(a),
        sorted(b),
        a.to_multiset() == b.to_multiset(),
    ensures
        a == b,
    decreases a.len(),
{
    vstd::seq_lib::to_multiset_len(a);
    vstd::seq_lib::to_multiset_len(b);
    if a.len() == 0 {
        assert(a =~= b);
    } else {
        vstd::seq_lib::to_multiset_contains(b, a[0]);
        vstd::seq_lib::to_multiset_contains(a, a[0]);
        vstd::seq_lib::to_multiset_contains(a, b[0]);
        vstd::seq_lib::to_multiset_contains(b, b[0]);
        assert(a.contains(a[0]));
        assert(b.contains(b[0]));
        let j = choose|j: int| 0 <= j < b.len() && b[j] == a[0];
        let i = choose|i: int| 0 <= i < a.len() && a[i] == b[0];
        if j > 0 {
            assert(!lex_lt(b[j], b[0]));
        }
        if i > 0 {
            assert(!lex_lt(a[i], a[0]));
        }
        lemma_lex_total(a[0], b[0]);
        assert(a[0] == b[0]);
        vstd::seq_lib::to_multiset_remove(a, 0);
        vstd::seq_lib::to_multiset_remove(b, 0);
        assert(a.remove(0) =~= a.drop_first());
        assert(b.remove(0) =~= b.drop_first());
        assert forall|p: int, q: int| 0 <= p < q < a.drop_first().len() implies !lex_lt(
            #[trigger] a.drop_first()[q],
            #[trigger] a.drop_first()[p],
        ) by {
            assert(a.drop_first()[q] == a[q + 1] && a.drop_first()[p] == a[p + 1]);
        }
        assert forall|p: int, q: int| 0 <= p < q < b.drop_first().len() implies !lex_lt(
            #[trigger] b.drop_first()[q],
            #[trigger] b.drop_first()[p],
        ) by {
            assert(b.drop_first()[q] == b[q + 1] && b.drop_first()[p] == b[p + 1]);
        }
        lemma_sorted_unique(a.drop_first(), b.drop_first());
        assert forall|k: int| 0 <= k < a.len() implies a[k] == b[k] by {
            if k > 0 {
                assert(a[k] == a.drop_first()[k - 1]);
                assert(b[k] == b.drop_first()[k - 1]);
            }
        }
        assert(a =~= b);
    }
}

/// A sorted arrangement of `s`'s names is the one `sort_of` names.
proof fn lemma_sort_of(s: Seq<Seq<char>>, t: Seq<Seq<char>>)
    requires
        sorted(t),
        t.to_multiset() == s.to_multiset(),
    ensures
        sort_of(s) == t,
{
    let u = sort_of(s);
    assert(sorted(u) && u.to_multiset() == s.to_multiset());
    lemma_sorted_unique(u, t);
}

fn int_chars(v: i64) -> (out: Vec<char>)
    requires
        v > i64::MIN,
    ensures
        out@ == int_text(v as int),
{
    if v < 0 {
        let m: u64 = (0 - v) as u64;
        let mut out: Vec<char> = Vec::new();
        out.push('-');
        let d = dec_chars_u64(m);
        append(&mut out, d.as_slice());
        out
    } else {
        dec_chars_u64(v as u64)
    }
}

fn sym_point(k: usize, p: (i64, i64)) -> (q: (i64, i64))
    requires
        k < 8,
        p.0 > i64::MIN,
        p.1 > i64::MIN,
    ensures
        (q.0 as int, q.1 as int) == sym(k as int, (p.0 as int, p.1 as int)),
        q.0 > i64::MIN,
        q.1 > i64::MIN,
{
    let (x, y) = p;
    if k == 0 {
        (x, y)
    } else if k == 1 {
        (-y, x)
    } else if k == 2 {
        (-x, -y)
    } else if k == 3 {
        (y, -x)
    } else if k == 4 {
        (-x, y)
    } else if k == 5 {
        (y, x)
    } else if k == 6 {
        (x, -y)
    } else {
        (-y, -x)
    }
}

/// The points under symmetry `k`.
fn sym_points(k: usize, pts: &Vec<(i64, i64)>) -> (out: Vec<(i64, i64)>)
    requires
        k < 8,
        forall|j: int| 0 <= j < pts@.len() ==> (#[trigger] pts@[j]).0 > i64::MIN && pts@[j].1 > i64::MIN,
    ensures
        ints(out@) == ints(pts@).map_values(|p: (int, int)| sym(k as int, p)),
{
    let mut out: Vec<(i64, i64)> = Vec::new();
    let mut j: usize = 0;
    while j < pts.len()
        invariant
            k < 8,
            j <= pts@.len(),
            forall|q: int| 0 <= q < pts@.len() ==> (#[trigger] pts@[q]).0 > i64::MIN && pts@[q].1 > i64::MIN,
            out@.len() == j,
            forall|q: int|
                0 <= q < j ==> ((#[trigger] out@[q]).0 as int, out@[q].1 as int) == sym(
                    k as int,
                    (pts@[q].0 as int, pts@[q].1 as int),
                ),
        decreases pts@.len() - j,
    {
        out.push(sym_point(k, pts[j]));
        j += 1;
    }
    assert(ints(out@) =~= ints(pts@).map_values(|p: (int, int)| sym(k as int, p)));
    out
}

/// Whether `a` comes before `b` point by point.
fn pts_less(a: &Vec<(i64, i64)>, b: &Vec<(i64, i64)>) -> (r: bool)
    ensures
        r == pts_lt(ints(a@), ints(b@)),
{
    let ghost ia = ints(a@);
    let ghost ib = ints(b@);
    let mut i: usize = 0;
    assert(ia.skip(0) =~= ia);
    assert(ib.skip(0) =~= ib);
    while i < a.len() && i < b.len()
        invariant
            i <= a@.len(),
            i <= b@.len(),
            ia == ints(a@),
            ib == ints(b@),
            pts_lt(ia, ib) == pts_lt(ia.skip(i as int), ib.skip(i as int)),
        decreases a@.len() - i,
    {
        let (ax, ay) = a[i];
        let (bx, by) = b[i];
        let ghost ra = ia.skip(i as int);
        let ghost rb = ib.skip(i as int);
        assert(ra[0] == (ax as int, ay as int));
        assert(rb[0] == (bx as int, by as int));
        if ax != bx || ay != by {
            return ax < bx || (ax == bx && ay < by);
        }
        assert(ra.drop_first() =~= ia.skip(i + 1));
        assert(rb.drop_first() =~= ib.skip(i + 1));
        i += 1;
    }
    assert(ia.skip(i as int).len() == 0 || ib.skip(i as int).len() == 0);
    a.len() < b.len()
}

fn reversed(pts: &Vec<(i64, i64)>) -> (out: Vec<(i64, i64)>)
    ensures
        out@ == pts@.reverse(),
        ints(out@) == ints(pts@).reverse(),
{
    let mut out: Vec<(i64, i64)> = Vec::new();
    let mut j: usize = pts.len();
    while j > 0
        invariant
            j <= pts@.len(),
            out@.len() == pts@.len() - j,
            forall|q: int| 0 <= q < out@.len() ==> #[trigger] out@[q] == pts@[pts@.len() - 1 - q],
        decreases j,
    {
        j -= 1;
        out.push(pts[j]);
    }
    assert(out@ =~= pts@.reverse());
    assert(ints(out@) =~= ints(pts@).reverse());
    out
}

/// The stroke's points the way round that comes first.
fn oriented_exec(pts: &Vec<(i64, i64)>) -> (out: Vec<(i64, i64)>)
    ensures
        ints(out@) == oriented(ints(pts@)),
        forall|j: int| 0 <= j < out@.len() ==> pts@.contains(#[trigger] out@[j]),
{
    let back = reversed(pts);
    if pts_less(&back, pts) {
        assert forall|j: int| 0 <= j < back@.len() implies pts@.contains(#[trigger] back@[j]) by {
            assert(back@[j] == pts@[pts@.len() - 1 - j]);
        }
        back
    } else {
        let mut out: Vec<(i64, i64)> = Vec::new();
        let mut j: usize = 0;
        while j < pts.len()
            invariant
                j <= pts@.len(),
                out@ == pts@.take(j as int),
            decreases pts@.len() - j,
        {
            out.push(pts[j]);
            j += 1;
        }
        assert(pts@.take(pts@.len() as int) =~= pts@);
        out
    }
}

fn pair_chars(p: (i64, i64)) -> (out: Vec<char>)
    requires
        p.0 > i64::MIN,
        p.1 > i64::MIN,
    ensures
        out@ == pair_text((p.0 as int, p.1 as int)),
{
    let mut out: Vec<char> = Vec::new();
    out.push('(');
    append(&mut out, int_chars(p.0).as_slice());
    out.push(',');
    out.push(' ');
    append(&mut out, int_chars(p.1).as_slice());
    out.push(')');
    assert(out@ =~= pair_text((p.0 as int, p.1 as int)));
    out
}

fn list_chars(pts: &Vec<(i64, i64)>) -> (out: Vec<char>)
    requires
        forall|j: int| 0 <= j < pts@.len() ==> (#[trigger] pts@[j]).0 > i64::MIN && pts@[j].1 > i64::MIN,
    ensures
        out@ == list_text(ints(pts@)),
{
    let mut pieces: Vec<Vec<char>> = Vec::new();
    let mut j: usize = 0;
    while j < pts.len()
        invariant
            j <= pts@.len(),
            forall|q: int| 0 <= q < pts@.len() ==> (#[trigger] pts@[q]).0 > i64::MIN && pts@[q].1 > i64::MIN,
            pieces@.len() == j,
            forall|q: int| 0 <= q < j ==> (#[trigger] pieces@[q])@ == pair_text((pts@[q].0 as int, pts@[q].1 as int)),
        decreases pts@.len() - j,
    {
        pieces.push(pair_chars(pts[j]));
        j += 1;
    }
    let mut sep: Vec<char> = Vec::new();
    sep.push(',');
    sep.push(' ');
    let body = joined(&pieces, sep.as_slice());
    assert(pieces@.map_values(|p: Vec<char>| p@) =~= ints(pts@).map_values(|p: (int, int)| pair_text(p)));
    assert(sep@ =~= seq![',', ' ']);
    let mut out: Vec<char> = Vec::new();
    out.push('[');
    append(&mut out, body.as_slice());
    out.push(']');
    assert(out@ =~= list_text(ints(pts@)));
    out
}

/// A stroke's row under symmetry `k`.
fn row_chars(s: &Stroke, k: usize) -> (out: Vec<char>)
    requires
        k < 8,
        s.r > i64::MIN,
        forall|j: int| 0 <= j < s.pts@.len() ==> (#[trigger] s.pts@[j]).0 > i64::MIN && s.pts@[j].1 > i64::MIN,
    ensures
        out@ == row(*s, k as int),
{
    let moved = sym_points(k, &s.pts);
    let turned = oriented_exec(&moved);
    proof {
        assert forall|j: int| 0 <= j < moved@.len() implies (#[trigger] moved@[j]).0 > i64::MIN && moved@[j].1
            > i64::MIN by {
            assert(ints(moved@)[j] == sym(k as int, ints(s.pts@)[j]));
        }
    }
    let mut out: Vec<char> = Vec::new();
    out.push(s.kind);
    append(&mut out, int_chars(s.r).as_slice());
    out.push(':');
    append(&mut out, list_chars(&turned).as_slice());
    assert(out@ =~= row(*s, k as int));
    out
}

/// Every radius and coordinate has a negation.
pub open spec fn well_quantized(strokes: Seq<Stroke>) -> bool {
    &&& forall|i: int| 0 <= i < strokes.len() ==> (#[trigger] strokes[i]).r > i64::MIN
    &&& negatable(strokes)
}

/// The text of the shape under symmetry `k`.
fn sym_text_exec(strokes: &[Stroke], k: usize) -> (out: Vec<char>)
    requires
        k < 8,
        well_quantized(strokes@),
    ensures
        out@ == sym_text(strokes@, k as int),
{
    let mut rows_v: Vec<String> = Vec::new();
    let mut i: usize = 0;
    while i < strokes.len()
        invariant
            k < 8,
            i <= strokes@.len(),
            well_quantized(strokes@),
            views(rows_v@) == rows(strokes@.take(i as int), k as int),
        decreases strokes@.len() - i,
    {
        proof {
            assert forall|j: int| 0 <= j < strokes@[i as int].pts@.len() implies (
            #[trigger] strokes@[i as int].pts@[j]).0 > i64::MIN && strokes@[i as int].pts@[j].1 > i64::MIN by {
                assert(negatable(strokes@));
            }
            assert(strokes@[i as int].r > i64::MIN);
        }
        let r = row_chars(&strokes[i], k);
        let ghost prev = views(rows_v@);
        let line = string_of(r.as_slice());
        rows_v.push(line);
        proof {
            assert(line@ == row(strokes@[i as int], k as int));
            assert(views(rows_v@) =~= prev.push(row(strokes@[i as int], k as int)));
            assert(strokes@.take(i + 1) =~= strokes@.take(i as int).push(strokes@[i as int]));
            assert(rows(strokes@.take(i + 1), k as int) =~= rows(strokes@.take(i as int), k as int).push(
                row(strokes@[i as int], k as int),
            ));
        }
        i += 1;
    }
    assert(strokes@.take(strokes@.len() as int) =~= strokes@);
    let sorted_rows = sorted_names(rows_v.as_slice());
    proof {
        lemma_sort_of(rows(strokes@, k as int), views(sorted_rows@));
    }
    let mut pieces: Vec<Vec<char>> = Vec::new();
    let mut j: usize = 0;
    while j < sorted_rows.len()
        invariant
            j <= sorted_rows@.len(),
            pieces@.len() == j,
            forall|q: int| 0 <= q < j ==> (#[trigger] pieces@[q])@ == sorted_rows@[q]@,
        decreases sorted_rows@.len() - j,
    {
        pieces.push(chars_of(sorted_rows[j].as_str()));
        j += 1;
    }
    assert(pieces@.map_values(|p: Vec<char>| p@) =~= views(sorted_rows@));
    let mut bar: Vec<char> = Vec::new();
    bar.push('|');
    assert(bar@ =~= seq!['|']);
    joined(&pieces, bar.as_slice())
}

/// The signature of a shape drawn with `strokes`: under each of the eight
/// symmetries of the square, the strokes' rows sorted and joined `|`; the
/// text that sorts lowest, the first of those that tie.
pub fn signature(strokes: &[Stroke]) -> (sig: String)
    requires
        well_quantized(strokes@),
    ensures
        sig@ == lowest(strokes@, 8),
{
    let mut best = sym_text_exec(strokes, 0);
    let mut k: usize = 1;
    while k < 8
        invariant
            1 <= k <= 8,
            well_quantized(strokes@),
            best@ == lowest(strokes@, k as int),
        decreases 8 - k,
    {
        let t = sym_text_exec(strokes, k);
        if lex_less(t.as_slice(), best.as_slice()) {
            best = t;
        }
        k += 1;
    }
    string_of(best.as_slice())
}

// ── the same under every symmetry ───────────────────────────────────────

/// Which of the eight symmetries sends `(1, 2)` to `q`; its images of that
/// point are all different.
pub open spec fn sym_index(q: (int, int)) -> int {
    if q == (1int, 2int) {
        0
    } else if q == (-2int, 1int) {
        1
    } else if q == (-1int, -2int) {
        2
    } else if q == (2int, -1int) {
        3
    } else if q == (-1int, 2int) {
        4
    } else if q == (2int, 1int) {
        5
    } else if q == (1int, -2int) {
        6
    } else {
        7
    }
}

/// The symmetry that is `g` followed by `k`.
pub open spec fn compose(k: int, g: int) -> int {
    sym_index(sym(k, sym(g, (1int, 2int))))
}

/// The symmetry that undoes `g`.
pub open spec fn inverse(g: int) -> int {
    if g == 1 {
        3
    } else if g == 3 {
        1
    } else {
        g
    }
}

proof fn lemma_compose(k: int, g: int, p: (int, int))
    requires
        0 <= k < 8,
        0 <= g < 8,
    ensures
        0 <= compose(k, g) < 8,
        sym(compose(k, g), p) == sym(k, sym(g, p)),
{
}

proof fn lemma_inverse(g: int, m: int)
    requires
        0 <= g < 8,
        0 <= m < 8,
    ensures
        0 <= inverse(g) < 8,
        compose(compose(m, inverse(g)), g) == m,
{
    lemma_compose(m, inverse(g), (1int, 2int));
    lemma_compose(compose(m, inverse(g)), g, (1int, 2int));
    assert(sym(inverse(g), sym(g, (1int, 2int))) == (1int, 2int));
}

/// `b` is `a` moved by symmetry `g`: stroke by stroke the same kind and
/// radius, every point moved.
pub open spec fn moved(a: Seq<Stroke>, b: Seq<Stroke>, g: int) -> bool {
    &&& a.len() == b.len()
    &&& forall|i: int|
        0 <= i < a.len() ==> (#[trigger] b[i]).kind == a[i].kind && b[i].r == a[i].r && ints(b[i].pts@)
            == ints(a[i].pts@).map_values(|p: (int, int)| sym(g, p))
}

proof fn lemma_moved_text(a: Seq<Stroke>, b: Seq<Stroke>, g: int, k: int)
    requires
        0 <= g < 8,
        0 <= k < 8,
        moved(a, b, g),
    ensures
        sym_text(b, k) == sym_text(a, compose(k, g)),
{
    let c = compose(k, g);
    assert forall|i: int| 0 <= i < a.len() implies #[trigger] rows(b, k)[i] == rows(a, c)[i] by {
        let pa = ints(a[i].pts@);
        let pb = ints(b[i].pts@);
        assert(pb == pa.map_values(|p: (int, int)| sym(g, p)));
        let mb = pb.map_values(|p: (int, int)| sym(k, p));
        let ma = pa.map_values(|p: (int, int)| sym(c, p));
        assert forall|j: int| 0 <= j < pa.len() implies mb[j] == #[trigger] ma[j] by {
            lemma_compose(k, g, pa[j]);
        }
        assert(mb =~= ma);
    }
    assert(rows(b, k) =~= rows(a, c));
}

/// The lowest text is one of the texts, and none sorts below it.
proof fn lemma_lowest(strokes: Seq<Stroke>, n: int)
    requires
        1 <= n,
    ensures
        exists|k: int| 0 <= k < n && lowest(strokes, n) == #[trigger] sym_text(strokes, k),
        forall|k: int| 0 <= k < n ==> !lex_lt(#[trigger] sym_text(strokes, k), lowest(strokes, n)),
    decreases n,
{
    if n == 1 {
        lemma_lex_irreflexive(sym_text(strokes, 0));
        assert(lowest(strokes, 1) == sym_text(strokes, 0));
    } else {
        lemma_lowest(strokes, n - 1);
        let before = lowest(strokes, n - 1);
        let t = sym_text(strokes, n - 1);
        if lex_lt(t, before) {
            assert forall|k: int| 0 <= k < n implies !lex_lt(#[trigger] sym_text(strokes, k), lowest(strokes, n)) by {
                if k < n - 1 {
                    if lex_lt(sym_text(strokes, k), t) {
                        lemma_lex_transitive(sym_text(strokes, k), t, before);
                    }
                } else {
                    lemma_lex_irreflexive(t);
                }
            }
        } else {
            assert(lowest(strokes, n) == before);
            let k0 = choose|k: int| 0 <= k < n - 1 && before == #[trigger] sym_text(strokes, k);
            assert(sym_text(strokes, k0) == before);
        }
    }
}

/// A shape's signature is the same however it is placed: moving every
/// stroke by a quarter turn or a mirror (any of the square's eight
/// symmetries) leaves it as it was.
pub proof fn law_the_signature_is_the_same_under_every_symmetry(a: Seq<Stroke>, b: Seq<Stroke>, g: int)
    requires
        0 <= g < 8,
        moved(a, b, g),
    ensures
        lowest(b, 8) == lowest(a, 8),
{
    lemma_lowest(a, 8);
    lemma_lowest(b, 8);
    let kb = choose|k: int| 0 <= k < 8 && lowest(b, 8) == #[trigger] sym_text(b, k);
    lemma_moved_text(a, b, g, kb);
    lemma_compose(kb, g, (0int, 0int));
    assert(!lex_lt(sym_text(a, compose(kb, g)), lowest(a, 8)));
    let ka = choose|k: int| 0 <= k < 8 && lowest(a, 8) == #[trigger] sym_text(a, k);
    lemma_inverse(g, ka);
    let k = compose(ka, inverse(g));
    lemma_compose(ka, inverse(g), (0int, 0int));
    lemma_moved_text(a, b, g, k);
    assert(sym_text(b, k) == lowest(a, 8));
    assert(!lex_lt(sym_text(b, k), lowest(b, 8)));
    lemma_lex_total(lowest(a, 8), lowest(b, 8));
}

} // verus!
