//! Whether two renderings of a page are the same picture.
//!
//! A pixel is a defect when its value cannot be explained by the other
//! picture anywhere within `shift_px` of it -- outside the min..max of the
//! other side's neighbourhood, widened by `value_tol` -- in either
//! direction, channel by channel. Defects are counted per tile, so a
//! failure names where to look. Pages are anchored at their bottom-left
//! corner, and the border band is not judged.

use vstd::prelude::*;

use crate::ranges::dec_digits;

verus! {

// ── pictures ────────────────────────────────────────────────────────────

/// An RGB picture, row by row from the top.
#[derive(Debug)]
pub struct Raster {
    width: u32,
    rows: Vec<Vec<[u8; 3]>>,
}

pub open spec fn is_grid<T>(rows: Seq<Seq<T>>, w: int, h: int) -> bool {
    rows.len() == h && forall|y: int| 0 <= y < h ==> (#[trigger] rows[y]).len() == w
}

pub open spec fn grid_view<T>(rows: Seq<Vec<T>>) -> Seq<Seq<T>> {
    rows.map_values(|r: Vec<T>| r@)
}

impl View for Raster {
    type V = (u32, Seq<Seq<[u8; 3]>>);

    closed spec fn view(&self) -> (u32, Seq<Seq<[u8; 3]>>) {
        (self.width, grid_view(self.rows@))
    }
}

impl Raster {
    #[verifier::type_invariant]
    spec fn well_formed(self) -> bool {
        &&& is_grid(grid_view(self.rows@), self.width as int, self.rows@.len() as int)
        &&& self.rows@.len() <= u32::MAX
    }

    /// The picture whose rows, from the top, are `rows`, each `width`
    /// pixels; `None` when a row is another length or there are more rows
    /// than a `u32` counts.
    pub fn from_rows(width: u32, rows: Vec<Vec<[u8; 3]>>) -> (r: Option<Raster>)
        ensures
            r is Some <==> (is_grid(grid_view(rows@), width as int, rows@.len() as int)
                && rows@.len() <= u32::MAX),
            r matches Some(p) ==> p@ == (width, grid_view(rows@)),
    {
        if rows.len() > 4294967295 {
            return None;
        }
        let mut y: usize = 0;
        while y < rows.len()
            invariant
                y <= rows@.len(),
                forall|k: int| 0 <= k < y ==> (#[trigger] rows@[k]).len() == width,
            decreases rows@.len() - y,
        {
            if rows[y].len() != width as usize {
                assert(grid_view(rows@)[y as int].len() != width);
                return None;
            }
            y += 1;
        }
        Some(Raster { width, rows })
    }

    pub fn width(&self) -> (w: u32)
        ensures
            w == self@.0,
    {
        self.width
    }

    pub fn height(&self) -> (h: u32)
        ensures
            h == self@.1.len(),
    {
        proof {
            use_type_invariant(self);
        }
        self.rows.len() as u32
    }

    /// The rows are `width` pixels each.
    pub fn is_rectangular(&self) -> (b: bool)
        ensures
            b,
            is_grid(self@.1, self@.0 as int, self@.1.len() as int),
            self@.1.len() <= u32::MAX,
    {
        proof {
            use_type_invariant(self);
        }
        true
    }

    /// The pixel in column `x` of row `y` from the top.
    pub fn pixel(&self, x: u32, y: u32) -> (p: [u8; 3])
        requires
            x < self@.0,
            y < self@.1.len(),
        ensures
            p == self@.1[y as int][x as int],
    {
        proof {
            use_type_invariant(self);
            assert(grid_view(self.rows@)[y as int] == self.rows@[y as int]@);
        }
        self.rows[y as usize][x as usize]
    }
}

/// One channel of a picture's bottom `h` rows, first `w` columns: the rows
/// are taken from the bottom because a page is anchored at its bottom-left
/// corner.
pub open spec fn plane_of(p: Seq<Seq<[u8; 3]>>, c: int, w: int, h: int) -> Seq<Seq<u8>> {
    Seq::new(h as nat, |y: int| Seq::new(w as nat, |x: int| p[p.len() - h + y][x][c]))
}

fn plane(r: &Raster, c: usize, w: u32, h: u32) -> (out: Vec<Vec<u8>>)
    requires
        c < 3,
        w <= r@.0,
        h <= r@.1.len(),
    ensures
        grid_view(out@) == plane_of(r@.1, c as int, w as int, h as int),
{
    r.is_rectangular();
    let y0: u32 = r.height() - h;
    let mut out: Vec<Vec<u8>> = Vec::new();
    let mut y: u32 = 0;
    while y < h
        invariant
            y <= h,
            y0 == r@.1.len() - h,
            h <= r@.1.len(),
            w <= r@.0,
            c < 3,
            is_grid(r@.1, r@.0 as int, r@.1.len() as int),
            r@.1.len() <= u32::MAX,
            out@.len() == y,
            forall|k: int| 0 <= k < y ==> (#[trigger] out@[k])@ == plane_of(r@.1, c as int, w as int, h as int)[k],
        decreases h - y,
    {
        let mut row: Vec<u8> = Vec::new();
        let mut x: u32 = 0;
        while x < w
            invariant
                x <= w,
                y < h,
                y0 == r@.1.len() - h,
                h <= r@.1.len(),
                w <= r@.0,
                c < 3,
                is_grid(r@.1, r@.0 as int, r@.1.len() as int),
                r@.1.len() <= u32::MAX,
                row@.len() == x,
                forall|k: int| 0 <= k < x ==> #[trigger] row@[k] == r@.1[y0 + y][k][c as int],
            decreases w - x,
        {
            let p = r.pixel(x, y0 + y);
            row.push(p[c]);
            x += 1;
        }
        assert(row@ =~= plane_of(r@.1, c as int, w as int, h as int)[y as int]);
        out.push(row);
        y += 1;
    }
    assert(grid_view(out@) =~= plane_of(r@.1, c as int, w as int, h as int));
    out
}

// ── neighbourhoods ──────────────────────────────────────────────────────

/// `(xx, yy)` is within `r` of `(x, y)` on a `w` by `h` plane.
pub open spec fn in_window(w: int, h: int, r: int, x: int, y: int, xx: int, yy: int) -> bool {
    0 <= xx < w && 0 <= yy < h && x - r <= xx <= x + r && y - r <= yy <= y + r
}

/// `v` is the least value within `r` of `(x, y)`.
pub open spec fn is_window_min(p: Seq<Seq<u8>>, w: int, h: int, r: int, x: int, y: int, v: u8) -> bool {
    &&& forall|xx: int, yy: int| in_window(w, h, r, x, y, xx, yy) ==> v <= #[trigger] p[yy][xx]
    &&& exists|xx: int, yy: int| in_window(w, h, r, x, y, xx, yy) && #[trigger] p[yy][xx] == v
}

/// `v` is the greatest value within `r` of `(x, y)`.
pub open spec fn is_window_max(p: Seq<Seq<u8>>, w: int, h: int, r: int, x: int, y: int, v: u8) -> bool {
    &&& forall|xx: int, yy: int| in_window(w, h, r, x, y, xx, yy) ==> v >= #[trigger] p[yy][xx]
    &&& exists|xx: int, yy: int| in_window(w, h, r, x, y, xx, yy) && #[trigger] p[yy][xx] == v
}

pub open spec fn window_min(p: Seq<Seq<u8>>, w: int, h: int, r: int, x: int, y: int) -> u8 {
    choose|v: u8| is_window_min(p, w, h, r, x, y, v)
}

pub open spec fn window_max(p: Seq<Seq<u8>>, w: int, h: int, r: int, x: int, y: int) -> u8 {
    choose|v: u8| is_window_max(p, w, h, r, x, y, v)
}

/// The least and greatest value in one row within `r` of column `x`.
pub open spec fn is_row_min(row: Seq<u8>, w: int, r: int, x: int, v: u8) -> bool {
    &&& forall|xx: int| 0 <= xx < w && x - r <= xx <= x + r ==> v <= #[trigger] row[xx]
    &&& exists|xx: int| 0 <= xx < w && x - r <= xx <= x + r && #[trigger] row[xx] == v
}

pub open spec fn is_row_max(row: Seq<u8>, w: int, r: int, x: int, v: u8) -> bool {
    &&& forall|xx: int| 0 <= xx < w && x - r <= xx <= x + r ==> v >= #[trigger] row[xx]
    &&& exists|xx: int| 0 <= xx < w && x - r <= xx <= x + r && #[trigger] row[xx] == v
}

/// The columns `lo..hi` within `r` of `x` on a `w`-wide plane.
fn span(x: usize, r: u32, w: usize) -> (s: (usize, usize))
    requires
        x < w,
        w <= u32::MAX,
    ensures
        s.0 as int == if x >= r {
            x - r
        } else {
            0
        },
        s.1 as int == if x + r + 1 <= w {
            x + r + 1
        } else {
            w as int
        },
{
    let lo: usize = if x >= r as usize {
        x - r as usize
    } else {
        0
    };
    let far: u64 = x as u64 + r as u64 + 1;
    let hi: usize = if far <= w as u64 {
        far as usize
    } else {
        w
    };
    (lo, hi)
}

/// The least and greatest value in row `y` within `r` of column `x`.
fn row_window(plane: &Vec<Vec<u8>>, w: usize, h: usize, r: u32, x: usize, y: usize) -> (out: (u8, u8))
    requires
        is_grid(grid_view(plane@), w as int, h as int),
        w <= u32::MAX,
        x < w,
        y < h,
    ensures
        is_row_min(grid_view(plane@)[y as int], w as int, r as int, x as int, out.0),
        is_row_max(grid_view(plane@)[y as int], w as int, r as int, x as int, out.1),
{
    let ghost row = grid_view(plane@)[y as int];
    assert(plane@[y as int]@ == row);
    let (lo, hi) = span(x, r, w);
    let mut lo_v: u8 = plane[y][lo];
    let mut hi_v: u8 = lo_v;
    assert(row[lo as int] == lo_v);
    let mut k: usize = lo + 1;
    while k < hi
        invariant
            lo < k <= hi,
            hi <= w,
            row == plane@[y as int]@,
            y < plane@.len(),
            row.len() == w,
            forall|xx: int| lo <= xx < k ==> lo_v <= #[trigger] row[xx],
            forall|xx: int| lo <= xx < k ==> hi_v >= #[trigger] row[xx],
            exists|xx: int| lo <= xx < k && #[trigger] row[xx] == lo_v,
            exists|xx: int| lo <= xx < k && #[trigger] row[xx] == hi_v,
        decreases hi - k,
    {
        let v = plane[y][k];
        assert(row[k as int] == v);
        if v < lo_v {
            lo_v = v;
        }
        if v > hi_v {
            hi_v = v;
        }
        k += 1;
    }
    proof {
        assert forall|xx: int| 0 <= xx < w && x - r <= xx <= x + r implies lo_v <= #[trigger] row[xx] && hi_v >= row[xx] by {
            assert(lo <= xx < hi);
        }
        let xa = choose|xx: int| lo <= xx < k && #[trigger] row[xx] == lo_v;
        assert(0 <= xa < w && x - r <= xa <= x + r);
        let xb = choose|xx: int| lo <= xx < k && #[trigger] row[xx] == hi_v;
        assert(0 <= xb < w && x - r <= xb <= x + r);
    }
    (lo_v, hi_v)
}

/// The row pass: each row's window minimum and maximum, column by column.
fn row_pass(plane: &Vec<Vec<u8>>, w: usize, h: usize, r: u32) -> (out: (Vec<Vec<u8>>, Vec<Vec<u8>>))
    requires
        is_grid(grid_view(plane@), w as int, h as int),
        w <= u32::MAX,
    ensures
        is_grid(grid_view(out.0@), w as int, h as int),
        is_grid(grid_view(out.1@), w as int, h as int),
        forall|y: int, x: int|
            0 <= y < h && 0 <= x < w ==> is_row_min(grid_view(plane@)[y], w as int, r as int, x, #[trigger] grid_view(out.0@)[y][x])
                && is_row_max(grid_view(plane@)[y], w as int, r as int, x, grid_view(out.1@)[y][x]),
{
    let ghost p = grid_view(plane@);
    let mut row_min: Vec<Vec<u8>> = Vec::new();
    let mut row_max: Vec<Vec<u8>> = Vec::new();
    let mut y: usize = 0;
    while y < h
        invariant
            y <= h,
            p == grid_view(plane@),
            is_grid(p, w as int, h as int),
            w <= u32::MAX,
            row_min@.len() == y,
            row_max@.len() == y,
            forall|k: int| 0 <= k < y ==> (#[trigger] grid_view(row_min@)[k]).len() == w,
            forall|k: int| 0 <= k < y ==> (#[trigger] grid_view(row_max@)[k]).len() == w,
            forall|k: int, x: int|
                0 <= k < y && 0 <= x < w ==> is_row_min(p[k], w as int, r as int, x, #[trigger] grid_view(row_min@)[k][x])
                    && is_row_max(p[k], w as int, r as int, x, grid_view(row_max@)[k][x]),
        decreases h - y,
    {
        let mut mins: Vec<u8> = Vec::new();
        let mut maxs: Vec<u8> = Vec::new();
        let mut x: usize = 0;
        while x < w
            invariant
                x <= w,
                y < h,
                p == grid_view(plane@),
                is_grid(p, w as int, h as int),
                w <= u32::MAX,
                mins@.len() == x,
                maxs@.len() == x,
                forall|k: int|
                    0 <= k < x ==> is_row_min(p[y as int], w as int, r as int, k, #[trigger] mins@[k])
                        && is_row_max(p[y as int], w as int, r as int, k, maxs@[k]),
            decreases w - x,
        {
            let (a, b) = row_window(plane, w, h, r, x, y);
            mins.push(a);
            maxs.push(b);
            x += 1;
        }
        let ghost gm = mins@;
        let ghost gx = maxs@;
        let ghost oo = grid_view(row_min@);
        let ghost ooo = grid_view(row_max@);
        row_min.push(mins);
        row_max.push(maxs);
        proof {
            assert(grid_view(row_min@) =~= oo.push(gm));
            assert(grid_view(row_max@) =~= ooo.push(gx));
        }
        y += 1;
    }
    (row_min, row_max)
}

/// The least and greatest value within `r` of `(x, y)`, from the row pass.
fn column_window(
    row_min: &Vec<Vec<u8>>,
    row_max: &Vec<Vec<u8>>,
    Ghost(p): Ghost<Seq<Seq<u8>>>,
    w: usize,
    h: usize,
    r: u32,
    x: usize,
    y: usize,
) -> (out: (u8, u8))
    requires
        is_grid(p, w as int, h as int),
        is_grid(grid_view(row_min@), w as int, h as int),
        is_grid(grid_view(row_max@), w as int, h as int),
        forall|yy: int, xx: int|
            0 <= yy < h && 0 <= xx < w ==> is_row_min(p[yy], w as int, r as int, xx, #[trigger] grid_view(row_min@)[yy][xx])
                && is_row_max(p[yy], w as int, r as int, xx, grid_view(row_max@)[yy][xx]),
        h <= u32::MAX,
        x < w,
        y < h,
    ensures
        is_window_min(p, w as int, h as int, r as int, x as int, y as int, out.0),
        is_window_max(p, w as int, h as int, r as int, x as int, y as int, out.1),
{
    let ghost mn = grid_view(row_min@);
    let ghost mx = grid_view(row_max@);
    let (lo, hi) = span(y, r, h);
    assert(row_min@[lo as int]@ == mn[lo as int]);
    assert(row_max@[lo as int]@ == mx[lo as int]);
    let mut lo_v: u8 = row_min[lo][x];
    let mut hi_v: u8 = row_max[lo][x];
    let mut k: usize = lo + 1;
    while k < hi
        invariant
            lo < k <= hi,
            hi <= h,
            x < w,
            mn == grid_view(row_min@),
            mx == grid_view(row_max@),
            is_grid(mn, w as int, h as int),
            is_grid(mx, w as int, h as int),
            forall|yy: int| lo <= yy < k ==> lo_v <= #[trigger] mn[yy][x as int],
            forall|yy: int| lo <= yy < k ==> hi_v >= #[trigger] mx[yy][x as int],
            exists|yy: int| lo <= yy < k && #[trigger] mn[yy][x as int] == lo_v,
            exists|yy: int| lo <= yy < k && #[trigger] mx[yy][x as int] == hi_v,
        decreases hi - k,
    {
        assert(row_min@[k as int]@ == mn[k as int]);
        assert(row_max@[k as int]@ == mx[k as int]);
        let a = row_min[k][x];
        let b = row_max[k][x];
        if a < lo_v {
            lo_v = a;
        }
        if b > hi_v {
            hi_v = b;
        }
        k += 1;
    }
    proof {
        assert forall|xx: int, yy: int| in_window(w as int, h as int, r as int, x as int, y as int, xx, yy) implies lo_v <= #[trigger] p[yy][xx] && hi_v >= p[yy][xx] by {
            assert(lo <= yy < hi);
            assert(is_row_min(p[yy], w as int, r as int, x as int, mn[yy][x as int]));
            assert(is_row_max(p[yy], w as int, r as int, x as int, mx[yy][x as int]));
        }
        let ya = choose|yy: int| lo <= yy < k && #[trigger] mn[yy][x as int] == lo_v;
        assert(is_row_min(p[ya], w as int, r as int, x as int, mn[ya][x as int]));
        let xa = choose|xx: int| 0 <= xx < w && x - r <= xx <= x + r && #[trigger] p[ya][xx] == lo_v;
        assert(in_window(w as int, h as int, r as int, x as int, y as int, xa, ya));
        let yb = choose|yy: int| lo <= yy < k && #[trigger] mx[yy][x as int] == hi_v;
        assert(is_row_min(p[yb], w as int, r as int, x as int, mn[yb][x as int]));
        assert(is_row_max(p[yb], w as int, r as int, x as int, mx[yb][x as int]));
        let xb = choose|xx: int| 0 <= xx < w && x - r <= xx <= x + r && #[trigger] p[yb][xx] == hi_v;
        assert(in_window(w as int, h as int, r as int, x as int, y as int, xb, yb));
    }
    (lo_v, hi_v)
}

/// Sliding window minimum and maximum of a `w` by `h` plane, radius `r`:
/// rows first, then columns.
fn window_min_max(plane: &Vec<Vec<u8>>, w: usize, h: usize, r: u32) -> (out: (Vec<Vec<u8>>, Vec<Vec<u8>>))
    requires
        is_grid(grid_view(plane@), w as int, h as int),
        w <= u32::MAX,
        h <= u32::MAX,
    ensures
        is_grid(grid_view(out.0@), w as int, h as int),
        is_grid(grid_view(out.1@), w as int, h as int),
        forall|y: int, x: int|
            0 <= y < h && 0 <= x < w ==> #[trigger] is_window_min(
                grid_view(plane@),
                w as int,
                h as int,
                r as int,
                x,
                y,
                grid_view(out.0@)[y][x],
            ),
        forall|y: int, x: int|
            0 <= y < h && 0 <= x < w ==> #[trigger] is_window_max(
                grid_view(plane@),
                w as int,
                h as int,
                r as int,
                x,
                y,
                grid_view(out.1@)[y][x],
            ),
{
    let ghost p = grid_view(plane@);
    let (row_min, row_max) = row_pass(plane, w, h, r);
    let mut out_min: Vec<Vec<u8>> = Vec::new();
    let mut out_max: Vec<Vec<u8>> = Vec::new();
    let mut y: usize = 0;
    while y < h
        invariant
            y <= h,
            p == grid_view(plane@),
            is_grid(p, w as int, h as int),
            is_grid(grid_view(row_min@), w as int, h as int),
            is_grid(grid_view(row_max@), w as int, h as int),
            forall|yy: int, xx: int|
                0 <= yy < h && 0 <= xx < w ==> is_row_min(p[yy], w as int, r as int, xx, #[trigger] grid_view(row_min@)[yy][xx])
                    && is_row_max(p[yy], w as int, r as int, xx, grid_view(row_max@)[yy][xx]),
            w <= u32::MAX,
            h <= u32::MAX,
            out_min@.len() == y,
            out_max@.len() == y,
            forall|k: int| 0 <= k < y ==> (#[trigger] grid_view(out_min@)[k]).len() == w,
            forall|k: int| 0 <= k < y ==> (#[trigger] grid_view(out_max@)[k]).len() == w,
            forall|yy: int, x: int|
                0 <= yy < y && 0 <= x < w ==> is_window_min(p, w as int, h as int, r as int, x, yy, #[trigger] grid_view(out_min@)[yy][x])
                    && is_window_max(p, w as int, h as int, r as int, x, yy, grid_view(out_max@)[yy][x]),
        decreases h - y,
    {
        let mut mins: Vec<u8> = Vec::new();
        let mut maxs: Vec<u8> = Vec::new();
        let mut x: usize = 0;
        while x < w
            invariant
                x <= w,
                y < h,
                p == grid_view(plane@),
                is_grid(p, w as int, h as int),
                is_grid(grid_view(row_min@), w as int, h as int),
                is_grid(grid_view(row_max@), w as int, h as int),
                forall|yy: int, xx: int|
                    0 <= yy < h && 0 <= xx < w ==> is_row_min(p[yy], w as int, r as int, xx, #[trigger] grid_view(row_min@)[yy][xx])
                        && is_row_max(p[yy], w as int, r as int, xx, grid_view(row_max@)[yy][xx]),
                h <= u32::MAX,
                mins@.len() == x,
                maxs@.len() == x,
                forall|k: int|
                    0 <= k < x ==> is_window_min(p, w as int, h as int, r as int, k, y as int, #[trigger] mins@[k])
                        && is_window_max(p, w as int, h as int, r as int, k, y as int, maxs@[k]),
            decreases w - x,
        {
            let (a, b) = column_window(&row_min, &row_max, Ghost(p), w, h, r, x, y);
            mins.push(a);
            maxs.push(b);
            x += 1;
        }
        let ghost gm = mins@;
        let ghost gx = maxs@;
        let ghost oo = grid_view(out_min@);
        let ghost ooo = grid_view(out_max@);
        out_min.push(mins);
        out_max.push(maxs);
        proof {
            assert(grid_view(out_min@) =~= oo.push(gm));
            assert(grid_view(out_max@) =~= ooo.push(gx));
            assert forall|yy: int, x: int| 0 <= yy < y + 1 && 0 <= x < w implies is_window_min(
                p,
                w as int,
                h as int,
                r as int,
                x,
                yy,
                #[trigger] grid_view(out_min@)[yy][x],
            ) && is_window_max(p, w as int, h as int, r as int, x, yy, grid_view(out_max@)[yy][x]) by {
                if yy < y {
                    assert(grid_view(out_min@)[yy] == oo[yy]);
                    assert(grid_view(out_max@)[yy] == ooo[yy]);
                } else {
                    assert(grid_view(out_min@)[yy] == gm);
                    assert(grid_view(out_max@)[yy] == gx);
                }
            }
        }
        y += 1;
    }
    let result = (out_min, out_max);
    proof {
        assert forall|y: int, x: int| 0 <= y < h && 0 <= x < w implies #[trigger] is_window_max(
            grid_view(plane@),
            w as int,
            h as int,
            r as int,
            x,
            y,
            grid_view(result.1@)[y][x],
        ) by {
            assert(grid_view(result.1@) == grid_view(out_max@));
            assert(is_window_min(p, w as int, h as int, r as int, x, y, grid_view(out_min@)[y][x]));
        }
        assert forall|y: int, x: int| 0 <= y < h && 0 <= x < w implies #[trigger] is_window_min(
            grid_view(plane@),
            w as int,
            h as int,
            r as int,
            x,
            y,
            grid_view(result.0@)[y][x],
        ) by {
            assert(grid_view(result.0@) == grid_view(out_min@));
            assert(is_window_min(p, w as int, h as int, r as int, x, y, grid_view(out_min@)[y][x]));
        }
    }
    result
}

// ── the metric ──────────────────────────────────────────────────────────

/// The gates: a defect must escape a `shift_px` neighbourhood and
/// `value_tol` channel steps to count, and a tile fails on more than
/// `tile_budget` defects.
#[derive(Debug, Clone, Copy, PartialEq, Eq, Structural)]
pub struct RasterCmp {
    pub shift_px: u32,
    /// Channel tolerance in 0..255 steps.
    pub value_tol: u8,
    pub tile_px: u32,
    pub tile_budget: u32,
    /// Pixels ignored along the page border.
    pub edge_skip_px: u32,
    /// The darkest a channel value may be and still count as solid ink for
    /// the conflation excusal.
    pub seam_ink: u8,
    /// How far solid ink on the first picture may sit from a pixel the
    /// second draws as solid ink for that pixel's value to be excused.
    pub seam_reach_px: u32,
}

impl Default for RasterCmp {
    fn default() -> (c: RasterCmp)
        ensures
            c == (RasterCmp {
                shift_px: 1,
                value_tol: 2,
                tile_px: 32,
                tile_budget: 8,
                edge_skip_px: 2,
                seam_ink: 96,
                seam_reach_px: 2,
            }),
    {
        RasterCmp {
            shift_px: 1,
            value_tol: 2,
            tile_px: 32,
            tile_budget: 8,
            edge_skip_px: 2,
            seam_ink: 96,
            seam_reach_px: 2,
        }
    }
}

pub open spec fn sat_sub(v: u8, t: u8) -> int {
    if v > t {
        v - t
    } else {
        0
    }
}

pub open spec fn sat_add(v: u8, t: u8) -> int {
    if v + t > 255 {
        255
    } else {
        v + t
    }
}

/// Whether one channel makes `(x, y)` a defect: either picture's value is
/// outside the other's neighbourhood range widened by the tolerance, and it
/// is not the first picture's conflation inside ink the second draws solid.
pub open spec fn channel_defect(
    pa: Seq<Seq<u8>>,
    pb: Seq<Seq<u8>>,
    w: int,
    h: int,
    cfg: RasterCmp,
    x: int,
    y: int,
) -> bool {
    let a = pa[y][x];
    let b = pb[y][x];
    let s = cfg.shift_px as int;
    let tol = cfg.value_tol;
    let ink = cfg.seam_ink;
    let unexplained_a = a < sat_sub(window_min(pb, w, h, s, x, y), tol) || a > sat_add(
        window_max(pb, w, h, s, x, y),
        tol,
    );
    let unexplained_b = b < sat_sub(window_min(pa, w, h, s, x, y), tol) || b > sat_add(
        window_max(pa, w, h, s, x, y),
        tol,
    );
    let conflated = b <= ink && window_min(pa, w, h, cfg.seam_reach_px as int, x, y) <= ink && a
        >= sat_sub(b, tol);
    (unexplained_a || unexplained_b) && !conflated
}

/// Whether one of the first `n` channels makes `(x, y)` a defect.
pub open spec fn defect_in_channels(
    pa: Seq<Seq<[u8; 3]>>,
    pb: Seq<Seq<[u8; 3]>>,
    w: int,
    h: int,
    cfg: RasterCmp,
    x: int,
    y: int,
    n: int,
) -> bool
    decreases n,
{
    if n <= 0 {
        false
    } else {
        defect_in_channels(pa, pb, w, h, cfg, x, y, n - 1) || channel_defect(
            plane_of(pa, n - 1, w, h),
            plane_of(pb, n - 1, w, h),
            w,
            h,
            cfg,
            x,
            y,
        )
    }
}

/// `(x, y)` lies in the border band that is not judged.
pub open spec fn in_border(w: int, h: int, skip: int, x: int, y: int) -> bool {
    x < skip || x >= w - skip || y < skip || y >= h - skip
}

/// Whether the pixel `(x, y)` of the compared `w` by `h` overlap is a
/// defect: outside the border band, and a defect in some channel.
pub open spec fn judged(
    pa: Seq<Seq<[u8; 3]>>,
    pb: Seq<Seq<[u8; 3]>>,
    w: int,
    h: int,
    cfg: RasterCmp,
    x: int,
    y: int,
) -> bool {
    !in_border(w, h, cfg.edge_skip_px as int, x, y) && defect_in_channels(pa, pb, w, h, cfg, x, y, 3)
}

pub open spec fn judged_grid(
    pa: Seq<Seq<[u8; 3]>>,
    pb: Seq<Seq<[u8; 3]>>,
    w: int,
    h: int,
    cfg: RasterCmp,
) -> Seq<Seq<bool>> {
    Seq::new(h as nat, |y: int| Seq::new(w as nat, |x: int| judged(pa, pb, w, h, cfg, x, y)))
}

/// One channel's defects, or-ed into `raw`.
fn add_channel(
    a: &Raster,
    b: &Raster,
    cfg: &RasterCmp,
    w: u32,
    h: u32,
    c: usize,
    raw: &mut Vec<Vec<bool>>,
)
    requires
        c < 3,
        w <= a@.0,
        w <= b@.0,
        h <= a@.1.len(),
        h <= b@.1.len(),
        is_grid(grid_view(old(raw)@), w as int, h as int),
        forall|y: int, x: int|
            0 <= y < h && 0 <= x < w ==> #[trigger] grid_view(old(raw)@)[y][x] == defect_in_channels(
                a@.1,
                b@.1,
                w as int,
                h as int,
                *cfg,
                x,
                y,
                c as int,
            ),
    ensures
        is_grid(grid_view(final(raw)@), w as int, h as int),
        forall|y: int, x: int|
            0 <= y < h && 0 <= x < w ==> #[trigger] grid_view(final(raw)@)[y][x] == defect_in_channels(
                a@.1,
                b@.1,
                w as int,
                h as int,
                *cfg,
                x,
                y,
                c + 1,
            ),
{
    let ghost pa = plane_of(a@.1, c as int, w as int, h as int);
    let ghost pb = plane_of(b@.1, c as int, w as int, h as int);
    let plane_a = plane(a, c, w, h);
    let plane_b = plane(b, c, w, h);
    let wu = w as usize;
    let hu = h as usize;
    let (min_a, max_a) = window_min_max(&plane_a, wu, hu, cfg.shift_px);
    let (min_b, max_b) = window_min_max(&plane_b, wu, hu, cfg.shift_px);
    let (reach_min_a, _) = window_min_max(&plane_a, wu, hu, cfg.seam_reach_px);
    let tol = cfg.value_tol;
    let ink = cfg.seam_ink;
    let ghost before = grid_view(raw@);
    let mut y: usize = 0;
    while y < hu
        invariant
            y <= hu,
            hu == h,
            wu == w,
            c < 3,
            tol == cfg.value_tol,
            ink == cfg.seam_ink,
            pa == grid_view(plane_a@),
            pb == grid_view(plane_b@),
            pa == plane_of(a@.1, c as int, w as int, h as int),
            pb == plane_of(b@.1, c as int, w as int, h as int),
            is_grid(pa, w as int, h as int),
            is_grid(pb, w as int, h as int),
            is_grid(grid_view(min_a@), w as int, h as int),
            is_grid(grid_view(max_a@), w as int, h as int),
            is_grid(grid_view(min_b@), w as int, h as int),
            is_grid(grid_view(max_b@), w as int, h as int),
            is_grid(grid_view(reach_min_a@), w as int, h as int),
            forall|yy: int, xx: int| 0 <= yy < h && 0 <= xx < w ==> #[trigger] is_window_min(pa, w as int, h as int, cfg.shift_px as int, xx, yy, grid_view(min_a@)[yy][xx]),
            forall|yy: int, xx: int| 0 <= yy < h && 0 <= xx < w ==> #[trigger] is_window_max(pa, w as int, h as int, cfg.shift_px as int, xx, yy, grid_view(max_a@)[yy][xx]),
            forall|yy: int, xx: int| 0 <= yy < h && 0 <= xx < w ==> #[trigger] is_window_min(pb, w as int, h as int, cfg.shift_px as int, xx, yy, grid_view(min_b@)[yy][xx]),
            forall|yy: int, xx: int| 0 <= yy < h && 0 <= xx < w ==> #[trigger] is_window_max(pb, w as int, h as int, cfg.shift_px as int, xx, yy, grid_view(max_b@)[yy][xx]),
            forall|yy: int, xx: int| 0 <= yy < h && 0 <= xx < w ==> #[trigger] is_window_min(pa, w as int, h as int, cfg.seam_reach_px as int, xx, yy, grid_view(reach_min_a@)[yy][xx]),
            is_grid(before, w as int, h as int),
            is_grid(grid_view(raw@), w as int, h as int),
            forall|yy: int, xx: int|
                0 <= yy < h && 0 <= xx < w ==> #[trigger] before[yy][xx] == defect_in_channels(
                    a@.1,
                    b@.1,
                    w as int,
                    h as int,
                    *cfg,
                    xx,
                    yy,
                    c as int,
                ),
            forall|yy: int, xx: int|
                0 <= yy < y && 0 <= xx < w ==> #[trigger] grid_view(raw@)[yy][xx] == defect_in_channels(
                    a@.1,
                    b@.1,
                    w as int,
                    h as int,
                    *cfg,
                    xx,
                    yy,
                    c + 1,
                ),
            forall|yy: int, xx: int|
                y <= yy < h && 0 <= xx < w ==> #[trigger] grid_view(raw@)[yy][xx] == before[yy][xx],
        decreases hu - y,
    {
        let mut x: usize = 0;
        while x < wu
            invariant
                x <= wu,
                y < hu,
                hu == h,
                wu == w,
                c < 3,
                tol == cfg.value_tol,
                ink == cfg.seam_ink,
                pa == grid_view(plane_a@),
                pb == grid_view(plane_b@),
                pa == plane_of(a@.1, c as int, w as int, h as int),
                pb == plane_of(b@.1, c as int, w as int, h as int),
                is_grid(pa, w as int, h as int),
                is_grid(pb, w as int, h as int),
                is_grid(grid_view(min_a@), w as int, h as int),
                is_grid(grid_view(max_a@), w as int, h as int),
                is_grid(grid_view(min_b@), w as int, h as int),
                is_grid(grid_view(max_b@), w as int, h as int),
                is_grid(grid_view(reach_min_a@), w as int, h as int),
                forall|yy: int, xx: int| 0 <= yy < h && 0 <= xx < w ==> #[trigger] is_window_min(pa, w as int, h as int, cfg.shift_px as int, xx, yy, grid_view(min_a@)[yy][xx]),
                forall|yy: int, xx: int| 0 <= yy < h && 0 <= xx < w ==> #[trigger] is_window_max(pa, w as int, h as int, cfg.shift_px as int, xx, yy, grid_view(max_a@)[yy][xx]),
                forall|yy: int, xx: int| 0 <= yy < h && 0 <= xx < w ==> #[trigger] is_window_min(pb, w as int, h as int, cfg.shift_px as int, xx, yy, grid_view(min_b@)[yy][xx]),
                forall|yy: int, xx: int| 0 <= yy < h && 0 <= xx < w ==> #[trigger] is_window_max(pb, w as int, h as int, cfg.shift_px as int, xx, yy, grid_view(max_b@)[yy][xx]),
                forall|yy: int, xx: int| 0 <= yy < h && 0 <= xx < w ==> #[trigger] is_window_min(pa, w as int, h as int, cfg.seam_reach_px as int, xx, yy, grid_view(reach_min_a@)[yy][xx]),
                is_grid(before, w as int, h as int),
                is_grid(grid_view(raw@), w as int, h as int),
                forall|yy: int, xx: int|
                    0 <= yy < h && 0 <= xx < w ==> #[trigger] before[yy][xx] == defect_in_channels(
                        a@.1,
                        b@.1,
                        w as int,
                        h as int,
                        *cfg,
                        xx,
                        yy,
                        c as int,
                    ),
                forall|yy: int, xx: int|
                    0 <= yy < y && 0 <= xx < w ==> #[trigger] grid_view(raw@)[yy][xx] == defect_in_channels(
                        a@.1,
                        b@.1,
                        w as int,
                        h as int,
                        *cfg,
                        xx,
                        yy,
                        c + 1,
                    ),
                forall|xx: int|
                    0 <= xx < x ==> #[trigger] grid_view(raw@)[y as int][xx] == defect_in_channels(
                        a@.1,
                        b@.1,
                        w as int,
                        h as int,
                        *cfg,
                        xx,
                        y as int,
                        c + 1,
                    ),
                forall|xx: int| x <= xx < w ==> #[trigger] grid_view(raw@)[y as int][xx] == before[y as int][xx],
                forall|yy: int, xx: int|
                    y < yy < h && 0 <= xx < w ==> #[trigger] grid_view(raw@)[yy][xx] == before[yy][xx],
            decreases wu - x,
        {
            proof {
                assert(grid_view(plane_a@)[y as int] == plane_a@[y as int]@);
                assert(grid_view(plane_b@)[y as int] == plane_b@[y as int]@);
                assert(grid_view(min_a@)[y as int] == min_a@[y as int]@);
                assert(grid_view(max_a@)[y as int] == max_a@[y as int]@);
                assert(grid_view(min_b@)[y as int] == min_b@[y as int]@);
                assert(grid_view(max_b@)[y as int] == max_b@[y as int]@);
                assert(grid_view(reach_min_a@)[y as int] == reach_min_a@[y as int]@);
                assert(grid_view(raw@)[y as int] == raw@[y as int]@);
            }
            let va = plane_a[y][x];
            let vb = plane_b[y][x];
            let lo_b = min_b[y][x];
            let hi_b = max_b[y][x];
            let lo_a = min_a[y][x];
            let hi_a = max_a[y][x];
            let reach = reach_min_a[y][x];
            let unexplained_a = va < sub_sat(lo_b, tol) || va > add_sat(hi_b, tol);
            let unexplained_b = vb < sub_sat(lo_a, tol) || vb > add_sat(hi_a, tol);
            let conflated = vb <= ink && reach <= ink && va >= sub_sat(vb, tol);
            let here = (unexplained_a || unexplained_b) && !conflated;
            proof {
                let s = cfg.shift_px as int;
                lemma_window_min_unique(pb, w as int, h as int, s, x as int, y as int, lo_b);
                lemma_window_max_unique(pb, w as int, h as int, s, x as int, y as int, hi_b);
                lemma_window_min_unique(pa, w as int, h as int, s, x as int, y as int, lo_a);
                lemma_window_max_unique(pa, w as int, h as int, s, x as int, y as int, hi_a);
                lemma_window_min_unique(pa, w as int, h as int, cfg.seam_reach_px as int, x as int, y as int, reach);
                assert(here == channel_defect(pa, pb, w as int, h as int, *cfg, x as int, y as int));
            }
            if here {
                let ghost old_rows = raw@;
                let mut row = raw[y].clone();
                assert(row@.len() == w);
                row.set(x, true);
                let ghost new_row = row@;
                assert(new_row.len() == w);
                raw.set(y, row);
                assert(raw@[y as int]@ == new_row);
                proof {
                    assert forall|yy: int, xx: int| 0 <= yy < h && 0 <= xx < w && !(yy == y && xx == x) implies #[trigger] grid_view(raw@)[yy][xx] == grid_view(old_rows)[yy][xx] by {
                        if yy != y {
                            assert(raw@[yy] == old_rows[yy]);
                        }
                    }
                    assert(grid_view(raw@)[y as int][x as int]);
                    assert forall|yy: int| 0 <= yy < h implies (#[trigger] grid_view(raw@)[yy]).len() == w by {
                        assert(grid_view(raw@)[yy] == raw@[yy]@);
                        if yy != y {
                            assert(raw@[yy] == old_rows[yy]);
                            assert(grid_view(old_rows)[yy] == old_rows[yy]@);
                        }
                    }
                    assert(is_grid(grid_view(raw@), w as int, h as int));
                }
            }
            x += 1;
        }
        y += 1;
    }
}

fn sub_sat(v: u8, t: u8) -> (r: u8)
    ensures
        r == sat_sub(v, t),
{
    if v > t {
        v - t
    } else {
        0
    }
}

fn add_sat(v: u8, t: u8) -> (r: u8)
    ensures
        r == sat_add(v, t),
{
    if v as u16 + t as u16 > 255 {
        255
    } else {
        v + t
    }
}

proof fn lemma_window_min_unique(p: Seq<Seq<u8>>, w: int, h: int, r: int, x: int, y: int, v: u8)
    requires
        is_window_min(p, w, h, r, x, y, v),
    ensures
        window_min(p, w, h, r, x, y) == v,
{
    let u = window_min(p, w, h, r, x, y);
    assert(is_window_min(p, w, h, r, x, y, u));
    let (xa, ya) = choose|xx: int, yy: int| in_window(w, h, r, x, y, xx, yy) && #[trigger] p[yy][xx] == u;
    let (xb, yb) = choose|xx: int, yy: int| in_window(w, h, r, x, y, xx, yy) && #[trigger] p[yy][xx] == v;
    assert(v <= p[ya][xa]);
    assert(u <= p[yb][xb]);
}

proof fn lemma_window_max_unique(p: Seq<Seq<u8>>, w: int, h: int, r: int, x: int, y: int, v: u8)
    requires
        is_window_max(p, w, h, r, x, y, v),
    ensures
        window_max(p, w, h, r, x, y) == v,
{
    let u = window_max(p, w, h, r, x, y);
    assert(is_window_max(p, w, h, r, x, y, u));
    let (xa, ya) = choose|xx: int, yy: int| in_window(w, h, r, x, y, xx, yy) && #[trigger] p[yy][xx] == u;
    let (xb, yb) = choose|xx: int, yy: int| in_window(w, h, r, x, y, xx, yy) && #[trigger] p[yy][xx] == v;
    assert(v >= p[ya][xa]);
    assert(u >= p[yb][xb]);
}

/// The judged defects of the compared overlap, row by row.
fn defect_grid(a: &Raster, b: &Raster, cfg: &RasterCmp, w: u32, h: u32) -> (g: Vec<Vec<bool>>)
    requires
        w <= a@.0,
        w <= b@.0,
        h <= a@.1.len(),
        h <= b@.1.len(),
    ensures
        grid_view(g@) == judged_grid(a@.1, b@.1, w as int, h as int, *cfg),
{
    let mut raw: Vec<Vec<bool>> = Vec::new();
    let mut y: u32 = 0;
    while y < h
        invariant
            y <= h,
            raw@.len() == y,
            forall|k: int| 0 <= k < y ==> (#[trigger] grid_view(raw@)[k]) == Seq::new(w as nat, |x: int| false),
        decreases h - y,
    {
        let mut row: Vec<bool> = Vec::new();
        let mut x: u32 = 0;
        while x < w
            invariant
                x <= w,
                row@ == Seq::new(x as nat, |i: int| false),
            decreases w - x,
        {
            row.push(false);
            x += 1;
            assert(row@ =~= Seq::new(x as nat, |i: int| false));
        }
        let ghost before = grid_view(raw@);
        raw.push(row);
        assert(grid_view(raw@) =~= before.push(Seq::new(w as nat, |i: int| false)));
        y += 1;
    }
    add_channel(a, b, cfg, w, h, 0, &mut raw);
    add_channel(a, b, cfg, w, h, 1, &mut raw);
    add_channel(a, b, cfg, w, h, 2, &mut raw);
    // The border band is not judged.
    let skip = cfg.edge_skip_px;
    let ghost want = judged_grid(a@.1, b@.1, w as int, h as int, *cfg);
    let mut out: Vec<Vec<bool>> = Vec::new();
    let mut y: u32 = 0;
    while y < h
        invariant
            y <= h,
            skip == cfg.edge_skip_px,
            want == judged_grid(a@.1, b@.1, w as int, h as int, *cfg),
            is_grid(grid_view(raw@), w as int, h as int),
            forall|yy: int, xx: int|
                0 <= yy < h && 0 <= xx < w ==> #[trigger] grid_view(raw@)[yy][xx] == defect_in_channels(
                    a@.1,
                    b@.1,
                    w as int,
                    h as int,
                    *cfg,
                    xx,
                    yy,
                    3,
                ),
            out@.len() == y,
            forall|k: int| 0 <= k < y ==> #[trigger] grid_view(out@)[k] == want[k],
        decreases h - y,
    {
        assert(grid_view(raw@)[y as int] == raw@[y as int]@);
        let mut row: Vec<bool> = Vec::new();
        let mut x: u32 = 0;
        while x < w
            invariant
                x <= w,
                y < h,
                skip == cfg.edge_skip_px,
                want == judged_grid(a@.1, b@.1, w as int, h as int, *cfg),
                is_grid(grid_view(raw@), w as int, h as int),
                grid_view(raw@)[y as int] == raw@[y as int]@,
                forall|yy: int, xx: int|
                    0 <= yy < h && 0 <= xx < w ==> #[trigger] grid_view(raw@)[yy][xx] == defect_in_channels(
                        a@.1,
                        b@.1,
                        w as int,
                        h as int,
                        *cfg,
                        xx,
                        yy,
                        3,
                    ),
                row@.len() == x,
                forall|k: int| 0 <= k < x ==> #[trigger] row@[k] == want[y as int][k],
            decreases w - x,
        {
            let border = x < skip || x >= w - skip || y < skip || y >= h - skip;
            assert(border == in_border(w as int, h as int, skip as int, x as int, y as int));
            let v = !border && raw[y as usize][x as usize];
            assert(grid_view(raw@)[y as int][x as int] == raw@[y as int]@[x as int]);
            row.push(v);
            x += 1;
        }
        assert(row@ =~= want[y as int]);
        let ghost before = grid_view(out@);
        out.push(row);
        assert(grid_view(out@) =~= before.push(want[y as int]));
        y += 1;
    }
    assert(grid_view(out@) =~= want);
    out
}

// ── counting ────────────────────────────────────────────────────────────

pub open spec fn ceil_div(a: int, t: int) -> int {
    a / t + if a % t != 0 {
        1int
    } else {
        0int
    }
}

/// Defects among the first `n` pixels of row `y` that fall in tile
/// `(tx, ty)` of side `t`.
pub open spec fn row_hits(row: Seq<bool>, y: int, t: int, tx: int, ty: int, n: int) -> nat
    decreases n,
{
    if n <= 0 {
        0
    } else {
        row_hits(row, y, t, tx, ty, n - 1) + if row[n - 1] && y / t == ty && (n - 1) / t == tx {
            1nat
        } else {
            0nat
        }
    }
}

/// Defects among the first `m` rows that fall in tile `(tx, ty)`.
pub open spec fn grid_hits(g: Seq<Seq<bool>>, t: int, tx: int, ty: int, m: int) -> nat
    decreases m,
{
    if m <= 0 {
        0
    } else {
        grid_hits(g, t, tx, ty, m - 1) + row_hits(g[m - 1], m - 1, t, tx, ty, g[m - 1].len() as int)
    }
}

pub open spec fn row_true(row: Seq<bool>, n: int) -> nat
    decreases n,
{
    if n <= 0 {
        0
    } else {
        row_true(row, n - 1) + if row[n - 1] {
            1nat
        } else {
            0nat
        }
    }
}

/// The defects among the first `m` rows.
pub open spec fn grid_true(g: Seq<Seq<bool>>, m: int) -> nat
    decreases m,
{
    if m <= 0 {
        0
    } else {
        grid_true(g, m - 1) + row_true(g[m - 1], g[m - 1].len() as int)
    }
}

/// The defect count of every tile, row of tiles by row of tiles.
pub open spec fn tile_grid(g: Seq<Seq<bool>>, t: int, tiles_x: int, tiles_y: int) -> Seq<Seq<int>> {
    Seq::new(
        tiles_y as nat,
        |ty: int| Seq::new(tiles_x as nat, |tx: int| grid_hits(g, t, tx, ty, g.len() as int) as int),
    )
}

proof fn lemma_tile_index(v: int, n: int, t: int)
    requires
        0 <= v < n,
        t > 0,
    ensures
        0 <= v / t < ceil_div(n, t),
{
    vstd::arithmetic::div_mod::lemma_div_is_ordered(v, n, t);
    vstd::arithmetic::div_mod::lemma_fundamental_div_mod(v, t);
    vstd::arithmetic::div_mod::lemma_fundamental_div_mod(n, t);
    vstd::arithmetic::div_mod::lemma_div_pos_is_pos(v, t);
    if n % t == 0 && v / t == n / t {
        assert(t * (v / t) == t * (n / t));
    }
}

fn zero_tiles(tiles_x: usize, tiles_y: usize) -> (z: Vec<Vec<u32>>)
    ensures
        is_grid(grid_view(z@), tiles_x as int, tiles_y as int),
        forall|ty: int, tx: int| 0 <= ty < tiles_y && 0 <= tx < tiles_x ==> #[trigger] grid_view(z@)[ty][tx] == 0,
{
    let mut z: Vec<Vec<u32>> = Vec::new();
    let mut y: usize = 0;
    while y < tiles_y
        invariant
            y <= tiles_y,
            z@.len() == y,
            forall|k: int| 0 <= k < y ==> (#[trigger] grid_view(z@)[k]) == Seq::new(tiles_x as nat, |i: int| 0u32),
        decreases tiles_y - y,
    {
        let mut row: Vec<u32> = Vec::new();
        let mut x: usize = 0;
        while x < tiles_x
            invariant
                x <= tiles_x,
                row@ == Seq::new(x as nat, |i: int| 0u32),
            decreases tiles_x - x,
        {
            row.push(0);
            x += 1;
            assert(row@ =~= Seq::new(x as nat, |i: int| 0u32));
        }
        let ghost before = grid_view(z@);
        z.push(row);
        assert(grid_view(z@) =~= before.push(Seq::new(tiles_x as nat, |i: int| 0u32)));
        y += 1;
    }
    z
}

/// Count the defects of `g` per tile of side `t`, and in all.
fn tally(g: &Vec<Vec<bool>>, w: u32, h: u32, t: u32, tiles_x: u32, tiles_y: u32) -> (r: (Vec<Vec<u32>>, u64))
    requires
        is_grid(grid_view(g@), w as int, h as int),
        t > 0,
        tiles_x == ceil_div(w as int, t as int),
        tiles_y == ceil_div(h as int, t as int),
        w * h <= u32::MAX,
    ensures
        is_grid(grid_view(r.0@), tiles_x as int, tiles_y as int),
        forall|ty: int, tx: int|
            0 <= ty < tiles_y && 0 <= tx < tiles_x ==> #[trigger] grid_view(r.0@)[ty][tx] == grid_hits(
                grid_view(g@),
                t as int,
                tx,
                ty,
                h as int,
            ),
        r.1 == grid_true(grid_view(g@), h as int),
{
    let ghost gv = grid_view(g@);
    let mut tiles = zero_tiles(tiles_x as usize, tiles_y as usize);
    let mut total: u64 = 0;
    let mut seen: u64 = 0;
    let mut y: u32 = 0;
    while y < h
        invariant
            y <= h,
            gv == grid_view(g@),
            is_grid(gv, w as int, h as int),
            t > 0,
            tiles_x == ceil_div(w as int, t as int),
            tiles_y == ceil_div(h as int, t as int),
            w * h <= u32::MAX,
            seen == y * w,
            is_grid(grid_view(tiles@), tiles_x as int, tiles_y as int),
            forall|ty: int, tx: int|
                0 <= ty < tiles_y && 0 <= tx < tiles_x ==> #[trigger] grid_view(tiles@)[ty][tx] == grid_hits(gv, t as int, tx, ty, y as int),
            forall|ty: int, tx: int|
                0 <= ty < tiles_y && 0 <= tx < tiles_x ==> #[trigger] grid_view(tiles@)[ty][tx] <= seen,
            total == grid_true(gv, y as int),
            total <= seen,
        decreases h - y,
    {
        assert(gv[y as int] == g@[y as int]@);
        let mut x: u32 = 0;
        while x < w
            invariant
                x <= w,
                y < h,
                gv == grid_view(g@),
                is_grid(gv, w as int, h as int),
                gv[y as int] == g@[y as int]@,
                t > 0,
                tiles_x == ceil_div(w as int, t as int),
                tiles_y == ceil_div(h as int, t as int),
                w * h <= u32::MAX,
                seen == y * w + x,
                is_grid(grid_view(tiles@), tiles_x as int, tiles_y as int),
                forall|ty: int, tx: int|
                    0 <= ty < tiles_y && 0 <= tx < tiles_x ==> #[trigger] grid_view(tiles@)[ty][tx] == grid_hits(gv, t as int, tx, ty, y as int)
                        + row_hits(gv[y as int], y as int, t as int, tx, ty, x as int),
                forall|ty: int, tx: int|
                    0 <= ty < tiles_y && 0 <= tx < tiles_x ==> #[trigger] grid_view(tiles@)[ty][tx] <= seen,
                total == grid_true(gv, y as int) + row_true(gv[y as int], x as int),
                total <= seen,
            decreases w - x,
        {
            proof {
                assert(y * w + x < w * h) by (nonlinear_arith)
                    requires
                        y < h,
                        x < w,
                ;
            }
            if g[y as usize][x as usize] {
                let ty = y / t;
                let tx = x / t;
                proof {
                    lemma_tile_index(y as int, h as int, t as int);
                    lemma_tile_index(x as int, w as int, t as int);
                }
                let ghost old_tiles = grid_view(tiles@);
                assert(grid_view(tiles@)[ty as int] == tiles@[ty as int]@);
                let mut row = tiles[ty as usize].clone();
                assert(row@ =~= old_tiles[ty as int]);
                let bumped = row[tx as usize] + 1;
                row.set(tx as usize, bumped);
                let ghost new_row = row@;
                tiles.set(ty as usize, row);
                proof {
                    assert(grid_view(tiles@) =~= old_tiles.update(ty as int, new_row));
                }
                total += 1;
            }
            seen += 1;
            x += 1;
        }
        proof {
            assert(seen == (y + 1) * w) by (nonlinear_arith)
                requires
                    seen == y * w + w,
            ;
        }
        y += 1;
    }
    (tiles, total)
}

/// The worst tile: the greatest count, the last tile in row order that has
/// it; `(0, 0, 0)` when there are no tiles.
pub open spec fn is_worst(tiles: Seq<Seq<int>>, tiles_x: int, tiles_y: int, worst: (u32, u32, u32)) -> bool {
    if tiles_x == 0 || tiles_y == 0 {
        worst == (0u32, 0u32, 0u32)
    } else {
        let (x, y, c) = worst;
        &&& x < tiles_x && y < tiles_y
        &&& tiles[y as int][x as int] == c
        &&& forall|yy: int, xx: int|
            0 <= yy < tiles_y && 0 <= xx < tiles_x ==> #[trigger] tiles[yy][xx] <= c
        &&& forall|yy: int, xx: int|
            0 <= yy < tiles_y && 0 <= xx < tiles_x && (yy > y || (yy == y && xx > x)) ==> #[trigger] tiles[yy][xx] < c
    }
}

pub open spec fn widen(tiles: Seq<Seq<u32>>) -> Seq<Seq<int>> {
    tiles.map_values(|row: Seq<u32>| row.map_values(|c: u32| c as int))
}

fn worst_tile(tiles: &Vec<Vec<u32>>, tiles_x: u32, tiles_y: u32) -> (wst: (u32, u32, u32))
    requires
        is_grid(grid_view(tiles@), tiles_x as int, tiles_y as int),
    ensures
        is_worst(widen(grid_view(tiles@)), tiles_x as int, tiles_y as int, wst),
{
    let ghost tv = widen(grid_view(tiles@));
    if tiles_x == 0 || tiles_y == 0 {
        return (0, 0, 0);
    }
    assert(tv[0][0] == grid_view(tiles@)[0][0] as int);
    assert(grid_view(tiles@)[0] == tiles@[0]@);
    let mut best: (u32, u32, u32) = (0, 0, tiles[0][0]);
    let mut y: u32 = 0;
    while y < tiles_y
        invariant
            y <= tiles_y,
            tiles_x > 0,
            tiles_y > 0,
            tv == widen(grid_view(tiles@)),
            is_grid(grid_view(tiles@), tiles_x as int, tiles_y as int),
            best.0 < tiles_x && best.1 < tiles_y,
            tv[best.1 as int][best.0 as int] == best.2,
            best.1 < y || (y == 0 && best == (0u32, 0u32, tv[0][0] as u32)),
            forall|yy: int, xx: int|
                0 <= yy < y && 0 <= xx < tiles_x ==> #[trigger] tv[yy][xx] <= best.2,
            forall|yy: int, xx: int|
                0 <= yy < y && 0 <= xx < tiles_x && (yy > best.1 || (yy == best.1 && xx > best.0)) ==> #[trigger] tv[yy][xx] < best.2,
        decreases tiles_y - y,
    {
        assert(grid_view(tiles@)[y as int] == tiles@[y as int]@);
        let mut x: u32 = 0;
        while x < tiles_x
            invariant
                x <= tiles_x,
                y < tiles_y,
                tiles_x > 0,
                tiles_y > 0,
                tv == widen(grid_view(tiles@)),
                is_grid(grid_view(tiles@), tiles_x as int, tiles_y as int),
                grid_view(tiles@)[y as int] == tiles@[y as int]@,
                best.0 < tiles_x && best.1 < tiles_y,
                tv[best.1 as int][best.0 as int] == best.2,
                best.1 < y || (best.1 == y && best.0 < x) || (y == 0 && x == 0 && best == (0u32, 0u32, tv[0][0] as u32)),
                forall|yy: int, xx: int|
                    0 <= yy < y && 0 <= xx < tiles_x ==> #[trigger] tv[yy][xx] <= best.2,
                forall|xx: int| 0 <= xx < x ==> #[trigger] tv[y as int][xx] <= best.2,
                forall|yy: int, xx: int|
                    0 <= yy < y && 0 <= xx < tiles_x && (yy > best.1 || (yy == best.1 && xx > best.0)) ==> #[trigger] tv[yy][xx] < best.2,
                forall|xx: int|
                    0 <= xx < x && (y > best.1 || (y == best.1 && xx > best.0)) ==> #[trigger] tv[y as int][xx] < best.2,
            decreases tiles_x - x,
        {
            let c = tiles[y as usize][x as usize];
            assert(tv[y as int][x as int] == c as int);
            if c >= best.2 {
                best = (x, y, c);
            }
            x += 1;
        }
        y += 1;
    }
    best
}

/// The rows of `g`, end to end.
pub open spec fn flat<T>(g: Seq<Seq<T>>) -> Seq<T>
    decreases g.len(),
{
    if g.len() == 0 {
        Seq::<T>::empty()
    } else {
        flat(g.drop_last()) + g.last()
    }
}

fn flatten<T: Copy>(g: &Vec<Vec<T>>) -> (out: Vec<T>)
    ensures
        out@ == flat(grid_view(g@)),
{
    let ghost gv = grid_view(g@);
    let mut out: Vec<T> = Vec::new();
    let mut y: usize = 0;
    while y < g.len()
        invariant
            y <= g@.len(),
            gv == grid_view(g@),
            out@ == flat(gv.take(y as int)),
        decreases g@.len() - y,
    {
        let ghost start = out@;
        assert(gv[y as int] == g@[y as int]@);
        let mut x: usize = 0;
        while x < g[y].len()
            invariant
                x <= g@[y as int]@.len(),
                y < g@.len(),
                gv == grid_view(g@),
                gv[y as int] == g@[y as int]@,
                out@ == start + gv[y as int].take(x as int),
            decreases g@[y as int]@.len() - x,
        {
            out.push(g[y][x]);
            x += 1;
            assert(out@ =~= start + gv[y as int].take(x as int));
        }
        assert(gv.take(y + 1).drop_last() =~= gv.take(y as int));
        assert(gv[y as int].take(x as int) =~= gv[y as int]);
        y += 1;
    }
    assert(gv.take(g@.len() as int) =~= gv);
    out
}

proof fn lemma_ceil_fits(n: u32, t: u32)
    requires
        t > 0,
    ensures
        n % t != 0 ==> n / t < u32::MAX,
{
    if t == 1 {
        assert(n % 1 == 0);
    } else {
        vstd::arithmetic::div_mod::lemma_div_is_ordered_by_denominator(n as int, 2, t as int);
    }
}

proof fn lemma_flat_widen(g: Seq<Seq<u32>>)
    ensures
        flat(widen(g)) == flat(g).map_values(|c: u32| c as int),
    decreases g.len(),
{
    if g.len() > 0 {
        lemma_flat_widen(g.drop_last());
        assert(widen(g).drop_last() =~= widen(g.drop_last()));
        assert(flat(widen(g)) =~= flat(g).map_values(|c: u32| c as int));
    } else {
        assert(flat(widen(g)) =~= flat(g).map_values(|c: u32| c as int));
    }
}

// ── the verdict ─────────────────────────────────────────────────────────

#[derive(Debug)]
pub struct RasterVerdict {
    pub width: u32,
    pub height: u32,
    pub tiles_x: u32,
    pub tiles_y: u32,
    /// Defect count per tile, row-major.
    pub tile_counts: Vec<u32>,
    pub defects_total: u64,
    /// Tile x, tile y, count -- the worst tile on the page.
    pub worst: (u32, u32, u32),
    /// One bit per pixel of the compared overlap, row-major.
    pub defects: Vec<bool>,
    pub tile_budget: u32,
}

/// How many of `counts` are over `budget`.
pub open spec fn over_budget(counts: Seq<u32>, budget: u32) -> nat
    decreases counts.len(),
{
    if counts.len() == 0 {
        0
    } else {
        over_budget(counts.drop_last(), budget) + if counts.last() > budget {
            1nat
        } else {
            0nat
        }
    }
}

impl RasterVerdict {
    /// The tiles with more defects than the budget allows.
    pub fn failing_tiles(&self) -> (n: usize)
        ensures
            n == over_budget(self.tile_counts@, self.tile_budget),
    {
        let mut n: usize = 0;
        let mut i: usize = 0;
        while i < self.tile_counts.len()
            invariant
                i <= self.tile_counts@.len(),
                n <= i,
                n == over_budget(self.tile_counts@.take(i as int), self.tile_budget),
            decreases self.tile_counts@.len() - i,
        {
            assert(self.tile_counts@.take(i + 1).drop_last() =~= self.tile_counts@.take(i as int));
            if self.tile_counts[i] > self.tile_budget {
                n += 1;
            }
            i += 1;
        }
        assert(self.tile_counts@.take(self.tile_counts@.len() as int) =~= self.tile_counts@);
        n
    }

    /// No tile is over its budget.
    pub fn ok(&self) -> (b: bool)
        ensures
            b == (over_budget(self.tile_counts@, self.tile_budget) == 0),
    {
        self.failing_tiles() == 0
    }
}

pub open spec fn min_u32(a: u32, b: u32) -> u32 {
    if a < b {
        a
    } else {
        b
    }
}

pub open spec fn apart(a: u32, b: u32) -> int {
    if a > b {
        a - b
    } else {
        b - a
    }
}

/// What a comparison of pages of different sizes says.
pub open spec fn size_message(aw: u32, ah: u32, bw: u32, bh: u32) -> Seq<char> {
    "the pages are different sizes: "@ + dec_digits(aw as nat) + "×"@ + dec_digits(ah as nat)
        + " vs "@ + dec_digits(bw as nat) + "×"@ + dec_digits(bh as nat)
}

/// A grid of which no cell is set.
pub open spec fn all_clear(g: Seq<Seq<bool>>) -> bool {
    forall|y: int, x: int| 0 <= y < g.len() && 0 <= x < g[y].len() ==> !(#[trigger] g[y][x])
}

proof fn lemma_row_clear(row: Seq<bool>, y: int, t: int, tx: int, ty: int, n: int)
    requires
        0 <= n <= row.len(),
        forall|x: int| 0 <= x < row.len() ==> !(#[trigger] row[x]),
    ensures
        row_true(row, n) == 0,
        row_hits(row, y, t, tx, ty, n) == 0,
    decreases n,
{
    if n > 0 {
        lemma_row_clear(row, y, t, tx, ty, n - 1);
    }
}

proof fn lemma_grid_clear(g: Seq<Seq<bool>>, t: int, tx: int, ty: int, m: int)
    requires
        0 <= m <= g.len(),
        all_clear(g),
    ensures
        grid_true(g, m) == 0,
        grid_hits(g, t, tx, ty, m) == 0,
    decreases m,
{
    if m > 0 {
        lemma_grid_clear(g, t, tx, ty, m - 1);
        assert forall|x: int| 0 <= x < g[m - 1].len() implies !(#[trigger] g[m - 1][x]) by {}
        lemma_row_clear(g[m - 1], m - 1, t, tx, ty, g[m - 1].len() as int);
    }
}

/// Every cell of a grid whose rows hold only `v` flattens to `v`.
proof fn lemma_flat_all<T>(g: Seq<Seq<T>>, v: T)
    requires
        forall|y: int, x: int| 0 <= y < g.len() && 0 <= x < g[y].len() ==> #[trigger] g[y][x] == v,
    ensures
        forall|i: int| 0 <= i < flat(g).len() ==> #[trigger] flat(g)[i] == v,
    decreases g.len(),
{
    if g.len() > 0 {
        let init = g.drop_last();
        assert forall|y: int, x: int| 0 <= y < init.len() && 0 <= x < init[y].len() implies #[trigger] init[y][x] == v by {
            assert(init[y] == g[y]);
        }
        lemma_flat_all(init, v);
        let f = flat(g);
        assert(f == flat(init) + g.last());
        assert forall|i: int| 0 <= i < f.len() implies #[trigger] f[i] == v by {
            if i < flat(init).len() {
                assert(f[i] == flat(init)[i]);
            } else {
                assert(f[i] == g.last()[i - flat(init).len()]);
                assert(g[g.len() - 1][i - flat(init).len()] == v);
            }
        }
    }
}

proof fn lemma_none_over(counts: Seq<u32>, budget: u32)
    requires
        forall|i: int| 0 <= i < counts.len() ==> #[trigger] counts[i] == 0,
    ensures
        over_budget(counts, budget) == 0,
    decreases counts.len(),
{
    if counts.len() > 0 {
        let init = counts.drop_last();
        assert forall|i: int| 0 <= i < init.len() implies #[trigger] init[i] == 0 by {
            assert(init[i] == counts[i]);
        }
        lemma_none_over(init, budget);
        assert(counts[counts.len() - 1] == counts.last());
    }
}

/// Compared with itself, a page has no defect: no pixel is set, the total
/// is nought, and no tile holds a defect.
proof fn lemma_self_clear(page: Seq<Seq<[u8; 3]>>, w: int, h: int, cfg: RasterCmp, tiles_x: int, tiles_y: int)
    requires
        w >= 0,
        h >= 0,
    ensures
        all_clear(judged_grid(page, page, w, h, cfg)),
        grid_true(judged_grid(page, page, w, h, cfg), h) == 0,
        forall|i: int| 0 <= i < flat(judged_grid(page, page, w, h, cfg)).len() ==> !(#[trigger] flat(
            judged_grid(page, page, w, h, cfg),
        )[i]),
        forall|i: int|
            0 <= i < flat(tile_grid(judged_grid(page, page, w, h, cfg), cfg.tile_px as int, tiles_x, tiles_y)).len()
                ==> #[trigger] flat(tile_grid(judged_grid(page, page, w, h, cfg), cfg.tile_px as int, tiles_x, tiles_y))[i]
                == 0,
{
    let g = judged_grid(page, page, w, h, cfg);
    let t = cfg.tile_px as int;
    assert forall|y: int, x: int| 0 <= y < g.len() && 0 <= x < g[y].len() implies !(#[trigger] g[y][x]) by {
        law_a_page_matches_itself(page, w, h, cfg, x, y);
    }
    lemma_grid_clear(g, t, 0, 0, h);
    assert forall|y: int, x: int| 0 <= y < g.len() && 0 <= x < g[y].len() implies #[trigger] g[y][x] == false by {}
    lemma_flat_all(g, false);
    let tg = tile_grid(g, t, tiles_x, tiles_y);
    assert forall|y: int, x: int| 0 <= y < tg.len() && 0 <= x < tg[y].len() implies #[trigger] tg[y][x] == 0 by {
        lemma_grid_clear(g, t, x, y, g.len() as int);
    }
    lemma_flat_all(tg, 0int);
}

/// Compare two renderings of what should be the same page: `a` from the
/// PDF, `b` from the SVG. The engines may disagree about a page's pixel
/// count by a rounding step; more than two pixels of size difference is
/// its own failure, not a comparison.
pub fn compare(a: &Raster, b: &Raster, cfg: &RasterCmp) -> (r: Result<RasterVerdict, String>)
    requires
        cfg.tile_px > 0,
        min_u32(a@.0, b@.0) * min_u32(a@.1.len() as u32, b@.1.len() as u32) <= u32::MAX,
    ensures
        r is Err <==> (apart(a@.0, b@.0) > 2 || apart(a@.1.len() as u32, b@.1.len() as u32) > 2),
        r matches Err(m) ==> m@ == size_message(a@.0, a@.1.len() as u32, b@.0, b@.1.len() as u32),
        r matches Ok(v) ==> {
            let w = min_u32(a@.0, b@.0);
            let h = min_u32(a@.1.len() as u32, b@.1.len() as u32);
            let t = cfg.tile_px as int;
            let judged = judged_grid(a@.1, b@.1, w as int, h as int, *cfg);
            let tiles = tile_grid(judged, t, v.tiles_x as int, v.tiles_y as int);
            &&& v.width == w
            &&& v.height == h
            &&& v.tiles_x == ceil_div(w as int, t)
            &&& v.tiles_y == ceil_div(h as int, t)
            &&& v.defects@ == flat(judged)
            &&& v.tile_counts@.map_values(|c: u32| c as int) == flat(tiles)
            &&& v.defects_total == grid_true(judged, h as int)
            &&& is_worst(tiles, v.tiles_x as int, v.tiles_y as int, v.worst)
            &&& v.tile_budget == cfg.tile_budget
        },
        a@ == b@ ==> (r matches Ok(v) && v.defects_total == 0 && (forall|i: int|
            0 <= i < v.defects@.len() ==> !(#[trigger] v.defects@[i])) && over_budget(v.tile_counts@, v.tile_budget)
            == 0),
{
    let aw = a.width();
    let ah = a.height();
    let bw = b.width();
    let bh = b.height();
    let dw = if aw > bw { aw - bw } else { bw - aw };
    let dh = if ah > bh { ah - bh } else { bh - ah };
    if dw > 2 || dh > 2 {
        let mut m = crate::text::chars_of("the pages are different sizes: ");
        crate::text::append(&mut m, crate::ranges::dec_chars(aw as usize).as_slice());
        crate::text::append(&mut m, crate::text::chars_of("×").as_slice());
        crate::text::append(&mut m, crate::ranges::dec_chars(ah as usize).as_slice());
        crate::text::append(&mut m, crate::text::chars_of(" vs ").as_slice());
        crate::text::append(&mut m, crate::ranges::dec_chars(bw as usize).as_slice());
        crate::text::append(&mut m, crate::text::chars_of("×").as_slice());
        crate::text::append(&mut m, crate::ranges::dec_chars(bh as usize).as_slice());
        return Err(crate::text::string_of(m.as_slice()));
    }
    let w = if aw < bw { aw } else { bw };
    let h = if ah < bh { ah } else { bh };
    let t = cfg.tile_px;
    proof {
        lemma_ceil_fits(w, t);
        lemma_ceil_fits(h, t);
    }
    let tiles_x = w / t + if w % t != 0 { 1 } else { 0 };
    let tiles_y = h / t + if h % t != 0 { 1 } else { 0 };
    let grid = defect_grid(a, b, cfg, w, h);
    let ghost judged = judged_grid(a@.1, b@.1, w as int, h as int, *cfg);
    assert(is_grid(judged, w as int, h as int));
    let (tiles, total) = tally(&grid, w, h, t, tiles_x, tiles_y);
    let worst = worst_tile(&tiles, tiles_x, tiles_y);
    let tile_counts = flatten(&tiles);
    let defects = flatten(&grid);
    proof {
        let tg = tile_grid(judged, t as int, tiles_x as int, tiles_y as int);
        assert(widen(grid_view(tiles@)) =~= tg) by {
            assert forall|ty: int| 0 <= ty < tiles_y implies #[trigger] widen(grid_view(tiles@))[ty] =~= tg[ty] by {
                assert(grid_view(tiles@)[ty].len() == tiles_x);
            }
        }
        lemma_flat_widen(grid_view(tiles@));
        if a@ == b@ {
            lemma_self_clear(a@.1, w as int, h as int, *cfg, tiles_x as int, tiles_y as int);
            let ft = flat(tg);
            assert forall|i: int| 0 <= i < tile_counts@.len() implies #[trigger] tile_counts@[i] == 0 by {
                assert(tile_counts@.map_values(|c: u32| c as int)[i] == ft[i]);
            }
            lemma_none_over(tile_counts@, cfg.tile_budget);
        }
    }
    Ok(
        RasterVerdict {
            width: w,
            height: h,
            tiles_x,
            tiles_y,
            tile_counts,
            defects_total: total,
            worst,
            defects,
            tile_budget: cfg.tile_budget,
        },
    )
}

// ── a page against itself ───────────────────────────────────────────────

/// Some value within `r` of `(x, y)` is at most `c`, so the window has a
/// least value.
proof fn lemma_window_min_exists(p: Seq<Seq<u8>>, w: int, h: int, r: int, x: int, y: int, c: u8)
    requires
        exists|xx: int, yy: int| in_window(w, h, r, x, y, xx, yy) && #[trigger] p[yy][xx] <= c,
    ensures
        exists|v: u8| is_window_min(p, w, h, r, x, y, v),
    decreases c,
{
    if c > 0 && exists|xx: int, yy: int| in_window(w, h, r, x, y, xx, yy) && #[trigger] p[yy][xx] <= (c - 1) as u8 {
        lemma_window_min_exists(p, w, h, r, x, y, (c - 1) as u8);
    } else {
        let (xx, yy) = choose|xx: int, yy: int| in_window(w, h, r, x, y, xx, yy) && #[trigger] p[yy][xx] <= c;
        assert(is_window_min(p, w, h, r, x, y, p[yy][xx]));
    }
}

/// Some value within `r` of `(x, y)` is at least `c`, so the window has a
/// greatest value.
proof fn lemma_window_max_exists(p: Seq<Seq<u8>>, w: int, h: int, r: int, x: int, y: int, c: u8)
    requires
        exists|xx: int, yy: int| in_window(w, h, r, x, y, xx, yy) && #[trigger] p[yy][xx] >= c,
    ensures
        exists|v: u8| is_window_max(p, w, h, r, x, y, v),
    decreases 255 - c,
{
    if c < 255 && exists|xx: int, yy: int| in_window(w, h, r, x, y, xx, yy) && #[trigger] p[yy][xx] >= (c + 1) as u8 {
        lemma_window_max_exists(p, w, h, r, x, y, (c + 1) as u8);
    } else {
        let (xx, yy) = choose|xx: int, yy: int| in_window(w, h, r, x, y, xx, yy) && #[trigger] p[yy][xx] >= c;
        assert(is_window_max(p, w, h, r, x, y, p[yy][xx]));
    }
}

/// A value lies within the range of its own neighbourhood.
proof fn lemma_own_window(p: Seq<Seq<u8>>, w: int, h: int, r: int, x: int, y: int)
    requires
        0 <= x < w,
        0 <= y < h,
        r >= 0,
    ensures
        window_min(p, w, h, r, x, y) <= p[y][x] <= window_max(p, w, h, r, x, y),
{
    assert(in_window(w, h, r, x, y, x, y));
    lemma_window_min_exists(p, w, h, r, x, y, p[y][x]);
    lemma_window_max_exists(p, w, h, r, x, y, p[y][x]);
}

/// A page compared with itself has no defect: every value is explained by
/// its own neighbourhood, in every channel.
pub proof fn law_a_page_matches_itself(
    page: Seq<Seq<[u8; 3]>>,
    w: int,
    h: int,
    cfg: RasterCmp,
    x: int,
    y: int,
)
    requires
        0 <= x < w,
        0 <= y < h,
    ensures
        !judged(page, page, w, h, cfg, x, y),
{
    let s = cfg.shift_px as int;
    assert forall|c: int| 0 <= c < 3 implies !channel_defect(
        #[trigger] plane_of(page, c, w, h),
        plane_of(page, c, w, h),
        w,
        h,
        cfg,
        x,
        y,
    ) by {
        let pl = plane_of(page, c, w, h);
        lemma_own_window(pl, w, h, s, x, y);
    }
    assert(!defect_in_channels(page, page, w, h, cfg, x, y, 0));
    assert(!channel_defect(plane_of(page, 0, w, h), plane_of(page, 0, w, h), w, h, cfg, x, y));
    assert(!defect_in_channels(page, page, w, h, cfg, x, y, 1));
    assert(!channel_defect(plane_of(page, 1, w, h), plane_of(page, 1, w, h), w, h, cfg, x, y));
    assert(!defect_in_channels(page, page, w, h, cfg, x, y, 2));
    assert(!channel_defect(plane_of(page, 2, w, h), plane_of(page, 2, w, h), w, h, cfg, x, y));
}

// ── the picture of the defects ──────────────────────────────────────────

/// A channel value faded three quarters of the way to white.
pub open spec fn fade(v: u8) -> u8 {
    (255 - (255 - v) / 4) as u8
}

/// A pixel of the defect picture: red for a defect, else the page's pixel
/// faded.
pub open spec fn diff_pixel(p: [u8; 3], defect: bool) -> [u8; 3] {
    if defect {
        [255u8, 0u8, 0u8]
    } else {
        [fade(p[0]), fade(p[1]), fade(p[2])]
    }
}

fn fade_exec(v: u8) -> (f: u8)
    ensures
        f == fade(v),
{
    255 - (255 - v) / 4
}

/// Where `verdict` found defects, drawn over `a`: the compared overlap --
/// `a`'s bottom rows, since pages are anchored at the bottom -- with every
/// defect red and everything else faded towards white.
pub fn diff_map(a: &Raster, verdict: &RasterVerdict) -> (out: Raster)
    requires
        0 < verdict.width <= a@.0,
        0 < verdict.height <= a@.1.len(),
        verdict.defects@.len() >= verdict.width * verdict.height,
    ensures
        out@.0 == verdict.width,
        out@.1.len() == verdict.height,
        forall|y: int, x: int|
            0 <= y < verdict.height && 0 <= x < verdict.width ==> #[trigger] out@.1[y][x] == diff_pixel(
                a@.1[a@.1.len() - verdict.height + y][x],
                verdict.defects@[y * verdict.width + x],
            ),
{
    proof {
        use_type_invariant(a);
    }
    let w = verdict.width;
    let h = verdict.height;
    let y0 = a.height() - h;
    let n = verdict.defects.len();
    assert(a@.1.len() <= u32::MAX);
    let mut rows: Vec<Vec<[u8; 3]>> = Vec::new();
    let mut y: u32 = 0;
    let mut base: usize = 0;
    while y < h
        invariant
            0 < w <= a@.0,
            0 < h <= a@.1.len(),
            y0 == a@.1.len() - h,
            a@.1.len() <= u32::MAX,
            n == verdict.defects@.len(),
            w == verdict.width,
            h == verdict.height,
            y <= h,
            base == y * w,
            verdict.defects@.len() >= w * h,
            rows@.len() == y,
            forall|r: int| 0 <= r < y ==> (#[trigger] rows@[r])@.len() == w,
            forall|r: int, x: int|
                0 <= r < y && 0 <= x < w ==> #[trigger] rows@[r]@[x] == diff_pixel(
                    a@.1[y0 + r][x],
                    verdict.defects@[r * w + x],
                ),
        decreases h - y,
    {
        assert(base + w <= w * h) by (nonlinear_arith)
            requires
                base == y * w,
                y < h,
        ;
        let mut row: Vec<[u8; 3]> = Vec::new();
        let mut x: u32 = 0;
        while x < w
            invariant
                0 < w <= a@.0,
                y < h,
                y0 + y < a@.1.len(),
                a@.1.len() <= u32::MAX,
                n == verdict.defects@.len(),
                w == verdict.width,
                base == y * w,
                base + w <= w * h,
                verdict.defects@.len() >= w * h,
                x <= w,
                row@.len() == x,
                forall|k: int| 0 <= k < x ==> #[trigger] row@[k] == diff_pixel(
                    a@.1[y0 + y][k],
                    verdict.defects@[y * w + k],
                ),
            decreases w - x,
        {
            let p = a.pixel(x, y0 + y);
            let i = base + x as usize;
            let px = if verdict.defects[i] {
                [255u8, 0u8, 0u8]
            } else {
                [fade_exec(p[0]), fade_exec(p[1]), fade_exec(p[2])]
            };
            row.push(px);
            x += 1;
        }
        rows.push(row);
        base = base + w as usize;
        y += 1;
        assert(base == y * w) by (nonlinear_arith)
            requires
                base == (y - 1) * w + w,
        ;
    }
    let out = Raster { width: w, rows };
    assert(grid_view(out.rows@) =~= out@.1);
    out
}

// ── the external PDF rasteriser ─────────────────────────────────────────

#[derive(Clone, Copy, PartialEq, Eq, Debug, Structural)]
pub enum Flavor {
    MuTool,
    PdfToPpm,
}

/// A PDF rasteriser found on the machine.
#[derive(Debug, Clone)]
pub struct PdfRasterizer {
    pub exe: String,
    pub flavor: Flavor,
    /// The first version line the tool printed.
    pub version: String,
}

/// Whether `s` holds `part` somewhere.
pub open spec fn contains_text(s: Seq<char>, part: Seq<char>) -> bool {
    exists|i: int| 0 <= i <= s.len() - part.len() && #[trigger] s.subrange(i, i + part.len()) == part
}

fn has_text(s: &[char], part: &[char]) -> (b: bool)
    ensures
        b == contains_text(s@, part@),
{
    if part.len() > s.len() {
        return false;
    }
    let last = s.len() - part.len();
    let mut i: usize = 0;
    while i <= last
        invariant
            part@.len() <= s@.len(),
            last == s@.len() - part@.len(),
            i <= last + 1,
            forall|k: int| 0 <= k < i ==> #[trigger] s@.subrange(k, k + part@.len()) != part@,
        decreases last + 1 - i,
    {
        let end = s.len() - (last - i);
        let piece = crate::text::slice_of(s, i, end);
        if crate::text::same(piece.as_slice(), part) {
            assert(s@.subrange(i as int, i + part@.len()) == part@);
            return true;
        }
        if i == last {
            return false;
        }
        i += 1;
    }
    false
}

impl Flavor {
    /// The flavour an executable named by the environment is: `mutool`
    /// when its file stem says so in any case, else `pdftoppm`.
    pub fn for_executable(exe: &str) -> (f: Flavor)
        ensures
            f == if crate::paths::path_file_stem(exe@) matches Some(stem) && contains_text(
                crate::text::lower_seq(stem),
                "mutool"@,
            ) {
                Flavor::MuTool
            } else {
                Flavor::PdfToPpm
            },
    {
        let mutool = crate::text::chars_of("mutool");
        match crate::paths::file_stem_of(exe) {
            Some(stem) => {
                let low = crate::text::ascii_lower(crate::text::chars_of(stem.as_str()).as_slice());
                if has_text(low.as_slice(), mutool.as_slice()) {
                    Flavor::MuTool
                } else {
                    Flavor::PdfToPpm
                }
            },
            None => Flavor::PdfToPpm,
        }
    }
}

} // verus!
