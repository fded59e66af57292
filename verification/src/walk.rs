//! Pipe strokes walked into runs. Each stroke joins two vertices; a vertex
//! where a symbol's connection point is, or where other than two strokes
//! meet, ends a run; every other vertex a run passes straight through. A
//! run starts at the first stroke no run has taken yet and is walked first
//! the way that stroke points, then back the other way; a run that comes
//! back to where it began is a loop.

use vstd::prelude::*;

use crate::export::End;
use crate::mesh::{count_set, lemma_count_set};

verus! {

/// Stroke `s` joins a vertex to itself: it is no part of any run.
pub open spec fn degenerate(segs: Seq<(usize, usize)>, s: int) -> bool {
    segs[s].0 == segs[s].1
}

/// Stroke `s` has vertex `v` at one end, and is no degenerate stroke.
pub open spec fn meets(segs: Seq<(usize, usize)>, s: int, v: usize) -> bool {
    0 <= s < segs.len() && !degenerate(segs, s) && (segs[s].0 == v || segs[s].1 == v)
}

/// The strokes among the first `n` that meet `v`, in order.
pub open spec fn meeting(segs: Seq<(usize, usize)>, v: usize, n: int) -> Seq<usize>
    decreases n,
{
    if n <= 0 {
        Seq::empty()
    } else if meets(segs, n - 1, v) {
        meeting(segs, v, n - 1).push((n - 1) as usize)
    } else {
        meeting(segs, v, n - 1)
    }
}

/// The strokes that meet `v`, in order.
pub open spec fn incident(segs: Seq<(usize, usize)>, v: usize) -> Seq<usize> {
    meeting(segs, v, segs.len() as int)
}

/// A run stops at `v`: a symbol's connection point is there, or other than
/// two strokes meet there.
pub open spec fn stops(segs: Seq<(usize, usize)>, ports: Seq<Option<usize>>, v: usize) -> bool {
    ports[v as int] is Some || incident(segs, v).len() != 2
}

/// What a run that stops at `v` ends at: the symbol whose connection point
/// is there, else nothing when at most one stroke meets there, else a tee.
pub open spec fn end_at(segs: Seq<(usize, usize)>, ports: Seq<Option<usize>>, v: usize) -> End {
    match ports[v as int] {
        Some(i) => End::Symbol(i),
        None => if incident(segs, v).len() <= 1 {
            End::Open
        } else {
            End::Tee
        },
    }
}

/// Stroke `s` joins `a` and `b`, either way round.
pub open spec fn joins(segs: Seq<(usize, usize)>, s: int, a: usize, b: usize) -> bool {
    (segs[s].0 == a && segs[s].1 == b) || (segs[s].0 == b && segs[s].1 == a)
}

proof fn lemma_meeting(segs: Seq<(usize, usize)>, v: usize, n: int)
    requires
        0 <= n <= segs.len(),
        segs.len() <= usize::MAX,
    ensures
        forall|s: usize| #[trigger] meeting(segs, v, n).contains(s) <==> (s < n && meets(segs, s as int, v)),
        forall|i: int, j: int| 0 <= i < j < meeting(segs, v, n).len() ==> #[trigger] meeting(segs, v, n)[i] < #[trigger] meeting(segs, v, n)[j],
        forall|i: int| 0 <= i < meeting(segs, v, n).len() ==> #[trigger] meeting(segs, v, n)[i] < n,
    decreases n,
{
    if n > 0 {
        lemma_meeting(segs, v, n - 1);
        let m = meeting(segs, v, n - 1);
        if meets(segs, n - 1, v) {
            let t = m.push((n - 1) as usize);
            assert forall|s: usize| #[trigger] t.contains(s) <==> (s < n && meets(segs, s as int, v)) by {
                if t.contains(s) {
                    let q = choose|q: int| 0 <= q < t.len() && t[q] == s;
                    if q < m.len() {
                        assert(m[q] == s);
                        assert(m.contains(s));
                    } else {
                        assert(t[q] == (n - 1) as usize);
                    }
                }
                if s < n && meets(segs, s as int, v) {
                    if s < n - 1 {
                        assert(m.contains(s));
                        let q = choose|q: int| 0 <= q < m.len() && m[q] == s;
                        assert(t[q] == s);
                    } else {
                        assert(t[m.len() as int] == s);
                    }
                }
            }
            assert forall|i: int| 0 <= i < t.len() implies #[trigger] t[i] < n by {
                if i < m.len() {
                    assert(t[i] == m[i]);
                }
            }
            assert forall|i: int, j: int| 0 <= i < j < t.len() implies #[trigger] t[i] < #[trigger] t[j] by {
                assert(t[i] == m[i]);
                if j < m.len() {
                    assert(t[j] == m[j]);
                } else {
                    assert(t[j] == (n - 1) as usize);
                    assert(m[i] < n - 1);
                }
            }
        }
    }
}

/// Three different strokes cannot meet a vertex where two meet.
proof fn lemma_two_meet(segs: Seq<(usize, usize)>, v: usize, x: usize, y: usize, z: usize)
    requires
        segs.len() <= usize::MAX,
        incident(segs, v).len() == 2,
        meets(segs, x as int, v),
        meets(segs, y as int, v),
        meets(segs, z as int, v),
        x != y,
    ensures
        z == x || z == y,
{
    lemma_meeting(segs, v, segs.len() as int);
    let inc = incident(segs, v);
    assert(inc.contains(x) && inc.contains(y) && inc.contains(z));
    let qx = choose|q: int| 0 <= q < 2 && inc[q] == x;
    let qy = choose|q: int| 0 <= q < 2 && inc[q] == y;
    let qz = choose|q: int| 0 <= q < 2 && inc[q] == z;
}

/// For each vertex below `nv`, the strokes that meet it.
fn incident_lists(segs: &[(usize, usize)], nv: usize) -> (inc: Vec<Vec<usize>>)
    requires
        forall|s: int| 0 <= s < segs@.len() ==> (#[trigger] segs@[s]).0 < nv && segs@[s].1 < nv,
    ensures
        inc@.len() == nv,
        forall|v: int| 0 <= v < nv ==> (#[trigger] inc@[v])@ == incident(segs@, v as usize),
{
    let mut inc: Vec<Vec<usize>> = Vec::new();
    let mut v: usize = 0;
    while v < nv
        invariant
            v <= nv,
            inc@.len() == v,
            forall|u: int| 0 <= u < v ==> (#[trigger] inc@[u])@ == incident(segs@, u as usize),
        decreases nv - v,
    {
        let mut here: Vec<usize> = Vec::new();
        let mut s: usize = 0;
        while s < segs.len()
            invariant
                s <= segs@.len(),
                here@ == meeting(segs@, v, s as int),
            decreases segs@.len() - s,
        {
            let (a, b) = segs[s];
            if a != b && (a == v || b == v) {
                here.push(s);
            }
            s += 1;
        }
        inc.push(here);
        v += 1;
    }
    inc
}

/// `vs` and `ss` walk along the strokes: each stroke joins the vertices on
/// either side of it, none twice, none degenerate.
pub open spec fn trail(segs: Seq<(usize, usize)>, vs: Seq<usize>, ss: Seq<usize>) -> bool {
    &&& ss.len() >= 1
    &&& vs.len() == ss.len() + 1
    &&& forall|i: int|
        0 <= i < ss.len() ==> #[trigger] ss[i] < segs.len() && !degenerate(segs, ss[i] as int) && joins(
            segs,
            ss[i] as int,
            vs[i],
            vs[i + 1],
        )
    &&& ss.no_duplicates()
}

/// The run passes straight through every vertex but its ends.
pub open spec fn through(segs: Seq<(usize, usize)>, ports: Seq<Option<usize>>, vs: Seq<usize>) -> bool {
    forall|i: int| 0 < i < vs.len() - 1 ==> !stops(segs, ports, #[trigger] vs[i])
}

/// How the run ends: a loop closes on a vertex it passes through; any other
/// run stops at both ends, at what is there.
pub open spec fn ended(segs: Seq<(usize, usize)>, ports: Seq<Option<usize>>, vs: Seq<usize>, ends: [End; 2]) -> bool {
    if ends[0] == End::Loop {
        ends[1] == End::Loop && vs[0] == vs.last() && !stops(segs, ports, vs[0])
    } else {
        &&& stops(segs, ports, vs[0])
        &&& stops(segs, ports, vs.last())
        &&& ends[0] == end_at(segs, ports, vs[0])
        &&& ends[1] == end_at(segs, ports, vs.last())
    }
}

/// Every stroke that meets a vertex the run passes through is the run's.
pub open spec fn complete(segs: Seq<(usize, usize)>, ports: Seq<Option<usize>>, vs: Seq<usize>, ss: Seq<usize>) -> bool {
    forall|i: int, s: usize|
        0 <= i < vs.len() && !stops(segs, ports, #[trigger] vs[i]) && #[trigger] meets(segs, s as int, vs[i]) ==> ss.contains(s)
}

/// The strokes at an inner vertex of a trail are the two either side of it.
proof fn lemma_inner(segs: Seq<(usize, usize)>, ports: Seq<Option<usize>>, vs: Seq<usize>, ss: Seq<usize>, p: int, s: usize)
    requires
        segs.len() <= usize::MAX,
        trail(segs, vs, ss),
        0 < p < vs.len() - 1,
        !stops(segs, ports, vs[p]),
        meets(segs, s as int, vs[p]),
    ensures
        s == ss[p - 1] || s == ss[p],
{
    assert(ss[p - 1] != ss[p]);
    assert(joins(segs, ss[p - 1] as int, vs[p - 1], vs[p]));
    assert(joins(segs, ss[p] as int, vs[p], vs[p + 1]));
    lemma_two_meet(segs, vs[p], ss[p - 1], ss[p], s);
}

/// A stroke of the trail that meets its last vertex, other than the last
/// stroke, can only be its first, closing it on its first vertex.
proof fn lemma_closes(segs: Seq<(usize, usize)>, ports: Seq<Option<usize>>, vs: Seq<usize>, ss: Seq<usize>, other: usize)
    requires
        segs.len() <= usize::MAX,
        trail(segs, vs, ss),
        through(segs, ports, vs),
        !stops(segs, ports, vs.last()),
        meets(segs, other as int, vs.last()),
        other != ss.last(),
        ss.contains(other),
    ensures
        vs[0] == vs.last(),
        other == ss[0],
{
    let l = ss.len() as int;
    let v = vs.last();
    assert(vs.last() == vs[l]);
    let j = choose|j: int| 0 <= j < ss.len() && ss[j] == other;
    assert(joins(segs, ss[j] as int, vs[j], vs[j + 1]));
    assert(joins(segs, ss[l - 1] as int, vs[l - 1], vs[l]));
    assert(meets(segs, ss[l - 1] as int, v));
    if vs[j] == v && j > 0 {
        // An inner vertex, or the one before the last.
        if j < l {
            lemma_inner(segs, ports, vs, ss, j, ss[l - 1]);
            assert(ss.no_duplicates());
        }
    } else if vs[j] == v {
        assert(j == 0);
    } else {
        assert(vs[j + 1] == v);
        if j + 1 < l {
            lemma_inner(segs, ports, vs, ss, j + 1, ss[l - 1]);
        }
    }
}

/// Walking back from the first vertex of a trail whose last vertex is a
/// stop, a stroke of the trail that meets it can only be its first.
proof fn lemma_opens(segs: Seq<(usize, usize)>, ports: Seq<Option<usize>>, vs: Seq<usize>, ss: Seq<usize>, other: usize)
    requires
        segs.len() <= usize::MAX,
        trail(segs, vs, ss),
        through(segs, ports, vs),
        stops(segs, ports, vs.last()),
        !stops(segs, ports, vs[0]),
        meets(segs, other as int, vs[0]),
        ss.contains(other),
    ensures
        other == ss[0],
{
    let l = ss.len() as int;
    let v = vs[0];
    let j = choose|j: int| 0 <= j < ss.len() && ss[j] == other;
    assert(joins(segs, ss[j] as int, vs[j], vs[j + 1]));
    assert(joins(segs, ss[0] as int, vs[0], vs[1]));
    assert(meets(segs, ss[0] as int, v));
    assert(vs.last() == vs[l]);
    if vs[j] == v && j > 0 {
        lemma_inner(segs, ports, vs, ss, j, ss[0]);
    } else if vs[j] != v {
        assert(vs[j + 1] == v);
        if j + 1 < l {
            lemma_inner(segs, ports, vs, ss, j + 1, ss[0]);
        }
    }
}

/// A finished run holds every stroke at the vertices it passes through.
proof fn lemma_complete(segs: Seq<(usize, usize)>, ports: Seq<Option<usize>>, vs: Seq<usize>, ss: Seq<usize>, ends: [End; 2])
    requires
        segs.len() <= usize::MAX,
        trail(segs, vs, ss),
        through(segs, ports, vs),
        ended(segs, ports, vs, ends),
    ensures
        complete(segs, ports, vs, ss),
{
    let l = ss.len() as int;
    assert forall|i: int, s: usize|
        0 <= i < vs.len() && !stops(segs, ports, #[trigger] vs[i]) && #[trigger] meets(segs, s as int, vs[i]) implies ss.contains(s) by {
        if 0 < i < l {
            lemma_inner(segs, ports, vs, ss, i, s);
        } else {
            // A loop's one vertex: its first and its last stroke meet there.
            assert(ends[0] == End::Loop);
            assert(vs[0] == vs[l]);
            assert(joins(segs, ss[0] as int, vs[0], vs[1]));
            assert(joins(segs, ss[l - 1] as int, vs[l - 1], vs[l]));
            if l == 1 {
                assert(degenerate(segs, ss[0] as int));
            }
            assert(ss[0] != ss[l - 1]);
            lemma_two_meet(segs, vs[0], ss[0], ss[l - 1], s);
        }
    }
}

/// A run as walked: its vertices from its first end to its second, the
/// strokes between them, and what each end is.
#[derive(Debug, Clone, PartialEq, Eq)]
pub struct Walked {
    pub vertices: Vec<usize>,
    pub strokes: Vec<usize>,
    pub ends: [End; 2],
}

/// The run is walked the way its first stroke (the lowest-numbered) points,
/// and a loop starts at that stroke.
pub open spec fn begun(segs: Seq<(usize, usize)>, vs: Seq<usize>, ss: Seq<usize>, ends: [End; 2]) -> bool {
    exists|p: int|
        0 <= p < ss.len() && (forall|q: int| 0 <= q < ss.len() ==> ss[p] <= #[trigger] ss[q]) && vs[p]
            == segs[ss[p] as int].0 && vs[p + 1] == segs[ss[p] as int].1 && (ends[0] == End::Loop ==> p == 0)
}

/// One run, well walked.
pub open spec fn run_ok(segs: Seq<(usize, usize)>, ports: Seq<Option<usize>>, w: Walked) -> bool {
    &&& trail(segs, w.vertices@, w.strokes@)
    &&& through(segs, ports, w.vertices@)
    &&& ended(segs, ports, w.vertices@, w.ends)
    &&& begun(segs, w.vertices@, w.strokes@, w.ends)
}

/// Stroke `s` is in one of the runs.
pub open spec fn taken(runs: Seq<Walked>, s: usize) -> bool {
    exists|r: int, q: int| 0 <= r < runs.len() && 0 <= q < runs[r].strokes@.len() && #[trigger] runs[r].strokes@[q] == s
}

/// `runs` are the strokes `segs` walked, with `ports` the symbols'
/// connection points by vertex: every stroke that is not degenerate in
/// exactly one run, each run well walked, and the runs in the order of
/// their first strokes.
pub open spec fn walk_of(segs: Seq<(usize, usize)>, ports: Seq<Option<usize>>, runs: Seq<Walked>) -> bool {
    &&& forall|r: int| 0 <= r < runs.len() ==> run_ok(segs, ports, #[trigger] runs[r])
    &&& forall|r: int, q: int, r2: int, q2: int|
        0 <= r < runs.len() && 0 <= q < runs[r].strokes@.len() && 0 <= r2 < runs.len() && 0 <= q2
            < runs[r2].strokes@.len() && (r != r2 || q != q2) ==> #[trigger] runs[r].strokes@[q]
            != #[trigger] runs[r2].strokes@[q2]
    &&& forall|s: usize| s < segs.len() && !degenerate(segs, s as int) ==> #[trigger] taken(runs, s)
    &&& forall|r: int, r2: int, q2: int|
        0 <= r < r2 < runs.len() && 0 <= q2 < runs[r2].strokes@.len() ==> #[trigger] has_below(
            runs[r],
            runs[r2].strokes@[q2],
        )
}

/// The run has a stroke numbered below `x`.
pub open spec fn has_below(w: Walked, x: usize) -> bool {
    exists|q: int| 0 <= q < w.strokes@.len() && #[trigger] w.strokes@[q] < x
}

/// A stroke at a vertex a finished run passes through is that run's.
proof fn lemma_not_done(
    segs: Seq<(usize, usize)>,
    ports: Seq<Option<usize>>,
    runs: Seq<Walked>,
    r: int,
    q: int,
    v: usize,
    cur: usize,
)
    requires
        0 <= r < runs.len(),
        0 <= q < runs[r].strokes@.len(),
        trail(segs, runs[r].vertices@, runs[r].strokes@),
        complete(segs, ports, runs[r].vertices@, runs[r].strokes@),
        meets(segs, runs[r].strokes@[q] as int, v),
        !stops(segs, ports, v),
        meets(segs, cur as int, v),
    ensures
        taken(runs, cur),
{
    let vs = runs[r].vertices@;
    let ss = runs[r].strokes@;
    assert(joins(segs, ss[q] as int, vs[q], vs[q + 1]));
    let i = if vs[q] == v { q } else { q + 1 };
    assert(vs[i] == v);
    assert(ss.contains(cur));
    let k = choose|k: int| 0 <= k < ss.len() && ss[k] == cur;
    assert(runs[r].strokes@[k] == cur);
}

/// What a run ends at on vertex `v`, if it stops there.
fn stop_at(segs: &[(usize, usize)], inc: &Vec<Vec<usize>>, ports: &[Option<usize>], v: usize) -> (e: Option<End>)
    requires
        v < inc@.len(),
        v < ports@.len(),
        inc@[v as int]@ == incident(segs@, v),
    ensures
        match e {
            Some(x) => stops(segs@, ports@, v) && x == end_at(segs@, ports@, v),
            None => !stops(segs@, ports@, v),
        },
{
    match ports[v] {
        Some(i) => Some(End::Symbol(i)),
        None => {
            let d = inc[v].len();
            if d <= 1 {
                Some(End::Open)
            } else if d == 2 {
                None
            } else {
                Some(End::Tee)
            }
        },
    }
}

/// The stroke at `v`, where two meet, other than `cur`.
fn other_at(segs: &[(usize, usize)], inc: &Vec<Vec<usize>>, v: usize, cur: usize) -> (o: usize)
    requires
        segs@.len() <= usize::MAX,
        v < inc@.len(),
        inc@[v as int]@ == incident(segs@, v),
        incident(segs@, v).len() == 2,
        meets(segs@, cur as int, v),
    ensures
        meets(segs@, o as int, v),
        o != cur,
{
    proof {
        lemma_meeting(segs@, v, segs@.len() as int);
        assert(incident(segs@, v).contains(cur));
        assert(incident(segs@, v)[0] < incident(segs@, v)[1]);
        assert(incident(segs@, v).contains(incident(segs@, v)[0]));
        assert(incident(segs@, v).contains(incident(segs@, v)[1]));
    }
    if inc[v][0] == cur {
        inc[v][1]
    } else {
        inc[v][0]
    }
}

/// Walk the run of stroke `start`, marking its strokes used.
fn walk_one(
    segs: &[(usize, usize)],
    inc: &Vec<Vec<usize>>,
    ports: &[Option<usize>],
    used: &mut Vec<bool>,
    start: usize,
    Ghost(done): Ghost<Seq<Walked>>,
) -> (w: Walked)
    requires
        segs@.len() <= usize::MAX,
        inc@.len() == ports@.len(),
        forall|v: int| 0 <= v < inc@.len() ==> (#[trigger] inc@[v])@ == incident(segs@, v as usize),
        forall|s: int| 0 <= s < segs@.len() ==> (#[trigger] segs@[s]).0 < ports@.len() && segs@[s].1 < ports@.len(),
        old(used)@.len() == segs@.len(),
        start < segs@.len(),
        !old(used)@[start as int],
        !degenerate(segs@, start as int),
        forall|s: usize| s < segs@.len() ==> (old(used)@[s as int] <==> #[trigger] taken(done, s)),
        forall|s: int| 0 <= s < start && !degenerate(segs@, s) ==> #[trigger] old(used)@[s],
        forall|r: int|
            0 <= r < done.len() ==> trail(segs@, (#[trigger] done[r]).vertices@, done[r].strokes@) && complete(
                segs@,
                ports@,
                done[r].vertices@,
                done[r].strokes@,
            ),
    ensures
        final(used)@.len() == segs@.len(),
        forall|s: int| 0 <= s < segs@.len() ==> (final(used)@[s] <==> (old(used)@[s] || w.strokes@.contains(s as usize))),
        forall|q: int| 0 <= q < w.strokes@.len() ==> !old(used)@[#[trigger] w.strokes@[q] as int],
        forall|q: int| 0 <= q < w.strokes@.len() ==> start <= #[trigger] w.strokes@[q],
        w.strokes@.contains(start),
        run_ok(segs@, ports@, w),
        complete(segs@, ports@, w.vertices@, w.strokes@),
{
    let ghost sg = segs@;
    let ghost pt = ports@;
    let ghost u0 = used@;
    let n = segs.len();
    let (a, b) = segs[start];
    let mut path: Vec<usize> = Vec::new();
    path.push(a);
    path.push(b);
    let mut strokes: Vec<usize> = Vec::new();
    strokes.push(start);
    proof {
        lemma_count_set(used@, start as int);
    }
    used.set(start, true);
    proof {
        assert(joins(sg, strokes@[0] as int, path@[0], path@[1]));
        assert forall|s: int| 0 <= s < n implies (used@[s] <==> (u0[s] || strokes@.contains(s as usize))) by {
            if s == start {
                assert(strokes@[0] == start);
            } else if strokes@.contains(s as usize) {
                let q = choose|q: int| 0 <= q < strokes@.len() && strokes@[q] == s as usize;
            }
        }
        lemma_count_set_bound(used@);
    }
    let mut going = true;
    let mut closed = false;
    let mut end1 = End::Open;
    // Out the way the first stroke points.
    while going
        invariant
            sg == segs@,
            pt == ports@,
            n == sg.len(),
            sg.len() <= usize::MAX,
            inc@.len() == pt.len(),
            forall|v: int| 0 <= v < inc@.len() ==> (#[trigger] inc@[v])@ == incident(sg, v as usize),
            forall|s: int| 0 <= s < n ==> (#[trigger] sg[s]).0 < pt.len() && sg[s].1 < pt.len(),
            u0.len() == n,
            start < n,
            sg[start as int] == (a, b),
            forall|s: usize| s < n ==> (u0[s as int] <==> #[trigger] taken(done, s)),
            forall|s: int| 0 <= s < start && !degenerate(sg, s) ==> #[trigger] u0[s],
            forall|r: int|
                0 <= r < done.len() ==> trail(sg, (#[trigger] done[r]).vertices@, done[r].strokes@) && complete(
                    sg,
                    pt,
                    done[r].vertices@,
                    done[r].strokes@,
                ),
            trail(sg, path@, strokes@),
            through(sg, pt, path@),
            path@[0] == a,
            path@[1] == b,
            strokes@[0] == start,
            used@.len() == n,
            count_set(used@) <= n,
            forall|s: int| 0 <= s < n ==> (used@[s] <==> (u0[s] || strokes@.contains(s as usize))),
            forall|q: int| 0 <= q < strokes@.len() ==> !u0[#[trigger] strokes@[q] as int],
            forall|q: int| 0 <= q < strokes@.len() ==> start <= #[trigger] strokes@[q],
            going ==> !closed,
            !going && closed ==> path@[0] == path@.last() && !stops(sg, pt, path@[0]),
            !going && !closed ==> stops(sg, pt, path@.last()) && end1 == end_at(sg, pt, path@.last()),
        decreases n - count_set(used@) + if going {
            1int
        } else {
            0int
        },
    {
        let v = path[path.len() - 1];
        assert(path@.last() == path@[path@.len() - 1]);
        let l = strokes.len();
        assert(joins(sg, strokes@[l - 1] as int, path@[l - 1], path@[l as int]));
        match stop_at(segs, inc, ports, v) {
            Some(e) => {
                end1 = e;
                going = false;
            },
            None => {
                let cur = strokes[strokes.len() - 1];
                assert(meets(sg, cur as int, v));
                let other = other_at(segs, inc, v, cur);
                if used[other] {
                    proof {
                        if u0[other as int] {
                            assert(taken(done, other));
                            let (r, q) = choose|r: int, q: int|
                                0 <= r < done.len() && 0 <= q < done[r].strokes@.len() && #[trigger] done[r].strokes@[q] == other;
                            lemma_not_done(sg, pt, done, r, q, v, cur);
                            assert(u0[cur as int]);
                        }
                        lemma_closes(sg, pt, path@, strokes@, other);
                    }
                    closed = true;
                    going = false;
                } else {
                    let (x, y) = segs[other];
                    let w = if x == v { y } else { x };
                    let ghost old_path = path@;
                    let ghost old_strokes = strokes@;
                    let ghost old_used = used@;
                    proof {
                        lemma_count_set(used@, other as int);
                        if other < start {
                            assert(u0[other as int]);
                        }
                        assert(!strokes@.contains(other));
                    }
                    used.set(other, true);
                    strokes.push(other);
                    path.push(w);
                    proof {
                        lemma_count_set_bound(used@);
                        assert(joins(sg, other as int, v, w));
                        assert forall|i: int| 0 <= i < strokes@.len() implies #[trigger] strokes@[i] < sg.len()
                            && !degenerate(sg, strokes@[i] as int) && joins(sg, strokes@[i] as int, path@[i], path@[i + 1]) by {
                            if i < old_strokes.len() {
                                assert(strokes@[i] == old_strokes[i]);
                                assert(path@[i] == old_path[i] && path@[i + 1] == old_path[i + 1]);
                            }
                        }
                        assert forall|i: int, j: int| 0 <= i < j < strokes@.len() implies strokes@[i] != strokes@[j] by {
                            if j == old_strokes.len() {
                                assert(old_strokes.contains(strokes@[i]));
                            }
                        }
                        assert forall|i: int| 0 < i < path@.len() - 1 implies !stops(sg, pt, #[trigger] path@[i]) by {
                            assert(path@[i] == old_path[i]);
                        }
                        assert forall|s: int| 0 <= s < n implies (used@[s] <==> (u0[s] || strokes@.contains(s as usize))) by {
                            if strokes@.contains(s as usize) && s != other {
                                let q = choose|q: int| 0 <= q < strokes@.len() && strokes@[q] == s as usize;
                                assert(old_strokes[q] == s as usize);
                            }
                            if old_strokes.contains(s as usize) {
                                let q = choose|q: int| 0 <= q < old_strokes.len() && old_strokes[q] == s as usize;
                                assert(strokes@[q] == s as usize);
                            }
                            if s == other {
                                assert(strokes@[old_strokes.len() as int] == other);
                            }
                        }
                        assert forall|q: int| 0 <= q < strokes@.len() implies !u0[#[trigger] strokes@[q] as int] by {
                            if q < old_strokes.len() {
                                assert(strokes@[q] == old_strokes[q]);
                            }
                        }
                        assert forall|q: int| 0 <= q < strokes@.len() implies start <= #[trigger] strokes@[q] by {
                            if q < old_strokes.len() {
                                assert(strokes@[q] == old_strokes[q]);
                            }
                        }
                    }
                }
            },
        }
    }
    let ghost mut sp: int = 0;
    let mut end0 = End::Open;
    if !closed {
        going = true;
        // Back the other way.
        while going
            invariant
                sg == segs@,
                pt == ports@,
                n == sg.len(),
                sg.len() <= usize::MAX,
                inc@.len() == pt.len(),
                forall|v: int| 0 <= v < inc@.len() ==> (#[trigger] inc@[v])@ == incident(sg, v as usize),
                forall|s: int| 0 <= s < n ==> (#[trigger] sg[s]).0 < pt.len() && sg[s].1 < pt.len(),
                u0.len() == n,
                start < n,
                sg[start as int] == (a, b),
                !closed,
                forall|s: usize| s < n ==> (u0[s as int] <==> #[trigger] taken(done, s)),
                forall|s: int| 0 <= s < start && !degenerate(sg, s) ==> #[trigger] u0[s],
                forall|r: int|
                    0 <= r < done.len() ==> trail(sg, (#[trigger] done[r]).vertices@, done[r].strokes@) && complete(
                        sg,
                        pt,
                        done[r].vertices@,
                        done[r].strokes@,
                    ),
                trail(sg, path@, strokes@),
                through(sg, pt, path@),
                0 <= sp < strokes@.len(),
                path@[sp] == a,
                path@[sp + 1] == b,
                strokes@[sp] == start,
                stops(sg, pt, path@.last()),
                end1 == end_at(sg, pt, path@.last()),
                used@.len() == n,
                count_set(used@) <= n,
                forall|s: int| 0 <= s < n ==> (used@[s] <==> (u0[s] || strokes@.contains(s as usize))),
                forall|q: int| 0 <= q < strokes@.len() ==> !u0[#[trigger] strokes@[q] as int],
                forall|q: int| 0 <= q < strokes@.len() ==> start <= #[trigger] strokes@[q],
                !going ==> stops(sg, pt, path@[0]) && end0 == end_at(sg, pt, path@[0]),
            decreases n - count_set(used@) + if going {
                1int
            } else {
                0int
            },
        {
            let v = path[0];
            assert(joins(sg, strokes@[0] as int, path@[0], path@[1]));
            match stop_at(segs, inc, ports, v) {
                Some(e) => {
                    end0 = e;
                    going = false;
                },
                None => {
                    let cur = strokes[0];
                    assert(meets(sg, cur as int, v));
                    let other = other_at(segs, inc, v, cur);
                    if used[other] {
                        proof {
                            if u0[other as int] {
                                assert(taken(done, other));
                                let (r, q) = choose|r: int, q: int|
                                    0 <= r < done.len() && 0 <= q < done[r].strokes@.len() && #[trigger] done[r].strokes@[q] == other;
                                lemma_not_done(sg, pt, done, r, q, v, cur);
                                assert(u0[cur as int]);
                            }
                            lemma_opens(sg, pt, path@, strokes@, other);
                        }
                        // Never reached: the walk back meets only fresh strokes.
                        going = false;
                    } else {
                        let (x, y) = segs[other];
                        let w = if x == v { y } else { x };
                        let ghost old_path = path@;
                        let ghost old_strokes = strokes@;
                        proof {
                            lemma_count_set(used@, other as int);
                            if other < start {
                                assert(u0[other as int]);
                            }
                            assert(!strokes@.contains(other));
                        }
                        used.set(other, true);
                        strokes.insert(0, other);
                        path.insert(0, w);
                        proof {
                            sp = sp + 1;
                            lemma_count_set_bound(used@);
                            assert(joins(sg, other as int, w, v));
                            assert(strokes@ =~= seq![other] + old_strokes);
                            assert(path@ =~= seq![w] + old_path);
                            assert forall|i: int| 0 <= i < strokes@.len() implies #[trigger] strokes@[i] < sg.len()
                                && !degenerate(sg, strokes@[i] as int) && joins(sg, strokes@[i] as int, path@[i], path@[i + 1]) by {
                                if i > 0 {
                                    assert(strokes@[i] == old_strokes[i - 1]);
                                    assert(path@[i] == old_path[i - 1] && path@[i + 1] == old_path[i]);
                                }
                            }
                            assert forall|i: int, j: int| 0 <= i < j < strokes@.len() implies strokes@[i] != strokes@[j] by {
                                if i == 0 {
                                    assert(old_strokes.contains(strokes@[j]));
                                } else {
                                    assert(strokes@[i] == old_strokes[i - 1] && strokes@[j] == old_strokes[j - 1]);
                                }
                            }
                            assert forall|i: int| 0 < i < path@.len() - 1 implies !stops(sg, pt, #[trigger] path@[i]) by {
                                assert(path@[i] == old_path[i - 1]);
                            }
                            assert(path@.last() == old_path.last());
                            assert forall|s: int| 0 <= s < n implies (used@[s] <==> (u0[s] || strokes@.contains(s as usize))) by {
                                if strokes@.contains(s as usize) && s != other {
                                    let q = choose|q: int| 0 <= q < strokes@.len() && strokes@[q] == s as usize;
                                    assert(old_strokes[q - 1] == s as usize);
                                }
                                if old_strokes.contains(s as usize) {
                                    let q = choose|q: int| 0 <= q < old_strokes.len() && old_strokes[q] == s as usize;
                                    assert(strokes@[q + 1] == s as usize);
                                }
                                if s == other {
                                    assert(strokes@[0] == other);
                                }
                            }
                            assert forall|q: int| 0 <= q < strokes@.len() implies !u0[#[trigger] strokes@[q] as int] by {
                                if q > 0 {
                                    assert(strokes@[q] == old_strokes[q - 1]);
                                }
                            }
                            assert forall|q: int| 0 <= q < strokes@.len() implies start <= #[trigger] strokes@[q] by {
                                if q > 0 {
                                    assert(strokes@[q] == old_strokes[q - 1]);
                                }
                            }
                        }
                    }
                },
            }
        }
    }
    let ends = if closed {
        [End::Loop, End::Loop]
    } else {
        [end0, end1]
    };
    let w = Walked { vertices: path, strokes, ends };
    proof {
        assert(w.strokes@[sp] == start);
        assert(begun(sg, w.vertices@, w.strokes@, ends));
        lemma_complete(sg, pt, w.vertices@, w.strokes@, ends);
    }
    w
}

/// Stroke `s` is in one of the runs, or in `w`.
proof fn lemma_taken_push(runs: Seq<Walked>, w: Walked, s: usize)
    ensures
        taken(runs.push(w), s) <==> (taken(runs, s) || w.strokes@.contains(s)),
{
    let t = runs.push(w);
    if taken(t, s) {
        let (r, q) = choose|r: int, q: int| 0 <= r < t.len() && 0 <= q < t[r].strokes@.len() && #[trigger] t[r].strokes@[q] == s;
        if r < runs.len() {
            assert(runs[r].strokes@[q] == s);
        } else {
            assert(w.strokes@[q] == s);
        }
    }
    if taken(runs, s) {
        let (r, q) = choose|r: int, q: int| 0 <= r < runs.len() && 0 <= q < runs[r].strokes@.len() && #[trigger] runs[r].strokes@[q] == s;
        assert(t[r].strokes@[q] == s);
    }
    if w.strokes@.contains(s) {
        let q = choose|q: int| 0 <= q < w.strokes@.len() && w.strokes@[q] == s;
        assert(t[runs.len() as int].strokes@[q] == s);
    }
}

/// The strokes `segs`, each joining two vertices numbered below
/// `ports.len()`, walked into runs; `ports` gives, by vertex, the symbol
/// whose connection point is there. Runs are found in the order of their
/// lowest-numbered strokes.
pub fn walk_runs(segs: &[(usize, usize)], ports: &[Option<usize>]) -> (runs: Vec<Walked>)
    requires
        forall|s: int| 0 <= s < segs@.len() ==> (#[trigger] segs@[s]).0 < ports@.len() && segs@[s].1 < ports@.len(),
    ensures
        walk_of(segs@, ports@, runs@),
{
    let n = segs.len();
    let inc = incident_lists(segs, ports.len());
    let mut used: Vec<bool> = Vec::new();
    while used.len() < n
        invariant
            used@.len() <= n,
            forall|s: int| 0 <= s < used@.len() ==> !(#[trigger] used@[s]),
        decreases n - used@.len(),
    {
        used.push(false);
    }
    let mut runs: Vec<Walked> = Vec::new();
    let ghost mut starts: Seq<usize> = Seq::empty();
    proof {
        assert forall|s: usize| s < n implies (used@[s as int] <==> #[trigger] taken(runs@, s)) by {}
    }
    let mut start: usize = 0;
    while start < n
        invariant
            n == segs@.len(),
            start <= n,
            inc@.len() == ports@.len(),
            forall|v: int| 0 <= v < inc@.len() ==> (#[trigger] inc@[v])@ == incident(segs@, v as usize),
            forall|s: int| 0 <= s < n ==> (#[trigger] segs@[s]).0 < ports@.len() && segs@[s].1 < ports@.len(),
            used@.len() == n,
            forall|s: usize| s < n ==> (used@[s as int] <==> #[trigger] taken(runs@, s)),
            forall|s: int| 0 <= s < start && !degenerate(segs@, s) ==> #[trigger] used@[s],
            forall|r: int| 0 <= r < runs@.len() ==> run_ok(segs@, ports@, #[trigger] runs@[r]),
            forall|r: int|
                0 <= r < runs@.len() ==> complete(segs@, ports@, (#[trigger] runs@[r]).vertices@, runs@[r].strokes@),
            forall|r: int, q: int, r2: int, q2: int|
                0 <= r < runs@.len() && 0 <= q < runs@[r].strokes@.len() && 0 <= r2 < runs@.len() && 0 <= q2
                    < runs@[r2].strokes@.len() && (r != r2 || q != q2) ==> #[trigger] runs@[r].strokes@[q]
                    != #[trigger] runs@[r2].strokes@[q2],
            forall|r: int, q: int| 0 <= r < runs@.len() && 0 <= q < runs@[r].strokes@.len() ==> #[trigger] runs@[r].strokes@[q] < n,
            starts.len() == runs@.len(),
            forall|r: int| 0 <= r < runs@.len() ==> (#[trigger] starts[r]) < start && runs@[r].strokes@.contains(starts[r]),
            forall|r: int, q: int| 0 <= r < runs@.len() && 0 <= q < runs@[r].strokes@.len() ==> starts[r] <= #[trigger] runs@[r].strokes@[q],
            forall|r: int, r2: int| 0 <= r < r2 < runs@.len() ==> #[trigger] starts[r] < #[trigger] starts[r2],
        decreases n - start,
    {
        let (a, b) = segs[start];
        if !used[start] && a != b {
            let ghost before = runs@;
            let ghost u_before = used@;
            let w = walk_one(segs, &inc, ports, &mut used, start, Ghost(runs@));
            proof {
                assert forall|s: usize| s < n implies (used@[s as int] <==> #[trigger] taken(before.push(w), s)) by {
                    lemma_taken_push(before, w, s);
                }
                assert(w.strokes@.no_duplicates());
            }
            runs.push(w);
            proof {
                starts = starts.push(start);
                assert(runs@ == before.push(w));
                let l = before.len() as int;
                assert(runs@[l] == w);
                assert forall|r: int, q: int, r2: int, q2: int|
                    0 <= r < runs@.len() && 0 <= q < runs@[r].strokes@.len() && 0 <= r2 < runs@.len() && 0 <= q2
                        < runs@[r2].strokes@.len() && (r != r2 || q != q2) implies #[trigger] runs@[r].strokes@[q]
                        != #[trigger] runs@[r2].strokes@[q2] by {
                    if r == l && r2 == l {
                    } else if r == l {
                        assert(runs@[r2] == before[r2]);
                        assert(taken(before, runs@[r2].strokes@[q2]));
                        assert(!u_before[runs@[r].strokes@[q] as int]);
                    } else if r2 == l {
                        assert(runs@[r] == before[r]);
                        assert(taken(before, runs@[r].strokes@[q]));
                        assert(!u_before[runs@[r2].strokes@[q2] as int]);
                    } else {
                        assert(runs@[r] == before[r] && runs@[r2] == before[r2]);
                    }
                }
                assert forall|s: int| 0 <= s < start + 1 && !degenerate(segs@, s) implies #[trigger] used@[s] by {
                    if s == start {
                        assert(w.strokes@.contains(start));
                    }
                }
                assert forall|r: int| 0 <= r < runs@.len() implies (#[trigger] starts[r]) < start + 1 && runs@[r].strokes@.contains(starts[r]) by {
                    if r < l {
                        assert(runs@[r] == before[r]);
                    }
                }
            }
        }
        start += 1;
    }
    proof {
        assert forall|s: usize| s < segs@.len() && !degenerate(segs@, s as int) implies #[trigger] taken(runs@, s) by {
            assert(used@[s as int]);
        }
        assert forall|r: int, r2: int, q2: int|
            0 <= r < r2 < runs@.len() && 0 <= q2 < runs@[r2].strokes@.len() implies #[trigger] has_below(
                runs@[r],
                runs@[r2].strokes@[q2],
            ) by {
            assert(starts[r] < starts[r2]);
            assert(starts[r2] <= runs@[r2].strokes@[q2]);
            let q = choose|q: int| 0 <= q < runs@[r].strokes@.len() && runs@[r].strokes@[q] == starts[r];
            assert(runs@[r].strokes@[q] < runs@[r2].strokes@[q2]);
        }
    }
    runs
}

proof fn lemma_count_set_bound(s: Seq<bool>)
    ensures
        count_set(s) <= s.len(),
    decreases s.len(),
{
    if s.len() > 0 {
        lemma_count_set_bound(s.drop_last());
    }
}

} // verus!
