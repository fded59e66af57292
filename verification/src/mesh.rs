//! The outline of a triangle mesh: the edges no two triangles share, walked
//! into rings. Interior edges appear once in each direction and cancel; what
//! is left is the outline plus one ring per hole, each keeping the winding
//! the mesh gave it. A vertex is given by a key, equal for equal points.

use vstd::prelude::*;

verus! {

/// The three directed edges of a triangle.
pub open spec fn tri_edges(t: [u64; 3]) -> Seq<(u64, u64)> {
    seq![(t[0], t[1]), (t[1], t[2]), (t[2], t[0])]
}

/// Every directed edge of the mesh, triangle by triangle.
pub open spec fn mesh_edges(tris: Seq<[u64; 3]>) -> Seq<(u64, u64)>
    decreases tris.len(),
{
    if tris.len() == 0 {
        Seq::empty()
    } else {
        mesh_edges(tris.drop_last()) + tri_edges(tris.last())
    }
}

/// Every corner of the mesh, triangle by triangle.
pub open spec fn corners(tris: Seq<[u64; 3]>) -> Seq<u64>
    decreases tris.len(),
{
    if tris.len() == 0 {
        Seq::empty()
    } else {
        corners(tris.drop_last()) + seq![tris.last()[0], tris.last()[1], tris.last()[2]]
    }
}

/// A triangle with two corners at one point.
pub open spec fn degenerate(t: [u64; 3]) -> bool {
    t[0] == t[1] || t[1] == t[2] || t[2] == t[0]
}

/// The edges left after cancelling each edge against one the other way:
/// `None` when an edge comes twice the same way before it is cancelled.
pub open spec fn fold_edges(es: Seq<(u64, u64)>) -> Option<Set<(u64, u64)>>
    decreases es.len(),
{
    if es.len() == 0 {
        Some(Set::empty())
    } else {
        match fold_edges(es.drop_last()) {
            None => None,
            Some(s) => {
                let (a, b) = es.last();
                if s.contains((b, a)) {
                    Some(s.remove((b, a)))
                } else if s.contains((a, b)) {
                    None
                } else {
                    Some(s.insert((a, b)))
                }
            },
        }
    }
}

/// The outline's edges: `None` for a degenerate triangle or an edge the
/// mesh runs twice the same way.
pub open spec fn boundary(tris: Seq<[u64; 3]>) -> Option<Set<(u64, u64)>> {
    if exists|i: int| 0 <= i < tris.len() && degenerate(#[trigger] tris[i]) {
        None
    } else {
        fold_edges(mesh_edges(tris))
    }
}

/// Each vertex has at most one outline edge leaving it.
pub open spec fn functional(b: Set<(u64, u64)>) -> bool {
    forall|x: u64, y: u64, z: u64| #[trigger] b.contains((x, y)) && #[trigger] b.contains((x, z)) ==> y == z
}

/// Each vertex has at most one outline edge arriving at it.
pub open spec fn injective(b: Set<(u64, u64)>) -> bool {
    forall|x: u64, y: u64, z: u64| #[trigger] b.contains((x, z)) && #[trigger] b.contains((y, z)) ==> x == y
}

/// Some outline edge leaves `v`.
pub open spec fn is_source(b: Set<(u64, u64)>, v: u64) -> bool {
    exists|w: u64| #[trigger] b.contains((v, w))
}

/// Every outline edge arrives where another leaves.
pub open spec fn closed(b: Set<(u64, u64)>) -> bool {
    forall|x: u64, y: u64| #[trigger] b.contains((x, y)) ==> is_source(b, y)
}

/// The mesh has a clean outline: there is one, and it is rings -- one edge
/// in and one out at every vertex on it.
pub open spec fn clean(tris: Seq<[u64; 3]>) -> bool {
    match boundary(tris) {
        None => false,
        Some(b) => (exists|e: (u64, u64)| b.contains(e)) && functional(b) && injective(b) && closed(b),
    }
}

/// The index of the first `v` in `s`; the length when there is none.
pub open spec fn first_index(s: Seq<u64>, v: u64) -> nat
    decreases s.len(),
{
    if s.len() == 0 {
        0
    } else if s[0] == v {
        0
    } else {
        1 + first_index(s.drop_first(), v)
    }
}

/// The vertex after position `k` of a ring.
pub open spec fn ring_next(r: Seq<u64>, k: int) -> u64 {
    if k + 1 < r.len() {
        r[k + 1]
    } else {
        r[0]
    }
}

/// `rings` is the outline `b` of a mesh with corners `c`, walked: each ring
/// follows the outline edges round, no vertex is on two rings or twice on
/// one, every vertex an edge leaves is on a ring, each ring starts at its
/// vertex that comes first among the corners, and the rings come in the
/// order their starts do.
pub open spec fn rings_of(rings: Seq<Seq<u64>>, b: Set<(u64, u64)>, c: Seq<u64>) -> bool {
    &&& forall|a: int| 0 <= a < rings.len() ==> (#[trigger] rings[a]).len() >= 3
    &&& forall|a: int, k: int|
        0 <= a < rings.len() && 0 <= k < rings[a].len() ==> #[trigger] b.contains(
            (rings[a][k], ring_next(rings[a], k)),
        )
    &&& forall|a: int, k: int, a2: int, k2: int|
        0 <= a < rings.len() && 0 <= k < rings[a].len() && 0 <= a2 < rings.len() && 0 <= k2
            < rings[a2].len() && (a != a2 || k != k2) ==> #[trigger] rings[a][k] != #[trigger] rings[a2][k2]
    &&& forall|v: u64| #[trigger] is_source(b, v) <==> on_rings(rings, v)
    &&& forall|a: int, k: int|
        0 <= a < rings.len() && 0 <= k < rings[a].len() ==> first_index(c, rings[a][0]) <= first_index(
            c,
            #[trigger] rings[a][k],
        )
    &&& forall|a: int, a2: int|
        0 <= a < a2 < rings.len() ==> first_index(c, (#[trigger] rings[a])[0]) < first_index(
            c,
            (#[trigger] rings[a2])[0],
        )
}

// ── cancelling the edges ────────────────────────────────────────────────

proof fn lemma_remove_to_set(s: Seq<(u64, u64)>, i: int)
    requires
        s.no_duplicates(),
        0 <= i < s.len(),
    ensures
        s.remove(i).to_set() == s.to_set().remove(s[i]),
        s.remove(i).no_duplicates(),
{
    let r = s.remove(i);
    assert forall|x: (u64, u64)| #[trigger] r.to_set().contains(x) <==> s.to_set().remove(s[i]).contains(x) by {
        if r.contains(x) {
            let q = choose|q: int| 0 <= q < r.len() && #[trigger] r[q] == x;
            if q < i {
                assert(s[q] == x);
            } else {
                assert(s[q + 1] == x);
            }
        }
        if s.contains(x) && x != s[i] {
            let q = choose|q: int| 0 <= q < s.len() && #[trigger] s[q] == x;
            if q < i {
                assert(r[q] == x);
            } else {
                assert(q != i);
                assert(r[q - 1] == x);
            }
        }
    }
    assert(r.to_set() =~= s.to_set().remove(s[i]));
    assert forall|p: int, q: int| 0 <= p < q < r.len() implies r[p] != r[q] by {
        let sp = if p < i { p } else { p + 1 };
        let sq = if q < i { q } else { q + 1 };
        assert(r[p] == s[sp] && r[q] == s[sq]);
    }
}

proof fn lemma_fold_failed_extends(s: Seq<(u64, u64)>, t: Seq<(u64, u64)>)
    requires
        fold_edges(s) is None,
    ensures
        fold_edges(s + t) is None,
    decreases t.len(),
{
    if t.len() == 0 {
        assert(s + t =~= s);
    } else {
        lemma_fold_failed_extends(s, t.drop_last());
        assert((s + t).drop_last() =~= s + t.drop_last());
    }
}

proof fn lemma_mesh_edges_append(a: Seq<[u64; 3]>, b: Seq<[u64; 3]>)
    ensures
        mesh_edges(a + b) == mesh_edges(a) + mesh_edges(b),
    decreases b.len(),
{
    if b.len() == 0 {
        assert(a + b =~= a);
        assert(mesh_edges(a) + mesh_edges(b) =~= mesh_edges(a));
    } else {
        lemma_mesh_edges_append(a, b.drop_last());
        assert((a + b).drop_last() =~= a + b.drop_last());
        assert((a + b).last() == b.last());
        assert(mesh_edges(a) + mesh_edges(b) =~= mesh_edges(a) + mesh_edges(b.drop_last()) + tri_edges(
            b.last(),
        ));
    }
}

/// An edge that fails the cancelling fails the whole mesh.
proof fn lemma_failure_propagates(tris: Seq<[u64; 3]>, i: int, c: int)
    requires
        0 <= i < tris.len(),
        0 <= c < 3,
        fold_edges(mesh_edges(tris.take(i)) + tri_edges(tris[i]).take(c + 1)) is None,
    ensures
        fold_edges(mesh_edges(tris)) is None,
{
    let pre = mesh_edges(tris.take(i)) + tri_edges(tris[i]).take(c + 1);
    let rest = tri_edges(tris[i]).skip(c + 1) + mesh_edges(tris.skip(i + 1));
    lemma_fold_failed_extends(pre, rest);
    lemma_mesh_edges_append(tris.take(i + 1), tris.skip(i + 1));
    assert(tris.take(i + 1) + tris.skip(i + 1) =~= tris);
    assert(tris.take(i + 1).drop_last() =~= tris.take(i));
    assert(mesh_edges(tris.take(i + 1)) == mesh_edges(tris.take(i)) + tri_edges(tris[i]));
    assert(pre + rest =~= mesh_edges(tris.take(i + 1)) + mesh_edges(tris.skip(i + 1)));
}

fn position_of(edges: &Vec<(u64, u64)>, e: (u64, u64)) -> (r: Option<usize>)
    ensures
        match r {
            Some(i) => i < edges@.len() && edges@[i as int] == e,
            None => !edges@.contains(e),
        },
{
    let mut i: usize = 0;
    while i < edges.len()
        invariant
            i <= edges@.len(),
            forall|k: int| 0 <= k < i ==> edges@[k] != e,
        decreases edges@.len() - i,
    {
        if edges[i].0 == e.0 && edges[i].1 == e.1 {
            return Some(i);
        }
        i += 1;
    }
    None
}

/// Cancel the edges of `tris`: `None` when one comes twice the same way.
fn cancel_edges(tris: &[[u64; 3]]) -> (out: Option<Vec<(u64, u64)>>)
    ensures
        match out {
            Some(es) => fold_edges(mesh_edges(tris@)) == Some(es@.to_set()) && es@.no_duplicates(),
            None => fold_edges(mesh_edges(tris@)) is None,
        },
{
    let mut edges: Vec<(u64, u64)> = Vec::new();
    let ghost mut done: Seq<(u64, u64)> = Seq::empty();
    let mut i: usize = 0;
    assert(edges@.to_set() =~= Set::<(u64, u64)>::empty());
    assert(mesh_edges(tris@.take(0)) =~= Seq::<(u64, u64)>::empty());
    while i < tris.len()
        invariant
            i <= tris@.len(),
            done == mesh_edges(tris@.take(i as int)),
            fold_edges(done) == Some(edges@.to_set()),
            edges@.no_duplicates(),
        decreases tris@.len() - i,
    {
        let t = tris[i];
        assert(tris@.take(i + 1).drop_last() =~= tris@.take(i as int));
        assert(tris@.take(i + 1).last() == t);
        let mut c: usize = 0;
        let ghost start = done;
        while c < 3
            invariant
                i < tris@.len(),
                c <= 3,
                t == tris@[i as int],
                start == mesh_edges(tris@.take(i as int)),
                done == start + tri_edges(t).take(c as int),
                fold_edges(done) == Some(edges@.to_set()),
                edges@.no_duplicates(),
            decreases 3 - c,
        {
            let a = t[c];
            let b = t[if c == 2 { 0 } else { c + 1 }];
            assert(tri_edges(t)[c as int] == (a, b));
            let ghost next = done.push((a, b));
            let ghost old_edges = edges@;
            assert(next.drop_last() =~= done);
            assert(next.last() == (a, b));
            assert(next =~= start + tri_edges(t).take(c + 1));
            match position_of(&edges, (b, a)) {
                Some(k) => {
                    proof {
                        lemma_remove_to_set(edges@, k as int);
                        assert(edges@.to_set().contains((b, a)));
                    }
                    edges.remove(k);
                    assert(fold_edges(next) == Some(old_edges.to_set().remove((b, a))));
                },
                None => {
                    assert(!edges@.to_set().contains((b, a)));
                    match position_of(&edges, (a, b)) {
                        Some(k) => {
                            assert(edges@.to_set().contains((a, b)));
                            assert(fold_edges(next) is None);
                            proof {
                                lemma_failure_propagates(tris@, i as int, c as int);
                            }
                            return None;
                        },
                        None => {
                            edges.push((a, b));
                            proof {
                                assert(edges@ =~= old_edges.push((a, b)));
                                crate::sorted::lemma_push_to_set(old_edges, (a, b));
                                assert(!old_edges.contains((a, b)));
                                assert forall|p: int, q: int| 0 <= p < q < edges@.len() implies edges@[p]
                                    != edges@[q] by {
                                    if q == edges@.len() - 1 {
                                        assert(old_edges[p] == edges@[p]);
                                    }
                                }
                                assert(fold_edges(next) == Some(old_edges.to_set().insert((a, b))));
                            }
                        },
                    }
                },
            }
            proof {
                done = next;
                assert(done =~= start + tri_edges(t).take(c + 1));
            }
            c += 1;
        }
        assert(tri_edges(t).take(3) =~= tri_edges(t));
        i += 1;
    }
    assert(tris@.take(tris@.len() as int) =~= tris@);
    Some(edges)
}

// ── facts about the outline ─────────────────────────────────────────────

proof fn lemma_edges_are_corners(tris: Seq<[u64; 3]>)
    ensures
        mesh_edges(tris).len() == corners(tris).len(),
        forall|k: int| 0 <= k < mesh_edges(tris).len() ==> (#[trigger] mesh_edges(tris)[k]).0 == corners(tris)[k],
        (forall|i: int| 0 <= i < tris.len() ==> !degenerate(#[trigger] tris[i])) ==> forall|k: int|
            0 <= k < mesh_edges(tris).len() ==> (#[trigger] mesh_edges(tris)[k]).0 != mesh_edges(tris)[k].1,
    decreases tris.len(),
{
    if tris.len() > 0 {
        let d = tris.drop_last();
        lemma_edges_are_corners(d);
        let m = mesh_edges(tris);
        let md = mesh_edges(d);
        assert forall|k: int| 0 <= k < m.len() implies (#[trigger] m[k]).0 == corners(tris)[k] by {
            if k >= md.len() {
                assert(m[k] == tri_edges(tris.last())[k - md.len()]);
            } else {
                assert(m[k] == md[k]);
            }
        }
        if forall|i: int| 0 <= i < tris.len() ==> !degenerate(#[trigger] tris[i]) {
            assert(forall|i: int| 0 <= i < d.len() ==> !degenerate(#[trigger] d[i])) by {
                assert forall|i: int| 0 <= i < d.len() implies !degenerate(#[trigger] d[i]) by {
                    assert(d[i] == tris[i]);
                }
            }
            assert(!degenerate(tris[tris.len() - 1]));
            assert forall|k: int| 0 <= k < m.len() implies (#[trigger] m[k]).0 != m[k].1 by {
                if k >= md.len() {
                    assert(m[k] == tri_edges(tris.last())[k - md.len()]);
                } else {
                    assert(m[k] == md[k]);
                }
            }
        }
    }
}

/// What the cancelling leaves: edges of the input, never one both ways.
proof fn lemma_fold_props(es: Seq<(u64, u64)>)
    requires
        forall|k: int| 0 <= k < es.len() ==> (#[trigger] es[k]).0 != es[k].1,
    ensures
        fold_edges(es) matches Some(b) ==> (forall|e: (u64, u64)| #[trigger] b.contains(e) ==> es.contains(e))
            && (forall|x: u64, y: u64| #[trigger] b.contains((x, y)) ==> !b.contains((y, x))),
    decreases es.len(),
{
    if es.len() > 0 {
        let d = es.drop_last();
        assert forall|k: int| 0 <= k < d.len() implies (#[trigger] d[k]).0 != d[k].1 by {
            assert(d[k] == es[k]);
        }
        lemma_fold_props(d);
        match fold_edges(d) {
            None => {},
            Some(s) => {
                let (a, b) = es.last();
                assert(es[es.len() - 1] == (a, b));
                assert forall|e: (u64, u64)| d.contains(e) implies es.contains(e) by {
                    let q = choose|q: int| 0 <= q < d.len() && #[trigger] d[q] == e;
                    assert(es[q] == e);
                }
            },
        }
    }
}

// ── walking the rings ───────────────────────────────────────────────────

/// How many of `s` are set.
pub open spec fn count_set(s: Seq<bool>) -> nat
    decreases s.len(),
{
    if s.len() == 0 {
        0
    } else {
        count_set(s.drop_last()) + if s.last() {
            1nat
        } else {
            0nat
        }
    }
}

pub(crate) proof fn lemma_count_set(s: Seq<bool>, k: int)
    requires
        0 <= k < s.len(),
        !s[k],
    ensures
        count_set(s.update(k, true)) == count_set(s) + 1,
        count_set(s) < s.len(),
    decreases s.len(),
{
    let d = s.drop_last();
    if k == s.len() - 1 {
        assert(s.update(k, true).drop_last() =~= d);
        lemma_count_le(d);
    } else {
        lemma_count_set(d, k);
        assert(s.update(k, true).drop_last() =~= d.update(k, true));
    }
}

proof fn lemma_count_le(s: Seq<bool>)
    ensures
        count_set(s) <= s.len(),
    decreases s.len(),
{
    if s.len() > 0 {
        lemma_count_le(s.drop_last());
    }
}

proof fn lemma_all_set(s: Seq<bool>, k: int)
    requires
        count_set(s) == s.len(),
        0 <= k < s.len(),
    ensures
        s[k],
    decreases s.len(),
{
    lemma_count_le(s.drop_last());
    if k < s.len() - 1 {
        assert(s.drop_last()[k] == s[k]);
        lemma_all_set(s.drop_last(), k);
    }
}

/// The index of the edge leaving `v`.
fn source_index(edges: &Vec<(u64, u64)>, v: u64) -> (r: Option<usize>)
    ensures
        match r {
            Some(k) => k < edges@.len() && edges@[k as int].0 == v,
            None => forall|k: int| 0 <= k < edges@.len() ==> (#[trigger] edges@[k]).0 != v,
        },
{
    let mut i: usize = 0;
    while i < edges.len()
        invariant
            i <= edges@.len(),
            forall|k: int| 0 <= k < i ==> (#[trigger] edges@[k]).0 != v,
        decreases edges@.len() - i,
    {
        if edges[i].0 == v {
            return Some(i);
        }
        i += 1;
    }
    None
}

fn holds_key(v: &Vec<u64>, x: u64) -> (r: bool)
    ensures
        r == v@.contains(x),
{
    let mut i: usize = 0;
    while i < v.len()
        invariant
            i <= v@.len(),
            forall|k: int| 0 <= k < i ==> v@[k] != x,
        decreases v@.len() - i,
    {
        if v[i] == x {
            return true;
        }
        i += 1;
    }
    false
}

/// The rings as sequences.
pub open spec fn ring_views(rings: Seq<Vec<u64>>) -> Seq<Seq<u64>> {
    rings.map_values(|r: Vec<u64>| r@)
}

proof fn lemma_first_index(s: Seq<u64>, v: u64, i: int)
    requires
        0 <= i < s.len(),
        s[i] == v,
    ensures
        first_index(s, v) <= i,
        0 <= first_index(s, v) < s.len(),
        s[first_index(s, v) as int] == v,
    decreases i,
{
    if s[0] != v {
        lemma_first_index(s.drop_first(), v, i - 1);
    }
}

proof fn lemma_first_index_exact(s: Seq<u64>, v: u64, i: int)
    requires
        0 <= i < s.len(),
        s[i] == v,
        forall|j: int| 0 <= j < i ==> s[j] != v,
    ensures
        first_index(s, v) == i,
    decreases i,
{
    if i > 0 {
        assert(s[0] != v);
        assert forall|j: int| 0 <= j < i - 1 implies s.drop_first()[j] != v by {
            assert(s.drop_first()[j] == s[j + 1]);
        }
        lemma_first_index_exact(s.drop_first(), v, i - 1);
    }
}


/// `v` is on one of `rings`.
pub open spec fn on_rings(rings: Seq<Seq<u64>>, v: u64) -> bool {
    exists|a: int, k: int| 0 <= a < rings.len() && 0 <= k < rings[a].len() && #[trigger] rings[a][k] == v
}

/// Every vertex of `r` has its outline edge to the next one round.
pub open spec fn cycle(b: Set<(u64, u64)>, r: Seq<u64>) -> bool {
    forall|k: int| 0 <= k < r.len() ==> #[trigger] b.contains((r[k], ring_next(r, k)))
}

/// No two edges of `edges` leave one vertex.
pub open spec fn sources_apart(edges: Seq<(u64, u64)>) -> bool {
    forall|p: int, q: int|
        0 <= p < edges.len() && 0 <= q < edges.len() && p != q ==> (#[trigger] edges[p]).0 != (
        #[trigger] edges[q]).0
}

/// No two edges of `edges` leave one vertex or arrive at one.
pub open spec fn ends_apart(edges: Seq<(u64, u64)>) -> bool {
    forall|p: int, q: int|
        0 <= p < edges.len() && 0 <= q < edges.len() && p != q ==> (#[trigger] edges[p]).0 != (
        #[trigger] edges[q]).0 && edges[p].1 != edges[q].1
}

/// The outline never runs from a vertex to itself, nor back the way it came.
pub open spec fn no_turns(b: Set<(u64, u64)>) -> bool {
    &&& forall|x: u64| !#[trigger] b.contains((x, x))
    &&& forall|x: u64, y: u64| #[trigger] b.contains((x, y)) ==> !b.contains((y, x))
}

proof fn lemma_push_contains(s: Seq<u64>, a: u64, x: u64)
    ensures
        s.push(a).contains(x) <==> (s.contains(x) || x == a),
{
    if s.push(a).contains(x) {
        let q = choose|q: int| 0 <= q < s.push(a).len() && s.push(a)[q] == x;
        if q < s.len() {
            assert(s[q] == x);
        }
    }
    if s.contains(x) {
        let q = choose|q: int| 0 <= q < s.len() && s[q] == x;
        assert(s.push(a)[q] == x);
    }
    if x == a {
        assert(s.push(a)[s.len() as int] == x);
    }
}

proof fn lemma_on_rings_push(rs: Seq<Seq<u64>>, r: Seq<u64>, x: u64)
    ensures
        on_rings(rs.push(r), x) <==> (on_rings(rs, x) || r.contains(x)),
{
    let t = rs.push(r);
    if on_rings(t, x) {
        let (a, k) = choose|a: int, k: int| 0 <= a < t.len() && 0 <= k < t[a].len() && #[trigger] t[a][k] == x;
        if a < rs.len() {
            assert(rs[a][k] == x);
        } else {
            assert(r[k] == x);
        }
    }
    if on_rings(rs, x) {
        let (a, k) = choose|a: int, k: int| 0 <= a < rs.len() && 0 <= k < rs[a].len() && #[trigger] rs[a][k] == x;
        assert(t[a][k] == x);
    }
    if r.contains(x) {
        let k = choose|k: int| 0 <= k < r.len() && r[k] == x;
        assert(t[rs.len() as int][k] == x);
    }
}

/// Where the edge leaving `v` is, given that one does.
proof fn lemma_source_has_index(edges: Seq<(u64, u64)>, v: u64)
    requires
        is_source(edges.to_set(), v),
    ensures
        exists|k: int| 0 <= k < edges.len() && (#[trigger] edges[k]).0 == v,
{
    let w = choose|w: u64| #[trigger] edges.to_set().contains((v, w));
    let k = choose|k: int| 0 <= k < edges.len() && edges[k] == (v, w);
    assert(edges[k].0 == v);
}

proof fn lemma_index_is_source(edges: Seq<(u64, u64)>, k: int)
    requires
        0 <= k < edges.len(),
    ensures
        is_source(edges.to_set(), edges[k].0),
{
    assert(edges.to_set().contains(edges[k]));
    assert(edges[k] == (edges[k].0, edges[k].1));
}

/// The vertex the walk reaches next is on no ring yet: an edge already
/// arrives at every vertex on one, and only one edge arrives anywhere.
proof fn lemma_fresh(b: Set<(u64, u64)>, done: Seq<Seq<u64>>, ring: Seq<u64>, at: u64)
    requires
        injective(b),
        ring.len() >= 1,
        at != ring[0],
        forall|j: int| 0 <= j < ring.len() - 1 ==> #[trigger] b.contains((ring[j], ring[j + 1])),
        b.contains((ring.last(), at)),
        ring.no_duplicates(),
        !on_rings(done, ring.last()),
        forall|a: int| 0 <= a < done.len() ==> cycle(b, #[trigger] done[a]),
    ensures
        !ring.contains(at),
        !on_rings(done, at),
{
    if ring.contains(at) {
        let j = choose|j: int| 0 <= j < ring.len() && ring[j] == at;
        assert(j != 0);
        let p = j - 1;
        assert(b.contains((ring[p], ring[p + 1])));
        assert(ring[p] == ring[ring.len() - 1]);
    }
    if on_rings(done, at) {
        let (a, q) = choose|a: int, q: int| 0 <= a < done.len() && 0 <= q < done[a].len() && #[trigger] done[a][q] == at;
        let r = done[a];
        assert(cycle(b, r));
        let p = if q > 0 { q - 1 } else { r.len() - 1 };
        assert(b.contains((r[p], ring_next(r, p))));
        assert(ring_next(r, p) == at);
        assert(r[p] == ring.last());
        assert(done[a][p] == ring.last());
    }
}

/// The walk's ring, one vertex longer.
proof fn lemma_extend(b: Set<(u64, u64)>, done: Seq<Seq<u64>>, ring: Seq<u64>, at: u64)
    requires
        ring.len() >= 1,
        forall|j: int| 0 <= j < ring.len() - 1 ==> #[trigger] b.contains((ring[j], ring[j + 1])),
        b.contains((ring.last(), at)),
        ring.no_duplicates(),
        forall|j: int| 0 <= j < ring.len() ==> !on_rings(done, #[trigger] ring[j]),
        !ring.contains(at),
        !on_rings(done, at),
    ensures
        forall|j: int| 0 <= j < ring.push(at).len() - 1 ==> #[trigger] b.contains((ring.push(at)[j], ring.push(at)[j + 1])),
        ring.push(at).no_duplicates(),
        forall|j: int| 0 <= j < ring.push(at).len() ==> !on_rings(done, #[trigger] ring.push(at)[j]),
{
    let r = ring.push(at);
    assert forall|j: int| 0 <= j < r.len() - 1 implies #[trigger] b.contains((r[j], r[j + 1])) by {
        if j == r.len() - 2 {
            assert(r[j] == ring.last());
        } else {
            assert(r[j] == ring[j] && r[j + 1] == ring[j + 1]);
            assert(b.contains((ring[j], ring[j + 1])));
        }
    }
    assert forall|p: int, q: int| 0 <= p < q < r.len() implies r[p] != r[q] by {
        assert(r[p] == ring[p] || p == r.len() - 1);
        if q == r.len() - 1 {
            assert(ring.contains(r[p]));
        } else {
            assert(r[q] == ring[q]);
        }
    }
    assert forall|j: int| 0 <= j < r.len() implies !on_rings(done, #[trigger] r[j]) by {
        if j < ring.len() {
            assert(r[j] == ring[j]);
        }
    }
}

/// The marks after the vertex of edge `k` joins the walk's ring.
proof fn lemma_mark(
    edges: Seq<(u64, u64)>,
    done: Seq<Seq<u64>>,
    ring: Seq<u64>,
    marks: Seq<bool>,
    k: int,
)
    requires
        sources_apart(edges),
        0 <= k < edges.len(),
        marks.len() == edges.len(),
        forall|q: int| 0 <= q < edges.len() ==> marks[q] == (on_rings(done, (#[trigger] edges[q]).0) || ring.contains(edges[q].0)),
    ensures
        forall|q: int|
            0 <= q < edges.len() ==> marks.update(k, true)[q] == (on_rings(done, (#[trigger] edges[q]).0)
                || ring.push(edges[k].0).contains(edges[q].0)),
{
    assert forall|q: int| 0 <= q < edges.len() implies marks.update(k, true)[q] == (on_rings(
        done,
        (#[trigger] edges[q]).0,
    ) || ring.push(edges[k].0).contains(edges[q].0)) by {
        lemma_push_contains(ring, edges[k].0, edges[q].0);
        if q != k {
            assert(edges[q].0 != edges[k].0);
        }
    }
}

/// Walk the outline round from the edge `k0`, marking each vertex reached.
fn walk_ring(
    edges: &Vec<(u64, u64)>,
    visited: &mut Vec<bool>,
    k0: usize,
    Ghost(done): Ghost<Seq<Seq<u64>>>,
) -> (ring: Vec<u64>)
    requires
        edges@.no_duplicates(),
        injective(edges@.to_set()),
        closed(edges@.to_set()),
        no_turns(edges@.to_set()),
        sources_apart(edges@),
        old(visited)@.len() == edges@.len(),
        k0 < edges@.len(),
        forall|k: int| 0 <= k < edges@.len() ==> old(visited)@[k] == on_rings(done, (#[trigger] edges@[k]).0),
        !on_rings(done, edges@[k0 as int].0),
        forall|a: int| 0 <= a < done.len() ==> cycle(edges@.to_set(), #[trigger] done[a]),
    ensures
        final(visited)@.len() == edges@.len(),
        ring@.len() >= 3,
        ring@[0] == edges@[k0 as int].0,
        cycle(edges@.to_set(), ring@),
        ring@.no_duplicates(),
        forall|j: int| 0 <= j < ring@.len() ==> !on_rings(done, #[trigger] ring@[j]),
        forall|k: int|
            0 <= k < edges@.len() ==> final(visited)@[k] == (on_rings(done, (#[trigger] edges@[k]).0)
                || ring@.contains(edges@[k].0)),
{
    let ghost b = edges@.to_set();
    let start = edges[k0].0;
    let mut ring: Vec<u64> = Vec::new();
    proof {
        lemma_count_set(visited@, k0 as int);
        lemma_mark(edges@, done, ring@, visited@, k0 as int);
        assert(b.contains(edges@[k0 as int]));
        assert(edges@[k0 as int] == (start, edges@[k0 as int].1));
    }
    ring.push(start);
    visited.set(k0, true);
    let mut at = edges[k0].1;
    while at != start
        invariant
            edges@.no_duplicates(),
            b == edges@.to_set(),
            injective(b),
            closed(b),
            no_turns(b),
            sources_apart(edges@),
            visited@.len() == edges@.len(),
            ring@.len() >= 1,
            ring@[0] == start,
            forall|j: int| 0 <= j < ring@.len() - 1 ==> #[trigger] b.contains((ring@[j], ring@[j + 1])),
            b.contains((ring@.last(), at)),
            ring@.no_duplicates(),
            forall|j: int| 0 <= j < ring@.len() ==> !on_rings(done, #[trigger] ring@[j]),
            forall|k: int|
                0 <= k < edges@.len() ==> visited@[k] == (on_rings(done, (#[trigger] edges@[k]).0)
                    || ring@.contains(edges@[k].0)),
            forall|a: int| 0 <= a < done.len() ==> cycle(b, #[trigger] done[a]),
        decreases edges@.len() - count_set(visited@),
    {
        proof {
            assert(is_source(b, at));
            lemma_source_has_index(edges@, at);
            assert(!on_rings(done, ring@[ring@.len() - 1]));
            lemma_fresh(b, done, ring@, at);
        }
        let k = match source_index(edges, at) {
            Some(k) => k,
            None => {
                proof {
                    let q = choose|q: int| 0 <= q < edges@.len() && (#[trigger] edges@[q]).0 == at;
                    assert(edges@[q].0 != at);
                }
                return ring;
            },
        };
        proof {
            assert(!visited@[k as int]);
            lemma_count_set(visited@, k as int);
            lemma_mark(edges@, done, ring@, visited@, k as int);
            lemma_extend(b, done, ring@, at);
            assert(b.contains(edges@[k as int]));
            assert(edges@[k as int] == (at, edges@[k as int].1));
        }
        visited.set(k, true);
        ring.push(at);
        at = edges[k].1;
    }
    proof {
        let r = ring@;
        assert forall|k: int| 0 <= k < r.len() implies #[trigger] b.contains((r[k], ring_next(r, k))) by {
            if k == r.len() - 1 {
                assert(r[k] == r.last());
            } else {
                assert(b.contains((r[k], r[k + 1])));
            }
        }
        if r.len() == 1 {
            assert(b.contains((r[0], r[0])));
        }
        if r.len() == 2 {
            assert(b.contains((r[0], r[1])));
            assert(b.contains((r[1], r[0])));
        }
    }
    ring
}

proof fn lemma_first_index_bound(s: Seq<u64>, v: u64)
    ensures
        first_index(s, v) <= s.len(),
        first_index(s, v) < s.len() ==> s[first_index(s, v) as int] == v,
    decreases s.len(),
{
    if s.len() > 0 && s[0] != v {
        lemma_first_index_bound(s.drop_first(), v);
    }
}

/// The rings laid so far by a walk over the first `n` corners `cs` of the
/// outline `b`: each at least three long and without repeats, none sharing
/// a vertex, each started at its vertex that comes first among `cs` and
/// before position `n`, in the order of their starts, and every vertex that
/// an edge leaves and that comes before position `n` on one.
#[verifier::opaque]
pub open spec fn laid(b: Set<(u64, u64)>, cs: Seq<u64>, rs: Seq<Seq<u64>>, n: int) -> bool {
    &&& forall|a: int| 0 <= a < rs.len() ==> (#[trigger] rs[a]).len() >= 3 && rs[a].no_duplicates()
    &&& forall|a: int, k: int, a2: int, k2: int|
        0 <= a < rs.len() && 0 <= k < rs[a].len() && 0 <= a2 < rs.len() && 0 <= k2 < rs[a2].len() && a
            != a2 ==> #[trigger] rs[a][k] != #[trigger] rs[a2][k2]
    &&& forall|a: int| 0 <= a < rs.len() ==> first_index(cs, (#[trigger] rs[a])[0]) < n
    &&& forall|a: int, k: int|
        0 <= a < rs.len() && 0 <= k < rs[a].len() ==> first_index(cs, rs[a][0]) <= first_index(
            cs,
            #[trigger] rs[a][k],
        )
    &&& forall|a: int, a2: int|
        0 <= a < a2 < rs.len() ==> first_index(cs, (#[trigger] rs[a])[0]) < first_index(
            cs,
            (#[trigger] rs[a2])[0],
        )
    &&& forall|u: u64| is_source(b, u) && #[trigger] first_index(cs, u) < n ==> on_rings(rs, u)
}

/// A corner that is not a source, or already on a ring, adds nothing.
proof fn lemma_skip(b: Set<(u64, u64)>, cs: Seq<u64>, rs: Seq<Seq<u64>>, n: int)
    requires
        laid(b, cs, rs, n),
        0 <= n < cs.len(),
        !is_source(b, cs[n]) || on_rings(rs, cs[n]),
    ensures
        laid(b, cs, rs, n + 1),
{
    reveal(laid);
    assert forall|u: u64| is_source(b, u) && #[trigger] first_index(cs, u) < n + 1 implies on_rings(rs, u) by {
        lemma_first_index_bound(cs, u);
    }
}

/// A ring walked from corner `n`, new to the rings laid so far.
proof fn lemma_add_ring(b: Set<(u64, u64)>, cs: Seq<u64>, rs: Seq<Seq<u64>>, n: int, r: Seq<u64>)
    requires
        laid(b, cs, rs, n),
        0 <= n < cs.len(),
        r.len() >= 3,
        r[0] == cs[n],
        cycle(b, r),
        r.no_duplicates(),
        forall|j: int| 0 <= j < r.len() ==> !on_rings(rs, #[trigger] r[j]),
    ensures
        laid(b, cs, rs.push(r), n + 1),
{
    reveal(laid);
    let t = rs.push(r);
    lemma_first_index(cs, cs[n], n);
    assert(b.contains((r[0], ring_next(r, 0))));
    assert(is_source(b, r[0]));
    assert(first_index(cs, r[0]) == n);
    assert forall|k: int| 0 <= k < r.len() implies first_index(cs, r[0]) <= first_index(cs, #[trigger] r[k]) by {
        assert(b.contains((r[k], ring_next(r, k))));
        assert(is_source(b, r[k]));
    }
    assert forall|a: int| 0 <= a < t.len() implies (#[trigger] t[a]).len() >= 3 && t[a].no_duplicates() by {
        if a < rs.len() {
            assert(t[a] == rs[a]);
        }
    }
    assert forall|a: int, k: int, a2: int, k2: int|
        0 <= a < t.len() && 0 <= k < t[a].len() && 0 <= a2 < t.len() && 0 <= k2 < t[a2].len() && a
            != a2 implies #[trigger] t[a][k] != #[trigger] t[a2][k2] by {
        if a == rs.len() {
            assert(t[a2] == rs[a2]);
            assert(!on_rings(rs, r[k]));
        } else if a2 == rs.len() {
            assert(t[a] == rs[a]);
            assert(!on_rings(rs, r[k2]));
        } else {
            assert(t[a] == rs[a] && t[a2] == rs[a2]);
        }
    }
    assert forall|a: int| 0 <= a < t.len() implies first_index(cs, (#[trigger] t[a])[0]) < n + 1 by {
        if a < rs.len() {
            assert(t[a] == rs[a]);
        }
    }
    assert forall|a: int, k: int| 0 <= a < t.len() && 0 <= k < t[a].len() implies first_index(cs, t[a][0])
        <= first_index(cs, #[trigger] t[a][k]) by {
        if a < rs.len() {
            assert(t[a] == rs[a]);
        }
    }
    assert forall|a: int, a2: int| 0 <= a < a2 < t.len() implies first_index(cs, (#[trigger] t[a])[0])
        < first_index(cs, (#[trigger] t[a2])[0]) by {
        assert(t[a] == rs[a]);
        if a2 < rs.len() {
            assert(t[a2] == rs[a2]);
        }
    }
    assert forall|u: u64| is_source(b, u) && #[trigger] first_index(cs, u) < n + 1 implies on_rings(t, u) by {
        lemma_on_rings_push(rs, r, u);
        lemma_first_index_bound(cs, u);
        if first_index(cs, u) == n {
            assert(r[0] == u);
        }
    }
}

/// Once every corner is passed, the rings are the walked outline.
proof fn lemma_all_laid(b: Set<(u64, u64)>, cs: Seq<u64>, rs: Seq<Seq<u64>>)
    requires
        laid(b, cs, rs, cs.len() as int),
        forall|a: int| 0 <= a < rs.len() ==> cycle(b, #[trigger] rs[a]),
        forall|x: u64, y: u64| #[trigger] b.contains((x, y)) ==> cs.contains(x),
    ensures
        rings_of(rs, b, cs),
{
    reveal(laid);
    assert forall|v: u64| #[trigger] is_source(b, v) <==> on_rings(rs, v) by {
        if is_source(b, v) {
            let w = choose|w: u64| #[trigger] b.contains((v, w));
            assert(cs.contains(v));
            let q = choose|q: int| 0 <= q < cs.len() && cs[q] == v;
            lemma_first_index(cs, v, q);
        }
        if on_rings(rs, v) {
            let (a, k) = choose|a: int, k: int| 0 <= a < rs.len() && 0 <= k < rs[a].len() && #[trigger] rs[a][k] == v;
            assert(cycle(b, rs[a]));
            assert(b.contains((rs[a][k], ring_next(rs[a], k))));
        }
    }
    assert forall|a: int, k: int, a2: int, k2: int|
        0 <= a < rs.len() && 0 <= k < rs[a].len() && 0 <= a2 < rs.len() && 0 <= k2 < rs[a2].len() && (a
            != a2 || k != k2) implies #[trigger] rs[a][k] != #[trigger] rs[a2][k2] by {
        if a == a2 {
            assert(rs[a].no_duplicates());
        }
    }
    assert forall|a: int, k: int| 0 <= a < rs.len() && 0 <= k < rs[a].len() implies #[trigger] b.contains(
        (rs[a][k], ring_next(rs[a], k)),
    ) by {
        assert(cycle(b, rs[a]));
    }
}

/// Walk the outline `edges` into rings, starting each ring at the first of
/// `cs` on it that is not on a ring yet.
fn outline_rings(edges: &Vec<(u64, u64)>, cs: &Vec<u64>) -> (rings: Vec<Vec<u64>>)
    requires
        edges@.no_duplicates(),
        injective(edges@.to_set()),
        closed(edges@.to_set()),
        no_turns(edges@.to_set()),
        sources_apart(edges@),
        forall|x: u64, y: u64| #[trigger] edges@.to_set().contains((x, y)) ==> cs@.contains(x),
    ensures
        rings_of(ring_views(rings@), edges@.to_set(), cs@),
{
    let ghost b = edges@.to_set();
    let mut visited: Vec<bool> = Vec::new();
    let mut i: usize = 0;
    while i < edges.len()
        invariant
            i <= edges@.len(),
            visited@.len() == i,
            forall|k: int| 0 <= k < i ==> !visited@[k],
        decreases edges@.len() - i,
    {
        visited.push(false);
        i += 1;
    }
    let mut rings: Vec<Vec<u64>> = Vec::new();
    let ghost mut rs: Seq<Seq<u64>> = Seq::empty();
    let mut n: usize = 0;
    assert(ring_views(rings@) =~= rs);
    assert(laid(b, cs@, rs, 0)) by {
        reveal(laid);
    }
    while n < cs.len()
        invariant
            edges@.no_duplicates(),
            b == edges@.to_set(),
            injective(b),
            closed(b),
            no_turns(b),
            sources_apart(edges@),
            n <= cs@.len(),
            rs == ring_views(rings@),
            visited@.len() == edges@.len(),
            forall|k: int| 0 <= k < edges@.len() ==> visited@[k] == on_rings(rs, (#[trigger] edges@[k]).0),
            forall|a: int| 0 <= a < rs.len() ==> cycle(b, #[trigger] rs[a]),
            laid(b, cs@, rs, n as int),
        decreases cs@.len() - n,
    {
        let v = cs[n];
        match source_index(edges, v) {
            Some(k0) => {
                if visited[k0] {
                    proof {
                        lemma_skip(b, cs@, rs, n as int);
                    }
                } else {
                    let ring = walk_ring(edges, &mut visited, k0, Ghost(rs));
                    let ghost r = ring@;
                    let ghost old_rs = rs;
                    rings.push(ring);
                    proof {
                        lemma_add_ring(b, cs@, old_rs, n as int, r);
                        rs = old_rs.push(r);
                        assert(ring_views(rings@) =~= rs);
                        assert forall|k: int| 0 <= k < edges@.len() implies visited@[k] == on_rings(
                            rs,
                            (#[trigger] edges@[k]).0,
                        ) by {
                            lemma_on_rings_push(old_rs, r, edges@[k].0);
                        }
                        assert forall|a: int| 0 <= a < rs.len() implies cycle(b, #[trigger] rs[a]) by {
                            if a < old_rs.len() {
                                assert(rs[a] == old_rs[a]);
                            }
                        }
                    }
                }
            },
            None => {
                proof {
                    if is_source(b, v) {
                        lemma_source_has_index(edges@, v);
                    }
                    lemma_skip(b, cs@, rs, n as int);
                }
            },
        }
        n += 1;
    }
    proof {
        lemma_all_laid(b, cs@, rs);
    }
    rings
}

/// The corners of the mesh in order.
fn corner_keys(tris: &[[u64; 3]]) -> (cs: Vec<u64>)
    ensures
        cs@ == corners(tris@),
{
    let mut cs: Vec<u64> = Vec::new();
    let mut i: usize = 0;
    assert(tris@.take(0) =~= Seq::<[u64; 3]>::empty());
    while i < tris.len()
        invariant
            i <= tris@.len(),
            cs@ == corners(tris@.take(i as int)),
        decreases tris@.len() - i,
    {
        let t = tris[i];
        let ghost before = cs@;
        cs.push(t[0]);
        cs.push(t[1]);
        cs.push(t[2]);
        proof {
            assert(tris@.take(i + 1).drop_last() =~= tris@.take(i as int));
            assert(tris@.take(i + 1).last() == t);
            assert(cs@ =~= before + seq![t[0], t[1], t[2]]);
        }
        i += 1;
    }
    assert(tris@.take(tris@.len() as int) =~= tris@);
    cs
}

/// Whether a triangle of `tris` has two corners at one point.
fn any_degenerate(tris: &[[u64; 3]]) -> (r: bool)
    ensures
        r == exists|i: int| 0 <= i < tris@.len() && degenerate(#[trigger] tris@[i]),
{
    let mut i: usize = 0;
    while i < tris.len()
        invariant
            i <= tris@.len(),
            forall|j: int| 0 <= j < i ==> !degenerate(#[trigger] tris@[j]),
        decreases tris@.len() - i,
    {
        let t = tris[i];
        if t[0] == t[1] || t[1] == t[2] || t[2] == t[0] {
            assert(degenerate(tris@[i as int]));
            return true;
        }
        i += 1;
    }
    false
}

/// Whether no two edges leave one vertex or arrive at one.
fn ends_are_apart(edges: &Vec<(u64, u64)>) -> (r: bool)
    ensures
        r == ends_apart(edges@),
{
    let mut p: usize = 0;
    while p < edges.len()
        invariant
            p <= edges@.len(),
            forall|x: int, y: int|
                0 <= x < p && 0 <= y < edges@.len() && x != y ==> (#[trigger] edges@[x]).0 != (
                #[trigger] edges@[y]).0 && edges@[x].1 != edges@[y].1,
        decreases edges@.len() - p,
    {
        let mut q: usize = 0;
        while q < edges.len()
            invariant
                p < edges@.len(),
                q <= edges@.len(),
                forall|x: int, y: int|
                    0 <= x < p && 0 <= y < edges@.len() && x != y ==> (#[trigger] edges@[x]).0 != (
                    #[trigger] edges@[y]).0 && edges@[x].1 != edges@[y].1,
                forall|y: int|
                    0 <= y < q && y != p ==> edges@[p as int].0 != (#[trigger] edges@[y]).0 && edges@[p as int].1
                        != edges@[y].1,
            decreases edges@.len() - q,
        {
            if q != p && (edges[p].0 == edges[q].0 || edges[p].1 == edges[q].1) {
                return false;
            }
            q += 1;
        }
        p += 1;
    }
    true
}

/// Over distinct edges, apart ends are one edge out of and one into each
/// vertex.
proof fn lemma_ends_apart(edges: Seq<(u64, u64)>)
    requires
        edges.no_duplicates(),
    ensures
        ends_apart(edges) <==> functional(edges.to_set()) && injective(edges.to_set()),
        ends_apart(edges) ==> sources_apart(edges),
{
    let b = edges.to_set();
    if ends_apart(edges) {
        assert forall|x: u64, y: u64, z: u64| #[trigger] b.contains((x, y)) && #[trigger] b.contains((x, z)) implies y == z by {
            let k1 = choose|k: int| 0 <= k < edges.len() && edges[k] == (x, y);
            let k2 = choose|k: int| 0 <= k < edges.len() && edges[k] == (x, z);
            if k1 != k2 {
                assert(edges[k1].0 != edges[k2].0);
            }
        }
        assert forall|x: u64, y: u64, z: u64| #[trigger] b.contains((x, z)) && #[trigger] b.contains((y, z)) implies x == y by {
            let k1 = choose|k: int| 0 <= k < edges.len() && edges[k] == (x, z);
            let k2 = choose|k: int| 0 <= k < edges.len() && edges[k] == (y, z);
            if k1 != k2 {
                assert(edges[k1].1 != edges[k2].1);
            }
        }
    }
    if functional(b) && injective(b) {
        assert forall|p: int, q: int|
            0 <= p < edges.len() && 0 <= q < edges.len() && p != q implies (#[trigger] edges[p]).0 != (
            #[trigger] edges[q]).0 && edges[p].1 != edges[q].1 by {
            assert(b.contains(edges[p]) && b.contains(edges[q]));
            assert(edges[p] != edges[q]);
            assert(edges[p] == (edges[p].0, edges[p].1));
            assert(edges[q] == (edges[q].0, edges[q].1));
        }
    }
}

/// Whether every edge arrives where another leaves.
fn ends_meet(edges: &Vec<(u64, u64)>) -> (r: bool)
    ensures
        r == closed(edges@.to_set()),
{
    let ghost b = edges@.to_set();
    let mut p: usize = 0;
    while p < edges.len()
        invariant
            p <= edges@.len(),
            b == edges@.to_set(),
            forall|x: int| 0 <= x < p ==> is_source(b, (#[trigger] edges@[x]).1),
        decreases edges@.len() - p,
    {
        match source_index(edges, edges[p].1) {
            Some(k) => {
                proof {
                    lemma_index_is_source(edges@, k as int);
                }
            },
            None => {
                proof {
                    assert(b.contains(edges@[p as int]));
                    assert(edges@[p as int] == (edges@[p as int].0, edges@[p as int].1));
                    if is_source(b, edges@[p as int].1) {
                        lemma_source_has_index(edges@, edges@[p as int].1);
                    }
                }
                return false;
            },
        }
        p += 1;
    }
    assert forall|x: u64, y: u64| #[trigger] b.contains((x, y)) implies is_source(b, y) by {
        let k = choose|k: int| 0 <= k < edges@.len() && edges@[k] == (x, y);
        assert(edges@[k].1 == y);
    }
    true
}

/// The outline of the mesh, walked into rings of vertex keys: `None` when a
/// triangle is degenerate, an edge comes twice the same way, nothing is
/// left, or what is left is not rings -- a vertex with two edges out or two
/// in (a pinch), or an edge into a vertex no edge leaves.
pub fn mesh_outline(tris: &[[u64; 3]]) -> (out: Option<Vec<Vec<u64>>>)
    ensures
        match out {
            None => !clean(tris@),
            Some(rings) => clean(tris@) && rings_of(
                ring_views(rings@),
                boundary(tris@)->0,
                corners(tris@),
            ),
        },
{
    if any_degenerate(tris) {
        return None;
    }
    let ghost ts = tris@;
    let edges = match cancel_edges(tris) {
        Some(es) => es,
        None => {
            return None;
        },
    };
    let ghost b = edges@.to_set();
    assert(boundary(ts) == Some(b));
    if edges.len() == 0 {
        assert forall|e: (u64, u64)| !b.contains(e) by {}
        return None;
    }
    assert(b.contains(edges@[0]));
    proof {
        lemma_ends_apart(edges@);
    }
    if !ends_are_apart(&edges) {
        return None;
    }
    if !ends_meet(&edges) {
        return None;
    }
    assert(clean(ts));
    let cs = corner_keys(tris);
    proof {
        lemma_edges_are_corners(ts);
        lemma_fold_props(mesh_edges(ts));
        let m = mesh_edges(ts);
        assert forall|x: u64| !#[trigger] b.contains((x, x)) by {
            if b.contains((x, x)) {
                let q = choose|q: int| 0 <= q < m.len() && m[q] == (x, x);
                assert(m[q].0 != m[q].1);
            }
        }
        assert forall|x: u64, y: u64| #[trigger] b.contains((x, y)) implies cs@.contains(x) by {
            assert(m.contains((x, y)));
            let q = choose|q: int| 0 <= q < m.len() && m[q] == (x, y);
            assert(cs@[q] == x);
        }
    }
    Some(outline_rings(&edges, &cs))
}

} // verus!
