//! Strokes that touch, grouped: the connected components of a graph on the
//! strokes `0..n` whose edges are the touching pairs. Each group lists its
//! strokes in increasing order and the groups come by their first stroke,
//! so the grouping follows the sheet's own order of strokes.

use vstd::prelude::*;

verus! {

/// An edge of `edges` joins `a` and `b`, either way round.
pub open spec fn linked(edges: Seq<(usize, usize)>, a: usize, b: usize) -> bool {
    exists|q: int| 0 <= q < edges.len() && (#[trigger] edges[q] == (a, b) || edges[q] == (b, a))
}

/// `p` walks along `edges`, one edge per step.
pub open spec fn is_path(edges: Seq<(usize, usize)>, p: Seq<usize>) -> bool {
    p.len() >= 1 && forall|k: int| 0 <= k < p.len() - 1 ==> #[trigger] linked(edges, p[k], p[k + 1])
}

/// Some path of `edges` leads from `a` to `b`.
pub open spec fn connected(edges: Seq<(usize, usize)>, a: usize, b: usize) -> bool {
    exists|p: Seq<usize>| #[trigger] is_path(edges, p) && p[0] == a && p.last() == b
}

/// The groups as sequences.
pub open spec fn group_views(groups: Seq<Vec<usize>>) -> Seq<Seq<usize>> {
    groups.map_values(|g: Vec<usize>| g@)
}

/// `j` is in one of `groups`.
pub open spec fn in_groups(groups: Seq<Seq<usize>>, j: usize) -> bool {
    exists|g: int, k: int| 0 <= g < groups.len() && 0 <= k < groups[g].len() && #[trigger] groups[g][k] == j
}

/// `out` is the connected components of the graph on `0..n` with `edges`:
/// every vertex in exactly one group, each group in increasing order and
/// connected from its first vertex, no edge leaving a group, the groups in
/// the order of their first vertices.
pub open spec fn components_of(out: Seq<Seq<usize>>, n: usize, edges: Seq<(usize, usize)>) -> bool {
    &&& forall|g: int| 0 <= g < out.len() ==> (#[trigger] out[g]).len() >= 1
    &&& forall|g: int, k: int| 0 <= g < out.len() && 0 <= k < out[g].len() ==> #[trigger] out[g][k] < n
    &&& forall|g: int, k: int, k2: int|
        0 <= g < out.len() && 0 <= k < k2 < out[g].len() ==> #[trigger] out[g][k] < #[trigger] out[g][k2]
    &&& forall|g: int, g2: int| 0 <= g < g2 < out.len() ==> (#[trigger] out[g])[0] < (#[trigger] out[g2])[0]
    &&& forall|j: usize| j < n ==> #[trigger] in_groups(out, j)
    &&& forall|g: int, k: int, g2: int, k2: int|
        0 <= g < out.len() && 0 <= k < out[g].len() && 0 <= g2 < out.len() && 0 <= k2 < out[g2].len()
            && #[trigger] out[g][k] == #[trigger] out[g2][k2] ==> g == g2
    &&& forall|g: int, q: int|
        0 <= g < out.len() && 0 <= q < edges.len() ==> ((#[trigger] out[g]).contains((#[trigger] edges[q]).0)
            <==> out[g].contains(edges[q].1))
    &&& forall|g: int, k: int| 0 <= g < out.len() && 0 <= k < out[g].len() ==> connected(edges, out[g][0], #[trigger] out[g][k])
}

/// How many entries of `s` are `x`.
pub open spec fn count_eq(s: Seq<usize>, x: usize) -> nat
    decreases s.len(),
{
    if s.len() == 0 {
        0
    } else {
        count_eq(s.drop_last(), x) + if s.last() == x {
            1nat
        } else {
            0nat
        }
    }
}

proof fn lemma_count_eq_update(s: Seq<usize>, k: int, x: usize, y: usize)
    requires
        0 <= k < s.len(),
        s[k] == x,
        y != x,
    ensures
        count_eq(s, x) >= 1,
        count_eq(s.update(k, y), x) == count_eq(s, x) - 1,
    decreases s.len(),
{
    let d = s.drop_last();
    if k == s.len() - 1 {
        assert(s.update(k, y).drop_last() =~= d);
    } else {
        lemma_count_eq_update(d, k, x, y);
        assert(s.update(k, y).drop_last() =~= d.update(k, y));
    }
}

proof fn lemma_path_push(edges: Seq<(usize, usize)>, p: Seq<usize>, w: usize, q: int)
    requires
        is_path(edges, p),
        0 <= q < edges.len(),
        edges[q] == (p.last(), w) || edges[q] == (w, p.last()),
    ensures
        is_path(edges, p.push(w)),
        p.push(w)[0] == p[0],
        p.push(w).last() == w,
{
    let t = p.push(w);
    assert forall|k: int| 0 <= k < t.len() - 1 implies #[trigger] linked(edges, t[k], t[k + 1]) by {
        if k < p.len() - 1 {
            assert(t[k] == p[k] && t[k + 1] == p[k + 1]);
            assert(linked(edges, p[k], p[k + 1]));
        } else {
            assert(t[k] == p.last() && t[k + 1] == w);
        }
    }
}

/// Every edge at `v` leads to a vertex with a label.
pub open spec fn expanded(edges: Seq<(usize, usize)>, label: Seq<usize>, v: usize, n: usize) -> bool {
    forall|q: int|
        0 <= q < edges.len() ==> ((#[trigger] edges[q]).0 == v ==> label[edges[q].1 as int] != n) && (edges[q].1
            == v ==> label[edges[q].0 as int] != n)
}

/// Label every vertex `root` reaches with `count`: the vertices still
/// unlabelled (`n`) that edges lead to from it, transitively.
fn grow_group(
    edges: &[(usize, usize)],
    label: &mut Vec<usize>,
    root: usize,
    count: usize,
    Ghost(paths): Ghost<Seq<Seq<usize>>>,
) -> (grown: Ghost<Seq<Seq<usize>>>)
    requires
        root < old(label)@.len(),
        old(label)@[root as int] == old(label)@.len(),
        count < old(label)@.len(),
        forall|q: int| 0 <= q < edges@.len() ==> (#[trigger] edges@[q]).0 < old(label)@.len() && edges@[q].1 < old(label)@.len(),
        forall|j: int| 0 <= j < old(label)@.len() ==> (#[trigger] old(label)@[j]) == old(label)@.len() || old(label)@[j] < count,
        forall|q: int|
            0 <= q < edges@.len() && (old(label)@[(#[trigger] edges@[q]).0 as int] < count || old(label)@[edges@[q].1 as int] < count)
                ==> old(label)@[edges@[q].0 as int] == old(label)@[edges@[q].1 as int],
        paths.len() == old(label)@.len(),
    ensures
        final(label)@.len() == old(label)@.len(),
        final(label)@[root as int] == count,
        forall|j: int|
            0 <= j < old(label)@.len() ==> (#[trigger] final(label)@[j] == old(label)@[j]) || (old(label)@[j]
                == old(label)@.len() && final(label)@[j] == count),
        forall|q: int|
            0 <= q < edges@.len() && (final(label)@[(#[trigger] edges@[q]).0 as int] < count + 1
                || final(label)@[edges@[q].1 as int] < count + 1) ==> final(label)@[edges@[q].0 as int]
                == final(label)@[edges@[q].1 as int],
        grown@.len() == old(label)@.len(),
        forall|j: int| 0 <= j < old(label)@.len() && old(label)@[j] < count ==> #[trigger] grown@[j] == paths[j],
        forall|j: int|
            0 <= j < old(label)@.len() && #[trigger] final(label)@[j] == count ==> is_path(edges@, grown@[j])
                && grown@[j][0] == root && grown@[j].last() == j,
{
    let n = label.len();
    let ghost e = edges@;
    let ghost start = label@;
    let ghost mut ps = paths;
    proof {
        lemma_count_eq_update(label@, root as int, n, count);
        ps = ps.update(root as int, seq![root]);
        assert forall|k: int| 0 <= k < seq![root].len() - 1 implies #[trigger] linked(e, seq![root][k], seq![root][k + 1]) by {}
    }
    label.set(root, count);
    let mut todo: Vec<usize> = Vec::new();
    todo.push(root);
    proof {
        assert(todo@[0] == root);
        assert forall|v: usize| v < n && #[trigger] label@[v as int] == count && !todo@.contains(v) implies expanded(
            e,
            label@,
            v,
            n,
        ) by {
            if v != root {
                assert(label@[v as int] == start[v as int]);
            }
        }
    }
    while todo.len() > 0
        invariant
            e == edges@,
            label@.len() == n,
            start.len() == n,
            ps.len() == n,
            count < n,
            root < n,
            paths.len() == n,
            label@[root as int] == count,
            forall|q: int| 0 <= q < e.len() ==> (#[trigger] e[q]).0 < n && e[q].1 < n,
            forall|j: int|
                0 <= j < n ==> (#[trigger] label@[j] == start[j]) || (start[j] == n && label@[j] == count),
            forall|j: int| 0 <= j < n ==> (#[trigger] start[j]) == n || start[j] < count,
            forall|q: int|
                0 <= q < e.len() && (start[(#[trigger] e[q]).0 as int] < count || start[e[q].1 as int] < count)
                    ==> start[e[q].0 as int] == start[e[q].1 as int],
            forall|j: int| 0 <= j < n && start[j] < count ==> #[trigger] ps[j] == paths[j],
            forall|j: int|
                0 <= j < n && #[trigger] label@[j] == count ==> is_path(e, ps[j]) && ps[j][0] == root
                    && ps[j].last() == j,
            todo@.no_duplicates(),
            forall|k: int| 0 <= k < todo@.len() ==> (#[trigger] todo@[k]) < n && label@[todo@[k] as int] == count,
            forall|v: usize| v < n && #[trigger] label@[v as int] == count && !todo@.contains(v) ==> expanded(e, label@, v, n),
        decreases 2 * count_eq(label@, n) + todo@.len(),
    {
        let ghost bound = 2 * count_eq(label@, n) + todo@.len();
        let ghost before = todo@;
        let v = todo.pop().unwrap();
        proof {
            assert(todo@ =~= before.drop_last());
            assert(v == before.last());
            assert(!todo@.contains(v)) by {
                if todo@.contains(v) {
                    let k = choose|k: int| 0 <= k < todo@.len() && todo@[k] == v;
                    assert(before[k] == before[before.len() - 1]);
                }
            }
            assert(before[before.len() - 1] == v);
            assert forall|u: usize|
                u < n && #[trigger] label@[u as int] == count && !todo@.contains(u) && u != v implies expanded(
                e,
                label@,
                u,
                n,
            ) by {
                if before.contains(u) {
                    let k = choose|k: int| 0 <= k < before.len() && before[k] == u;
                    if k < todo@.len() {
                        assert(todo@[k] == u);
                    }
                }
            }
        }
        let mut q: usize = 0;
        while q < edges.len()
            invariant
                e == edges@,
                label@.len() == n,
                start.len() == n,
                ps.len() == n,
                count < n,
                v < n,
                root < n,
                paths.len() == n,
                label@[v as int] == count,
                !todo@.contains(v),
                q <= e.len(),
                label@[root as int] == count,
                forall|q2: int| 0 <= q2 < e.len() ==> (#[trigger] e[q2]).0 < n && e[q2].1 < n,
                forall|j: int|
                    0 <= j < n ==> (#[trigger] label@[j] == start[j]) || (start[j] == n && label@[j] == count),
                forall|j: int| 0 <= j < n ==> (#[trigger] start[j]) == n || start[j] < count,
                forall|j: int| 0 <= j < n && start[j] < count ==> #[trigger] ps[j] == paths[j],
                forall|j: int|
                    0 <= j < n && #[trigger] label@[j] == count ==> is_path(e, ps[j]) && ps[j][0] == root
                        && ps[j].last() == j,
                todo@.no_duplicates(),
                forall|k: int| 0 <= k < todo@.len() ==> (#[trigger] todo@[k]) < n && label@[todo@[k] as int] == count,
                forall|u: usize|
                    u < n && #[trigger] label@[u as int] == count && !todo@.contains(u) && u != v ==> expanded(
                        e,
                        label@,
                        u,
                        n,
                    ),
                forall|q2: int|
                    0 <= q2 < q ==> ((#[trigger] e[q2]).0 == v ==> label@[e[q2].1 as int] != n) && (e[q2].1 == v
                        ==> label@[e[q2].0 as int] != n),
                2 * count_eq(label@, n) + todo@.len() < bound,
            decreases e.len() - q,
        {
            let (a, b) = edges[q];
            if a == v && label[b] == n {
                proof {
                    lemma_count_eq_update(label@, b as int, n, count);
                    lemma_path_push(e, ps[v as int], b, q as int);
                    ps = ps.update(b as int, ps[v as int].push(b));
                }
                let ghost old_label = label@;
                let ghost old_todo = todo@;
                label.set(b, count);
                todo.push(b);
                proof {
                    assert forall|u: usize|
                        u < n && #[trigger] label@[u as int] == count && !todo@.contains(u) && u != v implies expanded(
                        e,
                        label@,
                        u,
                        n,
                    ) by {
                        assert(u != b) by {
                            assert(todo@[todo@.len() - 1] == b);
                        }
                        assert(old_label[u as int] == count);
                        assert(!old_todo.contains(u)) by {
                            if old_todo.contains(u) {
                                let k = choose|k: int| 0 <= k < old_todo.len() && old_todo[k] == u;
                                assert(todo@[k] == u);
                            }
                        }
                        assert(expanded(e, old_label, u, n));
                    }
                    assert forall|k: int, k2: int| 0 <= k < k2 < todo@.len() implies todo@[k] != todo@[k2] by {
                        if k2 == todo@.len() - 1 {
                            assert(old_label[old_todo[k] as int] == count);
                        }
                    }
                }
            }
            let b_now = label[b];
            if b == v && label[a] == n {
                proof {
                    lemma_count_eq_update(label@, a as int, n, count);
                    lemma_path_push(e, ps[v as int], a, q as int);
                    ps = ps.update(a as int, ps[v as int].push(a));
                }
                let ghost old_label = label@;
                let ghost old_todo = todo@;
                label.set(a, count);
                todo.push(a);
                proof {
                    assert forall|u: usize|
                        u < n && #[trigger] label@[u as int] == count && !todo@.contains(u) && u != v implies expanded(
                        e,
                        label@,
                        u,
                        n,
                    ) by {
                        assert(u != a) by {
                            assert(todo@[todo@.len() - 1] == a);
                        }
                        assert(old_label[u as int] == count);
                        assert(!old_todo.contains(u)) by {
                            if old_todo.contains(u) {
                                let k = choose|k: int| 0 <= k < old_todo.len() && old_todo[k] == u;
                                assert(todo@[k] == u);
                            }
                        }
                        assert(expanded(e, old_label, u, n));
                    }
                    assert forall|k: int, k2: int| 0 <= k < k2 < todo@.len() implies todo@[k] != todo@[k2] by {
                        if k2 == todo@.len() - 1 {
                            assert(old_label[old_todo[k] as int] == count);
                        }
                    }
                }
            }
            q += 1;
        }
    }
    proof {
        assert forall|q: int|
            0 <= q < e.len() && (label@[(#[trigger] e[q]).0 as int] < count + 1 || label@[e[q].1 as int] < count
                + 1) implies label@[e[q].0 as int] == label@[e[q].1 as int] by {
            let (a, b) = e[q];
            if label@[a as int] == count {
                assert(expanded(e, label@, a, n));
                if label@[b as int] != count {
                    assert(start[b as int] < count);
                }
            } else if label@[b as int] == count {
                assert(expanded(e, label@, b, n));
                assert(start[a as int] < count);
            } else {
                assert(start[a as int] < count || start[b as int] < count);
            }
        }
    }
    Ghost(ps)
}

/// The vertices below `j` labelled `g`, in increasing order.
pub open spec fn members(label: Seq<usize>, g: usize, j: int) -> Seq<usize>
    decreases j,
{
    if j <= 0 {
        Seq::empty()
    } else {
        let m = members(label, g, j - 1);
        if label[j - 1] == g {
            m.push((j - 1) as usize)
        } else {
            m
        }
    }
}

proof fn lemma_members(label: Seq<usize>, g: usize, j: int)
    requires
        0 <= j <= label.len(),
        label.len() <= usize::MAX,
    ensures
        forall|k: int, k2: int|
            0 <= k < k2 < members(label, g, j).len() ==> #[trigger] members(label, g, j)[k] < #[trigger] members(
                label,
                g,
                j,
            )[k2],
        forall|k: int| 0 <= k < members(label, g, j).len() ==> #[trigger] members(label, g, j)[k] < j,
        forall|x: usize| #[trigger] members(label, g, j).contains(x) <==> (x < j && label[x as int] == g),
    decreases j,
{
    if j > 0 {
        lemma_members(label, g, j - 1);
        let m = members(label, g, j - 1);
        if label[j - 1] == g {
            let t = m.push((j - 1) as usize);
            assert forall|x: usize| #[trigger] t.contains(x) <==> (x < j && label[x as int] == g) by {
                if t.contains(x) {
                    let k = choose|k: int| 0 <= k < t.len() && t[k] == x;
                    if k < m.len() {
                        assert(m[k] == x);
                        assert(m.contains(x));
                    } else {
                        assert(t[k] == (j - 1) as usize);
                    }
                }
                if x < j && label[x as int] == g {
                    if x < j - 1 {
                        assert(m.contains(x));
                        let k = choose|k: int| 0 <= k < m.len() && m[k] == x;
                        assert(t[k] == x);
                    } else {
                        assert(t[m.len() as int] == x);
                    }
                }
            }
            assert forall|k: int| 0 <= k < t.len() implies #[trigger] t[k] < j by {
                if k < m.len() {
                    assert(t[k] == m[k]);
                }
            }
            assert forall|k: int, k2: int| 0 <= k < k2 < t.len() implies #[trigger] t[k] < #[trigger] t[k2] by {
                assert(t[k] == m[k]);
                if k2 < m.len() {
                    assert(t[k2] == m[k2]);
                } else {
                    assert(t[k2] == (j - 1) as usize);
                    assert(m[k] < j - 1);
                }
            }
        } else {
            assert forall|x: usize| #[trigger] m.contains(x) <==> (x < j && label[x as int] == g) by {}
        }
    }
}

fn members_of(label: &Vec<usize>, g: usize) -> (out: Vec<usize>)
    ensures
        out@ == members(label@, g, label@.len() as int),
{
    let mut out: Vec<usize> = Vec::new();
    let mut j: usize = 0;
    while j < label.len()
        invariant
            j <= label@.len(),
            out@ == members(label@, g, j as int),
        decreases label@.len() - j,
    {
        if label[j] == g {
            out.push(j);
        }
        j += 1;
    }
    out
}

/// The labelling read off as groups is the components.
proof fn lemma_grouped(
    label: Seq<usize>,
    roots: Seq<usize>,
    paths: Seq<Seq<usize>>,
    n: usize,
    e: Seq<(usize, usize)>,
    groups: Seq<Seq<usize>>,
)
    requires
        label.len() == n,
        paths.len() == n,
        groups.len() == roots.len(),
        forall|g: int| 0 <= g < groups.len() ==> #[trigger] groups[g] == members(label, g as usize, n as int),
        forall|j: int| 0 <= j < n ==> #[trigger] label[j] < roots.len(),
        forall|g: int| 0 <= g < roots.len() ==> #[trigger] roots[g] < n && label[roots[g] as int] == g,
        forall|g: int, g2: int| 0 <= g < g2 < roots.len() ==> #[trigger] roots[g] < #[trigger] roots[g2],
        forall|j: int| 0 <= j < n ==> roots[#[trigger] label[j] as int] <= j,
        forall|j: int|
            0 <= j < n ==> is_path(e, #[trigger] paths[j]) && paths[j][0] == roots[label[j] as int] && paths[j].last()
                == j,
        forall|q: int| 0 <= q < e.len() ==> (#[trigger] e[q]).0 < n && e[q].1 < n,
        forall|q: int| 0 <= q < e.len() ==> label[(#[trigger] e[q]).0 as int] == label[e[q].1 as int],
    ensures
        components_of(groups, n, e),
{
    assert forall|g: int| 0 <= g < groups.len() implies (#[trigger] groups[g]).len() >= 1 && groups[g][0] == roots[g] by {
        lemma_members(label, g as usize, n as int);
        assert(groups[g].contains(roots[g]));
        let k = choose|k: int| 0 <= k < groups[g].len() && groups[g][k] == roots[g];
        let x = groups[g][0];
        assert(groups[g].contains(x));
        assert(label[x as int] == g);
        assert(roots[label[x as int] as int] <= x);
        if k > 0 {
            assert(groups[g][0] < groups[g][k]);
        }
    }
    assert forall|g: int, k: int| 0 <= g < groups.len() && 0 <= k < groups[g].len() implies #[trigger] groups[g][k] < n by {
        lemma_members(label, g as usize, n as int);
    }
    assert forall|g: int, k: int, k2: int| 0 <= g < groups.len() && 0 <= k < k2 < groups[g].len() implies #[trigger] groups[g][k]
        < #[trigger] groups[g][k2] by {
        lemma_members(label, g as usize, n as int);
    }
    assert forall|g: int, g2: int| 0 <= g < g2 < groups.len() implies (#[trigger] groups[g])[0] < (
    #[trigger] groups[g2])[0] by {
        assert(groups[g][0] == roots[g]);
        assert(groups[g2][0] == roots[g2]);
    }
    assert forall|j: usize| j < n implies #[trigger] in_groups(groups, j) by {
        let g = label[j as int] as int;
        lemma_members(label, g as usize, n as int);
        assert(groups[g].contains(j));
        let k = choose|k: int| 0 <= k < groups[g].len() && groups[g][k] == j;
        assert(groups[g][k] == j);
    }
    assert forall|g: int, k: int, g2: int, k2: int|
        0 <= g < groups.len() && 0 <= k < groups[g].len() && 0 <= g2 < groups.len() && 0 <= k2 < groups[g2].len()
            && #[trigger] groups[g][k] == #[trigger] groups[g2][k2] implies g == g2 by {
        lemma_members(label, g as usize, n as int);
        lemma_members(label, g2 as usize, n as int);
        assert(groups[g].contains(groups[g][k]));
        assert(groups[g2].contains(groups[g2][k2]));
    }
    assert forall|g: int, q: int| 0 <= g < groups.len() && 0 <= q < e.len() implies ((#[trigger] groups[g]).contains(
        (#[trigger] e[q]).0,
    ) <==> groups[g].contains(e[q].1)) by {
        lemma_members(label, g as usize, n as int);
    }
    assert forall|g: int, k: int| 0 <= g < groups.len() && 0 <= k < groups[g].len() implies connected(
        e,
        groups[g][0],
        #[trigger] groups[g][k],
    ) by {
        lemma_members(label, g as usize, n as int);
        let x = groups[g][k];
        assert(groups[g].contains(x));
        assert(label[x as int] == g);
        assert(is_path(e, paths[x as int]));
    }
}

/// The connected components of the graph on `0..n` whose edges are the
/// `touching` pairs: each group in increasing order, the groups by their
/// first vertex.
pub fn components(n: usize, touching: &[(usize, usize)]) -> (out: Vec<Vec<usize>>)
    requires
        forall|q: int| 0 <= q < touching@.len() ==> (#[trigger] touching@[q]).0 < n && touching@[q].1 < n,
    ensures
        components_of(group_views(out@), n, touching@),
{
    let ghost e = touching@;
    let mut label: Vec<usize> = Vec::new();
    let mut j: usize = 0;
    while j < n
        invariant
            j <= n,
            label@.len() == j,
            forall|k: int| 0 <= k < j ==> label@[k] == n,
        decreases n - j,
    {
        label.push(n);
        j += 1;
    }
    let ghost mut roots: Seq<usize> = Seq::empty();
    let ghost mut paths: Seq<Seq<usize>> = Seq::new(n as nat, |k: int| seq![k as usize]);
    let mut count: usize = 0;
    let mut i: usize = 0;
    while i < n
        invariant
            e == touching@,
            label@.len() == n,
            paths.len() == n,
            roots.len() == count,
            count <= i <= n,
            forall|q: int| 0 <= q < e.len() ==> (#[trigger] e[q]).0 < n && e[q].1 < n,
            forall|k: int| 0 <= k < n ==> (#[trigger] label@[k]) == n || label@[k] < count,
            forall|k: int| 0 <= k < i ==> #[trigger] label@[k] < count,
            forall|g: int| 0 <= g < count ==> #[trigger] roots[g] < i && label@[roots[g] as int] == g,
            forall|g: int, g2: int| 0 <= g < g2 < count ==> #[trigger] roots[g] < #[trigger] roots[g2],
            forall|k: int| 0 <= k < n && label@[k] < count ==> roots[#[trigger] label@[k] as int] <= k,
            forall|k: int|
                0 <= k < n && label@[k] < count ==> is_path(e, #[trigger] paths[k]) && paths[k][0] == roots[label@[k] as int]
                    && paths[k].last() == k,
            forall|q: int|
                0 <= q < e.len() && (label@[(#[trigger] e[q]).0 as int] < count || label@[e[q].1 as int] < count)
                    ==> label@[e[q].0 as int] == label@[e[q].1 as int],
        decreases n - i,
    {
        if label[i] == n {
            let ghost before = label@;
            let grown = grow_group(touching, &mut label, i, count, Ghost(paths));
            proof {
                let old_roots = roots;
                roots = roots.push(i);
                let old_paths = paths;
                paths = grown@;
                assert forall|k: int| 0 <= k < n implies (#[trigger] label@[k]) == n || label@[k] < count + 1 by {
                    assert(label@[k] == before[k] || label@[k] == count);
                }
                assert forall|k: int| 0 <= k < i + 1 implies #[trigger] label@[k] < count + 1 by {
                    if k < i {
                        assert(before[k] < count);
                        assert(label@[k] == before[k] || before[k] == n);
                    }
                }
                assert forall|g: int| 0 <= g < count + 1 implies #[trigger] roots[g] < i + 1 && label@[roots[g] as int] == g by {
                    if g < count {
                        assert(roots[g] == old_roots[g]);
                        assert(before[old_roots[g] as int] == g);
                        assert(label@[old_roots[g] as int] == before[old_roots[g] as int] || before[old_roots[g] as int] == n);
                    }
                }
                assert forall|g: int, g2: int| 0 <= g < g2 < count + 1 implies #[trigger] roots[g] < #[trigger] roots[g2] by {
                    assert(roots[g] == old_roots[g]);
                    if g2 < count {
                        assert(roots[g2] == old_roots[g2]);
                    }
                }
                assert forall|k: int| 0 <= k < n && label@[k] < count + 1 implies roots[#[trigger] label@[k] as int] <= k by {
                    if before[k] < count {
                        assert(label@[k] == before[k]);
                        assert(old_roots[before[k] as int] <= k);
                    } else {
                        assert(before[k] == n);
                        assert(label@[k] == count);
                        if k < i {
                            assert(before[k] < count);
                        }
                    }
                }
                assert forall|k: int|
                    0 <= k < n && label@[k] < count + 1 implies is_path(e, #[trigger] paths[k]) && paths[k][0]
                        == roots[label@[k] as int] && paths[k].last() == k by {
                    if before[k] < count {
                        assert(label@[k] == before[k]);
                        assert(paths[k] == old_paths[k]);
                    } else {
                        assert(label@[k] == count);
                    }
                }
            }
            count += 1;
        }
        i += 1;
    }
    let mut out: Vec<Vec<usize>> = Vec::new();
    let mut g: usize = 0;
    while g < count
        invariant
            g <= count,
            out@.len() == g,
            forall|h: int| 0 <= h < g ==> #[trigger] out@[h]@ == members(label@, h as usize, label@.len() as int),
        decreases count - g,
    {
        let group = members_of(&label, g);
        out.push(group);
        g += 1;
    }
    proof {
        let groups = group_views(out@);
        assert forall|h: int| 0 <= h < groups.len() implies #[trigger] groups[h] == members(label@, h as usize, n as int) by {
            assert(groups[h] == out@[h]@);
        }
        assert forall|k: int| 0 <= k < n implies #[trigger] label@[k] < roots.len() by {
            assert(label@[k] < count);
        }
        assert forall|k: int| 0 <= k < n implies roots[#[trigger] label@[k] as int] <= k by {
            assert(label@[k] < count);
        }
        assert forall|k: int|
            0 <= k < n implies is_path(e, #[trigger] paths[k]) && paths[k][0] == roots[label@[k] as int]
                && paths[k].last() == k by {
            assert(label@[k] < count);
        }
        assert forall|q: int| 0 <= q < e.len() implies label@[(#[trigger] e[q]).0 as int] == label@[e[q].1 as int] by {
            assert(label@[e[q].0 as int] < count);
        }
        lemma_grouped(label@, roots, paths, n, e, groups);
    }
    out
}

} // verus!
