//! The line numbers a run of pipe carries: the numbers lettered along it,
//! or, for a run with none, those of every lettered run it continues --
//! through a tee straight on or through an in-line symbol, and on through
//! further unlettered runs.

use vstd::prelude::*;

use crate::mesh::{count_set, lemma_count_set};
use crate::sorted::{insert_name, sorted_unique};
use crate::text::views;

verus! {

/// `b` is among the runs `a` continues into.
pub open spec fn hop(next: Seq<Seq<usize>>, a: usize, b: usize) -> bool {
    a < next.len() && next[a as int].contains(b)
}

/// `p` goes from run to run along `next`, every run after the first
/// unlettered.
pub open spec fn feed_path(next: Seq<Seq<usize>>, lettered: Seq<bool>, p: Seq<usize>) -> bool {
    &&& p.len() >= 2
    &&& forall|k: int| 0 <= k < p.len() - 1 ==> #[trigger] hop(next, p[k], p[k + 1])
    &&& forall|k: int| 1 <= k < p.len() ==> !lettered[#[trigger] p[k] as int]
}

/// Run `s` hands its numbers on to run `r`: a path leads from `s` to `r`
/// through unlettered runs only.
pub open spec fn feeds(next: Seq<Seq<usize>>, lettered: Seq<bool>, s: usize, r: usize) -> bool {
    exists|p: Seq<usize>| #[trigger] feed_path(next, lettered, p) && p[0] == s && p.last() == r
}

/// Which runs have numbers lettered along them.
pub open spec fn lettered_runs(numbers: Seq<Seq<Seq<char>>>) -> Seq<bool> {
    numbers.map_values(|n: Seq<Seq<char>>| n.len() > 0)
}

/// The numbers of each run, as text.
pub open spec fn number_views(numbers: Seq<Vec<String>>) -> Seq<Seq<Seq<char>>> {
    numbers.map_values(|n: Vec<String>| views(n@))
}

/// The numbers run `r` carries: its own, and those of every run that feeds
/// it.
pub open spec fn carried(numbers: Seq<Seq<Seq<char>>>, next: Seq<Seq<usize>>, r: int) -> Set<Seq<char>> {
    numbers[r].to_set().union(
        Set::new(
            |l: Seq<char>|
                exists|s: usize|
                    s < numbers.len() && #[trigger] feeds(next, lettered_runs(numbers), s, r as usize)
                        && numbers[s as int].contains(l),
        ),
    )
}

/// Whether every run `x` continues into is lettered or reached.
pub open spec fn expanded(next: Seq<Seq<usize>>, lettered: Seq<bool>, seen: Seq<bool>, x: usize) -> bool {
    forall|k: int| 0 <= k < next[x as int].len() ==> lettered[#[trigger] next[x as int][k] as int] || seen[next[x as int][k] as int]
}

/// A path of lettered-or-reached steps from a reached run stays reached.
proof fn lemma_closed_reach(
    next: Seq<Seq<usize>>,
    lettered: Seq<bool>,
    seen: Seq<bool>,
    p: Seq<usize>,
    k: int,
)
    requires
        feed_path(next, lettered, p),
        seen.len() == next.len(),
        seen[p[0] as int],
        forall|x: usize| x < next.len() && #[trigger] seen[x as int] ==> expanded(next, lettered, seen, x),
        0 <= k < p.len(),
    ensures
        seen[p[k] as int],
    decreases k,
{
    if k > 0 {
        lemma_closed_reach(next, lettered, seen, p, k - 1);
        let a = p[k - 1];
        assert(hop(next, p[k - 1], p[k - 1 + 1]));
        assert(next[a as int].contains(p[k]));
        let q = choose|q: int| 0 <= q < next[a as int].len() && next[a as int][q] == p[k];
        assert(expanded(next, lettered, seen, a));
        assert(lettered[next[a as int][q] as int] || seen[next[a as int][q] as int]);
        assert(!lettered[p[k] as int]);
    }
}

proof fn lemma_path_step(next: Seq<Seq<usize>>, lettered: Seq<bool>, p: Seq<usize>, x: usize, n: usize)
    requires
        p.len() >= 1,
        forall|k: int| 0 <= k < p.len() - 1 ==> #[trigger] hop(next, p[k], p[k + 1]),
        forall|k: int| 1 <= k < p.len() ==> !lettered[#[trigger] p[k] as int],
        p.last() == x,
        hop(next, x, n),
        !lettered[n as int],
    ensures
        feed_path(next, lettered, p.push(n)),
        p.push(n)[0] == p[0],
        p.push(n).last() == n,
{
    let t = p.push(n);
    assert forall|k: int| 0 <= k < t.len() - 1 implies #[trigger] hop(next, t[k], t[k + 1]) by {
        if k < p.len() - 1 {
            assert(t[k] == p[k] && t[k + 1] == p[k + 1]);
            assert(hop(next, p[k], p[k + 1]));
        } else {
            assert(t[k] == x && t[k + 1] == n);
        }
    }
    assert forall|k: int| 1 <= k < t.len() implies !lettered[#[trigger] t[k] as int] by {
        if k < p.len() {
            assert(t[k] == p[k]);
        }
    }
}

/// The runs `s` reaches through unlettered runs, and `s` itself.
fn reach_from(next: &[Vec<usize>], lettered: &Vec<bool>, s: usize) -> (seen: Vec<bool>)
    requires
        s < next@.len(),
        lettered@.len() == next@.len(),
        forall|a: int, k: int| 0 <= a < next@.len() && 0 <= k < next@[a]@.len() ==> #[trigger] next@[a]@[k] < next@.len(),
    ensures
        seen@.len() == next@.len(),
        forall|r: usize| r < next@.len() ==> (#[trigger] seen@[r as int] <==> (r == s || feeds(
            next@.map_values(|v: Vec<usize>| v@),
            lettered@,
            s,
            r,
        ))),
{
    let ghost nx = next@.map_values(|v: Vec<usize>| v@);
    let ghost lt = lettered@;
    let n = next.len();
    let mut seen: Vec<bool> = Vec::new();
    let mut i: usize = 0;
    while i < n
        invariant
            i <= n,
            n == next@.len(),
            seen@.len() == i,
            forall|k: int| 0 <= k < i ==> !seen@[k],
        decreases n - i,
    {
        seen.push(false);
        i += 1;
    }
    let ghost mut paths: Seq<Seq<usize>> = Seq::new(n as nat, |k: int| seq![s, k as usize]);
    proof {
        lemma_count_set(seen@, s as int);
    }
    seen.set(s, true);
    proof {
        lemma_count_le_len(seen@);
    }
    let mut todo: Vec<usize> = Vec::new();
    todo.push(s);
    proof {
        assert(todo@[0] == s);
        assert forall|x: usize| x < n && #[trigger] seen@[x as int] && !todo@.contains(x) implies expanded(
            nx,
            lt,
            seen@,
            x,
        ) by {
            assert(x == s);
        }
    }
    while todo.len() > 0
        invariant
            n == next@.len(),
            nx == next@.map_values(|v: Vec<usize>| v@),
            lt == lettered@,
            lt.len() == n,
            s < n,
            seen@.len() == n,
            count_set(seen@) <= n,
            paths.len() == n,
            seen@[s as int],
            forall|a: int, k: int| 0 <= a < n && 0 <= k < next@[a]@.len() ==> #[trigger] next@[a]@[k] < n,
            forall|r: usize|
                r < n && #[trigger] seen@[r as int] && r != s ==> feed_path(nx, lt, paths[r as int])
                    && paths[r as int][0] == s && paths[r as int].last() == r,
            todo@.no_duplicates(),
            forall|k: int| 0 <= k < todo@.len() ==> (#[trigger] todo@[k]) < n && seen@[todo@[k] as int],
            forall|x: usize| x < n && #[trigger] seen@[x as int] && !todo@.contains(x) ==> expanded(nx, lt, seen@, x),
        decreases 2 * (n - count_set(seen@)) + todo@.len(),
    {
        let ghost bound = 2 * (n - count_set(seen@)) + todo@.len();
        let ghost before = todo@;
        let x = todo.pop().unwrap();
        proof {
            assert(todo@ =~= before.drop_last());
            assert(!todo@.contains(x)) by {
                if todo@.contains(x) {
                    let k = choose|k: int| 0 <= k < todo@.len() && todo@[k] == x;
                    assert(before[k] == before[before.len() - 1]);
                }
            }
            assert forall|u: usize| u < n && #[trigger] seen@[u as int] && !todo@.contains(u) && u != x implies expanded(
                nx,
                lt,
                seen@,
                u,
            ) by {
                if before.contains(u) {
                    let k = choose|k: int| 0 <= k < before.len() && before[k] == u;
                    if k < todo@.len() {
                        assert(todo@[k] == u);
                    }
                }
            }
            lemma_count_le_len(seen@);
        }
        let ghost px = if x == s { seq![s] } else { paths[x as int] };
        proof {
            if x == s {
                assert forall|k: int| 0 <= k < px.len() - 1 implies #[trigger] hop(nx, px[k], px[k + 1]) by {}
                assert forall|k: int| 1 <= k < px.len() implies !lt[#[trigger] px[k] as int] by {}
            }
        }
        let mut q: usize = 0;
        while q < next[x].len()
            invariant
                n == next@.len(),
                nx == next@.map_values(|v: Vec<usize>| v@),
                lt == lettered@,
                lt.len() == n,
                s < n,
                x < n,
                seen@.len() == n,
                count_set(seen@) <= n,
                paths.len() == n,
                seen@[s as int],
                seen@[x as int],
                !todo@.contains(x),
                q <= next@[x as int]@.len(),
                px.len() >= 1,
                px[0] == s,
                px.last() == x,
                forall|k: int| 0 <= k < px.len() - 1 ==> #[trigger] hop(nx, px[k], px[k + 1]),
                forall|k: int| 1 <= k < px.len() ==> !lt[#[trigger] px[k] as int],
                forall|a: int, k: int| 0 <= a < n && 0 <= k < next@[a]@.len() ==> #[trigger] next@[a]@[k] < n,
                forall|r: usize|
                    r < n && #[trigger] seen@[r as int] && r != s ==> feed_path(nx, lt, paths[r as int])
                        && paths[r as int][0] == s && paths[r as int].last() == r,
                todo@.no_duplicates(),
                forall|k: int| 0 <= k < todo@.len() ==> (#[trigger] todo@[k]) < n && seen@[todo@[k] as int],
                forall|u: usize|
                    u < n && #[trigger] seen@[u as int] && !todo@.contains(u) && u != x ==> expanded(nx, lt, seen@, u),
                forall|k: int| 0 <= k < q ==> lt[#[trigger] nx[x as int][k] as int] || seen@[nx[x as int][k] as int],
                2 * (n - count_set(seen@)) + todo@.len() < bound,
            decreases next@[x as int]@.len() - q,
        {
            let m = next[x][q];
            assert(nx[x as int][q as int] == m);
            if !seen[m] && !lettered[m] {
                proof {
                    lemma_count_set(seen@, m as int);
                    assert(nx[x as int].contains(m));
                    lemma_path_step(nx, lt, px, x, m);
                    paths = paths.update(m as int, px.push(m));
                }
                let ghost old_seen = seen@;
                let ghost old_todo = todo@;
                seen.set(m, true);
                todo.push(m);
                proof {
                    assert forall|u: usize|
                        u < n && #[trigger] seen@[u as int] && !todo@.contains(u) && u != x implies expanded(
                        nx,
                        lt,
                        seen@,
                        u,
                    ) by {
                        assert(u != m) by {
                            assert(todo@[todo@.len() - 1] == m);
                        }
                        assert(old_seen[u as int]);
                        assert(!old_todo.contains(u)) by {
                            if old_todo.contains(u) {
                                let k = choose|k: int| 0 <= k < old_todo.len() && old_todo[k] == u;
                                assert(todo@[k] == u);
                            }
                        }
                        assert(expanded(nx, lt, old_seen, u));
                    }
                    assert forall|k: int, k2: int| 0 <= k < k2 < todo@.len() implies todo@[k] != todo@[k2] by {
                        if k2 == todo@.len() - 1 {
                            assert(old_seen[old_todo[k] as int]);
                        }
                    }
                }
            }
            q += 1;
        }
    }
    proof {
        assert forall|r: usize| r < n implies (#[trigger] seen@[r as int] <==> (r == s || feeds(nx, lt, s, r))) by {
            if seen@[r as int] && r != s {
                assert(feed_path(nx, lt, paths[r as int]));
            }
            if feeds(nx, lt, s, r) {
                let p = choose|p: Seq<usize>| #[trigger] feed_path(nx, lt, p) && p[0] == s && p.last() == r;
                assert forall|x: usize| x < nx.len() && #[trigger] seen@[x as int] implies expanded(nx, lt, seen@, x) by {
                    assert(!todo@.contains(x));
                }
                lemma_closed_reach(nx, lt, seen@, p, p.len() - 1);
            }
        }
    }
    seen
}

proof fn lemma_count_le_len(s: Seq<bool>)
    ensures
        count_set(s) <= s.len(),
    decreases s.len(),
{
    if s.len() > 0 {
        lemma_count_le_len(s.drop_last());
    }
}

/// Add every one of `values` to the sorted set `names`.
fn insert_all(names: &mut Vec<String>, values: &Vec<String>)
    requires
        sorted_unique(views(old(names)@)),
    ensures
        sorted_unique(views(final(names)@)),
        views(final(names)@).to_set() == views(old(names)@).to_set().union(views(values@).to_set()),
{
    let ghost start = views(names@).to_set();
    let ghost vs = views(values@);
    let mut m: usize = 0;
    assert(start.union(vs.take(0).to_set()) =~= start);
    while m < values.len()
        invariant
            m <= values@.len(),
            vs == views(values@),
            sorted_unique(views(names@)),
            views(names@).to_set() == start.union(vs.take(m as int).to_set()),
        decreases values@.len() - m,
    {
        insert_name(names, values[m].as_str());
        proof {
            crate::sorted::lemma_take_push_to_set(vs, m as int);
            assert(views(names@).to_set() =~= start.union(vs.take(m + 1).to_set()));
        }
        m += 1;
    }
    assert(vs.take(vs.len() as int) =~= vs);
}

/// The numbers runs below `s` that feed run `r` hand on to it.
pub open spec fn fed_below(numbers: Seq<Seq<Seq<char>>>, next: Seq<Seq<usize>>, r: int, s: int) -> Set<Seq<char>> {
    Set::new(
        |l: Seq<char>|
            exists|t: usize|
                t < s && #[trigger] feeds(next, lettered_runs(numbers), t, r as usize) && numbers[t as int].contains(l),
    )
}

/// The line numbers each run carries, sorted, each once: a run's own
/// (`numbers`), and those of every run that reaches it along `next` through
/// unlettered runs -- all of which only an unlettered run can be given.
pub fn carried_lines(numbers: &[Vec<String>], next: &[Vec<usize>]) -> (lines: Vec<Vec<String>>)
    requires
        next@.len() == numbers@.len(),
        forall|a: int, k: int| 0 <= a < next@.len() && 0 <= k < next@[a]@.len() ==> #[trigger] next@[a]@[k] < next@.len(),
    ensures
        lines@.len() == numbers@.len(),
        forall|r: int|
            0 <= r < lines@.len() ==> sorted_unique(views(#[trigger] lines@[r]@)) && views(lines@[r]@).to_set()
                == carried(number_views(numbers@), next@.map_values(|v: Vec<usize>| v@), r),
{
    let ghost nv = number_views(numbers@);
    let ghost nx = next@.map_values(|v: Vec<usize>| v@);
    let n = numbers.len();
    let mut lettered: Vec<bool> = Vec::new();
    let mut i: usize = 0;
    while i < n
        invariant
            i <= n,
            n == numbers@.len(),
            nv == number_views(numbers@),
            lettered@.len() == i,
            forall|k: int| 0 <= k < i ==> lettered@[k] == lettered_runs(nv)[k],
        decreases n - i,
    {
        lettered.push(numbers[i].len() > 0);
        i += 1;
    }
    assert(lettered@ =~= lettered_runs(nv));
    let mut reaches: Vec<Vec<bool>> = Vec::new();
    let mut s: usize = 0;
    while s < n
        invariant
            s <= n,
            n == numbers@.len(),
            n == next@.len(),
            nv == number_views(numbers@),
            nx == next@.map_values(|v: Vec<usize>| v@),
            lettered@ == lettered_runs(nv),
            forall|a: int, k: int| 0 <= a < next@.len() && 0 <= k < next@[a]@.len() ==> #[trigger] next@[a]@[k] < next@.len(),
            reaches@.len() == s,
            forall|t: int|
                0 <= t < s && lettered@[t] ==> (#[trigger] reaches@[t])@.len() == n && forall|r: usize|
                    r < n ==> (reaches@[t]@[r as int] <==> (r == t || feeds(nx, lettered@, t as usize, r))),
        decreases n - s,
    {
        if lettered[s] {
            let seen = reach_from(next, &lettered, s);
            reaches.push(seen);
        } else {
            reaches.push(Vec::new());
        }
        proof {
            assert forall|t: int|
                0 <= t < s + 1 && lettered@[t] implies (#[trigger] reaches@[t])@.len() == n && forall|r: usize|
                    r < n ==> (reaches@[t]@[r as int] <==> (r == t || feeds(nx, lettered@, t as usize, r))) by {}
        }
        s += 1;
    }
    let mut lines: Vec<Vec<String>> = Vec::new();
    let mut r: usize = 0;
    while r < n
        invariant
            r <= n,
            n == numbers@.len(),
            n == next@.len(),
            nv == number_views(numbers@),
            nx == next@.map_values(|v: Vec<usize>| v@),
            lettered@ == lettered_runs(nv),
            reaches@.len() == n,
            forall|t: int|
                0 <= t < n && lettered@[t] ==> (#[trigger] reaches@[t])@.len() == n && forall|q: usize|
                    q < n ==> (reaches@[t]@[q as int] <==> (q == t || feeds(nx, lettered@, t as usize, q))),
            lines@.len() == r,
            forall|q: int|
                0 <= q < r ==> sorted_unique(views(#[trigger] lines@[q]@)) && views(lines@[q]@).to_set()
                    == carried(nv, nx, q),
        decreases n - r,
    {
        let mut l: Vec<String> = Vec::new();
        assert(views(l@).to_set() =~= Set::<Seq<char>>::empty());
        insert_all(&mut l, &numbers[r]);
        assert(nv[r as int] == views(numbers@[r as int]@));
        let ghost base = nv[r as int].to_set();
        let mut t: usize = 0;
        assert(fed_below(nv, nx, r as int, 0) =~= Set::<Seq<char>>::empty());
        assert(views(l@).to_set() =~= base.union(fed_below(nv, nx, r as int, 0)));
        while t < n
            invariant
                t <= n,
                r < n,
                n == numbers@.len(),
                nv == number_views(numbers@),
                nx == next@.map_values(|v: Vec<usize>| v@),
                lettered@ == lettered_runs(nv),
                reaches@.len() == n,
                base == nv[r as int].to_set(),
                forall|u: int|
                    0 <= u < n && lettered@[u] ==> (#[trigger] reaches@[u])@.len() == n && forall|q: usize|
                        q < n ==> (reaches@[u]@[q as int] <==> (q == u || feeds(nx, lettered@, u as usize, q))),
                sorted_unique(views(l@)),
                views(l@).to_set() == base.union(fed_below(nv, nx, r as int, t as int)),
            decreases n - t,
        {
            let ghost before = views(l@).to_set();
            let takes = lettered[t] && reaches[t][r];
            if takes {
                insert_all(&mut l, &numbers[t]);
            }
            proof {
                assert(nv[t as int] == views(numbers@[t as int]@));
                assert forall|x: Seq<char>| #[trigger] views(l@).to_set().contains(x) <==> base.union(
                    fed_below(nv, nx, r as int, t + 1),
                ).contains(x) by {
                    if views(l@).to_set().contains(x) && !before.contains(x) {
                        assert(takes);
                        assert(nv[t as int].to_set().contains(x));
                        if t != r {
                            assert(feeds(nx, lettered@, t, r));
                            assert(nv[t as int].contains(x));
                            assert(fed_below(nv, nx, r as int, t + 1).contains(x));
                        }
                    }
                    if before.contains(x) && !base.contains(x) {
                        let w = choose|w: usize|
                            w < t && #[trigger] feeds(nx, lettered_runs(nv), w, r) && nv[w as int].contains(x);
                        assert(fed_below(nv, nx, r as int, t + 1).contains(x));
                    }
                    if fed_below(nv, nx, r as int, t + 1).contains(x) && !fed_below(nv, nx, r as int, t as int).contains(x) {
                        let w = choose|w: usize|
                            w < t + 1 && #[trigger] feeds(nx, lettered_runs(nv), w, r) && nv[w as int].contains(x);
                        if w < t {
                            assert(fed_below(nv, nx, r as int, t as int).contains(x));
                        } else {
                            assert(nv[t as int].len() > 0);
                            assert(lettered@[t as int]);
                            assert(reaches@[t as int]@[r as int]);
                            assert(takes);
                            assert(nv[t as int].to_set().contains(x));
                        }
                    }
                }
                assert(views(l@).to_set() =~= base.union(fed_below(nv, nx, r as int, t + 1)));
            }
            t += 1;
        }
        proof {
            assert(fed_below(nv, nx, r as int, n as int) =~= Set::new(
                |x: Seq<char>|
                    exists|w: usize|
                        w < nv.len() && #[trigger] feeds(nx, lettered_runs(nv), w, r as usize) && nv[w as int].contains(x),
            ));
        }
        lines.push(l);
        proof {
            assert forall|q: int|
                0 <= q < r + 1 implies sorted_unique(views(#[trigger] lines@[q]@)) && views(lines@[q]@).to_set()
                    == carried(nv, nx, q) by {}
        }
        r += 1;
    }
    lines
}

/// A lettered run keeps its own numbers: it carries exactly those lettered
/// along it, whatever runs lead to it.
pub proof fn law_a_lettered_run_keeps_its_own_numbers(
    numbers: Seq<Seq<Seq<char>>>,
    next: Seq<Seq<usize>>,
    r: usize,
)
    requires
        r < numbers.len(),
        numbers[r as int].len() > 0,
    ensures
        carried(numbers, next, r as int) == numbers[r as int].to_set(),
{
    let lettered = lettered_runs(numbers);
    assert(lettered[r as int]);
    assert forall|s: usize| !#[trigger] feeds(next, lettered, s, r) by {
        if feeds(next, lettered, s, r) {
            let p = choose|p: Seq<usize>| #[trigger] feed_path(next, lettered, p) && p[0] == s && p.last() == r;
            assert(!lettered[p[p.len() - 1] as int]);
        }
    }
    assert(carried(numbers, next, r as int) =~= numbers[r as int].to_set());
}

} // verus!
