//! The recognised symbols counted by what they are: one group per class and
//! label, the most frequent first.

use vstd::prelude::*;

use crate::sorted::{lemma_lex_total, lemma_lex_transitive, lex_less, lex_lt};
use crate::text::{chars_of, same, string_of};

verus! {

/// A symbol's class and label, as text.
pub open spec fn key_of(k: (String, String)) -> (Seq<char>, Seq<char>) {
    (k.0@, k.1@)
}

/// The class and label of each symbol, in order.
pub open spec fn keys_of(symbols: Seq<(String, String)>) -> Seq<(Seq<char>, Seq<char>)> {
    symbols.map_values(|k: (String, String)| key_of(k))
}

/// The indices of the symbols whose class and label are `key`, in order.
pub open spec fn members(keys: Seq<(Seq<char>, Seq<char>)>, key: (Seq<char>, Seq<char>)) -> Seq<usize>
    decreases keys.len(),
{
    if keys.len() == 0 {
        Seq::<usize>::empty()
    } else {
        let before = members(keys.drop_last(), key);
        if keys.last() == key {
            before.push((keys.len() - 1) as usize)
        } else {
            before
        }
    }
}

/// `a` sorts before `b` by class, then by label.
pub open spec fn key_lt(a: (Seq<char>, Seq<char>), b: (Seq<char>, Seq<char>)) -> bool {
    lex_lt(a.0, b.0) || (a.0 == b.0 && lex_lt(a.1, b.1))
}

/// Group `a` of `n` symbols comes before group `b` of `m`: more symbols
/// first, then by class and label.
pub open spec fn ranked_before(a: (Seq<char>, Seq<char>), n: nat, b: (Seq<char>, Seq<char>), m: nat) -> bool {
    n > m || (n == m && key_lt(a, b))
}

/// The group's class and label, as text.
pub open spec fn group_key(g: ((String, String), Vec<usize>)) -> (Seq<char>, Seq<char>) {
    key_of(g.0)
}

proof fn lemma_ranked_transitive(
    a: (Seq<char>, Seq<char>),
    n: nat,
    b: (Seq<char>, Seq<char>),
    m: nat,
    c: (Seq<char>, Seq<char>),
    l: nat,
)
    requires
        ranked_before(a, n, b, m),
        ranked_before(b, m, c, l),
    ensures
        ranked_before(a, n, c, l),
{
    if n == m && m == l {
        if lex_lt(a.0, b.0) && lex_lt(b.0, c.0) {
            lemma_lex_transitive(a.0, b.0, c.0);
        } else if lex_lt(a.0, b.0) {
        } else if lex_lt(b.0, c.0) {
        } else {
            lemma_lex_transitive(a.1, b.1, c.1);
        }
    }
}

proof fn lemma_ranked_total(a: (Seq<char>, Seq<char>), n: nat, b: (Seq<char>, Seq<char>), m: nat)
    requires
        a != b,
    ensures
        ranked_before(a, n, b, m) || ranked_before(b, m, a, n),
        !(ranked_before(a, n, b, m) && ranked_before(b, m, a, n)),
{
    lemma_lex_total(a.0, b.0);
    lemma_lex_total(a.1, b.1);
    if a.0 == b.0 && a.1 == b.1 {
        assert(a == b);
    }
}

fn key_eq(a: &(String, String), b: &(String, String)) -> (r: bool)
    ensures
        r == (key_of(*a) == key_of(*b)),
{
    same(chars_of(a.0.as_str()).as_slice(), chars_of(b.0.as_str()).as_slice()) && same(
        chars_of(a.1.as_str()).as_slice(),
        chars_of(b.1.as_str()).as_slice(),
    )
}

fn key_copy(k: &(String, String)) -> (out: (String, String))
    ensures
        key_of(out) == key_of(*k),
{
    (string_of(chars_of(k.0.as_str()).as_slice()), string_of(chars_of(k.1.as_str()).as_slice()))
}

fn ranks_before(a: &((String, String), Vec<usize>), b: &((String, String), Vec<usize>)) -> (r: bool)
    ensures
        r == ranked_before(group_key(*a), a.1@.len(), group_key(*b), b.1@.len()),
{
    if a.1.len() != b.1.len() {
        return a.1.len() > b.1.len();
    }
    let (ac, bc) = (chars_of((a.0).0.as_str()), chars_of((b.0).0.as_str()));
    if lex_less(ac.as_slice(), bc.as_slice()) {
        return true;
    }
    same(ac.as_slice(), bc.as_slice()) && lex_less(
        chars_of((a.0).1.as_str()).as_slice(),
        chars_of((b.0).1.as_str()).as_slice(),
    )
}

/// The groups of symbols with one class and label, in the order each first
/// occurs.
fn groups_of(symbols: &[(String, String)]) -> (groups: Vec<((String, String), Vec<usize>)>)
    ensures
        forall|a: int, b: int|
            0 <= a < b < groups@.len() ==> group_key(#[trigger] groups@[a]) != group_key(
                #[trigger] groups@[b],
            ),
        forall|a: int|
            0 <= a < groups@.len() ==> (#[trigger] groups@[a]).1@ == members(
                keys_of(symbols@),
                group_key(groups@[a]),
            ),
        groups@.map_values(|g: ((String, String), Vec<usize>)| group_key(g)).to_set() == keys_of(
            symbols@,
        ).to_set(),
{
    let ghost ks = keys_of(symbols@);
    let mut groups: Vec<((String, String), Vec<usize>)> = Vec::new();
    let mut i: usize = 0;
    assert(ks.take(0).to_set() =~= Set::<(Seq<char>, Seq<char>)>::empty());
    assert(groups@.map_values(|g: ((String, String), Vec<usize>)| group_key(g)).to_set()
        =~= Set::<(Seq<char>, Seq<char>)>::empty());
    while i < symbols.len()
        invariant
            i <= symbols@.len(),
            ks == keys_of(symbols@),
            forall|a: int, b: int|
                0 <= a < b < groups@.len() ==> group_key(#[trigger] groups@[a]) != group_key(
                    #[trigger] groups@[b],
                ),
            forall|a: int|
                0 <= a < groups@.len() ==> (#[trigger] groups@[a]).1@ == members(
                    ks.take(i as int),
                    group_key(groups@[a]),
                ),
            groups@.map_values(|g: ((String, String), Vec<usize>)| group_key(g)).to_set()
                == ks.take(i as int).to_set(),
        decreases symbols@.len() - i,
    {
        let ghost before = groups@;
        let ghost k = ks[i as int];
        assert(ks.take(i + 1).drop_last() =~= ks.take(i as int));
        assert(ks.take(i + 1).last() == k);
        assert(k == key_of(symbols@[i as int]));
        let mut g: usize = 0;
        while g < groups.len() && !key_eq(&groups[g].0, &symbols[i])
            invariant
                i < symbols@.len(),
                k == key_of(symbols@[i as int]),
                g <= groups@.len(),
                groups@ == before,
                forall|a: int| 0 <= a < g ==> group_key(#[trigger] groups@[a]) != k,
            decreases groups@.len() - g,
        {
            g += 1;
        }
        if g < groups.len() {
            let mut entry = (key_copy(&groups[g].0), Vec::new());
            std::mem::swap(&mut entry.1, &mut groups[g].1);
            entry.1.push(i);
            groups.set(g, entry);
            proof {
                assert forall|a: int| 0 <= a < groups@.len() implies (#[trigger] groups@[a]).1@
                    == members(ks.take(i + 1), group_key(groups@[a])) by {
                    if a != g {
                        assert(groups@[a] == before[a]);
                        assert(group_key(before[a]) != k) by {
                            if group_key(before[a]) == k {
                                assert(group_key(before[a]) == group_key(before[g as int]));
                            }
                        }
                    }
                }
                assert forall|a: int, b: int|
                    0 <= a < b < groups@.len() implies group_key(#[trigger] groups@[a]) != group_key(
                    #[trigger] groups@[b],
                ) by {
                    assert(group_key(groups@[a]) == group_key(before[a]));
                    assert(group_key(groups@[b]) == group_key(before[b]));
                }
                assert(groups@.map_values(|g: ((String, String), Vec<usize>)| group_key(g)) =~= before.map_values(
                    |g: ((String, String), Vec<usize>)| group_key(g),
                ));
                crate::sorted::lemma_take_push_to_set(ks, i as int);
                assert(before.map_values(|g: ((String, String), Vec<usize>)| group_key(g))[g as int] == k);
                assert(ks.take(i + 1).to_set() =~= ks.take(i as int).to_set());
            }
        } else {
            let mut list: Vec<usize> = Vec::new();
            list.push(i);
            groups.push((key_copy(&symbols[i]), list));
            proof {
                assert forall|a: int| 0 <= a < groups@.len() implies (#[trigger] groups@[a]).1@
                    == members(ks.take(i + 1), group_key(groups@[a])) by {
                    if a < before.len() {
                        assert(groups@[a] == before[a]);
                    } else {
                        assert(!ks.take(i as int).to_set().contains(k)) by {
                            if ks.take(i as int).to_set().contains(k) {
                                let m = before.map_values(
                                    |g: ((String, String), Vec<usize>)| group_key(g),
                                );
                                assert(m.to_set().contains(k));
                                let q = choose|q: int| 0 <= q < m.len() && #[trigger] m[q] == k;
                                assert(group_key(before[q]) == k);
                            }
                        }
                        lemma_members_absent(ks.take(i as int), k);
                        assert(members(ks.take(i as int), k) =~= Seq::<usize>::empty());
                    }
                }
                assert forall|a: int, b: int|
                    0 <= a < b < groups@.len() implies group_key(#[trigger] groups@[a]) != group_key(
                    #[trigger] groups@[b],
                ) by {
                    if b == before.len() {
                        assert(groups@[a] == before[a]);
                    } else {
                        assert(groups@[a] == before[a]);
                        assert(groups@[b] == before[b]);
                    }
                }
                let m0 = before.map_values(|g: ((String, String), Vec<usize>)| group_key(g));
                assert(groups@.map_values(|g: ((String, String), Vec<usize>)| group_key(g)) =~= m0.push(k));
                crate::sorted::lemma_push_to_set(m0, k);
                crate::sorted::lemma_take_push_to_set(ks, i as int);
            }
        }
        i += 1;
    }
    assert(ks.take(symbols@.len() as int) =~= ks);
    groups
}

/// A class and label no symbol of `keys` has has no members.
proof fn lemma_members_absent(keys: Seq<(Seq<char>, Seq<char>)>, key: (Seq<char>, Seq<char>))
    requires
        !keys.to_set().contains(key),
    ensures
        members(keys, key).len() == 0,
    decreases keys.len(),
{
    if keys.len() > 0 {
        assert(keys.drop_last().to_set().contains(key) ==> keys.to_set().contains(key)) by {
            if keys.drop_last().to_set().contains(key) {
                let q = choose|q: int| 0 <= q < keys.drop_last().len() && #[trigger] keys.drop_last()[q] == key;
                assert(keys[q] == key);
            }
        }
        assert(keys.last() != key) by {
            if keys.last() == key {
                assert(keys[keys.len() - 1] == key);
            }
        }
        lemma_members_absent(keys.drop_last(), key);
    }
}

/// The symbols grouped by class and label -- each symbol given by its
/// class and label, each group with the indices of its symbols in order --
/// the most frequent group first, groups of one size by class and then by
/// label.
pub fn by_class(symbols: &[(String, String)]) -> (out: Vec<((String, String), Vec<usize>)>)
    ensures
        forall|a: int, b: int|
            0 <= a < b < out@.len() ==> ranked_before(
                group_key(#[trigger] out@[a]),
                out@[a].1@.len(),
                group_key(#[trigger] out@[b]),
                out@[b].1@.len(),
            ),
        out@.map_values(|g: ((String, String), Vec<usize>)| group_key(g)).to_set() == keys_of(
            symbols@,
        ).to_set(),
        forall|a: int|
            0 <= a < out@.len() ==> (#[trigger] out@[a]).1@ == members(
                keys_of(symbols@),
                group_key(out@[a]),
            ),
{
    let mut groups = groups_of(symbols);
    let ghost all = groups@;
    assert(all.len() == groups.len());
    let ghost ks = keys_of(symbols@);
    let mut out: Vec<((String, String), Vec<usize>)> = Vec::new();
    let mut i: usize = 0;
    assert(out@.to_set() =~= all.take(0).to_set());
    while groups.len() > 0
        invariant
            i <= all.len(),
            all.len() <= usize::MAX,
            groups@ == all.skip(i as int),
            forall|a: int, b: int|
                0 <= a < b < all.len() ==> group_key(#[trigger] all[a]) != group_key(#[trigger] all[b]),
            out@.to_set() == all.take(i as int).to_set(),
            forall|a: int, b: int|
                0 <= a < b < out@.len() ==> ranked_before(
                    group_key(#[trigger] out@[a]),
                    out@[a].1@.len(),
                    group_key(#[trigger] out@[b]),
                    out@[b].1@.len(),
                ),
            forall|a: int, b: int|
                0 <= a < b < out@.len() ==> group_key(#[trigger] out@[a]) != group_key(#[trigger] out@[b]),
        decreases groups@.len(),
    {
        let g = groups.remove(0);
        assert(g == all[i as int]);
        assert(all.skip(i as int).drop_first() =~= all.skip(i + 1));
        proof {
            assert forall|a: int| 0 <= a < out@.len() implies group_key(#[trigger] out@[a]) != group_key(g) by {
                assert(all.take(i as int).to_set().contains(out@[a])) by {
                    assert(out@.to_set().contains(out@[a]));
                }
                let q = choose|q: int| 0 <= q < i && #[trigger] all.take(i as int)[q] == out@[a];
                assert(all[q] == out@[a]);
            }
        }
        let mut p: usize = 0;
        while p < out.len() && !ranks_before(&g, &out[p])
            invariant
                p <= out@.len(),
                forall|a: int| 0 <= a < p ==> !ranked_before(
                    group_key(g),
                    g.1@.len(),
                    group_key(#[trigger] out@[a]),
                    out@[a].1@.len(),
                ),
            decreases out@.len() - p,
        {
            p += 1;
        }
        let ghost before = out@;
        out.insert(p, g);
        proof {
            before.insert_ensures(p as int, g);
            assert forall|a: int, b: int|
                0 <= a < b < out@.len() implies ranked_before(
                group_key(#[trigger] out@[a]),
                out@[a].1@.len(),
                group_key(#[trigger] out@[b]),
                out@[b].1@.len(),
            ) && group_key(out@[a]) != group_key(out@[b]) by {
                if b < p {
                } else if b == p {
                    lemma_ranked_total(group_key(before[a]), before[a].1@.len(), group_key(g), g.1@.len());
                } else if a < p {
                    assert(out@[b] == before[b - 1]);
                    lemma_ranked_total(group_key(before[a]), before[a].1@.len(), group_key(g), g.1@.len());
                    if p < before.len() {
                        lemma_ranked_transitive(
                            group_key(before[a]),
                            before[a].1@.len(),
                            group_key(g),
                            g.1@.len(),
                            group_key(before[p as int]),
                            before[p as int].1@.len(),
                        );
                        if b - 1 > p {
                            lemma_ranked_transitive(
                                group_key(before[a]),
                                before[a].1@.len(),
                                group_key(before[p as int]),
                                before[p as int].1@.len(),
                                group_key(before[b - 1]),
                                before[b - 1].1@.len(),
                            );
                        }
                    }
                } else if a == p {
                    assert(out@[b] == before[b - 1]);
                    if b - 1 > p {
                        lemma_ranked_transitive(
                            group_key(g),
                            g.1@.len(),
                            group_key(before[p as int]),
                            before[p as int].1@.len(),
                            group_key(before[b - 1]),
                            before[b - 1].1@.len(),
                        );
                    }
                } else {
                    assert(out@[a] == before[a - 1]);
                    assert(out@[b] == before[b - 1]);
                }
            }
            assert forall|x: ((String, String), Vec<usize>)| #[trigger] out@.to_set().contains(x) <==> all.take(
                i + 1,
            ).to_set().contains(x) by {
                crate::sorted::lemma_take_push_to_set(all, i as int);
                if out@.contains(x) {
                    let q = choose|q: int| 0 <= q < out@.len() && #[trigger] out@[q] == x;
                    if q < p {
                        assert(before[q] == x);
                        assert(before.to_set().contains(x));
                    } else if q > p {
                        assert(before[q - 1] == x);
                        assert(before.to_set().contains(x));
                    }
                }
                if before.contains(x) {
                    let q = choose|q: int| 0 <= q < before.len() && #[trigger] before[q] == x;
                    if q < p {
                        assert(out@[q] == x);
                    } else {
                        assert(out@[q + 1] == x);
                    }
                }
                if x == g {
                    assert(out@[p as int] == x);
                }
            }
            assert(out@.to_set() =~= all.take(i + 1).to_set());
        }
        i += 1;
    }
    proof {
        assert(all.skip(i as int).len() == 0);
        assert(all.take(i as int) =~= all);
        let mo = out@.map_values(|g: ((String, String), Vec<usize>)| group_key(g));
        let ma = all.map_values(|g: ((String, String), Vec<usize>)| group_key(g));
        assert forall|k: (Seq<char>, Seq<char>)| #[trigger] mo.to_set().contains(k) <==> ma.to_set().contains(k) by {
            if mo.contains(k) {
                let q = choose|q: int| 0 <= q < mo.len() && #[trigger] mo[q] == k;
                assert(out@.to_set().contains(out@[q]));
                let r = choose|r: int| 0 <= r < all.len() && #[trigger] all[r] == out@[q];
                assert(ma[r] == k);
            }
            if ma.contains(k) {
                let r = choose|r: int| 0 <= r < ma.len() && #[trigger] ma[r] == k;
                assert(all.to_set().contains(all[r]));
                let q = choose|q: int| 0 <= q < out@.len() && #[trigger] out@[q] == all[r];
                assert(mo[q] == k);
            }
        }
        assert(mo.to_set() =~= ma.to_set());
        assert forall|a: int| 0 <= a < out@.len() implies (#[trigger] out@[a]).1@ == members(
            ks,
            group_key(out@[a]),
        ) by {
            assert(out@.to_set().contains(out@[a]));
            let r = choose|r: int| 0 <= r < all.len() && #[trigger] all[r] == out@[a];
        }
    }
    out
}

/// Entry `a` ranks ahead of entry `b`: it counts more, or as many and its
/// key sorts first.
pub open spec fn ahead(a: (Seq<char>, usize), b: (Seq<char>, usize)) -> bool {
    a.1 > b.1 || (a.1 == b.1 && lex_lt(a.0, b.0))
}

/// The entries as text.
pub open spec fn count_views(counts: Seq<(String, usize)>) -> Seq<(Seq<char>, usize)> {
    counts.map_values(|c: (String, usize)| (c.0@, c.1))
}

proof fn lemma_ahead_transitive(a: (Seq<char>, usize), b: (Seq<char>, usize), c: (Seq<char>, usize))
    requires
        ahead(a, b),
        ahead(b, c),
    ensures
        ahead(a, c),
{
    if a.1 == b.1 && b.1 == c.1 {
        lemma_lex_transitive(a.0, b.0, c.0);
    }
}

proof fn lemma_ahead_total(a: (Seq<char>, usize), b: (Seq<char>, usize))
    requires
        a.0 != b.0,
    ensures
        ahead(a, b) || ahead(b, a),
        !(ahead(a, b) && ahead(b, a)),
{
    lemma_lex_total(a.0, b.0);
}

fn ahead_exec(a: &(String, usize), b: &(String, usize)) -> (r: bool)
    ensures
        r == ahead((a.0@, a.1), (b.0@, b.1)),
{
    if a.1 != b.1 {
        a.1 > b.1
    } else {
        lex_less(chars_of(a.0.as_str()).as_slice(), chars_of(b.0.as_str()).as_slice())
    }
}

/// The first `keep` of `counts` -- keys each once -- by rank: the highest
/// count first, equal counts by key.
pub fn ranked(counts: &[(String, usize)], keep: usize) -> (out: Vec<(String, usize)>)
    requires
        forall|i: int, j: int| 0 <= i < j < counts@.len() ==> (#[trigger] counts@[i]).0@ != (#[trigger] counts@[j]).0@,
    ensures
        out@.len() == if keep < counts@.len() {
            keep as int
        } else {
            counts@.len() as int
        },
        forall|i: int, j: int| 0 <= i < j < out@.len() ==> ahead(count_views(out@)[i], count_views(out@)[j]),
        forall|i: int| 0 <= i < out@.len() ==> count_views(counts@).contains(#[trigger] count_views(out@)[i]),
        forall|c: int, i: int|
            0 <= c < counts@.len() && 0 <= i < out@.len() && !count_views(out@).contains(count_views(counts@)[c])
                ==> ahead(#[trigger] count_views(out@)[i], #[trigger] count_views(counts@)[c]),
{
    let ghost cv = count_views(counts@);
    let n = counts.len();
    let mut picked: Vec<bool> = Vec::new();
    let mut i: usize = 0;
    while i < n
        invariant
            i <= n,
            n == counts@.len(),
            picked@.len() == i,
            forall|k: int| 0 <= k < i ==> !picked@[k],
        decreases n - i,
    {
        picked.push(false);
        i += 1;
    }
    let want: usize = if keep < n { keep } else { n };
    proof {
        lemma_none_picked(picked@);
    }
    let mut out: Vec<(String, usize)> = Vec::new();
    let ghost mut at: Seq<int> = Seq::empty();
    while out.len() < want
        invariant
            n == counts@.len(),
            cv == count_views(counts@),
            want <= n,
            picked@.len() == n,
            out@.len() <= want,
            at.len() == out@.len(),
            forall|i: int, j: int| 0 <= i < j < counts@.len() ==> (#[trigger] counts@[i]).0@ != (#[trigger] counts@[j]).0@,
            forall|q: int| 0 <= q < at.len() ==> 0 <= #[trigger] at[q] < n && picked@[at[q]] && count_views(out@)[q] == cv[at[q]],
            forall|c: int| 0 <= c < n && picked@[c] ==> exists|q: int| 0 <= q < at.len() && #[trigger] at[q] == c,
            forall|i: int, j: int| 0 <= i < j < out@.len() ==> ahead(count_views(out@)[i], count_views(out@)[j]),
            forall|c: int, q: int|
                0 <= c < n && 0 <= q < out@.len() && !picked@[c] ==> ahead(#[trigger] count_views(out@)[q], #[trigger] cv[c]),
            count_set_of(picked@) == out@.len(),
        decreases want - out@.len(),
    {
        // The best entry not yet picked.
        let mut best: usize = n;
        let mut c: usize = 0;
        proof {
            lemma_count_picked_lt(picked@, out@.len() as int);
        }
        while c < n
            invariant
                n == counts@.len(),
                cv == count_views(counts@),
                picked@.len() == n,
                c <= n,
                best == n || (best < c && !picked@[best as int]),
                forall|i: int, j: int| 0 <= i < j < counts@.len() ==> (#[trigger] counts@[i]).0@ != (#[trigger] counts@[j]).0@,
                best < n ==> forall|d: int| 0 <= d < c && !picked@[d] && d != best ==> ahead(cv[best as int], #[trigger] cv[d]),
                best == n ==> forall|d: int| 0 <= d < c ==> picked@[d],
            decreases n - c,
        {
            if !picked[c] {
                if best == n || ahead_exec(&counts[c], &counts[best]) {
                    proof {
                        if best < n {
                            assert forall|d: int| 0 <= d < c + 1 && !picked@[d] && d != c implies ahead(cv[c as int], #[trigger] cv[d]) by {
                                if d != best {
                                    lemma_ahead_transitive(cv[c as int], cv[best as int], cv[d]);
                                }
                            }
                        }
                    }
                    best = c;
                } else {
                    proof {
                        assert(counts@[c as int].0@ != counts@[best as int].0@);
                        lemma_ahead_total(cv[c as int], cv[best as int]);
                    }
                }
            }
            c += 1;
        }
        proof {
            if best == n {
                lemma_all_picked(picked@);
            }
        }
        let ghost before = out@;
        let ghost old_picked = picked@;
        out.push((counts[best].0.clone(), counts[best].1));
        picked.set(best, true);
        proof {
            lemma_count_picked_step(old_picked, best as int);
            let q_new = before.len() as int;
            assert(count_views(out@)[q_new] == cv[best as int]);
            let old_at = at;
            at = at.push(best as int);
            assert forall|q: int| 0 <= q < at.len() implies 0 <= #[trigger] at[q] < n && picked@[at[q]] && count_views(out@)[q] == cv[at[q]] by {
                if q < q_new {
                    assert(count_views(out@)[q] == count_views(before)[q]);
                }
            }
            assert forall|c: int| 0 <= c < n && picked@[c] implies exists|q: int| 0 <= q < at.len() && #[trigger] at[q] == c by {
                if c == best {
                    assert(at[q_new] == c);
                } else {
                    assert(old_picked[c]);
                    let q = choose|q: int| 0 <= q < old_at.len() && #[trigger] old_at[q] == c;
                    assert(at[q] == c);
                }
            }
            assert forall|i: int, j: int| 0 <= i < j < out@.len() implies ahead(count_views(out@)[i], count_views(out@)[j]) by {
                assert(count_views(out@)[i] == count_views(before)[i]);
                if j < q_new {
                    assert(count_views(out@)[j] == count_views(before)[j]);
                } else {
                    assert(!old_picked[best as int]);
                }
            }
            assert forall|c: int, q: int| 0 <= c < n && 0 <= q < out@.len() && !picked@[c] implies ahead(#[trigger] count_views(out@)[q], #[trigger] cv[c]) by {
                assert(c != best);
                if q < q_new {
                    assert(count_views(out@)[q] == count_views(before)[q]);
                } else {
                    assert(!old_picked[c]);
                }
            }
        }
    }
    proof {
        assert forall|i: int| 0 <= i < out@.len() implies cv.contains(#[trigger] count_views(out@)[i]) by {
            assert(cv[at[i]] == count_views(out@)[i]);
        }
        assert forall|c: int, i: int|
            0 <= c < counts@.len() && 0 <= i < out@.len() && !count_views(out@).contains(cv[c]) implies ahead(
            #[trigger] count_views(out@)[i],
            #[trigger] cv[c],
        ) by {
            if picked@[c] {
                let q = choose|q: int| 0 <= q < at.len() && #[trigger] at[q] == c;
                assert(count_views(out@)[q] == cv[c]);
            }
        }
    }
    out
}

/// How many of `s` are set.
pub open spec fn count_set_of(s: Seq<bool>) -> nat
    decreases s.len(),
{
    if s.len() == 0 {
        0
    } else {
        count_set_of(s.drop_last()) + if s.last() {
            1nat
        } else {
            0nat
        }
    }
}

proof fn lemma_count_picked_lt(s: Seq<bool>, m: int)
    requires
        count_set_of(s) == m,
    ensures
        m <= s.len(),
    decreases s.len(),
{
    if s.len() > 0 {
        lemma_count_picked_lt(s.drop_last(), count_set_of(s.drop_last()) as int);
    }
}

proof fn lemma_none_picked(s: Seq<bool>)
    requires
        forall|d: int| 0 <= d < s.len() ==> !s[d],
    ensures
        count_set_of(s) == 0,
    decreases s.len(),
{
    if s.len() > 0 {
        lemma_none_picked(s.drop_last());
    }
}

proof fn lemma_all_picked(s: Seq<bool>)
    requires
        forall|d: int| 0 <= d < s.len() ==> s[d],
    ensures
        count_set_of(s) == s.len(),
    decreases s.len(),
{
    if s.len() > 0 {
        lemma_all_picked(s.drop_last());
    }
}

proof fn lemma_count_picked_step(s: Seq<bool>, k: int)
    requires
        0 <= k < s.len(),
        !s[k],
    ensures
        count_set_of(s.update(k, true)) == count_set_of(s) + 1,
    decreases s.len(),
{
    if k == s.len() - 1 {
        assert(s.update(k, true).drop_last() =~= s.drop_last());
    } else {
        lemma_count_picked_step(s.drop_last(), k);
        assert(s.update(k, true).drop_last() =~= s.drop_last().update(k, true));
    }
}

} // verus!
