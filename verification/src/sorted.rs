//! Sets of names kept as sorted, duplicate-free lists -- the order `String`
//! sorts in, character by character.

use vstd::prelude::*;

use crate::text::{chars_of, views};

verus! {

/// `a` sorts before `b`: the first character where they differ is smaller
/// in `a`, or `a` is a proper prefix of `b`.
pub open spec fn lex_lt(a: Seq<char>, b: Seq<char>) -> bool
    decreases a.len(),
{
    if a.len() == 0 {
        b.len() > 0
    } else if b.len() == 0 {
        false
    } else if a[0] != b[0] {
        a[0] < b[0]
    } else {
        lex_lt(a.drop_first(), b.drop_first())
    }
}

pub proof fn lemma_lex_irreflexive(a: Seq<char>)
    ensures
        !lex_lt(a, a),
    decreases a.len(),
{
    if a.len() > 0 {
        lemma_lex_irreflexive(a.drop_first());
    }
}

pub proof fn lemma_lex_transitive(a: Seq<char>, b: Seq<char>, c: Seq<char>)
    requires
        lex_lt(a, b),
        lex_lt(b, c),
    ensures
        lex_lt(a, c),
    decreases a.len(),
{
    if a.len() > 0 && b.len() > 0 && c.len() > 0 {
        if a[0] == b[0] && b[0] == c[0] {
            lemma_lex_transitive(a.drop_first(), b.drop_first(), c.drop_first());
        }
    }
}

pub proof fn lemma_lex_total(a: Seq<char>, b: Seq<char>)
    ensures
        lex_lt(a, b) || lex_lt(b, a) || a == b,
        !(lex_lt(a, b) && lex_lt(b, a)),
    decreases a.len(),
{
    if a.len() > 0 && b.len() > 0 {
        lemma_lex_total(a.drop_first(), b.drop_first());
        if a[0] == b[0] && a.drop_first() == b.drop_first() {
            assert(a =~= seq![a[0]] + a.drop_first());
            assert(b =~= seq![b[0]] + b.drop_first());
        }
    } else if a.len() == 0 && b.len() == 0 {
        assert(a =~= b);
    }
}

/// Strictly increasing: sorted and without duplicates.
pub open spec fn sorted_unique(s: Seq<Seq<char>>) -> bool {
    forall|i: int, j: int| 0 <= i < j < s.len() ==> lex_lt(#[trigger] s[i], #[trigger] s[j])
}

/// Whether `a` sorts before `b`.
pub fn lex_less(a: &[char], b: &[char]) -> (r: bool)
    ensures
        r == lex_lt(a@, b@),
{
    let mut i: usize = 0;
    assert(a@.skip(0) =~= a@);
    assert(b@.skip(0) =~= b@);
    while i < a.len() && i < b.len()
        invariant
            i <= a@.len(),
            i <= b@.len(),
            lex_lt(a@, b@) == lex_lt(a@.skip(i as int), b@.skip(i as int)),
        decreases a@.len() - i,
    {
        if a[i] != b[i] {
            return a[i] < b[i];
        }
        assert(a@.skip(i as int).drop_first() =~= a@.skip(i + 1));
        assert(b@.skip(i as int).drop_first() =~= b@.skip(i + 1));
        i += 1;
    }
    i == a.len() && i < b.len()
}

fn name_less(names: &Vec<String>, p: usize, n: &Vec<char>) -> (r: bool)
    requires
        p < names@.len(),
    ensures
        r == lex_lt(names@[p as int]@, n@),
{
    let c = chars_of(names[p].as_str());
    lex_less(c.as_slice(), n.as_slice())
}

fn name_eq(names: &Vec<String>, p: usize, n: &Vec<char>) -> (r: bool)
    requires
        p < names@.len(),
    ensures
        r == (names@[p as int]@ == n@),
{
    let c = chars_of(names[p].as_str());
    crate::text::same(c.as_slice(), n.as_slice())
}

/// Whether `names` holds `name`.
pub fn holds(names: &Vec<String>, name: &str) -> (r: bool)
    ensures
        r == views(names@).contains(name@),
{
    let n = chars_of(name);
    let mut i: usize = 0;
    while i < names.len()
        invariant
            i <= names@.len(),
            n@ == name@,
            forall|k: int| 0 <= k < i ==> names@[k]@ != name@,
        decreases names@.len() - i,
    {
        if name_eq(names, i, &n) {
            assert(views(names@)[i as int] == name@);
            return true;
        }
        i += 1;
    }
    proof {
        if views(names@).contains(name@) {
            let k = choose|k: int| 0 <= k < views(names@).len() && #[trigger] views(names@)[k] == name@;
            assert(names@[k]@ == name@);
        }
    }
    false
}

/// Add `name` to the sorted set `names`.
pub fn insert_name(names: &mut Vec<String>, name: &str)
    requires
        sorted_unique(views(old(names)@)),
    ensures
        sorted_unique(views(final(names)@)),
        views(final(names)@).to_set() == views(old(names)@).to_set().insert(name@),
{
    let n = chars_of(name);
    let ghost s = views(names@);
    let mut p: usize = 0;
    while p < names.len() && name_less(names, p, &n)
        invariant
            p <= names@.len(),
            s == views(names@),
            n@ == name@,
            sorted_unique(s),
            forall|k: int| 0 <= k < p ==> lex_lt(#[trigger] s[k], name@),
        decreases names@.len() - p,
    {
        p += 1;
    }
    if p < names.len() {
        if name_eq(names, p, &n) {
            assert(s.to_set().insert(name@) =~= s.to_set()) by {
                assert(s[p as int] == name@);
            }
            return;
        }
    }
    proof {
        if p < s.len() {
            lemma_lex_total(s[p as int], name@);
        }
    }
    names.insert(p, crate::text::string_of(n.as_slice()));
    let ghost t = views(names@);
    assert(t =~= s.insert(p as int, name@));
    assert forall|i: int, j: int| 0 <= i < j < t.len() implies lex_lt(
        #[trigger] t[i],
        #[trigger] t[j],
    ) by {
        if j < p {
        } else if j == p {
        } else if i < p {
            assert(lex_lt(s[i], name@));
            assert(t[j] == s[j - 1]);
            if j - 1 > p {
                lemma_lex_transitive(name@, s[p as int], s[j - 1]);
            }
            lemma_lex_transitive(s[i], name@, s[j - 1]);
        } else if i == p {
            assert(t[j] == s[j - 1]);
            if j - 1 > p {
                lemma_lex_transitive(name@, s[p as int], s[j - 1]);
            }
        } else {
            assert(t[i] == s[i - 1]);
            assert(t[j] == s[j - 1]);
        }
    }
    assert(t.to_set() =~= s.to_set().insert(name@)) by {
        assert forall|x: Seq<char>| t.to_set().contains(x) implies s.to_set().insert(name@).contains(
            x,
        ) by {
            let k = choose|k: int| 0 <= k < t.len() && #[trigger] t[k] == x;
            if k < p {
                assert(s[k] == x);
            } else if k > p {
                assert(s[k - 1] == x);
            }
        }
        assert forall|x: Seq<char>| s.to_set().insert(name@).contains(x) implies t.to_set().contains(
            x,
        ) by {
            if x == name@ {
                assert(t[p as int] == x);
            } else {
                let k = choose|k: int| 0 <= k < s.len() && #[trigger] s[k] == x;
                if k < p {
                    assert(t[k] == x);
                } else {
                    assert(t[k + 1] == x);
                }
            }
        }
    }
}

/// Take `name` out of the sorted set `names`.
pub fn remove_name(names: &mut Vec<String>, name: &str)
    requires
        sorted_unique(views(old(names)@)),
    ensures
        sorted_unique(views(final(names)@)),
        views(final(names)@).to_set() == views(old(names)@).to_set().remove(name@),
{
    let n = chars_of(name);
    let ghost s = views(names@);
    let mut p: usize = 0;
    while p < names.len() && !name_eq(names, p, &n)
        invariant
            p <= names@.len(),
            s == views(names@),
            n@ == name@,
            forall|k: int| 0 <= k < p ==> #[trigger] s[k] != name@,
        decreases names@.len() - p,
    {
        p += 1;
    }
    if p == names.len() {
        assert(s.to_set().remove(name@) =~= s.to_set()) by {
            if s.to_set().contains(name@) {
                let k = choose|k: int| 0 <= k < s.len() && #[trigger] s[k] == name@;
            }
        }
        return;
    }
    names.remove(p);
    let ghost t = views(names@);
    assert(t =~= s.remove(p as int));
    assert forall|i: int, j: int| 0 <= i < j < t.len() implies lex_lt(
        #[trigger] t[i],
        #[trigger] t[j],
    ) by {
        if i < p && j >= p {
            assert(t[j] == s[j + 1]);
        } else if i >= p {
            assert(t[i] == s[i + 1]);
            assert(t[j] == s[j + 1]);
        }
    }
    assert(t.to_set() =~= s.to_set().remove(name@)) by {
        assert forall|x: Seq<char>| t.to_set().contains(x) implies s.to_set().remove(name@).contains(
            x,
        ) by {
            let k = choose|k: int| 0 <= k < t.len() && #[trigger] t[k] == x;
            if k < p {
                assert(s[k] == x);
                lemma_lex_irreflexive(x);
                assert(lex_lt(s[k], s[p as int]));
            } else {
                assert(s[k + 1] == x);
                lemma_lex_irreflexive(x);
                assert(lex_lt(s[p as int], s[k + 1]));
            }
        }
        assert forall|x: Seq<char>| s.to_set().remove(name@).contains(x) implies t.to_set().contains(
            x,
        ) by {
            let k = choose|k: int| 0 <= k < s.len() && #[trigger] s[k] == x;
            if k < p {
                assert(t[k] == x);
            } else {
                assert(k != p);
                assert(t[k - 1] == x);
            }
        }
    }
}

/// Taking one more item of a sequence adds that item to the set it holds.
pub proof fn lemma_take_push_to_set<A>(s: Seq<A>, i: int)
    requires
        0 <= i < s.len(),
    ensures
        s.take(i + 1).to_set() == s.take(i).to_set().insert(s[i]),
{
    assert(s.take(i + 1) =~= s.take(i).push(s[i]));
    assert forall|x: A| #[trigger] s.take(i + 1).to_set().contains(x) <==> s.take(i).to_set().insert(
        s[i],
    ).contains(x) by {
        if s.take(i + 1).contains(x) {
            let q = choose|q: int| 0 <= q < i + 1 && #[trigger] s.take(i + 1)[q] == x;
            if q < i {
                assert(s.take(i)[q] == x);
            }
        }
        if s.take(i).contains(x) {
            let q = choose|q: int| 0 <= q < i && #[trigger] s.take(i)[q] == x;
            assert(s.take(i + 1)[q] == x);
        }
        if x == s[i] {
            assert(s.take(i + 1)[i] == x);
        }
    }
    assert(s.take(i + 1).to_set() =~= s.take(i).to_set().insert(s[i]));
}

/// Pushing an item adds it to the set a sequence holds.
pub proof fn lemma_push_to_set<A>(s: Seq<A>, x: A)
    ensures
        s.push(x).to_set() == s.to_set().insert(x),
{
    let t = s.push(x);
    lemma_take_push_to_set(t, s.len() as int);
    assert(t.take(s.len() + 1 as int) =~= t);
    assert(t.take(s.len() as int) =~= s);
}

/// In order, repeats allowed: no name sorts before one ahead of it.
pub open spec fn sorted(s: Seq<Seq<char>>) -> bool {
    forall|a: int, b: int| 0 <= a < b < s.len() ==> !lex_lt(#[trigger] s[b], #[trigger] s[a])
}

/// The names of `values`, sorted, every repeat kept.
pub fn sorted_names(values: &[String]) -> (out: Vec<String>)
    ensures
        sorted(views(out@)),
        views(out@).to_multiset() == views(values@).to_multiset(),
{
    let mut out: Vec<String> = Vec::new();
    let mut i: usize = 0;
    assert(views(values@).take(0) =~= Seq::<Seq<char>>::empty());
    assert(views(out@) =~= views(values@).take(0));
    while i < values.len()
        invariant
            i <= values@.len(),
            sorted(views(out@)),
            views(out@).to_multiset() == views(values@).take(i as int).to_multiset(),
        decreases values@.len() - i,
    {
        let n = chars_of(values[i].as_str());
        let mut p: usize = 0;
        while p < out.len() && !name_less_rev(&out, p, &n)
            invariant
                i < values@.len(),
                p <= out@.len(),
                n@ == values@[i as int]@,
                forall|k: int| 0 <= k < p ==> !lex_lt(n@, #[trigger] views(out@)[k]),
            decreases out@.len() - p,
        {
            p += 1;
        }
        let ghost before = views(out@);
        out.insert(p, values[i].clone());
        proof {
            let v = values@[i as int]@;
            assert(views(out@) =~= before.insert(p as int, v));
            before.insert_ensures(p as int, v);
            vstd::seq_lib::to_multiset_insert(before, p as int, v);
            assert(views(values@).take(i + 1) =~= views(values@).take(i as int).push(v));
            vstd::seq_lib::to_multiset_build(views(values@).take(i as int), v);
            let now = views(out@);
            assert forall|a: int, b: int| 0 <= a < b < now.len() implies !lex_lt(
                #[trigger] now[b],
                #[trigger] now[a],
            ) by {
                if b < p {
                    assert(now[a] == before[a] && now[b] == before[b]);
                } else if b == p {
                    assert(now[a] == before[a]);
                } else if a < p {
                    assert(now[b] == before[b - 1]);
                    assert(now[a] == before[a]);
                    assert(lex_lt(v, before[p as int]));
                    if lex_lt(before[b - 1], before[a]) {
                        // before[a] <= v < before[p] <= before[b - 1]
                        lemma_lex_total(before[p as int], before[b - 1]);
                        if lex_lt(before[p as int], before[b - 1]) {
                            lemma_lex_transitive(before[p as int], before[b - 1], before[a]);
                            lemma_lex_transitive(v, before[p as int], before[a]);
                        } else {
                            lemma_lex_transitive(v, before[b - 1], before[a]);
                        }
                        lemma_lex_total(v, before[a]);
                    }
                } else if a == p {
                    assert(now[b] == before[b - 1]);
                    lemma_lex_total(before[p as int], before[b - 1]);
                    if lex_lt(before[b - 1], v) {
                        if b - 1 == p {
                            lemma_lex_total(v, before[p as int]);
                        } else {
                            assert(!lex_lt(before[b - 1], before[p as int]));
                            lemma_lex_total(before[p as int], before[b - 1]);
                            if lex_lt(before[p as int], before[b - 1]) {
                                lemma_lex_transitive(v, before[p as int], before[b - 1]);
                            }
                            lemma_lex_total(v, before[b - 1]);
                        }
                    }
                } else {
                    assert(now[a] == before[a - 1] && now[b] == before[b - 1]);
                }
            }
        }
        i += 1;
    }
    assert(views(values@).take(values@.len() as int) =~= views(values@));
    out
}

/// Whether `n` sorts before the name at `p`.
fn name_less_rev(names: &Vec<String>, p: usize, n: &Vec<char>) -> (r: bool)
    requires
        p < names@.len(),
    ensures
        r == lex_lt(n@, names@[p as int]@),
{
    let c = chars_of(names[p].as_str());
    lex_less(n.as_slice(), c.as_slice())
}

} // verus!
