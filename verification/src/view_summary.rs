//! The layer manager's sheet-layer view: what a drawing's entities state
//! along the view filter's two axes, one row per name, with the filter's
//! answer for each.

use vstd::prelude::*;

use crate::sorted::{insert_name, lemma_lex_irreflexive, lex_lt, sorted_unique};
use crate::text::{chars_of, opt_chars, same, views};
use crate::view_filter::{keys_views, PidKeys, PidViewFilter};

verus! {

/// The import's role vocabulary, in the order the layer manager lists it:
/// what the sheet draws first, then the review marks, then what the importer
/// adds around the drawing.
pub open spec fn role_order() -> Seq<Seq<char>> {
    seq![
        seq!['g', 'e', 'o', 'm', 'e', 't', 'r', 'y'],
        seq!['t', 'e', 'x', 't'],
        seq!['s', 'y', 'm', 'b', 'o', 'l'],
        seq!['s', 'y', 'm', 'b', 'o', 'l', '-', 'l', 'a', 'b', 'e', 'l'],
        seq!['p', 'o', 'i', 'n', 't', '-', 'o', 'k'],
        seq!['p', 'o', 'i', 'n', 't', '-', 'w', 'a', 'r', 'n', 'i', 'n', 'g'],
        seq!['p', 'o', 'i', 'n', 't', '-', 'e', 'r', 'r', 'o', 'r'],
        seq!['p', 'o', 'i', 'n', 't', '-', 'a', 'p', 'p', 'r', 'o', 'v', 'e', 'd'],
        seq!['a', 'n', 'n', 'o', 't', 'a', 't', 'i', 'o', 'n'],
        seq!['c', 'o', 'n', 'n', 'e', 'c', 't', 'i', 'v', 'i', 't', 'y'],
        seq!['f', 'i', 'l', 'l'],
        seq!['f', 'r', 'a', 'm', 'e'],
    ]
}

/// The number of roles in the vocabulary.
pub const ROLE_COUNT: usize = 12;

/// The index of the first `n` in `list`, or `list.len()` when there is none.
pub open spec fn position(list: Seq<Seq<char>>, n: Seq<char>) -> int
    decreases list.len(),
{
    if list.len() == 0 {
        0
    } else if list[0] == n {
        0
    } else {
        1 + position(list.drop_first(), n)
    }
}

/// Where a role lists: its place in the vocabulary, or after all of it.
pub open spec fn rank_of(role: Seq<char>) -> int {
    position(role_order(), role)
}

/// `a` lists before `b` among the roles: by vocabulary, then alphabetically.
pub open spec fn role_before(a: Seq<char>, b: Seq<char>) -> bool {
    rank_of(a) < rank_of(b) || (rank_of(a) == rank_of(b) && lex_lt(a, b))
}

pub open spec fn role_sorted(s: Seq<Seq<char>>) -> bool {
    forall|i: int, j: int| 0 <= i < j < s.len() ==> role_before(#[trigger] s[i], #[trigger] s[j])
}

proof fn lemma_position(list: Seq<Seq<char>>, n: Seq<char>, k: int)
    requires
        0 <= k <= list.len(),
        forall|j: int| 0 <= j < k ==> list[j] != n,
        k < list.len() ==> list[k] == n,
    ensures
        position(list, n) == k,
    decreases k,
{
    if k > 0 {
        lemma_position(list.drop_first(), n, k - 1);
    }
}

proof fn lemma_position_bound(list: Seq<Seq<char>>, n: Seq<char>)
    ensures
        0 <= position(list, n) <= list.len(),
    decreases list.len(),
{
    if list.len() > 0 {
        lemma_position_bound(list.drop_first(), n);
    }
}

fn role_name(k: usize) -> (n: Vec<char>)
    requires
        k < 12,
    ensures
        n@ == role_order()[k as int],
{
    let s = match k {
        0 => "geometry",
        1 => "text",
        2 => "symbol",
        3 => "symbol-label",
        4 => "point-ok",
        5 => "point-warning",
        6 => "point-error",
        7 => "point-approved",
        8 => "annotation",
        9 => "connectivity",
        10 => "fill",
        _ => "frame",
    };
    let n = chars_of(s);
    proof {
        reveal_strlit("geometry");
        reveal_strlit("text");
        reveal_strlit("symbol");
        reveal_strlit("symbol-label");
        reveal_strlit("point-ok");
        reveal_strlit("point-warning");
        reveal_strlit("point-error");
        reveal_strlit("point-approved");
        reveal_strlit("annotation");
        reveal_strlit("connectivity");
        reveal_strlit("fill");
        reveal_strlit("frame");
    }
    assert(n@ =~= role_order()[k as int]);
    n
}

/// Where `role` lists among the roles: its place in the vocabulary, or
/// after all of it.
pub fn role_rank(role: &str) -> (r: usize)
    ensures
        r == rank_of(role@),
        r <= ROLE_COUNT,
{
    let n = chars_of(role);
    let mut k: usize = 0;
    while k < ROLE_COUNT
        invariant
            k <= 12,
            n@ == role@,
            forall|j: int| 0 <= j < k ==> role_order()[j] != role@,
        decreases 12 - k,
    {
        let known = role_name(k);
        if same(known.as_slice(), n.as_slice()) {
            proof {
                lemma_position(role_order(), role@, k as int);
            }
            return k;
        }
        k += 1;
    }
    proof {
        lemma_position(role_order(), role@, 12);
    }
    k
}

// ── counting names ──────────────────────────────────────────────────────

pub open spec fn opt_chars_all(v: Seq<Option<String>>) -> Seq<Option<Seq<char>>> {
    v.map_values(|o: Option<String>| opt_chars(o))
}

/// The names some entry states.
pub open spec fn stated(names: Seq<Option<Seq<char>>>) -> Set<Seq<char>> {
    Set::new(|n: Seq<char>| exists|i: int| 0 <= i < names.len() && #[trigger] names[i] == Some(n))
}

/// How many entries state `n`.
pub open spec fn occurrences(names: Seq<Option<Seq<char>>>, n: Seq<char>) -> nat
    decreases names.len(),
{
    if names.len() == 0 {
        0
    } else {
        occurrences(names.drop_last(), n) + if names.last() == Some(n) {
            1nat
        } else {
            0nat
        }
    }
}

pub open spec fn layers_stated(
    keys: Seq<(Option<Seq<char>>, Option<Seq<char>>)>,
) -> Seq<Option<Seq<char>>> {
    keys.map_values(|k: (Option<Seq<char>>, Option<Seq<char>>)| k.0)
}

pub open spec fn roles_stated(
    keys: Seq<(Option<Seq<char>>, Option<Seq<char>>)>,
) -> Seq<Option<Seq<char>>> {
    keys.map_values(|k: (Option<Seq<char>>, Option<Seq<char>>)| k.1)
}

fn copy_opt(o: &Option<String>) -> (r: Option<String>)
    ensures
        opt_chars(r) == opt_chars(*o),
{
    match o {
        Some(s) => Some(s.clone()),
        None => None,
    }
}

/// Each entity's sheet layer (`layers`) or role (`!layers`).
fn axis(keys: &[PidKeys], layers: bool) -> (out: Vec<Option<String>>)
    ensures
        opt_chars_all(out@) == if layers {
            layers_stated(keys_views(keys@))
        } else {
            roles_stated(keys_views(keys@))
        },
{
    let mut out: Vec<Option<String>> = Vec::new();
    let mut i: usize = 0;
    while i < keys.len()
        invariant
            i <= keys@.len(),
            out@.len() == i,
            forall|k: int|
                0 <= k < i ==> #[trigger] opt_chars(out@[k]) == if layers {
                    keys@[k]@.0
                } else {
                    keys@[k]@.1
                },
        decreases keys@.len() - i,
    {
        if layers {
            out.push(copy_opt(&keys[i].sheet_layer));
        } else {
            out.push(copy_opt(&keys[i].role));
        }
        i += 1;
    }
    let ghost want = if layers {
        layers_stated(keys_views(keys@))
    } else {
        roles_stated(keys_views(keys@))
    };
    assert(opt_chars_all(out@) =~= want);
    out
}

/// The distinct names the entries state, sorted.
fn distinct_sorted(names: &Vec<Option<String>>) -> (out: Vec<String>)
    ensures
        sorted_unique(views(out@)),
        views(out@).to_set() == stated(opt_chars_all(names@)),
{
    let ghost ns = opt_chars_all(names@);
    let mut out: Vec<String> = Vec::new();
    let mut i: usize = 0;
    assert(views(out@).to_set() =~= stated(ns.take(0)));
    while i < names.len()
        invariant
            i <= names@.len(),
            ns == opt_chars_all(names@),
            sorted_unique(views(out@)),
            views(out@).to_set() == stated(ns.take(i as int)),
        decreases names@.len() - i,
    {
        let ghost before = ns.take(i as int);
        let ghost after = ns.take(i + 1);
        assert(after == before.push(ns[i as int]));
        match &names[i] {
            Some(n) => {
                insert_name(&mut out, n.as_str());
                assert(stated(after) =~= stated(before).insert(n@)) by {
                    assert(after[i as int] == Some(n@));
                    assert forall|x: Seq<char>| #[trigger] stated(after).contains(x) implies stated(before).insert(n@).contains(x) by {
                        let k = choose|k: int| 0 <= k < after.len() && #[trigger] after[k] == Some(x);
                        if k < i {
                            assert(before[k] == after[k]);
                        }
                    }
                    assert forall|x: Seq<char>| #[trigger] stated(before).insert(n@).contains(x) implies stated(after).contains(x) by {
                        if x != n@ {
                            let k = choose|k: int| 0 <= k < before.len() && #[trigger] before[k] == Some(x);
                            assert(after[k] == before[k]);
                        }
                    }
                }
            },
            None => {
                assert(stated(after) =~= stated(before)) by {
                    assert(after[i as int] == None::<Seq<char>>);
                    assert forall|x: Seq<char>| #[trigger] stated(after).contains(x) implies stated(before).contains(x) by {
                        let k = choose|k: int| 0 <= k < after.len() && #[trigger] after[k] == Some(x);
                        if k < i {
                            assert(before[k] == after[k]);
                        }
                    }
                    assert forall|x: Seq<char>| #[trigger] stated(before).contains(x) implies stated(after).contains(x) by {
                        let k = choose|k: int| 0 <= k < before.len() && #[trigger] before[k] == Some(x);
                        assert(after[k] == before[k]);
                    }
                }
            },
        }
        i += 1;
    }
    assert(ns.take(names@.len() as int) =~= ns);
    out
}

/// How many of the entries state `n`.
fn count_of(names: &Vec<Option<String>>, n: &str) -> (c: usize)
    ensures
        c == occurrences(opt_chars_all(names@), n@),
{
    let ghost ns = opt_chars_all(names@);
    let target = chars_of(n);
    let mut c: usize = 0;
    let mut i: usize = 0;
    while i < names.len()
        invariant
            i <= names@.len(),
            ns == opt_chars_all(names@),
            target@ == n@,
            c <= i,
            c == occurrences(ns.take(i as int), n@),
        decreases names@.len() - i,
    {
        let ghost after = ns.take(i + 1);
        assert(after.drop_last() =~= ns.take(i as int));
        assert(after.last() == ns[i as int]);
        match &names[i] {
            Some(s) => {
                let sc = chars_of(s.as_str());
                if same(sc.as_slice(), target.as_slice()) {
                    c += 1;
                }
            },
            None => {},
        }
        i += 1;
    }
    assert(ns.take(names@.len() as int) =~= ns);
    c
}

/// The names of `names` listed by role: by vocabulary, then alphabetically.
fn by_rank(names: &Vec<String>) -> (out: Vec<String>)
    requires
        sorted_unique(views(names@)),
    ensures
        role_sorted(views(out@)),
        views(out@).to_set() == views(names@).to_set(),
{
    let ghost s = views(names@);
    let mut ranks: Vec<usize> = Vec::new();
    let mut j: usize = 0;
    while j < names.len()
        invariant
            j <= names@.len(),
            s == views(names@),
            ranks@.len() == j,
            forall|k: int| 0 <= k < j ==> #[trigger] ranks@[k] == rank_of(s[k]),
        decreases names@.len() - j,
    {
        ranks.push(role_rank(names[j].as_str()));
        j += 1;
    }
    let mut out: Vec<String> = Vec::new();
    let ghost mut idx: Seq<int> = Seq::empty();
    let mut r: usize = 0;
    assert forall|k: int| 0 <= k < s.len() implies rank_of(#[trigger] s[k]) >= 0 by {
        lemma_position_bound(role_order(), s[k]);
    }
    while r <= ROLE_COUNT
        invariant
            r <= 13,
            s == views(names@),
            ranks@.len() == s.len(),
            forall|k: int| 0 <= k < s.len() ==> #[trigger] ranks@[k] == rank_of(s[k]),
            sorted_unique(s),
            out@.len() == idx.len(),
            forall|m: int|
                0 <= m < idx.len() ==> 0 <= #[trigger] idx[m] < s.len() && out@[m]@ == s[idx[m]],
            forall|m: int| 0 <= m < idx.len() ==> rank_of(#[trigger] s[idx[m]]) < r,
            forall|m1: int, m2: int|
                0 <= m1 < m2 < idx.len() ==> rank_of(s[#[trigger] idx[m1]]) < rank_of(
                    s[#[trigger] idx[m2]],
                ) || (rank_of(s[idx[m1]]) == rank_of(s[idx[m2]]) && idx[m1] < idx[m2]),
            forall|k: int|
                0 <= k < s.len() && rank_of(#[trigger] s[k]) < r ==> exists|m: int|
                    0 <= m < idx.len() && idx[m] == k,
        decreases 13 - r,
    {
        let mut j: usize = 0;
        while j < names.len()
            invariant
                r <= 12,
                j <= s.len(),
                s == views(names@),
                ranks@.len() == s.len(),
                forall|k: int| 0 <= k < s.len() ==> #[trigger] ranks@[k] == rank_of(s[k]),
                out@.len() == idx.len(),
                forall|m: int|
                    0 <= m < idx.len() ==> 0 <= #[trigger] idx[m] < s.len() && out@[m]@ == s[idx[m]],
                forall|m: int|
                    0 <= m < idx.len() ==> rank_of(#[trigger] s[idx[m]]) < r || (rank_of(s[idx[m]])
                        == r && idx[m] < j),
                forall|m1: int, m2: int|
                    0 <= m1 < m2 < idx.len() ==> rank_of(s[#[trigger] idx[m1]]) < rank_of(
                        s[#[trigger] idx[m2]],
                    ) || (rank_of(s[idx[m1]]) == rank_of(s[idx[m2]]) && idx[m1] < idx[m2]),
                forall|k: int|
                    0 <= k < s.len() && (rank_of(#[trigger] s[k]) < r || (rank_of(s[k]) == r && k
                        < j)) ==> exists|m: int| 0 <= m < idx.len() && idx[m] == k,
            decreases s.len() - j,
        {
            if ranks[j] == r {
                let name = names[j].clone();
                out.push(name);
                proof {
                    let old_idx = idx;
                    idx = idx.push(j as int);
                    assert(idx[old_idx.len() as int] == j);
                    assert forall|k: int|
                        0 <= k < s.len() && (rank_of(#[trigger] s[k]) < r || (rank_of(s[k]) == r
                            && k < j + 1)) implies exists|m: int| 0 <= m < idx.len() && idx[m] == k by {
                        if k == j {
                            assert(idx[old_idx.len() as int] == k);
                        } else {
                            let m = choose|m: int| 0 <= m < old_idx.len() && old_idx[m] == k;
                            assert(idx[m] == k);
                        }
                    }
                }
            } else {
                proof {
                    assert forall|k: int|
                        0 <= k < s.len() && (rank_of(#[trigger] s[k]) < r || (rank_of(s[k]) == r
                            && k < j + 1)) implies exists|m: int| 0 <= m < idx.len() && idx[m] == k by {
                        if k == j {
                            assert(rank_of(s[k]) != r);
                        }
                    }
                }
            }
            j += 1;
        }
        r += 1;
    }
    proof {
        assert forall|i: int, j: int|
            0 <= i < j < views(out@).len() implies role_before(
            #[trigger] views(out@)[i],
            #[trigger] views(out@)[j],
        ) by {
            assert(views(out@)[i] == s[idx[i]]);
            assert(views(out@)[j] == s[idx[j]]);
            if rank_of(s[idx[i]]) == rank_of(s[idx[j]]) {
                assert(idx[i] < idx[j]);
                assert(lex_lt(s[idx[i]], s[idx[j]]));
            }
        }
        assert forall|x: Seq<char>| #[trigger] views(out@).to_set().contains(x) implies s.to_set().contains(x) by {
            let m = choose|m: int| 0 <= m < views(out@).len() && views(out@)[m] == x;
            assert(s[idx[m]] == x);
        }
        assert forall|x: Seq<char>| #[trigger] s.to_set().contains(x) implies views(out@).to_set().contains(x) by {
            let k = choose|k: int| 0 <= k < s.len() && s[k] == x;
            lemma_position_bound(role_order(), s[k]);
            let m = choose|m: int| 0 <= m < idx.len() && idx[m] == k;
            assert(views(out@)[m] == x);
        }
        assert(views(out@).to_set() =~= s.to_set());
    }
    out
}


// ── the summary ─────────────────────────────────────────────────────────

/// One row of the layer manager's sheet-layer view: an authored sheet layer
/// or an import role, how many entities state it, and whether the filter
/// has it on.
#[derive(Debug, Clone, PartialEq, Eq)]
pub struct PidViewRow {
    pub name: String,
    pub entities: usize,
    pub on: bool,
}

pub open spec fn row_names(rows: Seq<PidViewRow>) -> Seq<Seq<char>> {
    rows.map_values(|r: PidViewRow| r.name@)
}

/// What a drawing's entities state along the filter's two axes, with the
/// filter's answer for each name: sheet layers one row per distinct name,
/// sorted; roles by vocabulary, then alphabetically. Empty for a drawing
/// without a `.pid` import.
#[derive(Debug, Clone, PartialEq, Eq)]
pub struct PidViewSummary {
    pub layers: Vec<PidViewRow>,
    pub roles: Vec<PidViewRow>,
}

/// The rows for `order`: each name's count in `source` and whether the
/// filter has it on, on the sheet-layer axis (`layers`) or the role axis.
fn rows(order: &Vec<String>, source: &Vec<Option<String>>, filter: &PidViewFilter, layers: bool) -> (out: Vec<PidViewRow>)
    ensures
        row_names(out@) == views(order@),
        forall|i: int|
            0 <= i < out@.len() ==> (#[trigger] out@[i]).entities == occurrences(
                opt_chars_all(source@),
                out@[i].name@,
            ) && out@[i].on == if layers {
                !filter@.0.contains(out@[i].name@)
            } else {
                !filter@.1.contains(out@[i].name@)
            },
{
    let mut out: Vec<PidViewRow> = Vec::new();
    let mut i: usize = 0;
    while i < order.len()
        invariant
            i <= order@.len(),
            out@.len() == i,
            forall|k: int| 0 <= k < i ==> (#[trigger] out@[k]).name@ == order@[k]@,
            forall|k: int|
                0 <= k < i ==> (#[trigger] out@[k]).entities == occurrences(
                    opt_chars_all(source@),
                    out@[k].name@,
                ) && out@[k].on == if layers {
                    !filter@.0.contains(out@[k].name@)
                } else {
                    !filter@.1.contains(out@[k].name@)
                },
        decreases order@.len() - i,
    {
        let name = order[i].clone();
        let entities = count_of(source, name.as_str());
        let on = if layers {
            filter.layer_is_on(name.as_str())
        } else {
            filter.role_is_on(name.as_str())
        };
        out.push(PidViewRow { name, entities, on });
        i += 1;
    }
    assert(row_names(out@) =~= views(order@));
    out
}

impl PidViewSummary {
    /// The summary of a drawing whose entities state `keys`, read against
    /// the stored `filter` (none stored reads as all on).
    pub fn of(filter: Option<PidViewFilter>, keys: &[PidKeys]) -> (s: PidViewSummary)
        ensures
            ({
                let off = match filter {
                    Some(f) => f@,
                    None => (Set::<Seq<char>>::empty(), Set::<Seq<char>>::empty()),
                };
                let ls = layers_stated(keys_views(keys@));
                let rs = roles_stated(keys_views(keys@));
                &&& sorted_unique(row_names(s.layers@))
                &&& row_names(s.layers@).to_set() == stated(ls)
                &&& forall|i: int|
                    0 <= i < s.layers@.len() ==> (#[trigger] s.layers@[i]).entities == occurrences(
                        ls,
                        s.layers@[i].name@,
                    ) && s.layers@[i].on == !off.0.contains(s.layers@[i].name@)
                &&& role_sorted(row_names(s.roles@))
                &&& row_names(s.roles@).to_set() == stated(rs)
                &&& forall|i: int|
                    0 <= i < s.roles@.len() ==> (#[trigger] s.roles@[i]).entities == occurrences(
                        rs,
                        s.roles@[i].name@,
                    ) && s.roles@[i].on == !off.1.contains(s.roles@[i].name@)
            }),
    {
        let filter = match filter {
            Some(f) => f,
            None => PidViewFilter::new(),
        };
        let layer_names = axis(keys, true);
        let role_names = axis(keys, false);
        let layer_order = distinct_sorted(&layer_names);
        let role_alpha = distinct_sorted(&role_names);
        let role_order = by_rank(&role_alpha);
        let layers = rows(&layer_order, &layer_names, &filter, true);
        let roles = rows(&role_order, &role_names, &filter, false);
        PidViewSummary { layers, roles }
    }

    /// No entity states a sheet layer or a role: nothing to list.
    pub fn is_empty(&self) -> (b: bool)
        ensures
            b == (self.layers@.len() == 0 && self.roles@.len() == 0),
    {
        self.layers.len() == 0 && self.roles.len() == 0
    }
}

} // verus!
