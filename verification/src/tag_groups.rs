//! The tagged symbols as plot groups: what a plotted page wraps in one
//! group per tag, so a consumer of the page can find a valve by its tag.
//! Each entity goes with one symbol only: of those that list it, the
//! smallest, the first among equals.

use vstd::prelude::*;

use crate::ranges::{dec_chars_u64, dec_digits};
use crate::sorted::{insert_name, sorted_unique};
use crate::text::{chars_of, string_of, trim, trimmed, views};

verus! {

/// A recognised symbol as the grouping reads it.
#[derive(Debug, Clone, PartialEq, Eq)]
pub struct GroupSource {
    pub tag: Option<String>,
    /// Where the symbol's size stands among the symbols': a smaller symbol
    /// has a smaller number, symbols of one size the same.
    pub size: u64,
    /// The entities the symbol is drawn with, by handle value.
    pub handles: Vec<u64>,
    /// The lettering its tag was read from, by handle value.
    pub tag_handles: Vec<u64>,
}

/// One group: a tag and the handle values, in decimal, of what it owns.
#[derive(Debug, Clone, PartialEq, Eq)]
pub struct PlotGroup {
    pub tag: String,
    /// Sorted as text, each once.
    pub members: Vec<String>,
}

/// The symbol carries a tag that is not blank.
pub open spec fn tagged(s: GroupSource) -> bool {
    s.tag matches Some(t) && trim(t@).len() > 0
}

/// A tagged symbol lists entity `h`.
pub open spec fn claims(s: GroupSource, h: u64) -> bool {
    tagged(s) && (s.handles@.contains(h) || s.tag_handles@.contains(h))
}

/// Symbol `i` owns entity `h`: it claims it, no symbol that claims it is
/// smaller, and none before it is as small.
pub open spec fn owns(symbols: Seq<GroupSource>, i: int, h: u64) -> bool {
    &&& 0 <= i < symbols.len()
    &&& claims(symbols[i], h)
    &&& forall|j: int| 0 <= j < symbols.len() && #[trigger] claims(symbols[j], h) ==> symbols[i].size <= symbols[j].size
    &&& forall|j: int| 0 <= j < i && #[trigger] claims(symbols[j], h) ==> symbols[j].size > symbols[i].size
}

/// The members of symbol `i`'s group: the entities other than the null one
/// that it owns, in decimal.
pub open spec fn member_set(symbols: Seq<GroupSource>, i: int) -> Set<Seq<char>> {
    Set::new(|m: Seq<char>| exists|h: u64| h != 0 && #[trigger] owns(symbols, i, h) && m == dec_digits(h as nat))
}

/// The tag of a group.
pub open spec fn group_tag(s: GroupSource) -> Seq<char> {
    match s.tag {
        Some(t) => trim(t@),
        None => Seq::empty(),
    }
}

/// The groups of the first `n` symbols, as (tag, members): one per tagged
/// symbol that owns anything, in symbol order.
pub open spec fn groups_upto(symbols: Seq<GroupSource>, n: int) -> Seq<(Seq<char>, Set<Seq<char>>)>
    decreases n,
{
    if n <= 0 {
        Seq::empty()
    } else {
        let before = groups_upto(symbols, n - 1);
        if tagged(symbols[n - 1]) && exists|h: u64| h != 0 && #[trigger] owns(symbols, n - 1, h) {
            before.push((group_tag(symbols[n - 1]), member_set(symbols, n - 1)))
        } else {
            before
        }
    }
}

fn holds(v: &Vec<u64>, h: u64) -> (r: bool)
    ensures
        r == v@.contains(h),
{
    let mut i: usize = 0;
    while i < v.len()
        invariant
            i <= v@.len(),
            forall|k: int| 0 <= k < i ==> v@[k] != h,
        decreases v@.len() - i,
    {
        if v[i] == h {
            return true;
        }
        i += 1;
    }
    false
}

fn is_tagged(s: &GroupSource) -> (r: bool)
    ensures
        r == tagged(*s),
{
    match &s.tag {
        Some(t) => trimmed(chars_of(t.as_str()).as_slice()).len() > 0,
        None => false,
    }
}

fn claims_exec(s: &GroupSource, h: u64) -> (r: bool)
    ensures
        r == claims(*s, h),
{
    is_tagged(s) && (holds(&s.handles, h) || holds(&s.tag_handles, h))
}

/// The symbol that owns `h`, if any claims it.
fn owner_of(symbols: &[GroupSource], h: u64) -> (o: Option<usize>)
    ensures
        match o {
            Some(i) => owns(symbols@, i as int, h),
            None => forall|j: int| 0 <= j < symbols@.len() ==> !#[trigger] claims(symbols@[j], h),
        },
{
    let mut best: Option<usize> = None;
    let mut j: usize = 0;
    while j < symbols.len()
        invariant
            j <= symbols@.len(),
            match best {
                Some(b) => b < j && claims(symbols@[b as int], h) && (forall|q: int|
                    0 <= q < j && #[trigger] claims(symbols@[q], h) ==> symbols@[b as int].size <= symbols@[q].size)
                    && (forall|q: int|
                    0 <= q < b && #[trigger] claims(symbols@[q], h) ==> symbols@[q].size > symbols@[b as int].size),
                None => forall|q: int| 0 <= q < j ==> !#[trigger] claims(symbols@[q], h),
            },
        decreases symbols@.len() - j,
    {
        if claims_exec(&symbols[j], h) {
            match best {
                None => {
                    best = Some(j);
                },
                Some(b) => {
                    if symbols[b].size > symbols[j].size {
                        best = Some(j);
                    }
                },
            }
        }
        j += 1;
    }
    best
}

/// One group per symbol that carries a tag, named by the tag without its
/// surrounding whitespace, over the entities it owns -- of its own and of
/// the lettering its tag was read from, the null one aside -- in decimal,
/// sorted as text, each once. A symbol without a tag, or that owns nothing,
/// is not a group. An entity two symbols list goes with the smaller one,
/// the first of those of one size.
pub fn plot_groups(symbols: &[GroupSource]) -> (out: Vec<PlotGroup>)
    ensures
        out@.len() == groups_upto(symbols@, symbols@.len() as int).len(),
        forall|k: int|
            0 <= k < out@.len() ==> (#[trigger] out@[k]).tag@ == groups_upto(symbols@, symbols@.len() as int)[k].0
                && sorted_unique(views(out@[k].members@)) && views(out@[k].members@).to_set() == groups_upto(
                symbols@,
                symbols@.len() as int,
            )[k].1,
{
    let mut out: Vec<PlotGroup> = Vec::new();
    let mut i: usize = 0;
    while i < symbols.len()
        invariant
            i <= symbols@.len(),
            out@.len() == groups_upto(symbols@, i as int).len(),
            forall|k: int|
                0 <= k < out@.len() ==> (#[trigger] out@[k]).tag@ == groups_upto(symbols@, i as int)[k].0
                    && sorted_unique(views(out@[k].members@)) && views(out@[k].members@).to_set()
                    == groups_upto(symbols@, i as int)[k].1,
        decreases symbols@.len() - i,
    {
        let ghost before = groups_upto(symbols@, i as int);
        if is_tagged(&symbols[i]) {
            let s = &symbols[i];
            let mut members: Vec<String> = Vec::new();
            let mut k: usize = 0;
            assert(views(members@).to_set() =~= Set::<Seq<char>>::empty());
            while k < s.handles.len()
                invariant
                    i < symbols@.len(),
                    *s == symbols@[i as int],
                    k <= s.handles@.len(),
                    sorted_unique(views(members@)),
                    views(members@).to_set() == Set::new(
                        |m: Seq<char>|
                            exists|q: int|
                                0 <= q < k && s.handles@[q] != 0 && owns(symbols@, i as int, s.handles@[q])
                                    && m == dec_digits(#[trigger] s.handles@[q] as nat),
                    ),
                decreases s.handles@.len() - k,
            {
                let ghost prev = views(members@).to_set();
                let h = s.handles[k];
                if h != 0 {
                    match owner_of(symbols, h) {
                        Some(o) => {
                            if o == i {
                                let d = dec_chars_u64(h);
                                insert_name(&mut members, string_of(d.as_slice()).as_str());
                            }
                        },
                        None => {},
                    }
                }
                proof {
                    let next = Set::new(
                        |m: Seq<char>|
                            exists|q: int|
                                0 <= q < k + 1 && s.handles@[q] != 0 && owns(symbols@, i as int, s.handles@[q])
                                    && m == dec_digits(#[trigger] s.handles@[q] as nat),
                    );
                    assert forall|m: Seq<char>| #[trigger] views(members@).to_set().contains(m) <==> next.contains(m) by {
                        if views(members@).to_set().contains(m) && !prev.contains(m) {
                            assert(s.handles@[k as int] == h);
                            assert(owns(symbols@, i as int, h));
                        }
                        if prev.contains(m) {
                            let q = choose|q: int|
                                0 <= q < k && s.handles@[q] != 0 && owns(symbols@, i as int, s.handles@[q])
                                    && m == dec_digits(#[trigger] s.handles@[q] as nat);
                            assert(0 <= q < k + 1);
                        }
                        if next.contains(m) {
                            let q = choose|q: int|
                                0 <= q < k + 1 && s.handles@[q] != 0 && owns(symbols@, i as int, s.handles@[q])
                                    && m == dec_digits(#[trigger] s.handles@[q] as nat);
                            if q < k {
                                assert(prev.contains(m));
                            } else {
                                assert(s.handles@[q] == h);
                                assert(owns(symbols@, i as int, h));
                            }
                        }
                    }
                    assert(views(members@).to_set() =~= next);
                }
                k += 1;
            }
            let ghost from_handles = views(members@).to_set();
            let mut k: usize = 0;
            assert(from_handles.union(Set::<Seq<char>>::empty()) =~= from_handles);
            while k < s.tag_handles.len()
                invariant
                    i < symbols@.len(),
                    *s == symbols@[i as int],
                    k <= s.tag_handles@.len(),
                    sorted_unique(views(members@)),
                    views(members@).to_set() == from_handles.union(
                        Set::new(
                            |m: Seq<char>|
                                exists|q: int|
                                    0 <= q < k && s.tag_handles@[q] != 0 && owns(symbols@, i as int, s.tag_handles@[q])
                                        && m == dec_digits(#[trigger] s.tag_handles@[q] as nat),
                        ),
                    ),
                decreases s.tag_handles@.len() - k,
            {
                let ghost prev = views(members@).to_set();
                let h = s.tag_handles[k];
                if h != 0 {
                    match owner_of(symbols, h) {
                        Some(o) => {
                            if o == i {
                                let d = dec_chars_u64(h);
                                insert_name(&mut members, string_of(d.as_slice()).as_str());
                            }
                        },
                        None => {},
                    }
                }
                proof {
                    let add = Set::new(
                        |m: Seq<char>|
                            exists|q: int|
                                0 <= q < k + 1 && s.tag_handles@[q] != 0 && owns(symbols@, i as int, s.tag_handles@[q])
                                    && m == dec_digits(#[trigger] s.tag_handles@[q] as nat),
                    );
                    let old_add = Set::new(
                        |m: Seq<char>|
                            exists|q: int|
                                0 <= q < k && s.tag_handles@[q] != 0 && owns(symbols@, i as int, s.tag_handles@[q])
                                    && m == dec_digits(#[trigger] s.tag_handles@[q] as nat),
                    );
                    assert forall|m: Seq<char>| #[trigger] views(members@).to_set().contains(m) <==> from_handles.union(add).contains(m) by {
                        if views(members@).to_set().contains(m) && !prev.contains(m) {
                            assert(s.tag_handles@[k as int] == h);
                            assert(owns(symbols@, i as int, h));
                            assert(add.contains(m));
                        }
                        if prev.contains(m) && !from_handles.contains(m) {
                            assert(old_add.contains(m));
                            let q = choose|q: int|
                                0 <= q < k && s.tag_handles@[q] != 0 && owns(symbols@, i as int, s.tag_handles@[q])
                                    && m == dec_digits(#[trigger] s.tag_handles@[q] as nat);
                            assert(0 <= q < k + 1);
                            assert(add.contains(m));
                        }
                        if add.contains(m) {
                            let q = choose|q: int|
                                0 <= q < k + 1 && s.tag_handles@[q] != 0 && owns(symbols@, i as int, s.tag_handles@[q])
                                    && m == dec_digits(#[trigger] s.tag_handles@[q] as nat);
                            if q < k {
                                assert(old_add.contains(m));
                                assert(prev.contains(m));
                            } else {
                                assert(s.tag_handles@[q] == h);
                                assert(owns(symbols@, i as int, h));
                            }
                        }
                    }
                    assert(views(members@).to_set() =~= from_handles.union(add));
                }
                k += 1;
            }
            proof {
                assert forall|m: Seq<char>| #[trigger] views(members@).to_set().contains(m) <==> member_set(symbols@, i as int).contains(m) by {
                    if member_set(symbols@, i as int).contains(m) {
                        let h = choose|h: u64| h != 0 && #[trigger] owns(symbols@, i as int, h) && m == dec_digits(h as nat);
                        if s.handles@.contains(h) {
                            let q = choose|q: int| 0 <= q < s.handles@.len() && s.handles@[q] == h;
                            assert(from_handles.contains(m));
                        } else {
                            assert(s.tag_handles@.contains(h));
                            let q = choose|q: int| 0 <= q < s.tag_handles@.len() && s.tag_handles@[q] == h;
                        }
                    }
                }
                assert(views(members@).to_set() =~= member_set(symbols@, i as int));
            }
            if members.len() > 0 {
                let t = match &s.tag {
                    Some(t) => string_of(trimmed(chars_of(t.as_str()).as_slice()).as_slice()),
                    None => string_of(Vec::new().as_slice()),
                };
                proof {
                    assert(views(members@).to_set().contains(views(members@)[0]));
                    let h = choose|h: u64| h != 0 && #[trigger] owns(symbols@, i as int, h) && views(members@)[0] == dec_digits(h as nat);
                }
                out.push(PlotGroup { tag: t, members });
            } else {
                proof {
                    if exists|h: u64| h != 0 && #[trigger] owns(symbols@, i as int, h) {
                        let h = choose|h: u64| h != 0 && #[trigger] owns(symbols@, i as int, h);
                        assert(member_set(symbols@, i as int).contains(dec_digits(h as nat)));
                        assert(views(members@).to_set().contains(dec_digits(h as nat)));
                    }
                }
            }
        }
        proof {
            let now = groups_upto(symbols@, i + 1);
            assert forall|k: int|
                0 <= k < out@.len() implies (#[trigger] out@[k]).tag@ == now[k].0 && sorted_unique(views(out@[k].members@))
                    && views(out@[k].members@).to_set() == now[k].1 by {}
        }
        i += 1;
    }
    out
}

/// The groups are disjoint: no entity is owned by two symbols.
pub proof fn law_groups_are_disjoint(symbols: Seq<GroupSource>, i: int, j: int, h: u64)
    requires
        owns(symbols, i, h),
        owns(symbols, j, h),
    ensures
        i == j,
{
    if i < j {
        assert(claims(symbols[i], h));
        assert(symbols[i].size > symbols[j].size);
        assert(symbols[j].size <= symbols[i].size);
    } else if j < i {
        assert(claims(symbols[j], h));
        assert(symbols[j].size > symbols[i].size);
    }
}

} // verus!
