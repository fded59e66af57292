//! Lettering that looks like a tag but that no symbol claimed, sorted three
//! ways: a range annotation (`XV-0407A～0409A`) is checked member by member
//! and only a member no symbol carries is an orphan; a value some symbol
//! already carries is a duplicate (a table row), not a symbol that lost its
//! tag; the rest are orphans proper. Each list is kept per class label,
//! sorted, without repeats.

use vstd::prelude::*;

use crate::ranges::{expand_range, expanded};
use crate::rules::{accepts_tag, not_carried, RangeAnnotation};
use crate::sorted::{insert_name, sorted_unique};
use crate::tags::{shape_match, shape_matches};
use crate::text::{chars_of, same, trim, views};

verus! {

/// A piece of lettering is a tag candidate: no symbol took it, and it is
/// long enough.
pub open spec fn counts(value: Seq<char>, taken: bool, min_chars: int) -> bool {
    !taken && trim(value).len() >= min_chars
}

/// The tags lettering names as a range of a class: its members, when every
/// one of them has the class's shape.
pub open spec fn range_of(shape: Seq<char>, value: Seq<char>) -> Option<Seq<Seq<char>>> {
    match expanded(value) {
        Some(ms) => if forall|i: int| 0 <= i < ms.len() ==> shape_match(shape, #[trigger] ms[i]) {
            Some(ms)
        } else {
            None
        },
        None => None,
    }
}

/// Lettering of a class's shape that a symbol already carries, and the
/// rules do not report as an orphan too.
pub open spec fn is_duplicate(shape: Seq<char>, value: Seq<char>, carried: Seq<Seq<char>>, claimed_elsewhere: bool) -> bool {
    range_of(shape, value) is None && shape_match(shape, value) && carried.contains(value) && !claimed_elsewhere
}

/// Lettering of a class's shape that no range explains and is not a
/// duplicate.
pub open spec fn is_orphan(shape: Seq<char>, value: Seq<char>, carried: Seq<Seq<char>>, claimed_elsewhere: bool) -> bool {
    range_of(shape, value) is None && shape_match(shape, value) && !(carried.contains(value) && !claimed_elsewhere)
}

/// `(k, j)` comes before `(kk, jj)`: lettering by lettering, class by class.
pub open spec fn before(k: int, j: int, kk: int, jj: int) -> bool {
    k < kk || (k == kk && j < jj)
}

pub open spec fn pair_views(pairs: Seq<(String, String)>) -> Seq<(Seq<char>, Seq<char>)> {
    pairs.map_values(|p: (String, String)| (p.0@, p.1@))
}

/// What the sorting reads: the lettering and which of it a symbol took,
/// how long a tag must be, the classes that report orphans as (shape,
/// label), the tags the symbols carry, and whether carried lettering is
/// reported as an orphan too.
pub struct OrphanInput {
    pub lettering: Vec<String>,
    pub taken: Vec<bool>,
    pub min_chars: usize,
    pub shapes: Vec<(String, String)>,
    pub carried: Vec<String>,
    pub claimed_elsewhere: bool,
}

impl OrphanInput {
    pub open spec fn ls(&self) -> Seq<Seq<char>> {
        views(self.lettering@)
    }

    pub open spec fn sh(&self) -> Seq<(Seq<char>, Seq<char>)> {
        pair_views(self.shapes@)
    }

    pub open spec fn cs(&self) -> Seq<Seq<char>> {
        views(self.carried@)
    }

    /// Lettering `k` sorted under class `j`: it counts and the class's
    /// label is `label`.
    pub open spec fn hit(&self, k: int, j: int, label: Seq<char>) -> bool {
        &&& 0 <= k < self.lettering@.len()
        &&& 0 <= j < self.shapes@.len()
        &&& k < self.taken@.len()
        &&& counts(self.ls()[k], self.taken@[k], self.min_chars as int)
        &&& self.sh()[j].1 == label
    }

    /// `t` is an orphan tag of class `label`, from the pairs before
    /// `(kk, jj)`.
    pub open spec fn orphan_upto(&self, kk: int, jj: int, label: Seq<char>, t: Seq<char>) -> bool {
        exists|k: int, j: int|
            #![trigger self.hit(k, j, label)]
            self.hit(k, j, label) && before(k, j, kk, jj) && (match range_of(self.sh()[j].0, self.ls()[k]) {
                Some(ms) => ms.contains(t) && !self.cs().contains(t),
                None => is_orphan(self.sh()[j].0, self.ls()[k], self.cs(), self.claimed_elsewhere)
                    && t == self.ls()[k],
            })
    }

    /// `t` is a duplicate of class `label`, from the pairs before `(kk, jj)`.
    pub open spec fn duplicate_upto(&self, kk: int, jj: int, label: Seq<char>, t: Seq<char>) -> bool {
        exists|k: int, j: int|
            #![trigger self.hit(k, j, label)]
            self.hit(k, j, label) && before(k, j, kk, jj) && is_duplicate(
                self.sh()[j].0,
                self.ls()[k],
                self.cs(),
                self.claimed_elsewhere,
            ) && t == self.ls()[k]
    }

    /// `t` is a range annotation of class `label`, from the pairs before
    /// `(kk, jj)`.
    pub open spec fn range_upto(&self, kk: int, jj: int, label: Seq<char>, t: Seq<char>) -> bool {
        exists|k: int, j: int|
            #![trigger self.hit(k, j, label)]
            self.hit(k, j, label) && before(k, j, kk, jj) && range_of(self.sh()[j].0, self.ls()[k]) is Some
                && t == self.ls()[k]
    }

    pub open spec fn orphan(&self, label: Seq<char>, t: Seq<char>) -> bool {
        self.orphan_upto(self.lettering@.len() as int, 0, label, t)
    }

    pub open spec fn duplicate(&self, label: Seq<char>, t: Seq<char>) -> bool {
        self.duplicate_upto(self.lettering@.len() as int, 0, label, t)
    }

    pub open spec fn range(&self, label: Seq<char>, t: Seq<char>) -> bool {
        self.range_upto(self.lettering@.len() as int, 0, label, t)
    }
}

/// Whether `carried` holds `t`.
fn holds_text(values: &Vec<String>, t: &Vec<char>) -> (b: bool)
    ensures
        b == views(values@).contains(t@),
{
    let mut i: usize = 0;
    while i < values.len()
        invariant
            i <= values@.len(),
            forall|k: int| 0 <= k < i ==> values@[k]@ != t@,
        decreases values@.len() - i,
    {
        if same(chars_of(values[i].as_str()).as_slice(), t.as_slice()) {
            assert(views(values@)[i as int] == t@);
            return true;
        }
        i += 1;
    }
    proof {
        if views(values@).contains(t@) {
            let k = choose|k: int| 0 <= k < views(values@).len() && views(values@)[k] == t@;
            assert(values@[k]@ == t@);
        }
    }
    false
}

/// Every member has the shape.
fn all_shaped(shape: &str, members: &Vec<String>) -> (b: bool)
    ensures
        b == forall|i: int| 0 <= i < members@.len() ==> shape_match(shape@, #[trigger] views(members@)[i]),
{
    let mut i: usize = 0;
    while i < members.len()
        invariant
            i <= members@.len(),
            forall|k: int| 0 <= k < i ==> shape_match(shape@, #[trigger] views(members@)[k]),
        decreases members@.len() - i,
    {
        if !shape_matches(shape, members[i].as_str()) {
            assert(!shape_match(shape@, views(members@)[i as int]));
            return false;
        }
        i += 1;
    }
    true
}

/// The range lettering names under a shape.
fn range_exec(shape: &str, value: &str) -> (r: Option<Vec<String>>)
    ensures
        match r {
            Some(ms) => range_of(shape@, value@) == Some(views(ms@)),
            None => range_of(shape@, value@) is None,
        },
{
    match expand_range(value) {
        Some(ms) => {
            if all_shaped(shape, &ms) {
                Some(ms)
            } else {
                None
            }
        },
        None => None,
    }
}

proof fn lemma_push_pair(pairs: Seq<(String, String)>, p: (String, String))
    ensures
        forall|l: Seq<char>, t: Seq<char>|
            #[trigger] pair_views(pairs.push(p)).contains((l, t)) <==> (pair_views(pairs).contains((l, t))
                || (l == p.0@ && t == p.1@)),
{
    assert(pair_views(pairs.push(p)) =~= pair_views(pairs).push((p.0@, p.1@)));
    assert forall|l: Seq<char>, t: Seq<char>|
        #[trigger] pair_views(pairs.push(p)).contains((l, t)) <==> (pair_views(pairs).contains((l, t))
            || (l == p.0@ && t == p.1@)) by {
        let a = pair_views(pairs);
        let b = pair_views(pairs.push(p));
        if b.contains((l, t)) {
            let i = choose|i: int| 0 <= i < b.len() && b[i] == (l, t);
            if i < a.len() {
                assert(a[i] == (l, t));
            }
        }
        if a.contains((l, t)) {
            let i = choose|i: int| 0 <= i < a.len() && a[i] == (l, t);
            assert(b[i] == (l, t));
        }
        if l == p.0@ && t == p.1@ {
            assert(b[a.len() as int] == (l, t));
        }
    }
}

impl OrphanInput {
    /// One step of the walk adds exactly the pair `(k, j)` gives.
    proof fn lemma_step(&self, k: int, j: int)
        requires
            0 <= k < self.lettering@.len(),
            0 <= j < self.shapes@.len(),
        ensures
            forall|l: Seq<char>, t: Seq<char>|
                #[trigger] self.orphan_upto(k, j + 1, l, t) <==> (self.orphan_upto(k, j, l, t) || (self.hit(k, j, l)
                    && match range_of(self.sh()[j].0, self.ls()[k]) {
                    Some(ms) => ms.contains(t) && !self.cs().contains(t),
                    None => is_orphan(self.sh()[j].0, self.ls()[k], self.cs(), self.claimed_elsewhere)
                        && t == self.ls()[k],
                })),
            forall|l: Seq<char>, t: Seq<char>|
                #[trigger] self.duplicate_upto(k, j + 1, l, t) <==> (self.duplicate_upto(k, j, l, t) || (self.hit(k, j, l)
                    && is_duplicate(self.sh()[j].0, self.ls()[k], self.cs(), self.claimed_elsewhere) && t
                    == self.ls()[k])),
            forall|l: Seq<char>, t: Seq<char>|
                #[trigger] self.range_upto(k, j + 1, l, t) <==> (self.range_upto(k, j, l, t) || (self.hit(k, j, l)
                    && range_of(self.sh()[j].0, self.ls()[k]) is Some && t == self.ls()[k])),
    {
        assert forall|l: Seq<char>, t: Seq<char>|
            #[trigger] self.orphan_upto(k, j + 1, l, t) <==> (self.orphan_upto(k, j, l, t) || (self.hit(k, j, l)
                && match range_of(self.sh()[j].0, self.ls()[k]) {
                Some(ms) => ms.contains(t) && !self.cs().contains(t),
                None => is_orphan(self.sh()[j].0, self.ls()[k], self.cs(), self.claimed_elsewhere) && t
                    == self.ls()[k],
            })) by {
            if self.orphan_upto(k, j + 1, l, t) {
                let (k2, j2) = choose|k2: int, j2: int|
                    #![trigger self.hit(k2, j2, l)]
                    self.hit(k2, j2, l) && before(k2, j2, k, j + 1) && (match range_of(self.sh()[j2].0, self.ls()[k2]) {
                        Some(ms) => ms.contains(t) && !self.cs().contains(t),
                        None => is_orphan(self.sh()[j2].0, self.ls()[k2], self.cs(), self.claimed_elsewhere)
                            && t == self.ls()[k2],
                    });
                if before(k2, j2, k, j) {
                    assert(self.orphan_upto(k, j, l, t));
                }
            }
        }
        assert forall|l: Seq<char>, t: Seq<char>|
            #[trigger] self.duplicate_upto(k, j + 1, l, t) <==> (self.duplicate_upto(k, j, l, t) || (self.hit(k, j, l)
                && is_duplicate(self.sh()[j].0, self.ls()[k], self.cs(), self.claimed_elsewhere) && t == self.ls()[k])) by {
            if self.duplicate_upto(k, j + 1, l, t) {
                let (k2, j2) = choose|k2: int, j2: int|
                    #![trigger self.hit(k2, j2, l)]
                    self.hit(k2, j2, l) && before(k2, j2, k, j + 1) && is_duplicate(
                        self.sh()[j2].0,
                        self.ls()[k2],
                        self.cs(),
                        self.claimed_elsewhere,
                    ) && t == self.ls()[k2];
                if before(k2, j2, k, j) {
                    assert(self.duplicate_upto(k, j, l, t));
                }
            }
        }
        assert forall|l: Seq<char>, t: Seq<char>|
            #[trigger] self.range_upto(k, j + 1, l, t) <==> (self.range_upto(k, j, l, t) || (self.hit(k, j, l)
                && range_of(self.sh()[j].0, self.ls()[k]) is Some && t == self.ls()[k])) by {
            if self.range_upto(k, j + 1, l, t) {
                let (k2, j2) = choose|k2: int, j2: int|
                    #![trigger self.hit(k2, j2, l)]
                    self.hit(k2, j2, l) && before(k2, j2, k, j + 1) && range_of(self.sh()[j2].0, self.ls()[k2]) is Some
                        && t == self.ls()[k2];
                if before(k2, j2, k, j) {
                    assert(self.range_upto(k, j, l, t));
                }
            }
        }
    }

    /// Finishing lettering `k` is starting lettering `k + 1`.
    proof fn lemma_next(&self, k: int)
        requires
            0 <= k < self.lettering@.len(),
        ensures
            forall|l: Seq<char>, t: Seq<char>|
                #[trigger] self.orphan_upto(k + 1, 0, l, t) == self.orphan_upto(k, self.shapes@.len() as int, l, t),
            forall|l: Seq<char>, t: Seq<char>|
                #[trigger] self.duplicate_upto(k + 1, 0, l, t) == self.duplicate_upto(k, self.shapes@.len() as int, l, t),
            forall|l: Seq<char>, t: Seq<char>|
                #[trigger] self.range_upto(k + 1, 0, l, t) == self.range_upto(k, self.shapes@.len() as int, l, t),
    {
        let n = self.shapes@.len() as int;
        assert forall|l: Seq<char>, t: Seq<char>|
            #[trigger] self.orphan_upto(k + 1, 0, l, t) == self.orphan_upto(k, n, l, t) by {
            if self.orphan_upto(k + 1, 0, l, t) {
                let (k2, j2) = choose|k2: int, j2: int|
                    #![trigger self.hit(k2, j2, l)]
                    self.hit(k2, j2, l) && before(k2, j2, k + 1, 0) && (match range_of(self.sh()[j2].0, self.ls()[k2]) {
                        Some(ms) => ms.contains(t) && !self.cs().contains(t),
                        None => is_orphan(self.sh()[j2].0, self.ls()[k2], self.cs(), self.claimed_elsewhere)
                            && t == self.ls()[k2],
                    });
                assert(before(k2, j2, k, n));
            }
            if self.orphan_upto(k, n, l, t) {
                let (k2, j2) = choose|k2: int, j2: int|
                    #![trigger self.hit(k2, j2, l)]
                    self.hit(k2, j2, l) && before(k2, j2, k, n) && (match range_of(self.sh()[j2].0, self.ls()[k2]) {
                        Some(ms) => ms.contains(t) && !self.cs().contains(t),
                        None => is_orphan(self.sh()[j2].0, self.ls()[k2], self.cs(), self.claimed_elsewhere)
                            && t == self.ls()[k2],
                    });
                assert(before(k2, j2, k + 1, 0));
            }
        }
        assert forall|l: Seq<char>, t: Seq<char>|
            #[trigger] self.duplicate_upto(k + 1, 0, l, t) == self.duplicate_upto(k, n, l, t) by {
            if self.duplicate_upto(k + 1, 0, l, t) {
                let (k2, j2) = choose|k2: int, j2: int|
                    #![trigger self.hit(k2, j2, l)]
                    self.hit(k2, j2, l) && before(k2, j2, k + 1, 0) && is_duplicate(
                        self.sh()[j2].0,
                        self.ls()[k2],
                        self.cs(),
                        self.claimed_elsewhere,
                    ) && t == self.ls()[k2];
                assert(before(k2, j2, k, n));
            }
            if self.duplicate_upto(k, n, l, t) {
                let (k2, j2) = choose|k2: int, j2: int|
                    #![trigger self.hit(k2, j2, l)]
                    self.hit(k2, j2, l) && before(k2, j2, k, n) && is_duplicate(
                        self.sh()[j2].0,
                        self.ls()[k2],
                        self.cs(),
                        self.claimed_elsewhere,
                    ) && t == self.ls()[k2];
                assert(before(k2, j2, k + 1, 0));
            }
        }
        assert forall|l: Seq<char>, t: Seq<char>|
            #[trigger] self.range_upto(k + 1, 0, l, t) == self.range_upto(k, n, l, t) by {
            if self.range_upto(k + 1, 0, l, t) {
                let (k2, j2) = choose|k2: int, j2: int|
                    #![trigger self.hit(k2, j2, l)]
                    self.hit(k2, j2, l) && before(k2, j2, k + 1, 0) && range_of(self.sh()[j2].0, self.ls()[k2]) is Some
                        && t == self.ls()[k2];
                assert(before(k2, j2, k, n));
            }
            if self.range_upto(k, n, l, t) {
                let (k2, j2) = choose|k2: int, j2: int|
                    #![trigger self.hit(k2, j2, l)]
                    self.hit(k2, j2, l) && before(k2, j2, k, n) && range_of(self.sh()[j2].0, self.ls()[k2]) is Some
                        && t == self.ls()[k2];
                assert(before(k2, j2, k + 1, 0));
            }
        }
    }
}

/// The pairs (class label, value) the walk sorts the lettering into:
/// orphans, duplicates and range annotations.
fn gather(input: &OrphanInput) -> (r: (Vec<(String, String)>, Vec<(String, String)>, Vec<(String, String)>))
    requires
        input.taken@.len() == input.lettering@.len(),
    ensures
        forall|l: Seq<char>, t: Seq<char>| #[trigger] pair_views(r.0@).contains((l, t)) <==> input.orphan(l, t),
        forall|l: Seq<char>, t: Seq<char>| #[trigger] pair_views(r.1@).contains((l, t)) <==> input.duplicate(l, t),
        forall|l: Seq<char>, t: Seq<char>| #[trigger] pair_views(r.2@).contains((l, t)) <==> input.range(l, t),
{
    let mut orphans: Vec<(String, String)> = Vec::new();
    let mut duplicates: Vec<(String, String)> = Vec::new();
    let mut ranges: Vec<(String, String)> = Vec::new();
    let mut k: usize = 0;
    while k < input.lettering.len()
        invariant
            k <= input.lettering@.len(),
            input.taken@.len() == input.lettering@.len(),
            forall|l: Seq<char>, t: Seq<char>| #[trigger] pair_views(orphans@).contains((l, t)) <==> input.orphan_upto(k as int, 0, l, t),
            forall|l: Seq<char>, t: Seq<char>| #[trigger] pair_views(duplicates@).contains((l, t)) <==> input.duplicate_upto(k as int, 0, l, t),
            forall|l: Seq<char>, t: Seq<char>| #[trigger] pair_views(ranges@).contains((l, t)) <==> input.range_upto(k as int, 0, l, t),
        decreases input.lettering@.len() - k,
    {
        let value = input.lettering[k].as_str();
        assert(input.ls()[k as int] == value@);
        let live = !input.taken[k] && accepts_tag(input.min_chars, value);
        let mut j: usize = 0;
        while j < input.shapes.len()
            invariant
                k < input.lettering@.len(),
                j <= input.shapes@.len(),
                input.taken@.len() == input.lettering@.len(),
                value@ == input.ls()[k as int],
                live == counts(input.ls()[k as int], input.taken@[k as int], input.min_chars as int),
                forall|l: Seq<char>, t: Seq<char>| #[trigger] pair_views(orphans@).contains((l, t)) <==> input.orphan_upto(k as int, j as int, l, t),
                forall|l: Seq<char>, t: Seq<char>| #[trigger] pair_views(duplicates@).contains((l, t)) <==> input.duplicate_upto(k as int, j as int, l, t),
                forall|l: Seq<char>, t: Seq<char>| #[trigger] pair_views(ranges@).contains((l, t)) <==> input.range_upto(k as int, j as int, l, t),
            decreases input.shapes@.len() - j,
        {
            proof {
                input.lemma_step(k as int, j as int);
            }
            let shape = input.shapes[j].0.as_str();
            let label = input.shapes[j].1.as_str();
            assert(input.sh()[j as int] == (shape@, label@));
            if live {
                assert(forall|l: Seq<char>| #[trigger] input.hit(k as int, j as int, l) <==> l == label@);
                match range_exec(shape, value) {
                    Some(members) => {
                        let ghost before_o = orphans@;
                        let mut i: usize = 0;
                        while i < members.len()
                            invariant
                                i <= members@.len(),
                                k < input.lettering@.len(),
                                j < input.shapes@.len(),
                                label@ == input.shapes@[j as int].1@,
                                forall|l: Seq<char>, t: Seq<char>| #[trigger] pair_views(orphans@).contains((l, t)) <==> (
                                    pair_views(before_o).contains((l, t)) || (l == label@ && views(members@).take(i as int).contains(t)
                                        && !input.cs().contains(t))),
                            decreases members@.len() - i,
                        {
                            let m = chars_of(members[i].as_str());
                            let ghost prev = orphans@;
                            assert(views(members@).take(i + 1) =~= views(members@).take(i as int).push(members@[i as int]@));
                            let carried_m = holds_text(&input.carried, &m);
                            assert(carried_m == input.cs().contains(members@[i as int]@));
                            if !carried_m {
                                let pair = (input.shapes[j].1.clone(), members[i].clone());
                                assert(pair.0@ == label@ && pair.1@ == members@[i as int]@);
                                proof {
                                    lemma_push_pair(prev, pair);
                                }
                                orphans.push(pair);
                            }
                            proof {
                                assert(views(members@).take(i + 1)[i as int] == members@[i as int]@);
                                assert forall|l: Seq<char>, t: Seq<char>| #[trigger] pair_views(orphans@).contains((l, t)) <==> (
                                    pair_views(before_o).contains((l, t)) || (l == label@ && views(members@).take(i + 1).contains(t)
                                        && !input.cs().contains(t))) by {
                                    let tk = views(members@).take(i as int);
                                    let tk1 = views(members@).take(i + 1);
                                    if tk1.contains(t) && !tk.contains(t) {
                                        let q = choose|q: int| 0 <= q < tk1.len() && tk1[q] == t;
                                        assert(q == i);
                                    }
                                    if tk.contains(t) {
                                        let q = choose|q: int| 0 <= q < tk.len() && tk[q] == t;
                                        assert(tk1[q] == t);
                                    }
                                }
                            }
                            i += 1;
                        }
                        assert(views(members@).take(members@.len() as int) =~= views(members@));
                        let ghost prev_r = ranges@;
                        let pair = (input.shapes[j].1.clone(), input.lettering[k].clone());
                        proof {
                            lemma_push_pair(prev_r, pair);
                        }
                        ranges.push(pair);
                    },
                    None => {
                        if shape_matches(shape, value) {
                            let v = chars_of(value);
                            if holds_text(&input.carried, &v) && !input.claimed_elsewhere {
                                let ghost prev = duplicates@;
                                let pair = (input.shapes[j].1.clone(), input.lettering[k].clone());
                                proof {
                                    lemma_push_pair(prev, pair);
                                }
                                duplicates.push(pair);
                            } else {
                                let ghost prev = orphans@;
                                let pair = (input.shapes[j].1.clone(), input.lettering[k].clone());
                                proof {
                                    lemma_push_pair(prev, pair);
                                }
                                orphans.push(pair);
                            }
                        }
                    },
                }
            } else {
                assert(forall|l: Seq<char>| !#[trigger] input.hit(k as int, j as int, l));
            }
            j += 1;
        }
        proof {
            input.lemma_next(k as int);
        }
        k += 1;
    }
    (orphans, duplicates, ranges)
}

// ── grouping by class ───────────────────────────────────────────────────

/// The values of one class label, sorted, without repeats.
#[derive(Debug, Clone, PartialEq, Eq)]
pub struct LabelTags {
    pub label: String,
    pub tags: Vec<String>,
}

/// The range annotations of one class label, sorted by value, one per
/// value.
#[derive(Debug, Clone, PartialEq, Eq)]
pub struct LabelRanges {
    pub label: String,
    pub annotations: Vec<RangeAnnotation>,
}

/// The sorted lettering: per class label, its orphan tags, its range
/// annotations and its duplicates; each list in label order.
#[derive(Debug, Clone, PartialEq, Eq)]
pub struct OrphanSorting {
    pub orphan_tags: Vec<LabelTags>,
    pub range_annotations: Vec<LabelRanges>,
    pub duplicate_tags: Vec<LabelTags>,
}

pub open spec fn tag_labels(groups: Seq<LabelTags>) -> Seq<Seq<char>> {
    groups.map_values(|g: LabelTags| g.label@)
}

pub open spec fn range_labels(groups: Seq<LabelRanges>) -> Seq<Seq<char>> {
    groups.map_values(|g: LabelRanges| g.label@)
}

pub open spec fn annotation_values(a: Seq<RangeAnnotation>) -> Seq<Seq<char>> {
    a.map_values(|r: RangeAnnotation| r.value@)
}

/// `groups` lists, in label order, each label some pair has with the sorted
/// values it pairs with, and nothing else.
pub open spec fn groups_pairs(groups: Seq<LabelTags>, pairs: spec_fn(Seq<char>, Seq<char>) -> bool) -> bool {
    &&& sorted_unique(tag_labels(groups))
    &&& forall|i: int|
        0 <= i < groups.len() ==> sorted_unique(views((#[trigger] groups[i]).tags@)) && views(groups[i].tags@).to_set()
            == Set::new(|t: Seq<char>| pairs(groups[i].label@, t)) && groups[i].tags@.len() > 0
    &&& forall|l: Seq<char>, t: Seq<char>| #[trigger] pairs(l, t) ==> tag_labels(groups).contains(l)
}

fn labels_of(pairs: &Vec<(String, String)>) -> (labels: Vec<String>)
    ensures
        sorted_unique(views(labels@)),
        forall|l: Seq<char>| #[trigger] views(labels@).contains(l) <==> exists|t: Seq<char>| pair_views(pairs@).contains((l, t)),
{
    let ghost ps = pair_views(pairs@);
    let mut labels: Vec<String> = Vec::new();
    let mut i: usize = 0;
    while i < pairs.len()
        invariant
            i <= pairs@.len(),
            ps == pair_views(pairs@),
            sorted_unique(views(labels@)),
            forall|l: Seq<char>| #[trigger] views(labels@).to_set().contains(l) <==> exists|q: int| 0 <= q < i && ps[q].0 == l,
        decreases pairs@.len() - i,
    {
        let ghost before = views(labels@).to_set();
        insert_name(&mut labels, pairs[i].0.as_str());
        proof {
            assert(ps[i as int].0 == pairs@[i as int].0@);
            assert forall|l: Seq<char>| #[trigger] views(labels@).to_set().contains(l) <==> exists|q: int| 0 <= q < i + 1 && ps[q].0 == l by {
                if l == ps[i as int].0 {
                    assert(0 <= i < i + 1 && ps[i as int].0 == l);
                }
            }
        }
        i += 1;
    }
    proof {
        assert forall|l: Seq<char>| #[trigger] views(labels@).contains(l) <==> exists|t: Seq<char>| pair_views(pairs@).contains((l, t)) by {
            assert(views(labels@).contains(l) <==> views(labels@).to_set().contains(l));
            if views(labels@).contains(l) {
                let q = choose|q: int| 0 <= q < pairs@.len() && ps[q].0 == l;
                assert(ps.contains((l, ps[q].1)));
            }
            if exists|t: Seq<char>| pair_views(pairs@).contains((l, t)) {
                let t = choose|t: Seq<char>| pair_views(pairs@).contains((l, t));
                let q = choose|q: int| 0 <= q < ps.len() && ps[q] == (l, t);
                assert(ps[q].0 == l);
            }
        }
    }
    labels
}

fn values_for(pairs: &Vec<(String, String)>, label: &str) -> (values: Vec<String>)
    ensures
        sorted_unique(views(values@)),
        forall|t: Seq<char>| #[trigger] views(values@).to_set().contains(t) <==> pair_views(pairs@).contains((label@, t)),
{
    let ghost ps = pair_views(pairs@);
    let want = chars_of(label);
    let mut values: Vec<String> = Vec::new();
    let mut i: usize = 0;
    while i < pairs.len()
        invariant
            i <= pairs@.len(),
            ps == pair_views(pairs@),
            want@ == label@,
            sorted_unique(views(values@)),
            forall|t: Seq<char>| #[trigger] views(values@).to_set().contains(t) <==> exists|q: int| 0 <= q < i && ps[q] == (label@, t),
        decreases pairs@.len() - i,
    {
        assert(ps[i as int] == (pairs@[i as int].0@, pairs@[i as int].1@));
        if same(chars_of(pairs[i].0.as_str()).as_slice(), want.as_slice()) {
            insert_name(&mut values, pairs[i].1.as_str());
            proof {
                assert forall|t: Seq<char>| #[trigger] views(values@).to_set().contains(t) <==> exists|q: int| 0 <= q < i + 1 && ps[q] == (label@, t) by {
                    if t == ps[i as int].1 {
                        assert(ps[i as int] == (label@, t));
                    }
                }
            }
        } else {
            proof {
                assert forall|t: Seq<char>| #[trigger] views(values@).to_set().contains(t) <==> exists|q: int| 0 <= q < i + 1 && ps[q] == (label@, t) by {
                    if exists|q: int| 0 <= q < i + 1 && ps[q] == (label@, t) {
                        let q = choose|q: int| 0 <= q < i + 1 && ps[q] == (label@, t);
                        assert(q != i);
                    }
                }
            }
        }
        i += 1;
    }
    proof {
        assert forall|t: Seq<char>| #[trigger] views(values@).to_set().contains(t) <==> pair_views(pairs@).contains((label@, t)) by {
            if ps.contains((label@, t)) {
                let q = choose|q: int| 0 <= q < ps.len() && ps[q] == (label@, t);
                assert(0 <= q < pairs@.len());
            }
        }
    }
    values
}

fn group(pairs: &Vec<(String, String)>) -> (out: Vec<LabelTags>)
    ensures
        groups_pairs(out@, |l: Seq<char>, t: Seq<char>| pair_views(pairs@).contains((l, t))),
{
    let ghost f = |l: Seq<char>, t: Seq<char>| pair_views(pairs@).contains((l, t));
    let labels = labels_of(pairs);
    let mut out: Vec<LabelTags> = Vec::new();
    let mut i: usize = 0;
    while i < labels.len()
        invariant
            i <= labels@.len(),
            sorted_unique(views(labels@)),
            forall|l: Seq<char>| #[trigger] views(labels@).contains(l) <==> exists|t: Seq<char>| pair_views(pairs@).contains((l, t)),
            out@.len() == i,
            forall|q: int| 0 <= q < i ==> (#[trigger] out@[q]).label@ == labels@[q]@,
            forall|q: int|
                0 <= q < i ==> sorted_unique(views((#[trigger] out@[q]).tags@)) && views(out@[q].tags@).to_set()
                    == Set::new(|t: Seq<char>| pair_views(pairs@).contains((out@[q].label@, t))) && out@[q].tags@.len() > 0,
        decreases labels@.len() - i,
    {
        let label = labels[i].clone();
        let tags = values_for(pairs, label.as_str());
        proof {
            assert(views(labels@)[i as int] == label@);
            assert(views(labels@).contains(label@));
            let t = choose|t: Seq<char>| pair_views(pairs@).contains((label@, t));
            assert(views(tags@).to_set().contains(t));
            if tags@.len() == 0 {
                assert(views(tags@) =~= Seq::<Seq<char>>::empty());
            }
            assert(views(tags@).to_set() =~= Set::new(|t: Seq<char>| pair_views(pairs@).contains((label@, t))));
        }
        out.push(LabelTags { label, tags });
        i += 1;
    }
    proof {
        assert(tag_labels(out@) =~= views(labels@));
        assert forall|l: Seq<char>, t: Seq<char>| #[trigger] f(l, t) implies tag_labels(out@).contains(l) by {
            assert(views(labels@).contains(l));
        }
        assert forall|q: int| 0 <= q < out@.len() implies sorted_unique(views((#[trigger] out@[q]).tags@)) && views(out@[q].tags@).to_set()
            == Set::new(|t: Seq<char>| f(out@[q].label@, t)) && out@[q].tags@.len() > 0 by {
            assert(Set::new(|t: Seq<char>| f(out@[q].label@, t)) =~= Set::new(|t: Seq<char>| pair_views(pairs@).contains((out@[q].label@, t))));
        }
    }
    out
}

impl OrphanInput {
    proof fn lemma_range_expands(&self, l: Seq<char>, t: Seq<char>)
        requires
            self.range(l, t),
        ensures
            expanded(t) is Some,
    {
        let (k, j) = choose|k: int, j: int|
            #![trigger self.hit(k, j, l)]
            self.hit(k, j, l) && before(k, j, self.lettering@.len() as int, 0) && range_of(self.sh()[j].0, self.ls()[k]) is Some
                && t == self.ls()[k];
    }
}

/// An annotation as the sorting makes it: its members are what the value
/// expands to, and those of them no symbol carries are missing.
pub open spec fn annotation_of(a: RangeAnnotation, carried: Seq<Seq<char>>) -> bool {
    &&& expanded(a.value@) == Some(views(a.members@))
    &&& views(a.missing@) == not_carried(views(a.members@), carried)
}

/// Sort the tag-shaped lettering no symbol claimed: per class label that
/// reports orphans, the members of a range annotation no symbol carries and
/// the lettering no range explains are orphans, unless a symbol carries
/// the lettering and the rules do not report that as an orphan too, when
/// it is a duplicate.
pub fn sort_orphans(input: &OrphanInput) -> (out: OrphanSorting)
    requires
        input.taken@.len() == input.lettering@.len(),
    ensures
        groups_pairs(out.orphan_tags@, |l: Seq<char>, t: Seq<char>| input.orphan(l, t)),
        groups_pairs(out.duplicate_tags@, |l: Seq<char>, t: Seq<char>| input.duplicate(l, t)),
        sorted_unique(range_labels(out.range_annotations@)),
        forall|i: int|
            0 <= i < out.range_annotations@.len() ==> {
                let g = #[trigger] out.range_annotations@[i];
                &&& sorted_unique(annotation_values(g.annotations@))
                &&& annotation_values(g.annotations@).to_set() == Set::new(|t: Seq<char>| input.range(g.label@, t))
                &&& g.annotations@.len() > 0
                &&& forall|q: int| 0 <= q < g.annotations@.len() ==> annotation_of(#[trigger] g.annotations@[q], input.cs())
            },
        forall|l: Seq<char>, t: Seq<char>| #[trigger] input.range(l, t) ==> range_labels(out.range_annotations@).contains(l),
{
    let (orphans, duplicates, ranges) = gather(input);
    let orphan_tags = group(&orphans);
    let duplicate_tags = group(&duplicates);
    proof {
        let f1 = |l: Seq<char>, t: Seq<char>| pair_views(orphans@).contains((l, t));
        let g1 = |l: Seq<char>, t: Seq<char>| input.orphan(l, t);
        assert(f1 =~= g1);
        let f2 = |l: Seq<char>, t: Seq<char>| pair_views(duplicates@).contains((l, t));
        let g2 = |l: Seq<char>, t: Seq<char>| input.duplicate(l, t);
        assert(f2 =~= g2);
    }
    let labels = labels_of(&ranges);
    let mut range_annotations: Vec<LabelRanges> = Vec::new();
    let mut i: usize = 0;
    while i < labels.len()
        invariant
            i <= labels@.len(),
            input.taken@.len() == input.lettering@.len(),
            sorted_unique(views(labels@)),
            forall|l: Seq<char>| #[trigger] views(labels@).contains(l) <==> exists|t: Seq<char>| pair_views(ranges@).contains((l, t)),
            forall|l: Seq<char>, t: Seq<char>| #[trigger] pair_views(ranges@).contains((l, t)) <==> input.range(l, t),
            range_annotations@.len() == i,
            forall|q: int| 0 <= q < i ==> (#[trigger] range_annotations@[q]).label@ == labels@[q]@,
            forall|q: int|
                0 <= q < i ==> {
                    let g = #[trigger] range_annotations@[q];
                    &&& sorted_unique(annotation_values(g.annotations@))
                    &&& annotation_values(g.annotations@).to_set() == Set::new(|t: Seq<char>| input.range(g.label@, t))
                    &&& g.annotations@.len() > 0
                    &&& forall|r: int| 0 <= r < g.annotations@.len() ==> annotation_of(#[trigger] g.annotations@[r], input.cs())
                },
        decreases labels@.len() - i,
    {
        let label = labels[i].clone();
        let values = values_for(&ranges, label.as_str());
        let mut annotations: Vec<RangeAnnotation> = Vec::new();
        let mut v: usize = 0;
        while v < values.len()
            invariant
                v <= values@.len(),
                forall|t: Seq<char>| #[trigger] views(values@).to_set().contains(t) <==> pair_views(ranges@).contains((label@, t)),
                forall|l: Seq<char>, t: Seq<char>| #[trigger] pair_views(ranges@).contains((l, t)) <==> input.range(l, t),
                annotation_values(annotations@) == views(values@).take(v as int),
                forall|r: int| 0 <= r < annotations@.len() ==> annotation_of(#[trigger] annotations@[r], input.cs()),
            decreases values@.len() - v,
        {
            proof {
                assert(views(values@)[v as int] == values@[v as int]@);
                assert(views(values@).contains(values@[v as int]@));
                assert(views(values@).to_set().contains(values@[v as int]@));
                input.lemma_range_expands(label@, values@[v as int]@);
            }
            match expand_range(values[v].as_str()) {
                Some(members) => {
                    let value = values[v].clone();
                    assert(value@ == values@[v as int]@);
                    let a = RangeAnnotation::of(value, members, input.carried.as_slice());
                    let ghost prev = annotations@;
                    annotations.push(a);
                    proof {
                        assert(annotations@ == prev.push(a));
                        assert(annotation_values(annotations@) =~= annotation_values(prev).push(values@[v as int]@));
                        assert(views(values@).take(v + 1) =~= views(values@).take(v as int).push(values@[v as int]@));
                    }
                },
                None => {
                    proof {
                        assert(false);
                    }
                },
            }
            v += 1;
        }
        proof {
            assert(views(values@).take(values@.len() as int) =~= views(values@));
            assert(views(labels@)[i as int] == label@);
            assert(views(labels@).contains(label@));
            let t = choose|t: Seq<char>| pair_views(ranges@).contains((label@, t));
            assert(views(values@).to_set().contains(t));
            if values@.len() == 0 {
                assert(views(values@) =~= Seq::<Seq<char>>::empty());
            }
            assert(annotation_values(annotations@).to_set() =~= Set::new(|t: Seq<char>| input.range(label@, t)));
        }
        range_annotations.push(LabelRanges { label, annotations });
        i += 1;
    }
    proof {
        assert(range_labels(range_annotations@) =~= views(labels@));
        assert forall|l: Seq<char>, t: Seq<char>| #[trigger] input.range(l, t) implies range_labels(range_annotations@).contains(l) by {
            assert(pair_views(ranges@).contains((l, t)));
            assert(views(labels@).contains(l));
        }
    }
    OrphanSorting { orphan_tags, range_annotations, duplicate_tags }
}

} // verus!
