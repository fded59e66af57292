//! The pipe runs of a sheet indexed by line number and by family: which
//! runs carry a line, which lines make a family, which symbols a line
//! reaches.

use vstd::prelude::*;

use crate::export::End;
use crate::pipes::{family_of_value, PipeRules};
use crate::sorted::{insert_name, lex_lt, sorted_unique};
use crate::text::{chars_of, same, string_of, views};

verus! {

/// What the index reads of a stretch of pipe between two ends.
#[derive(Debug, Clone, PartialEq, Eq)]
pub struct Run {
    /// Line numbers lettered along this run itself, distinct, in lettering
    /// order.
    pub numbers: Vec<String>,
    /// The line numbers the run carries: its own, or those of the lettered
    /// runs it continues.
    pub lines: Vec<String>,
    /// Pipe strokes it is made of.
    pub segments: usize,
    pub ends: [End; 2],
    /// The sheet entities whose strokes make the run.
    pub handles: Vec<u64>,
}

/// The pipe of a sheet.
#[derive(Debug, Clone, PartialEq, Eq)]
pub struct Pipes {
    pub runs: Vec<Run>,
    /// Pipe strokes read from the sheet, before tees split them.
    pub segments: usize,
    /// Connection points the symbols offered, and how many a pipe end met.
    pub ports: usize,
    pub connected_ports: usize,
    pub open_ends: usize,
    /// Line number and its family by the rules' coding pattern, for every
    /// number the runs carry, sorted by line number.
    pub families: Vec<(String, String)>,
}

/// How often `x` occurs in `s`.
pub open spec fn count_in(s: Seq<Seq<char>>, x: Seq<char>) -> nat
    decreases s.len(),
{
    if s.len() == 0 {
        0
    } else {
        count_in(s.drop_last(), x) + if s.last() == x {
            1nat
        } else {
            0nat
        }
    }
}

/// The runs carrying `line`, by index in run order, a run once for each
/// time it lists the line.
pub open spec fn carriers(runs: Seq<Run>, line: Seq<char>) -> Seq<usize>
    decreases runs.len(),
{
    if runs.len() == 0 {
        Seq::<usize>::empty()
    } else {
        carriers(runs.drop_last(), line) + Seq::new(
            count_in(views(runs.last().lines@), line),
            |k: int| (runs.len() - 1) as usize,
        )
    }
}

/// Every line number the runs carry.
pub open spec fn carried_lines(runs: Seq<Run>) -> Set<Seq<char>> {
    Set::new(
        |l: Seq<char>|
            exists|j: int| 0 <= j < runs.len() && #[trigger] views(runs[j].lines@).contains(l),
    )
}

/// The numbers a run carries or letters.
pub open spec fn run_numbers(run: Run) -> Set<Seq<char>> {
    views(run.lines@).to_set().union(views(run.numbers@).to_set())
}

/// Every number the runs carry or letter.
pub open spec fn all_numbers(runs: Seq<Run>) -> Set<Seq<char>> {
    Set::new(
        |l: Seq<char>| exists|j: int| 0 <= j < runs.len() && #[trigger] run_numbers(runs[j]).contains(l),
    )
}

/// The line numbers of an index, in order.
pub open spec fn index_keys<T>(index: Seq<(String, T)>) -> Seq<Seq<char>> {
    index.map_values(|e: (String, T)| e.0@)
}

/// The family of `line` in `families`: the one recorded for it, else the
/// line itself.
pub open spec fn family_in(families: Seq<(String, String)>, line: Seq<char>) -> Seq<char>
    decreases families.len(),
{
    if families.len() == 0 {
        line
    } else if families[0].0@ == line {
        families[0].1@
    } else {
        family_in(families.drop_first(), line)
    }
}

/// The families of the line numbers the runs carry.
pub open spec fn family_keys(runs: Seq<Run>, families: Seq<(String, String)>) -> Set<Seq<char>> {
    Set::new(
        |f: Seq<char>|
            exists|l: Seq<char>| #[trigger] carried_lines(runs).contains(l) && family_in(families, l) == f,
    )
}

/// The line numbers the runs carry that belong to `family`.
pub open spec fn family_lines(runs: Seq<Run>, families: Seq<(String, String)>, family: Seq<char>) -> Set<
    Seq<char>,
> {
    Set::new(|l: Seq<char>| carried_lines(runs).contains(l) && family_in(families, l) == family)
}

/// `index` is the runs indexed by line number: sorted by line, each line
/// with the runs carrying it.
pub open spec fn line_index(index: Seq<(String, Vec<usize>)>, runs: Seq<Run>) -> bool {
    &&& sorted_unique(index_keys(index))
    &&& forall|k: int| 0 <= k < index.len() ==> (#[trigger] index[k]).1@ == carriers(runs, index[k].0@)
}

/// The symbols at the ends of the runs carrying `line`.
pub open spec fn symbols_reached(runs: Seq<Run>, line: Seq<char>) -> Set<usize> {
    Set::new(
        |i: usize|
            exists|j: int|
                0 <= j < runs.len() && #[trigger] views(runs[j].lines@).contains(line) && (
                runs[j].ends[0] == End::Symbol(i) || runs[j].ends[1] == End::Symbol(i)),
    )
}

/// The run `r` ends at symbol `i`.
pub open spec fn ends_at(r: Run, i: usize) -> bool {
    r.ends[0] == End::Symbol(i) || r.ends[1] == End::Symbol(i)
}

/// The line numbers of the runs that end at symbol `i`.
pub open spec fn lines_reaching(runs: Seq<Run>, i: usize) -> Set<Seq<char>> {
    Set::new(
        |l: Seq<char>|
            exists|j: int| 0 <= j < runs.len() && #[trigger] views(runs[j].lines@).contains(l) && ends_at(runs[j], i),
    )
}

/// Strictly increasing.
pub open spec fn rising(s: Seq<usize>) -> bool {
    forall|a: int, b: int| 0 <= a < b < s.len() ==> #[trigger] s[a] < #[trigger] s[b]
}

fn text_eq(a: &String, b: &Vec<char>) -> (r: bool)
    ensures
        r == (a@ == b@),
{
    same(chars_of(a.as_str()).as_slice(), b.as_slice())
}

/// The runs carrying `line`, by index.
fn carriers_of(runs: &Vec<Run>, line: &Vec<char>) -> (out: Vec<usize>)
    ensures
        out@ == carriers(runs@, line@),
{
    let mut out: Vec<usize> = Vec::new();
    let mut j: usize = 0;
    assert(runs@.take(0) =~= Seq::<Run>::empty());
    while j < runs.len()
        invariant
            j <= runs@.len(),
            out@ == carriers(runs@.take(j as int), line@),
        decreases runs@.len() - j,
    {
        let ghost ls = views(runs@[j as int].lines@);
        let ghost before = out@;
        let ghost jj = j;
        let mut m: usize = 0;
        assert(ls.take(0) =~= Seq::<Seq<char>>::empty());
        assert(Seq::new(count_in(ls.take(0), line@), |k: int| jj) =~= Seq::<usize>::empty());
        while m < runs[j].lines.len()
            invariant
                j < runs@.len(),
                jj == j,
                m <= runs@[j as int].lines@.len(),
                ls == views(runs@[j as int].lines@),
                out@ == before + Seq::new(count_in(ls.take(m as int), line@), |k: int| jj),
            decreases runs@[j as int].lines@.len() - m,
        {
            assert(ls.take(m + 1).drop_last() =~= ls.take(m as int));
            assert(ls.take(m + 1).last() == runs@[j as int].lines@[m as int]@);
            if text_eq(&runs[j].lines[m], line) {
                out.push(j);
            }
            assert(out@ =~= before + Seq::new(count_in(ls.take(m + 1), line@), |k: int| jj));
            m += 1;
        }
        assert(ls.take(ls.len() as int) =~= ls);
        assert(runs@.take(j + 1).drop_last() =~= runs@.take(j as int));
        assert(runs@.take(j + 1).last() == runs@[j as int]);
        assert(Seq::new(count_in(ls, line@), |k: int| jj) =~= Seq::new(
            count_in(views(runs@.take(j + 1).last().lines@), line@),
            |k: int| (runs@.take(j + 1).len() - 1) as usize,
        ));
        j += 1;
    }
    assert(runs@.take(runs@.len() as int) =~= runs@);
    out
}

/// Every line number the runs carry, sorted, without repeats.
fn line_names(runs: &Vec<Run>) -> (names: Vec<String>)
    ensures
        sorted_unique(views(names@)),
        views(names@).to_set() == carried_lines(runs@),
{
    let mut names: Vec<String> = Vec::new();
    let mut j: usize = 0;
    assert(views(names@).to_set() =~= Set::<Seq<char>>::empty());
    while j < runs.len()
        invariant
            j <= runs@.len(),
            sorted_unique(views(names@)),
            views(names@).to_set() == Set::new(
                |l: Seq<char>|
                    exists|q: int| 0 <= q < j && #[trigger] views(runs@[q].lines@).contains(l),
            ),
        decreases runs@.len() - j,
    {
        let ghost before = views(names@).to_set();
        let ghost ls = views(runs@[j as int].lines@);
        let mut m: usize = 0;
        assert(before.union(ls.take(0).to_set()) =~= before);
        while m < runs[j].lines.len()
            invariant
                j < runs@.len(),
                m <= runs@[j as int].lines@.len(),
                ls == views(runs@[j as int].lines@),
                sorted_unique(views(names@)),
                views(names@).to_set() == before.union(ls.take(m as int).to_set()),
            decreases runs@[j as int].lines@.len() - m,
        {
            insert_name(&mut names, runs[j].lines[m].as_str());
            proof {
                crate::sorted::lemma_take_push_to_set(ls, m as int);
                assert(views(names@).to_set() =~= before.union(ls.take(m + 1).to_set()));
            }
            m += 1;
        }
        proof {
            assert(ls.take(ls.len() as int) =~= ls);
            let next = Set::new(
                |l: Seq<char>|
                    exists|q: int| 0 <= q < j + 1 && #[trigger] views(runs@[q].lines@).contains(l),
            );
            assert forall|l: Seq<char>| #[trigger] views(names@).to_set().contains(l) <==> next.contains(
                l,
            ) by {
                if views(names@).to_set().contains(l) && !before.contains(l) {
                    assert(views(runs@[j as int].lines@).contains(l));
                }
                if before.contains(l) {
                    let q = choose|q: int| 0 <= q < j && #[trigger] views(runs@[q].lines@).contains(l);
                    assert(0 <= q < j + 1 && views(runs@[q].lines@).contains(l));
                }
                if next.contains(l) {
                    let q = choose|q: int|
                        0 <= q < j + 1 && #[trigger] views(runs@[q].lines@).contains(l);
                    if q < j {
                        assert(before.contains(l));
                    }
                }
            }
            assert(views(names@).to_set() =~= next);
        }
        j += 1;
    }
    names
}

fn copy_indices(v: &Vec<usize>) -> (out: Vec<usize>)
    ensures
        out@ == v@,
{
    let mut out: Vec<usize> = Vec::new();
    let mut i: usize = 0;
    while i < v.len()
        invariant
            i <= v@.len(),
            out@ == v@.take(i as int),
        decreases v@.len() - i,
    {
        out.push(v[i]);
        assert(out@ =~= v@.take(i + 1));
        i += 1;
    }
    assert(v@.take(v@.len() as int) =~= v@);
    out
}

/// Add `x` to the strictly increasing `v`.
fn insert_index(v: &mut Vec<usize>, x: usize)
    requires
        rising(old(v)@),
    ensures
        rising(final(v)@),
        final(v)@.to_set() == old(v)@.to_set().insert(x),
{
    let mut p: usize = 0;
    while p < v.len() && v[p] < x
        invariant
            p <= v@.len(),
            rising(v@),
            forall|k: int| 0 <= k < p ==> v@[k] < x,
        decreases v@.len() - p,
    {
        p += 1;
    }
    if p < v.len() && v[p] == x {
        assert(v@.to_set().insert(x) =~= v@.to_set()) by {
            assert(v@.contains(x));
        }
        return;
    }
    let ghost before = v@;
    v.insert(p, x);
    proof {
        before.insert_ensures(p as int, x);
        assert(forall|k: int| p <= k < before.len() ==> x < before[k]);
        assert forall|a: int, b: int| 0 <= a < b < v@.len() implies #[trigger] v@[a]
            < #[trigger] v@[b] by {
            if b < p {
            } else if b == p {
            } else if a < p {
                assert(v@[b] == before[b - 1]);
            } else if a == p {
                assert(v@[b] == before[b - 1]);
            } else {
                assert(v@[a] == before[a - 1]);
                assert(v@[b] == before[b - 1]);
            }
        }
        assert forall|y: usize| #[trigger] v@.to_set().contains(y) <==> before.to_set().insert(
            x,
        ).contains(y) by {
            if v@.contains(y) {
                let q = choose|q: int| 0 <= q < v@.len() && #[trigger] v@[q] == y;
                if q < p {
                    assert(before[q] == y);
                } else if q > p {
                    assert(before[q - 1] == y);
                }
            }
            if before.contains(y) {
                let q = choose|q: int| 0 <= q < before.len() && #[trigger] before[q] == y;
                if q < p {
                    assert(v@[q] == y);
                } else {
                    assert(v@[q + 1] == y);
                }
            }
            if y == x {
                assert(v@[p as int] == y);
            }
        }
        assert(v@.to_set() =~= before.to_set().insert(x));
    }
}

impl Pipes {
    /// Line number -> the runs carrying it, in run order, by line number.
    pub fn by_line(&self) -> (index: Vec<(String, Vec<usize>)>)
        ensures
            line_index(index@, self.runs@),
            index_keys(index@).to_set() == carried_lines(self.runs@),
    {
        let names = line_names(&self.runs);
        let mut index: Vec<(String, Vec<usize>)> = Vec::new();
        let mut k: usize = 0;
        while k < names.len()
            invariant
                k <= names@.len(),
                index@.len() == k,
                forall|a: int| 0 <= a < k ==> (#[trigger] index@[a]).0@ == names@[a]@,
                forall|a: int|
                    0 <= a < k ==> (#[trigger] index@[a]).1@ == carriers(self.runs@, index@[a].0@),
            decreases names@.len() - k,
        {
            let key = chars_of(names[k].as_str());
            let list = carriers_of(&self.runs, &key);
            index.push((string_of(key.as_slice()), list));
            k += 1;
        }
        assert(index_keys(index@) =~= views(names@));
        index
    }

    /// The family of `line` as the index recorded it; a number it did not
    /// see is its own family.
    pub fn family_of(&self, line: &str) -> (f: String)
        ensures
            f@ == family_in(self.families@, line@),
    {
        let l = chars_of(line);
        let mut i: usize = 0;
        assert(self.families@.skip(0) =~= self.families@);
        while i < self.families.len()
            invariant
                i <= self.families@.len(),
                l@ == line@,
                family_in(self.families@, line@) == family_in(self.families@.skip(i as int), line@),
            decreases self.families@.len() - i,
        {
            let ghost rest = self.families@.skip(i as int);
            assert(rest[0] == self.families@[i as int]);
            if text_eq(&self.families[i].0, &l) {
                return self.families[i].1.clone();
            }
            assert(rest.drop_first() =~= self.families@.skip(i + 1));
            i += 1;
        }
        string_of(l.as_slice())
    }

    /// (Re)build the families for every number the runs carry or letter,
    /// each by the rules' coding pattern.
    pub fn index_families(&mut self, rules: &PipeRules)
        ensures
            final(self).runs == old(self).runs,
            final(self).segments == old(self).segments,
            final(self).ports == old(self).ports,
            final(self).connected_ports == old(self).connected_ports,
            final(self).open_ends == old(self).open_ends,
            sorted_unique(index_keys(final(self).families@)),
            index_keys(final(self).families@).to_set() == all_numbers(old(self).runs@),
            forall|k: int|
                0 <= k < final(self).families@.len() ==> (#[trigger] final(self).families@[k]).1@
                    == family_of_value(
                    views(rules.number_pattern@),
                    rules.family@,
                    final(self).families@[k].0@,
                ),
    {
        let mut names: Vec<String> = Vec::new();
        let mut j: usize = 0;
        assert(views(names@).to_set() =~= Set::<Seq<char>>::empty());
        while j < self.runs.len()
            invariant
                j <= self.runs@.len(),
                sorted_unique(views(names@)),
                views(names@).to_set() == Set::new(
                    |l: Seq<char>|
                        exists|q: int| 0 <= q < j && #[trigger] run_numbers(self.runs@[q]).contains(l),
                ),
            decreases self.runs@.len() - j,
        {
            let ghost before = views(names@).to_set();
            let ghost ls = views(self.runs@[j as int].lines@);
            let ghost ns = views(self.runs@[j as int].numbers@);
            let mut m: usize = 0;
            assert(before.union(ls.take(0).to_set()) =~= before);
            while m < self.runs[j].lines.len()
                invariant
                    j < self.runs@.len(),
                    m <= self.runs@[j as int].lines@.len(),
                    ls == views(self.runs@[j as int].lines@),
                    sorted_unique(views(names@)),
                    views(names@).to_set() == before.union(ls.take(m as int).to_set()),
                decreases self.runs@[j as int].lines@.len() - m,
            {
                insert_name(&mut names, self.runs[j].lines[m].as_str());
                proof {
                    crate::sorted::lemma_take_push_to_set(ls, m as int);
                    assert(views(names@).to_set() =~= before.union(ls.take(m + 1).to_set()));
                }
                m += 1;
            }
            assert(ls.take(ls.len() as int) =~= ls);
            let ghost mid = views(names@).to_set();
            let mut m: usize = 0;
            assert(mid.union(ns.take(0).to_set()) =~= mid);
            while m < self.runs[j].numbers.len()
                invariant
                    j < self.runs@.len(),
                    m <= self.runs@[j as int].numbers@.len(),
                    ns == views(self.runs@[j as int].numbers@),
                    sorted_unique(views(names@)),
                    views(names@).to_set() == mid.union(ns.take(m as int).to_set()),
                decreases self.runs@[j as int].numbers@.len() - m,
            {
                insert_name(&mut names, self.runs[j].numbers[m].as_str());
                proof {
                    crate::sorted::lemma_take_push_to_set(ns, m as int);
                    assert(views(names@).to_set() =~= mid.union(ns.take(m + 1).to_set()));
                }
                m += 1;
            }
            proof {
                assert(ns.take(ns.len() as int) =~= ns);
                assert(views(names@).to_set() =~= before.union(run_numbers(self.runs@[j as int])));
                let next = Set::new(
                    |l: Seq<char>|
                        exists|q: int| 0 <= q < j + 1 && #[trigger] run_numbers(self.runs@[q]).contains(l),
                );
                assert forall|l: Seq<char>| #[trigger] views(names@).to_set().contains(l)
                    <==> next.contains(l) by {
                    if views(names@).to_set().contains(l) && !before.contains(l) {
                        assert(run_numbers(self.runs@[j as int]).contains(l));
                    }
                    if before.contains(l) {
                        let q = choose|q: int| 0 <= q < j && #[trigger] run_numbers(self.runs@[q]).contains(l);
                        assert(run_numbers(self.runs@[q]).contains(l));
                    }
                    if next.contains(l) {
                        let q = choose|q: int|
                            0 <= q < j + 1 && #[trigger] run_numbers(self.runs@[q]).contains(l);
                        if q < j {
                            assert(before.contains(l));
                        }
                    }
                }
                assert(views(names@).to_set() =~= next);
            }
            j += 1;
        }
        assert(views(names@).to_set() =~= all_numbers(self.runs@));
        let mut families: Vec<(String, String)> = Vec::new();
        let mut k: usize = 0;
        while k < names.len()
            invariant
                k <= names@.len(),
                families@.len() == k,
                forall|a: int| 0 <= a < k ==> (#[trigger] families@[a]).0@ == names@[a]@,
                forall|a: int|
                    0 <= a < k ==> (#[trigger] families@[a]).1@ == family_of_value(
                        views(rules.number_pattern@),
                        rules.family@,
                        families@[a].0@,
                    ),
            decreases names@.len() - k,
        {
            let f = rules.line_family(names[k].as_str());
            families.push((string_of(chars_of(names[k].as_str()).as_slice()), f));
            k += 1;
        }
        assert(index_keys(families@) =~= views(names@));
        self.families = families;
    }

    /// The lines of `lines` (the runs indexed by line number) whose family
    /// is `family`, in order.
    fn family_members(&self, lines: &Vec<(String, Vec<usize>)>, family: &Vec<char>) -> (members: Vec<
        (String, Vec<usize>),
    >)
        requires
            line_index(lines@, self.runs@),
            index_keys(lines@).to_set() == carried_lines(self.runs@),
        ensures
            line_index(members@, self.runs@),
            index_keys(members@).to_set() == family_lines(self.runs@, self.families@, family@),
    {
        let ghost ks = index_keys(lines@);
        let mut members: Vec<(String, Vec<usize>)> = Vec::new();
        let ghost mut last: int = -1;
        let mut i: usize = 0;
        assert(index_keys(members@).to_set() =~= Set::new(
            |l: Seq<char>| ks.take(0).contains(l) && family_in(self.families@, l) == family@,
        ));
        while i < lines.len()
            invariant
                i <= lines@.len(),
                ks == index_keys(lines@),
                line_index(lines@, self.runs@),
                line_index(members@, self.runs@),
                index_keys(members@).to_set() == Set::new(
                    |l: Seq<char>| ks.take(i as int).contains(l) && family_in(self.families@, l) == family@,
                ),
                members@.len() > 0 ==> 0 <= last < i && members@.last().0@ == ks[last],
            decreases lines@.len() - i,
        {
            let f = self.family_of(lines[i].0.as_str());
            let ghost before = members@;
            if same(chars_of(f.as_str()).as_slice(), family.as_slice()) {
                let key = string_of(chars_of(lines[i].0.as_str()).as_slice());
                let list = copy_indices(&lines[i].1);
                members.push((key, list));
                proof {
                    assert(ks[i as int] == lines@[i as int].0@);
                    if before.len() > 0 {
                        assert(lex_lt(ks[last], ks[i as int]));
                    }
                    assert forall|a: int, b: int|
                        0 <= a < b < members@.len() implies lex_lt(
                        #[trigger] index_keys(members@)[a],
                        #[trigger] index_keys(members@)[b],
                    ) by {
                        if b == members@.len() - 1 && a < b {
                            if a < before.len() - 1 {
                                assert(lex_lt(index_keys(before)[a], index_keys(before)[before.len() - 1]));
                                crate::sorted::lemma_lex_transitive(
                                    index_keys(before)[a],
                                    ks[last],
                                    ks[i as int],
                                );
                            }
                        } else {
                            assert(index_keys(members@)[a] == index_keys(before)[a]);
                            assert(index_keys(members@)[b] == index_keys(before)[b]);
                        }
                    }
                    assert forall|a: int| 0 <= a < members@.len() implies (
                    #[trigger] members@[a]).1@ == carriers(self.runs@, members@[a].0@) by {
                        if a < before.len() {
                            assert(members@[a] == before[a]);
                        }
                    }
                    last = i as int;
                }
            }
            proof {
                crate::sorted::lemma_take_push_to_set(ks, i as int);
                let next = Set::new(
                    |l: Seq<char>| ks.take(i + 1).contains(l) && family_in(self.families@, l) == family@,
                );
                if family_in(self.families@, ks[i as int]) == family@ {
                    crate::sorted::lemma_push_to_set(index_keys(before), ks[i as int]);
                    assert(index_keys(members@) =~= index_keys(before).push(ks[i as int]));
                } else {
                    assert(index_keys(members@) =~= index_keys(before));
                }
                assert forall|l: Seq<char>| #[trigger] index_keys(members@).to_set().contains(l)
                    <==> next.contains(l) by {
                    assert(ks.take(i + 1).to_set().contains(l) == ks.take(i + 1).contains(l));
                    assert(ks.take(i as int).to_set().contains(l) == ks.take(i as int).contains(l));
                }
                assert(index_keys(members@).to_set() =~= next);
            }
            i += 1;
        }
        assert(ks.take(ks.len() as int) =~= ks);
        assert forall|l: Seq<char>| #[trigger] index_keys(members@).to_set().contains(l)
            <==> family_lines(self.runs@, self.families@, family@).contains(l) by {
            assert(ks.to_set().contains(l) == ks.contains(l));
        }
        assert(index_keys(members@).to_set() =~= family_lines(self.runs@, self.families@, family@));
        members
    }

    /// The lines grouped into families by the coding rule: family -> line
    /// number -> that line's runs, each level sorted. Sizes of one line
    /// past a reducer or a spec break are one family; a run lettered with
    /// two families is under both.
    pub fn by_family(&self) -> (out: Vec<(String, Vec<(String, Vec<usize>)>)>)
        ensures
            sorted_unique(index_keys(out@)),
            index_keys(out@).to_set() == family_keys(self.runs@, self.families@),
            forall|k: int|
                0 <= k < out@.len() ==> line_index(#[trigger] out@[k].1@, self.runs@) && index_keys(
                    out@[k].1@,
                ).to_set() == family_lines(self.runs@, self.families@, out@[k].0@),
    {
        let lines = self.by_line();
        let ghost ks = index_keys(lines@);
        let mut keys: Vec<String> = Vec::new();
        let mut i: usize = 0;
        assert(views(keys@).to_set() =~= Set::<Seq<char>>::empty());
        while i < lines.len()
            invariant
                i <= lines@.len(),
                ks == index_keys(lines@),
                sorted_unique(views(keys@)),
                views(keys@).to_set() == Set::new(
                    |f: Seq<char>|
                        exists|l: Seq<char>| #[trigger] ks.take(i as int).contains(l) && family_in(self.families@, l) == f,
                ),
            decreases lines@.len() - i,
        {
            let f = self.family_of(lines[i].0.as_str());
            let ghost before = views(keys@).to_set();
            insert_name(&mut keys, f.as_str());
            proof {
                assert(ks[i as int] == lines@[i as int].0@);
                let next = Set::new(
                    |f: Seq<char>|
                        exists|l: Seq<char>| #[trigger] ks.take(i + 1).contains(l) && family_in(self.families@, l) == f,
                );
                assert forall|x: Seq<char>| #[trigger] views(keys@).to_set().contains(x)
                    <==> next.contains(x) by {
                    if next.contains(x) {
                        let y = choose|y: Seq<char>| #[trigger] ks.take(i + 1).contains(y) && family_in(self.families@, y) == x;
                        let q = choose|q: int| 0 <= q < i + 1 && #[trigger] ks.take(i + 1)[q] == y;
                        if q < i {
                            assert(ks.take(i as int)[q] == y);
                            assert(ks.take(i as int).contains(y));
                            assert(before.contains(x));
                        }
                    }
                    if before.contains(x) {
                        let y = choose|y: Seq<char>| #[trigger] ks.take(i as int).contains(y) && family_in(self.families@, y) == x;
                        let q = choose|q: int| 0 <= q < i && #[trigger] ks.take(i as int)[q] == y;
                        assert(ks.take(i + 1)[q] == y);
                        assert(ks.take(i + 1).contains(y));
                    }
                    if x == f@ {
                        assert(ks.take(i + 1)[i as int] == ks[i as int]);
                        assert(ks.take(i + 1).contains(ks[i as int]));
                    }
                }
                assert(views(keys@).to_set() =~= next);
            }
            i += 1;
        }
        proof {
            assert(ks.take(ks.len() as int) =~= ks);
            assert forall|x: Seq<char>| #[trigger] views(keys@).to_set().contains(x) <==> family_keys(
                self.runs@,
                self.families@,
            ).contains(x) by {
                if views(keys@).to_set().contains(x) {
                    let y = choose|y: Seq<char>| #[trigger] ks.take(ks.len() as int).contains(y) && family_in(self.families@, y) == x;
                    assert(ks.to_set().contains(y));
                    assert(carried_lines(self.runs@).contains(y));
                }
                if family_keys(self.runs@, self.families@).contains(x) {
                    let y = choose|y: Seq<char>| #[trigger] carried_lines(self.runs@).contains(y) && family_in(self.families@, y) == x;
                    assert(ks.to_set().contains(y));
                    assert(ks.take(ks.len() as int).contains(y));
                }
            }
            assert(views(keys@).to_set() =~= family_keys(self.runs@, self.families@));
        }
        let mut out: Vec<(String, Vec<(String, Vec<usize>)>)> = Vec::new();
        let mut k: usize = 0;
        while k < keys.len()
            invariant
                k <= keys@.len(),
                line_index(lines@, self.runs@),
                index_keys(lines@).to_set() == carried_lines(self.runs@),
                out@.len() == k,
                forall|a: int| 0 <= a < k ==> (#[trigger] out@[a]).0@ == keys@[a]@,
                forall|a: int|
                    0 <= a < k ==> line_index(#[trigger] out@[a].1@, self.runs@) && index_keys(
                        out@[a].1@,
                    ).to_set() == family_lines(self.runs@, self.families@, out@[a].0@),
            decreases keys@.len() - k,
        {
            let fk = chars_of(keys[k].as_str());
            let members = self.family_members(&lines, &fk);
            out.push((string_of(fk.as_slice()), members));
            k += 1;
        }
        assert(index_keys(out@) =~= views(keys@));
        out
    }

    /// The line numbers of the runs at symbol `symbol`'s connection points,
    /// sorted, each once.
    pub fn lines_at(&self, symbol: usize) -> (names: Vec<String>)
        ensures
            sorted_unique(views(names@)),
            views(names@).to_set() == lines_reaching(self.runs@, symbol),
    {
        let mut names: Vec<String> = Vec::new();
        let mut j: usize = 0;
        assert(views(names@).to_set() =~= Set::<Seq<char>>::empty());
        while j < self.runs.len()
            invariant
                j <= self.runs@.len(),
                sorted_unique(views(names@)),
                views(names@).to_set() == Set::new(
                    |l: Seq<char>|
                        exists|q: int|
                            0 <= q < j && #[trigger] views(self.runs@[q].lines@).contains(l) && ends_at(
                                self.runs@[q],
                                symbol,
                            ),
                ),
            decreases self.runs@.len() - j,
        {
            let ghost before = views(names@).to_set();
            let ghost ls = views(self.runs@[j as int].lines@);
            let run = &self.runs[j];
            let here = match run.ends[0] {
                End::Symbol(i) => i == symbol,
                _ => false,
            } || match run.ends[1] {
                End::Symbol(i) => i == symbol,
                _ => false,
            };
            assert(here == ends_at(self.runs@[j as int], symbol));
            if here {
                let mut m: usize = 0;
                assert(before.union(ls.take(0).to_set()) =~= before);
                while m < run.lines.len()
                    invariant
                        m <= run.lines@.len(),
                        ls == views(run.lines@),
                        sorted_unique(views(names@)),
                        views(names@).to_set() == before.union(ls.take(m as int).to_set()),
                    decreases run.lines@.len() - m,
                {
                    insert_name(&mut names, run.lines[m].as_str());
                    proof {
                        crate::sorted::lemma_take_push_to_set(ls, m as int);
                        assert(views(names@).to_set() =~= before.union(ls.take(m + 1).to_set()));
                    }
                    m += 1;
                }
                assert(ls.take(ls.len() as int) =~= ls);
            }
            proof {
                let next = Set::new(
                    |l: Seq<char>|
                        exists|q: int|
                            0 <= q < j + 1 && #[trigger] views(self.runs@[q].lines@).contains(l)
                                && ends_at(self.runs@[q], symbol),
                );
                assert forall|l: Seq<char>| #[trigger] views(names@).to_set().contains(l) <==> next.contains(
                    l,
                ) by {
                    if views(names@).to_set().contains(l) && !before.contains(l) {
                        assert(views(self.runs@[j as int].lines@).contains(l));
                    }
                    if before.contains(l) {
                        let q = choose|q: int|
                            0 <= q < j && #[trigger] views(self.runs@[q].lines@).contains(l) && ends_at(
                                self.runs@[q],
                                symbol,
                            );
                        assert(0 <= q < j + 1);
                    }
                    if next.contains(l) {
                        let q = choose|q: int|
                            0 <= q < j + 1 && #[trigger] views(self.runs@[q].lines@).contains(l)
                                && ends_at(self.runs@[q], symbol);
                        if q < j {
                            assert(before.contains(l));
                        }
                    }
                }
                assert(views(names@).to_set() =~= next);
            }
            j += 1;
        }
        assert(views(names@).to_set() =~= lines_reaching(self.runs@, symbol));
        names
    }

    /// The symbols at the ends of the runs carrying `line`, each once, in
    /// increasing order.
    pub fn symbols_on(&self, line: &str) -> (out: Vec<usize>)
        ensures
            rising(out@),
            out@.to_set() == symbols_reached(self.runs@, line@),
    {
        let l = chars_of(line);
        let mut out: Vec<usize> = Vec::new();
        let mut j: usize = 0;
        assert(out@.to_set() =~= Set::<usize>::empty());
        while j < self.runs.len()
            invariant
                j <= self.runs@.len(),
                l@ == line@,
                rising(out@),
                out@.to_set() == Set::new(
                    |i: usize|
                        exists|q: int|
                            0 <= q < j && #[trigger] views(self.runs@[q].lines@).contains(line@) && (
                            self.runs@[q].ends[0] == End::Symbol(i) || self.runs@[q].ends[1]
                                == End::Symbol(i)),
                ),
            decreases self.runs@.len() - j,
        {
            let ghost before = out@.to_set();
            let run = &self.runs[j];
            let mut carries = false;
            let mut m: usize = 0;
            while m < run.lines.len()
                invariant
                    m <= run.lines@.len(),
                    l@ == line@,
                    carries <==> exists|q: int| 0 <= q < m && #[trigger] views(run.lines@)[q] == line@,
                decreases run.lines@.len() - m,
            {
                if text_eq(&run.lines[m], &l) {
                    assert(views(run.lines@)[m as int] == line@);
                    carries = true;
                }
                m += 1;
            }
            if carries {
                match run.ends[0] {
                    End::Symbol(i) => insert_index(&mut out, i),
                    _ => {},
                }
                match run.ends[1] {
                    End::Symbol(i) => insert_index(&mut out, i),
                    _ => {},
                }
            }
            proof {
                let next = Set::new(
                    |i: usize|
                        exists|q: int|
                            0 <= q < j + 1 && #[trigger] views(self.runs@[q].lines@).contains(line@)
                                && (self.runs@[q].ends[0] == End::Symbol(i) || self.runs@[q].ends[1]
                                == End::Symbol(i)),
                );
                assert forall|i: usize| #[trigger] out@.to_set().contains(i) <==> next.contains(i) by {
                    if out@.to_set().contains(i) && !before.contains(i) {
                        assert(views(self.runs@[j as int].lines@).contains(line@));
                    }
                    if before.contains(i) {
                        let q = choose|q: int|
                            0 <= q < j && #[trigger] views(self.runs@[q].lines@).contains(line@) && (
                            self.runs@[q].ends[0] == End::Symbol(i) || self.runs@[q].ends[1]
                                == End::Symbol(i));
                        assert(0 <= q < j + 1);
                    }
                    if next.contains(i) {
                        let q = choose|q: int|
                            0 <= q < j + 1 && #[trigger] views(self.runs@[q].lines@).contains(line@)
                                && (self.runs@[q].ends[0] == End::Symbol(i) || self.runs@[q].ends[1]
                                == End::Symbol(i));
                        if q < j {
                            assert(before.contains(i));
                        }
                    }
                }
                assert(out@.to_set() =~= next);
            }
            j += 1;
        }
        out
    }
}

} // verus!
