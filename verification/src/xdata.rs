//! What recognition publishes on each entity: the `PID_SEMANTICS` string
//! values a symbol's or a pipe run's entities carry. Records whose
//! `resolved` value starts with `legend:` are recognition's own; authored
//! records are left alone.

use vstd::prelude::*;

use crate::sorted::{holds, insert_name, sorted_unique};
use crate::text::{append, chars_of, has_prefix, join, opt_chars, slice_of, starts_with, string_of, views};

verus! {

/// What recognition knows of a symbol that its record is written from.
#[derive(Debug, Clone, PartialEq, Eq)]
pub struct SymbolFacts {
    /// The human-readable type, shown as the record's class.
    pub label: String,
    pub tag: Option<String>,
    /// The line numbers at its connection points.
    pub lines: Vec<String>,
    /// The marked group the symbol came from, by name.
    pub group: Option<String>,
    /// The block name, `circle r=..`, `shape <id>` or `group <name>`.
    pub source: String,
    /// The entities it is drawn with.
    pub handles: Vec<u64>,
}

/// How a symbol was resolved, as its record says: from a marked group, an
/// exploded shape, a loose circle, or a block.
pub open spec fn resolved_text(group: Option<Seq<char>>, source: Seq<char>) -> Seq<char> {
    match group {
        Some(name) => "legend:group:"@ + name,
        None => if starts_with(source, "shape "@) {
            "legend:shape:"@ + source.skip(6)
        } else if starts_with(source, "circle "@) {
            "legend:circle"@
        } else {
            "legend:block"@
        },
    }
}

/// The `resolved` value of a symbol's record.
pub fn resolved_by(group: &Option<String>, source: &str) -> (r: String)
    ensures
        r@ == resolved_text(opt_chars(*group), source@),
{
    match group {
        Some(name) => {
            let mut out = chars_of("legend:group:");
            append(&mut out, chars_of(name.as_str()).as_slice());
            string_of(out.as_slice())
        },
        None => {
            let s = chars_of(source);
            let shape = chars_of("shape ");
            let circle = chars_of("circle ");
            proof {
                reveal_strlit("shape ");
            }
            if has_prefix(s.as_slice(), shape.as_slice()) {
                let mut out = chars_of("legend:shape:");
                append(&mut out, slice_of(s.as_slice(), 6, s.len()).as_slice());
                string_of(out.as_slice())
            } else if has_prefix(s.as_slice(), circle.as_slice()) {
                string_of(chars_of("legend:circle").as_slice())
            } else {
                string_of(chars_of("legend:block").as_slice())
            }
        },
    }
}

/// The record an entity should carry.
#[derive(Debug, Clone, PartialEq, Eq)]
pub struct DesiredRecord {
    pub class: String,
    /// Sorted, without repeats.
    pub labels: Vec<String>,
    /// Sorted, without repeats.
    pub lines: Vec<String>,
    pub resolved: Option<String>,
    pub pipe: bool,
}

/// A `key=value` entry, or none for an empty value.
pub open spec fn pair_entry(key: Seq<char>, value: Seq<char>) -> Seq<Seq<char>> {
    if value.len() == 0 {
        Seq::<Seq<char>>::empty()
    } else {
        seq![key + "="@ + value]
    }
}

/// One `label=` entry per label.
pub open spec fn label_entries(labels: Seq<Seq<char>>) -> Seq<Seq<char>>
    decreases labels.len(),
{
    if labels.len() == 0 {
        Seq::<Seq<char>>::empty()
    } else {
        label_entries(labels.drop_last()) + pair_entry("label"@, labels.last())
    }
}

/// The string values of a record, in order: its class, each label, its
/// lines joined by commas, and how it was resolved.
pub open spec fn record_entries(
    class: Seq<char>,
    labels: Seq<Seq<char>>,
    lines: Seq<Seq<char>>,
    resolved: Option<Seq<char>>,
) -> Seq<Seq<char>> {
    pair_entry("class"@, class) + label_entries(labels) + (if lines.len() > 0 {
        pair_entry("lines"@, join(lines, ","@))
    } else {
        Seq::<Seq<char>>::empty()
    }) + match resolved {
        Some(r) => pair_entry("resolved"@, r),
        None => Seq::<Seq<char>>::empty(),
    }
}

fn push_pair(entries: &mut Vec<String>, key: &str, value: &str)
    ensures
        views(final(entries)@) == views(old(entries)@) + pair_entry(key@, value@),
{
    let ghost before = views(entries@);
    let v = chars_of(value);
    if v.len() > 0 {
        let mut e = chars_of(key);
        e.push('=');
        append(&mut e, v.as_slice());
        proof {
            reveal_strlit("=");
        }
        assert(e@ =~= key@ + "="@ + value@);
        let s = string_of(e.as_slice());
        entries.push(s);
        assert(pair_entry(key@, value@) =~= seq![s@]);
        assert(views(entries@) =~= before + pair_entry(key@, value@));
    } else {
        assert(views(entries@) =~= before + pair_entry(key@, value@));
    }
}

/// The labels a symbol's tag gives its record: the tag, unless it is
/// missing or empty.
pub open spec fn tag_labels(tag: Option<String>) -> Set<Seq<char>> {
    match tag {
        Some(t) => if t@.len() > 0 {
            set![t@]
        } else {
            Set::<Seq<char>>::empty()
        },
        None => Set::<Seq<char>>::empty(),
    }
}

/// `r` is the record of `symbol`: its label as the class, its tag as the
/// only label, its lines, sorted and without repeats, and how it was
/// resolved.
pub open spec fn symbol_record(r: DesiredRecord, symbol: SymbolFacts) -> bool {
    &&& r.class@ == symbol.label@
    &&& sorted_unique(views(r.labels@))
    &&& views(r.labels@).to_set() == tag_labels(symbol.tag)
    &&& sorted_unique(views(r.lines@))
    &&& views(r.lines@).to_set() == views(symbol.lines@).to_set()
    &&& (r.resolved matches Some(x) && x@ == resolved_text(opt_chars(symbol.group), symbol.source@))
    &&& !r.pipe
}

impl DesiredRecord {
    /// The record of a symbol: its label as the class, its tag when it has
    /// one, its lines, and how it was resolved.
    pub fn for_symbol(symbol: &SymbolFacts) -> (r: DesiredRecord)
        ensures
            symbol_record(r, *symbol),
    {
        let mut labels: Vec<String> = Vec::new();
        assert(views(labels@).to_set() =~= Set::<Seq<char>>::empty());
        match &symbol.tag {
            Some(t) => {
                if chars_of(t.as_str()).len() > 0 {
                    insert_name(&mut labels, t.as_str());
                    assert(views(labels@).to_set() =~= set![t@]);
                }
            },
            None => {},
        }
        let mut lines: Vec<String> = Vec::new();
        let mut i: usize = 0;
        assert(views(lines@).to_set() =~= views(symbol.lines@).take(0).to_set());
        while i < symbol.lines.len()
            invariant
                i <= symbol.lines@.len(),
                sorted_unique(views(lines@)),
                views(lines@).to_set() == views(symbol.lines@).take(i as int).to_set(),
            decreases symbol.lines@.len() - i,
        {
            insert_name(&mut lines, symbol.lines[i].as_str());
            proof {
                crate::sorted::lemma_take_push_to_set(views(symbol.lines@), i as int);
            }
            i += 1;
        }
        assert(views(symbol.lines@).take(symbol.lines@.len() as int) =~= views(symbol.lines@));
        DesiredRecord {
            class: symbol.label.clone(),
            labels,
            lines,
            resolved: Some(resolved_by(&symbol.group, symbol.source.as_str())),
            pipe: false,
        }
    }

    /// The record of a pipe run's entity, before its line numbers are
    /// added as labels.
    pub fn for_pipe() -> (r: DesiredRecord)
        ensures
            r.class@ == "PIDPipeline"@,
            r.labels@.len() == 0,
            r.lines@.len() == 0,
            r.resolved matches Some(x) && x@ == "legend:pipe"@,
            r.pipe,
    {
        DesiredRecord {
            class: string_of(chars_of("PIDPipeline").as_slice()),
            labels: Vec::new(),
            lines: Vec::new(),
            resolved: Some(string_of(chars_of("legend:pipe").as_slice())),
            pipe: true,
        }
    }

    /// The record's string values, in order.
    pub fn into_xdata(self) -> (entries: Vec<String>)
        ensures
            views(entries@) == record_entries(
                self.class@,
                views(self.labels@),
                views(self.lines@),
                opt_chars(self.resolved),
            ),
    {
        let mut entries: Vec<String> = Vec::new();
        assert(views(entries@) =~= Seq::<Seq<char>>::empty());
        push_pair(&mut entries, "class", self.class.as_str());
        proof {
            reveal_strlit("class");
            reveal_strlit("label");
            reveal_strlit("lines");
            reveal_strlit("resolved");
        }
        let ghost start = views(entries@);
        let ghost ls = views(self.labels@);
        let mut i: usize = 0;
        while i < self.labels.len()
            invariant
                i <= self.labels@.len(),
                ls == views(self.labels@),
                views(entries@) == start + label_entries(ls.take(i as int)),
            decreases self.labels@.len() - i,
        {
            let ghost before = views(entries@);
            push_pair(&mut entries, "label", self.labels[i].as_str());
            assert(ls.take(i + 1).drop_last() =~= ls.take(i as int));
            assert(views(entries@) =~= start + label_entries(ls.take(i + 1)));
            i += 1;
        }
        assert(ls.take(self.labels@.len() as int) =~= ls);
        let ghost mid = views(entries@);
        if self.lines.len() > 0 {
            let pieces = crate::text::chars_of_all(self.lines.as_slice());
            assert(pieces@.map_values(|p: Vec<char>| p@) =~= views(self.lines@));
            let mut comma: Vec<char> = Vec::new();
            comma.push(',');
            proof {
                reveal_strlit(",");
            }
            assert(comma@ =~= ","@);
            let j = crate::text::joined(&pieces, comma.as_slice());
            push_pair(&mut entries, "lines", string_of(j.as_slice()).as_str());
        } else {
            assert(views(entries@) =~= mid + Seq::<Seq<char>>::empty());
        }
        let ghost mid2 = views(entries@);
        match &self.resolved {
            Some(r) => push_pair(&mut entries, "resolved", r.as_str()),
            None => {
                assert(views(entries@) =~= mid2 + Seq::<Seq<char>>::empty());
            },
        }
        assert(views(entries@) =~= record_entries(
            self.class@,
            views(self.labels@),
            views(self.lines@),
            opt_chars(self.resolved),
        ));
        entries
    }
}

/// What recognition knows of a pipe run: the entities it is drawn with and
/// the line numbers it carries.
#[derive(Debug, Clone, PartialEq, Eq)]
pub struct RunFacts {
    pub handles: Vec<u64>,
    pub lines: Vec<String>,
}

/// Some symbol is drawn with the entity `h`.
pub open spec fn symbol_owned(symbols: Seq<SymbolFacts>, h: u64) -> bool {
    exists|i: int| 0 <= i < symbols.len() && #[trigger] symbols[i].handles@.contains(h)
}

/// Some pipe run is drawn with the entity `h`.
pub open spec fn run_owned(runs: Seq<RunFacts>, h: u64) -> bool {
    exists|j: int| 0 <= j < runs.len() && #[trigger] runs[j].handles@.contains(h)
}

/// Symbol `i` is the first that is drawn with `h`: it owns `h`'s record.
pub open spec fn first_owner(symbols: Seq<SymbolFacts>, i: int, h: u64) -> bool {
    &&& 0 <= i < symbols.len()
    &&& symbols[i].handles@.contains(h)
    &&& forall|j: int| 0 <= j < i ==> !(#[trigger] symbols[j].handles@.contains(h))
}

/// The entities recognition writes a record on.
pub open spec fn all_handles(symbols: Seq<SymbolFacts>, runs: Seq<RunFacts>) -> Set<u64> {
    Set::new(|h: u64| symbol_owned(symbols, h) || run_owned(runs, h))
}

/// The line numbers of the first `upto` runs that are drawn with `h`.
pub open spec fn run_lines_upto(runs: Seq<RunFacts>, h: u64, upto: int) -> Set<Seq<char>> {
    Set::new(
        |l: Seq<char>|
            exists|j: int|
                0 <= j < upto && #[trigger] runs[j].handles@.contains(h) && views(
                    runs[j].lines@,
                ).contains(l),
    )
}

/// The line numbers of every run that is drawn with `h`.
pub open spec fn run_lines(runs: Seq<RunFacts>, h: u64) -> Set<Seq<char>> {
    run_lines_upto(runs, h, runs.len() as int)
}

/// `r` is the record of a pipe entity `h`: a pipeline whose labels are the
/// line numbers of every run drawn with `h`.
pub open spec fn pipe_record(r: DesiredRecord, runs: Seq<RunFacts>, h: u64) -> bool {
    &&& r.class@ == "PIDPipeline"@
    &&& sorted_unique(views(r.labels@))
    &&& views(r.labels@).to_set() == run_lines(runs, h)
    &&& r.lines@.len() == 0
    &&& (r.resolved matches Some(x) && x@ == "legend:pipe"@)
    &&& r.pipe
}

/// `r` is the record recognition wants on `h`: the first symbol drawn with
/// it wins; an entity of pipe runs alone is a pipeline.
pub open spec fn wanted_record(
    r: DesiredRecord,
    symbols: Seq<SymbolFacts>,
    runs: Seq<RunFacts>,
    h: u64,
) -> bool {
    &&& forall|i: int| #[trigger] first_owner(symbols, i, h) ==> symbol_record(r, symbols[i])
    &&& !symbol_owned(symbols, h) ==> pipe_record(r, runs, h)
}

/// Strictly increasing.
pub open spec fn increasing(s: Seq<u64>) -> bool {
    forall|a: int, b: int| 0 <= a < b < s.len() ==> #[trigger] s[a] < #[trigger] s[b]
}

fn holds_handle(v: &[u64], h: u64) -> (r: bool)
    ensures
        r == v@.contains(h),
{
    let mut i: usize = 0;
    while i < v.len()
        invariant
            i <= v@.len(),
            forall|k: int| 0 <= k < i ==> v@[k] != h,
        decreases v@.len() - i,
    {
        if v[i] == h {
            return true;
        }
        i += 1;
    }
    false
}

/// Add `h` to the increasing set of handles `keys`.
fn insert_handle(keys: &mut Vec<u64>, h: u64)
    requires
        increasing(old(keys)@),
    ensures
        increasing(final(keys)@),
        final(keys)@.to_set() == old(keys)@.to_set().insert(h),
{
    let mut p: usize = 0;
    while p < keys.len() && keys[p] < h
        invariant
            p <= keys@.len(),
            increasing(keys@),
            forall|k: int| 0 <= k < p ==> keys@[k] < h,
        decreases keys@.len() - p,
    {
        p += 1;
    }
    if p < keys.len() && keys[p] == h {
        assert(keys@.to_set().insert(h) =~= keys@.to_set()) by {
            assert(keys@.contains(h));
        }
        return;
    }
    let ghost before = keys@;
    keys.insert(p, h);
    proof {
        before.insert_ensures(p as int, h);
        assert(forall|k: int| p <= k < before.len() ==> h < before[k]);
        assert forall|a: int, b: int| 0 <= a < b < keys@.len() implies #[trigger] keys@[a]
            < #[trigger] keys@[b] by {
            if b < p {
            } else if b == p {
            } else if a < p {
                assert(keys@[b] == before[b - 1]);
            } else if a == p {
                assert(keys@[b] == before[b - 1]);
            } else {
                assert(keys@[a] == before[a - 1]);
                assert(keys@[b] == before[b - 1]);
            }
        }
        assert forall|x: u64| #[trigger] keys@.to_set().contains(x) <==> before.to_set().insert(
            h,
        ).contains(x) by {
            if keys@.contains(x) {
                let q = choose|q: int| 0 <= q < keys@.len() && #[trigger] keys@[q] == x;
                if q < p {
                    assert(before[q] == x);
                } else if q > p {
                    assert(before[q - 1] == x);
                }
            }
            if before.contains(x) {
                let q = choose|q: int| 0 <= q < before.len() && #[trigger] before[q] == x;
                if q < p {
                    assert(keys@[q] == x);
                } else {
                    assert(keys@[q + 1] == x);
                }
            }
            if x == h {
                assert(keys@[p as int] == x);
            }
        }
        assert(keys@.to_set() =~= before.to_set().insert(h));
    }
}

/// Add every handle of `hs` to the increasing set `keys`.
fn insert_handles(keys: &mut Vec<u64>, hs: &[u64])
    requires
        increasing(old(keys)@),
    ensures
        increasing(final(keys)@),
        final(keys)@.to_set() == old(keys)@.to_set().union(hs@.to_set()),
{
    let ghost start = keys@.to_set();
    let mut i: usize = 0;
    assert(start.union(hs@.take(0).to_set()) =~= start);
    while i < hs.len()
        invariant
            i <= hs@.len(),
            increasing(keys@),
            keys@.to_set() == start.union(hs@.take(i as int).to_set()),
        decreases hs@.len() - i,
    {
        insert_handle(keys, hs[i]);
        proof {
            crate::sorted::lemma_take_push_to_set(hs@, i as int);
            assert(keys@.to_set() =~= start.union(hs@.take(i + 1).to_set()));
        }
        i += 1;
    }
    assert(hs@.take(hs@.len() as int) =~= hs@);
}

/// Every entity recognition writes a record on, in increasing order.
fn handle_keys(symbols: &[SymbolFacts], runs: &[RunFacts]) -> (keys: Vec<u64>)
    ensures
        increasing(keys@),
        keys@.to_set() == all_handles(symbols@, runs@),
{
    let mut keys: Vec<u64> = Vec::new();
    let mut i: usize = 0;
    assert(keys@.to_set() =~= Set::<u64>::empty());
    while i < symbols.len()
        invariant
            i <= symbols@.len(),
            increasing(keys@),
            keys@.to_set() == Set::new(
                |h: u64| exists|q: int| 0 <= q < i && #[trigger] symbols@[q].handles@.contains(h),
            ),
        decreases symbols@.len() - i,
    {
        let ghost before = keys@.to_set();
        insert_handles(&mut keys, symbols[i].handles.as_slice());
        proof {
            assert forall|h: u64| #[trigger] keys@.to_set().contains(h) <==> (exists|q: int|
                0 <= q < i + 1 && #[trigger] symbols@[q].handles@.contains(h)) by {
                if keys@.to_set().contains(h) && !before.contains(h) {
                    assert(symbols@[i as int].handles@.contains(h));
                }
                if exists|q: int| 0 <= q < i + 1 && #[trigger] symbols@[q].handles@.contains(h) {
                    let q = choose|q: int|
                        0 <= q < i + 1 && #[trigger] symbols@[q].handles@.contains(h);
                    if q == i {
                        assert(symbols@[i as int].handles@.to_set().contains(h));
                    }
                }
            }
            assert(keys@.to_set() =~= Set::new(
                |h: u64| exists|q: int| 0 <= q < i + 1 && #[trigger] symbols@[q].handles@.contains(h),
            ));
        }
        i += 1;
    }
    let ghost from_symbols = keys@.to_set();
    let mut j: usize = 0;
    while j < runs.len()
        invariant
            j <= runs@.len(),
            increasing(keys@),
            from_symbols == Set::new(
                |h: u64|
                    exists|q: int|
                        0 <= q < symbols@.len() && #[trigger] symbols@[q].handles@.contains(h),
            ),
            keys@.to_set() == from_symbols.union(
                Set::new(
                    |h: u64| exists|q: int| 0 <= q < j && #[trigger] runs@[q].handles@.contains(h),
                ),
            ),
        decreases runs@.len() - j,
    {
        let ghost before = keys@.to_set();
        insert_handles(&mut keys, runs[j].handles.as_slice());
        proof {
            let upto = Set::new(
                |h: u64| exists|q: int| 0 <= q < j + 1 && #[trigger] runs@[q].handles@.contains(h),
            );
            assert forall|h: u64| #[trigger] keys@.to_set().contains(h) <==> from_symbols.union(
                upto,
            ).contains(h) by {
                if keys@.to_set().contains(h) && !before.contains(h) {
                    assert(runs@[j as int].handles@.contains(h));
                    assert(upto.contains(h));
                }
                if upto.contains(h) {
                    let q = choose|q: int| 0 <= q < j + 1 && #[trigger] runs@[q].handles@.contains(h);
                    if q == j {
                        assert(runs@[j as int].handles@.to_set().contains(h));
                    }
                }
            }
            assert(keys@.to_set() =~= from_symbols.union(upto));
        }
        j += 1;
    }
    assert(keys@.to_set() =~= all_handles(symbols@, runs@));
    keys
}

/// The first symbol drawn with `h`, if any.
fn owner_of(symbols: &[SymbolFacts], h: u64) -> (o: Option<usize>)
    ensures
        match o {
            Some(i) => first_owner(symbols@, i as int, h),
            None => !symbol_owned(symbols@, h),
        },
{
    let mut i: usize = 0;
    while i < symbols.len()
        invariant
            i <= symbols@.len(),
            forall|j: int| 0 <= j < i ==> !(#[trigger] symbols@[j].handles@.contains(h)),
        decreases symbols@.len() - i,
    {
        if holds_handle(symbols[i].handles.as_slice(), h) {
            return Some(i);
        }
        i += 1;
    }
    None
}

/// Each line number of the runs drawn with `h`, sorted, without repeats.
fn pipe_labels(runs: &[RunFacts], h: u64) -> (labels: Vec<String>)
    ensures
        sorted_unique(views(labels@)),
        views(labels@).to_set() == run_lines(runs@, h),
{
    let mut labels: Vec<String> = Vec::new();
    let mut j: usize = 0;
    assert(views(labels@).to_set() =~= run_lines_upto(runs@, h, 0));
    while j < runs.len()
        invariant
            j <= runs@.len(),
            sorted_unique(views(labels@)),
            views(labels@).to_set() == run_lines_upto(runs@, h, j as int),
        decreases runs@.len() - j,
    {
        let ghost before = views(labels@).to_set();
        let ghost ls = views(runs@[j as int].lines@);
        if holds_handle(runs[j].handles.as_slice(), h) {
            let mut m: usize = 0;
            assert(before.union(ls.take(0).to_set()) =~= before);
            while m < runs[j].lines.len()
                invariant
                    j < runs@.len(),
                    m <= runs@[j as int].lines@.len(),
                    ls == views(runs@[j as int].lines@),
                    sorted_unique(views(labels@)),
                    views(labels@).to_set() == before.union(ls.take(m as int).to_set()),
                decreases runs@[j as int].lines@.len() - m,
            {
                insert_name(&mut labels, runs[j].lines[m].as_str());
                proof {
                    crate::sorted::lemma_take_push_to_set(ls, m as int);
                    assert(views(labels@).to_set() =~= before.union(ls.take(m + 1).to_set()));
                }
                m += 1;
            }
            assert(ls.take(ls.len() as int) =~= ls);
        }
        proof {
            let next = run_lines_upto(runs@, h, j + 1);
            assert forall|l: Seq<char>| #[trigger] views(labels@).to_set().contains(l) <==> next.contains(
                l,
            ) by {
                if before.contains(l) {
                    let q = choose|q: int|
                        0 <= q < j && #[trigger] runs@[q].handles@.contains(h) && views(
                            runs@[q].lines@,
                        ).contains(l);
                    assert(0 <= q < j + 1 && runs@[q].handles@.contains(h) && views(
                        runs@[q].lines@,
                    ).contains(l));
                }
                if views(labels@).to_set().contains(l) && !before.contains(l) {
                    assert(runs@[j as int].handles@.contains(h) && ls.contains(l));
                }
                if next.contains(l) {
                    let q = choose|q: int|
                        0 <= q < j + 1 && #[trigger] runs@[q].handles@.contains(h) && views(
                            runs@[q].lines@,
                        ).contains(l);
                    if q < j {
                        assert(run_lines_upto(runs@, h, j as int).contains(l));
                    } else {
                        assert(runs@[j as int].handles@.contains(h));
                    }
                }
            }
            assert(views(labels@).to_set() =~= next);
        }
        j += 1;
    }
    labels
}

/// The record recognition wants on the entity `h`.
fn record_for(symbols: &[SymbolFacts], runs: &[RunFacts], h: u64) -> (r: DesiredRecord)
    ensures
        wanted_record(r, symbols@, runs@, h),
{
    match owner_of(symbols, h) {
        Some(i) => {
            let r = DesiredRecord::for_symbol(&symbols[i]);
            assert forall|k: int| #[trigger] first_owner(symbols@, k, h) implies symbol_record(
                r,
                symbols@[k],
            ) by {
                if k < i {
                    assert(!symbols@[k].handles@.contains(h));
                } else if k > i {
                    assert(!symbols@[i as int].handles@.contains(h));
                }
            }
            r
        },
        None => {
            let mut r = DesiredRecord::for_pipe();
            r.labels = pipe_labels(runs, h);
            r
        },
    }
}

/// The record recognition wants on each entity it describes, by handle in
/// increasing order. An entity drawn with several symbols keeps the first
/// symbol's record; an entity drawn with pipe runs alone gets a pipeline
/// record labelled with every line number of those runs.
pub fn desired_records(symbols: &[SymbolFacts], runs: &[RunFacts]) -> (out: Vec<(u64, DesiredRecord)>)
    ensures
        increasing(out@.map_values(|e: (u64, DesiredRecord)| e.0)),
        out@.map_values(|e: (u64, DesiredRecord)| e.0).to_set() == all_handles(symbols@, runs@),
        forall|k: int|
            0 <= k < out@.len() ==> wanted_record(#[trigger] out@[k].1, symbols@, runs@, out@[k].0),
{
    let keys = handle_keys(symbols, runs);
    let mut out: Vec<(u64, DesiredRecord)> = Vec::new();
    let mut k: usize = 0;
    while k < keys.len()
        invariant
            k <= keys@.len(),
            out@.len() == k,
            forall|a: int| 0 <= a < k ==> (#[trigger] out@[a]).0 == keys@[a],
            forall|a: int|
                0 <= a < k ==> wanted_record(#[trigger] out@[a].1, symbols@, runs@, out@[a].0),
        decreases keys@.len() - k,
    {
        let h = keys[k];
        out.push((h, record_for(symbols, runs, h)));
        k += 1;
    }
    assert(out@.map_values(|e: (u64, DesiredRecord)| e.0) =~= keys@);
    out
}

/// Whether a record's string values mark it as recognition's: some
/// `resolved=` value starts with `legend:`.
pub open spec fn legend_record(values: Seq<Seq<char>>) -> bool {
    exists|i: int|
        0 <= i < values.len() && starts_with(#[trigger] values[i], "resolved="@) && starts_with(
            values[i].skip(9),
            "legend:"@,
        )
}

/// Whether the record with these string values is recognition's own.
pub fn is_legend_record(values: &[String]) -> (b: bool)
    ensures
        b == legend_record(views(values@)),
{
    let key = chars_of("resolved=");
    let legend = chars_of("legend:");
    proof {
        reveal_strlit("resolved=");
    }
    let mut i: usize = 0;
    while i < values.len()
        invariant
            i <= values@.len(),
            key@ == "resolved="@,
            key@.len() == 9,
            legend@ == "legend:"@,
            forall|k: int|
                0 <= k < i ==> !(starts_with(#[trigger] views(values@)[k], "resolved="@) && starts_with(
                    views(values@)[k].skip(9),
                    "legend:"@,
                )),
        decreases values@.len() - i,
    {
        let v = chars_of(values[i].as_str());
        assert(views(values@)[i as int] == v@);
        if has_prefix(v.as_slice(), key.as_slice()) {
            let rest = slice_of(v.as_slice(), 9, v.len());
            assert(rest@ =~= v@.skip(9));
            if has_prefix(rest.as_slice(), legend.as_slice()) {
                return true;
            }
        }
        i += 1;
    }
    false
}

/// The `PID_SEMANTICS` record an entity carries now: its string values, and
/// whether it holds values of no other kind.
#[derive(Debug, Clone, PartialEq, Eq)]
pub struct CurrentRecord {
    pub strings: Vec<String>,
    pub only_strings: bool,
}

/// What attaching does to one entity's record.
#[derive(Debug, Clone, Copy, PartialEq, Eq)]
pub enum AttachStep {
    /// Leave it as it is: authored, or already what is wanted.
    Keep,
    /// Write the wanted record over it.
    Write,
    /// Remove the stale recognition record.
    Remove,
}

/// What attaching does to an entity whose record is `current` (its string
/// values and whether it holds nothing else) when recognition wants
/// `wanted` on it. An authored record is never touched; a recognition
/// record is rewritten when it differs from the wanted one and removed when
/// nothing is wanted.
pub open spec fn attach_step_of(
    current: Option<(Seq<Seq<char>>, bool)>,
    wanted: Option<Seq<Seq<char>>>,
) -> AttachStep {
    match current {
        Some((strings, _)) if !legend_record(strings) => AttachStep::Keep,
        _ => {
            let changed = match (current, wanted) {
                (Some((strings, only)), Some(w)) => !(only && strings == w),
                (None, None) => false,
                _ => true,
            };
            if !changed {
                AttachStep::Keep
            } else if wanted is Some {
                AttachStep::Write
            } else {
                AttachStep::Remove
            }
        },
    }
}

fn same_strings(a: &[String], b: &[String]) -> (r: bool)
    ensures
        r == (views(a@) == views(b@)),
{
    if a.len() != b.len() {
        assert(views(a@).len() != views(b@).len());
        return false;
    }
    let mut i: usize = 0;
    while i < a.len()
        invariant
            i <= a@.len(),
            a@.len() == b@.len(),
            forall|k: int| 0 <= k < i ==> a@[k]@ == b@[k]@,
        decreases a@.len() - i,
    {
        let x = chars_of(a[i].as_str());
        let y = chars_of(b[i].as_str());
        if !crate::text::same(x.as_slice(), y.as_slice()) {
            assert(views(a@)[i as int] != views(b@)[i as int]);
            return false;
        }
        i += 1;
    }
    assert(views(a@) =~= views(b@));
    true
}

/// What attaching does to an entity that carries `current` and on which
/// recognition wants the string values `wanted`.
pub fn attach_step(current: &Option<CurrentRecord>, wanted: &Option<Vec<String>>) -> (step: AttachStep)
    ensures
        step == attach_step_of(
            match current {
                Some(c) => Some((views(c.strings@), c.only_strings)),
                None => None,
            },
            match wanted {
                Some(w) => Some(views(w@)),
                None => None,
            },
        ),
{
    let changed = match (current, wanted) {
        (Some(c), Some(w)) => {
            if !is_legend_record(c.strings.as_slice()) {
                return AttachStep::Keep;
            }
            !(c.only_strings && same_strings(c.strings.as_slice(), w.as_slice()))
        },
        (Some(c), None) => {
            if !is_legend_record(c.strings.as_slice()) {
                return AttachStep::Keep;
            }
            true
        },
        (None, Some(_)) => true,
        (None, None) => false,
    };
    if !changed {
        AttachStep::Keep
    } else if wanted.is_some() {
        AttachStep::Write
    } else {
        AttachStep::Remove
    }
}

/// Non-decreasing.
pub open spec fn ascending(s: Seq<u64>) -> bool {
    forall|a: int, b: int| 0 <= a < b < s.len() ==> #[trigger] s[a] <= #[trigger] s[b]
}

/// The handles of the entities marked as carrying a recognition record, in
/// the order given.
pub open spec fn marked_handles(entities: Seq<(u64, bool)>) -> Seq<u64>
    decreases entities.len(),
{
    if entities.len() == 0 {
        Seq::<u64>::empty()
    } else {
        let rest = marked_handles(entities.drop_last());
        if entities.last().1 {
            rest.push(entities.last().0)
        } else {
            rest
        }
    }
}

/// The handles of the entities that carry a recognition record (each
/// entity given by its handle and whether it does), sorted by value.
pub fn attached_handles(entities: &[(u64, bool)]) -> (handles: Vec<u64>)
    ensures
        ascending(handles@),
        handles@.to_multiset() == marked_handles(entities@).to_multiset(),
{
    let mut handles: Vec<u64> = Vec::new();
    let mut i: usize = 0;
    assert(entities@.take(0) =~= Seq::<(u64, bool)>::empty());
    while i < entities.len()
        invariant
            i <= entities@.len(),
            ascending(handles@),
            handles@.to_multiset() == marked_handles(entities@.take(i as int)).to_multiset(),
        decreases entities@.len() - i,
    {
        assert(entities@.take(i + 1).drop_last() =~= entities@.take(i as int));
        assert(entities@.take(i + 1).last() == entities@[i as int]);
        let ghost so_far = marked_handles(entities@.take(i as int));
        let (h, marked) = entities[i];
        if marked {
            let mut p: usize = 0;
            while p < handles.len() && handles[p] <= h
                invariant
                    p <= handles@.len(),
                    ascending(handles@),
                    forall|k: int| 0 <= k < p ==> handles@[k] <= h,
                decreases handles@.len() - p,
            {
                p += 1;
            }
            let ghost before = handles@;
            handles.insert(p, h);
            proof {
                before.insert_ensures(p as int, h);
                assert(forall|k: int| p <= k < before.len() ==> h < before[k]);
                assert forall|a: int, b: int| 0 <= a < b < handles@.len() implies #[trigger] handles@[a]
                    <= #[trigger] handles@[b] by {
                    if b < p {
                    } else if b == p {
                    } else if a < p {
                        assert(handles@[b] == before[b - 1]);
                    } else if a == p {
                        assert(handles@[b] == before[b - 1]);
                    } else {
                        assert(handles@[a] == before[a - 1]);
                        assert(handles@[b] == before[b - 1]);
                    }
                }
                vstd::seq_lib::to_multiset_insert(before, p as int, h);
                vstd::seq_lib::to_multiset_build(so_far, h);
                assert(handles@ == before.insert(p as int, h));
            }
        }
        i += 1;
    }
    assert(entities@.take(entities@.len() as int) =~= entities@);
    handles
}

/// What an entity's record is after `step`: unchanged, the wanted record,
/// or none.
pub open spec fn after_step(
    current: Option<(Seq<Seq<char>>, bool)>,
    wanted: Option<Seq<Seq<char>>>,
    step: AttachStep,
) -> Option<(Seq<Seq<char>>, bool)> {
    match step {
        AttachStep::Keep => current,
        AttachStep::Write => match wanted {
            Some(w) => Some((w, true)),
            None => current,
        },
        AttachStep::Remove => None,
    }
}

/// Every record recognition wants is marked as its own: it carries a
/// `resolved=legend:` value.
pub proof fn law_wanted_records_are_recognition_records(
    r: DesiredRecord,
    symbols: Seq<SymbolFacts>,
    runs: Seq<RunFacts>,
    h: u64,
)
    requires
        wanted_record(r, symbols, runs, h),
    ensures
        legend_record(
            record_entries(r.class@, views(r.labels@), views(r.lines@), opt_chars(r.resolved)),
        ),
{
    reveal_strlit("legend:");
    reveal_strlit("resolved");
    reveal_strlit("resolved=");
    reveal_strlit("=");
    let x: Seq<char> = if symbol_owned(symbols, h) {
        let i = choose|i: int| 0 <= i < symbols.len() && #[trigger] symbols[i].handles@.contains(h);
        lemma_first_owner_exists(symbols, h, i);
        let f = choose|f: int| first_owner(symbols, f, h);
        assert(symbol_record(r, symbols[f]));
        let g = opt_chars(symbols[f].group);
        let src = symbols[f].source@;
        reveal_strlit("legend:group:");
        reveal_strlit("legend:shape:");
        reveal_strlit("legend:circle");
        reveal_strlit("legend:block");
        let t = resolved_text(g, src);
        assert(t.take(7) =~= "legend:"@);
        t
    } else {
        reveal_strlit("legend:pipe");
        assert("legend:pipe"@.take(7) =~= "legend:"@);
        "legend:pipe"@
    };
    assert(opt_chars(r.resolved) == Some(x));
    let e = "resolved"@ + "="@ + x;
    assert(e.take(9) =~= "resolved="@);
    assert(e.skip(9) =~= x);
    let entries = record_entries(r.class@, views(r.labels@), views(r.lines@), opt_chars(r.resolved));
    assert(pair_entry("resolved"@, x) =~= seq![e]);
    let n = entries.len() - 1;
    assert(entries[n] == e);
}

/// A symbol drawn with `h` means some symbol is the first drawn with it.
pub proof fn lemma_first_owner_exists(symbols: Seq<SymbolFacts>, h: u64, i: int)
    requires
        0 <= i < symbols.len(),
        symbols[i].handles@.contains(h),
    ensures
        exists|f: int| first_owner(symbols, f, h),
    decreases i,
{
    if forall|j: int| 0 <= j < i ==> !(#[trigger] symbols[j].handles@.contains(h)) {
        assert(first_owner(symbols, i, h));
    } else {
        let j = choose|j: int| 0 <= j < i && #[trigger] symbols[j].handles@.contains(h);
        lemma_first_owner_exists(symbols, h, j);
    }
}

/// Attaching a second time changes nothing: once each entity has been
/// brought to what recognition wants, the next step on it is to keep it,
/// whatever it carried before, as long as the wanted record is marked as
/// recognition's own.
pub proof fn law_attach_twice_changes_nothing(
    current: Option<(Seq<Seq<char>>, bool)>,
    wanted: Option<Seq<Seq<char>>>,
)
    requires
        wanted matches Some(w) ==> legend_record(w),
    ensures
        attach_step_of(after_step(current, wanted, attach_step_of(current, wanted)), wanted)
            == AttachStep::Keep,
{
}

/// An authored record, one whose values mark it as nobody's but its
/// author's, is kept whatever recognition wants.
pub proof fn law_authored_records_are_kept(
    strings: Seq<Seq<char>>,
    only_strings: bool,
    wanted: Option<Seq<Seq<char>>>,
)
    requires
        !legend_record(strings),
    ensures
        attach_step_of(Some((strings, only_strings)), wanted) == AttachStep::Keep,
{
}

// ── a whole document ────────────────────────────────────────────────────

/// What a record is, as `attach_step_of` reads it: its string values and
/// whether it holds nothing else.
pub open spec fn record_view(c: Option<CurrentRecord>) -> Option<(Seq<Seq<char>>, bool)> {
    match c {
        Some(r) => Some((views(r.strings@), r.only_strings)),
        None => None,
    }
}

/// The entity carries a record that is not recognition's.
pub open spec fn authored(r: Option<(Seq<Seq<char>>, bool)>) -> bool {
    match r {
        Some((s, _)) => !legend_record(s),
        None => false,
    }
}

/// The wanted records by handle, each as its string values.
pub open spec fn desired_view(desired: Seq<(u64, Vec<String>)>) -> Seq<(u64, Seq<Seq<char>>)> {
    desired.map_values(|e: (u64, Vec<String>)| (e.0, views(e.1@)))
}

/// The record wanted on the entity with handle `h`, if any.
pub open spec fn wanted_for(desired: Seq<(u64, Seq<Seq<char>>)>, h: u64) -> Option<Seq<Seq<char>>>
    decreases desired.len(),
{
    if desired.len() == 0 {
        None
    } else if desired.last().0 == h {
        Some(desired.last().1)
    } else {
        wanted_for(desired.drop_last(), h)
    }
}

/// The step attaching takes on each entity, each given by its handle and
/// the record it carries.
pub open spec fn steps_of(
    entities: Seq<(u64, Option<(Seq<Seq<char>>, bool)>)>,
    desired: Seq<(u64, Seq<Seq<char>>)>,
) -> Seq<AttachStep> {
    Seq::new(entities.len(), |i: int| attach_step_of(entities[i].1, wanted_for(desired, entities[i].0)))
}

/// The entities after attaching: each with the record its step leaves.
pub open spec fn attached(
    entities: Seq<(u64, Option<(Seq<Seq<char>>, bool)>)>,
    desired: Seq<(u64, Seq<Seq<char>>)>,
) -> Seq<(u64, Option<(Seq<Seq<char>>, bool)>)> {
    Seq::new(
        entities.len(),
        |i: int|
            (
                entities[i].0,
                after_step(
                    entities[i].1,
                    wanted_for(desired, entities[i].0),
                    attach_step_of(entities[i].1, wanted_for(desired, entities[i].0)),
                ),
            ),
    )
}

/// How many of the steps change a record.
pub open spec fn changed_steps(steps: Seq<AttachStep>) -> nat
    decreases steps.len(),
{
    if steps.len() == 0 {
        0
    } else {
        changed_steps(steps.drop_last()) + if steps.last() == AttachStep::Keep {
            0nat
        } else {
            1nat
        }
    }
}

/// With the handles strictly increasing, the record wanted on `h` is the
/// one listed under it.
proof fn lemma_wanted_for(desired: Seq<(u64, Seq<Seq<char>>)>, h: u64)
    requires
        forall|a: int, b: int| 0 <= a < b < desired.len() ==> #[trigger] desired[a].0 < #[trigger] desired[b].0,
    ensures
        forall|k: int| 0 <= k < desired.len() && #[trigger] desired[k].0 == h ==> wanted_for(desired, h) == Some(desired[k].1),
        (forall|k: int| 0 <= k < desired.len() ==> #[trigger] desired[k].0 != h) ==> wanted_for(desired, h) is None,
    decreases desired.len(),
{
    if desired.len() > 0 {
        let init = desired.drop_last();
        assert forall|a: int, b: int| 0 <= a < b < init.len() implies #[trigger] init[a].0 < #[trigger] init[b].0 by {
            assert(init[a] == desired[a] && init[b] == desired[b]);
        }
        lemma_wanted_for(init, h);
        assert(desired[desired.len() - 1] == desired.last());
        assert forall|k: int| 0 <= k < desired.len() && #[trigger] desired[k].0 == h implies wanted_for(desired, h) == Some(desired[k].1) by {
            if k < desired.len() - 1 {
                assert(init[k] == desired[k]);
            }
        }
        if forall|k: int| 0 <= k < desired.len() ==> #[trigger] desired[k].0 != h {
            assert forall|k: int| 0 <= k < init.len() implies #[trigger] init[k].0 != h by {
                assert(init[k] == desired[k]);
            }
        }
    }
}

/// Every wanted record is one listed.
proof fn lemma_wanted_listed(desired: Seq<(u64, Seq<Seq<char>>)>, h: u64)
    requires
        forall|k: int| 0 <= k < desired.len() ==> legend_record(#[trigger] desired[k].1),
    ensures
        wanted_for(desired, h) matches Some(w) ==> legend_record(w),
    decreases desired.len(),
{
    if desired.len() > 0 {
        let init = desired.drop_last();
        assert forall|k: int| 0 <= k < init.len() implies legend_record(#[trigger] init[k].1) by {
            assert(init[k] == desired[k]);
        }
        lemma_wanted_listed(init, h);
        assert(desired[desired.len() - 1] == desired.last());
    }
}

proof fn lemma_all_kept(steps: Seq<AttachStep>)
    requires
        forall|i: int| 0 <= i < steps.len() ==> #[trigger] steps[i] == AttachStep::Keep,
    ensures
        changed_steps(steps) == 0,
    decreases steps.len(),
{
    if steps.len() > 0 {
        let init = steps.drop_last();
        assert forall|i: int| 0 <= i < init.len() implies #[trigger] init[i] == AttachStep::Keep by {
            assert(init[i] == steps[i]);
        }
        lemma_all_kept(init);
        assert(steps[steps.len() - 1] == steps.last());
    }
}

/// Attaching a document a second time changes nothing: no step changes a
/// record, and every entity keeps what the first attaching left on it.
/// Every authored record is kept as it was through the first attaching.
pub proof fn law_attaching_a_document_twice_changes_nothing(
    entities: Seq<(u64, Option<(Seq<Seq<char>>, bool)>)>,
    desired: Seq<(u64, Seq<Seq<char>>)>,
)
    requires
        forall|k: int| 0 <= k < desired.len() ==> legend_record(#[trigger] desired[k].1),
    ensures
        changed_steps(steps_of(attached(entities, desired), desired)) == 0,
        attached(attached(entities, desired), desired) == attached(entities, desired),
        forall|i: int|
            0 <= i < entities.len() && authored((#[trigger] entities[i]).1) ==> attached(entities, desired)[i]
                == entities[i],
{
    let once = attached(entities, desired);
    assert forall|i: int| 0 <= i < once.len() implies #[trigger] steps_of(once, desired)[i] == AttachStep::Keep by {
        let h = entities[i].0;
        lemma_wanted_listed(desired, h);
        law_attach_twice_changes_nothing(entities[i].1, wanted_for(desired, h));
    }
    lemma_all_kept(steps_of(once, desired));
    assert(attached(once, desired) =~= once);
}

/// Which record each entity, given by its handle and the record it carries
/// now, is brought to: the step attaching takes on it, `desired` holding
/// the wanted records by strictly increasing handle.
pub fn attach_steps(entities: &[(u64, Option<CurrentRecord>)], desired: &[(u64, Vec<String>)]) -> (steps: Vec<AttachStep>)
    requires
        increasing(desired@.map_values(|e: (u64, Vec<String>)| e.0)),
    ensures
        steps@ == steps_of(
            entities@.map_values(|e: (u64, Option<CurrentRecord>)| (e.0, record_view(e.1))),
            desired_view(desired@),
        ),
{
    let ghost dv = desired_view(desired@);
    let ghost ev = entities@.map_values(|e: (u64, Option<CurrentRecord>)| (e.0, record_view(e.1)));
    proof {
        assert forall|a: int, b: int| 0 <= a < b < dv.len() implies #[trigger] dv[a].0 < #[trigger] dv[b].0 by {
            assert(desired@.map_values(|e: (u64, Vec<String>)| e.0)[a] == desired@[a].0);
            assert(desired@.map_values(|e: (u64, Vec<String>)| e.0)[b] == desired@[b].0);
        }
    }
    let mut steps: Vec<AttachStep> = Vec::new();
    let mut i: usize = 0;
    while i < entities.len()
        invariant
            i <= entities@.len(),
            dv == desired_view(desired@),
            increasing(desired@.map_values(|e: (u64, Vec<String>)| e.0)),
            ev == entities@.map_values(|e: (u64, Option<CurrentRecord>)| (e.0, record_view(e.1))),
            forall|a: int, b: int| 0 <= a < b < dv.len() ==> #[trigger] dv[a].0 < #[trigger] dv[b].0,
            steps@.len() == i,
            forall|k: int| 0 <= k < i ==> #[trigger] steps@[k] == steps_of(ev, dv)[k],
        decreases entities@.len() - i,
    {
        let h = entities[i].0;
        let found = find_handle(desired, h);
        let wanted: Option<Vec<String>> = match found {
            Some(k) => Some(desired[k].1.clone()),
            None => None,
        };
        proof {
            lemma_wanted_for(dv, h);
            match found {
                Some(k) => {
                    assert(dv[k as int].0 == h);
                    assert(views(wanted.unwrap()@) == views(desired@[k as int].1@)) by {
                        assert(views(wanted.unwrap()@) =~= views(desired@[k as int].1@));
                    }
                },
                None => {
                    assert forall|k: int| 0 <= k < dv.len() implies #[trigger] dv[k].0 != h by {
                        assert(desired@[k].0 != h);
                    }
                },
            }
        }
        let step = attach_step(&entities[i].1, &wanted);
        steps.push(step);
        i += 1;
    }
    assert(steps@ =~= steps_of(ev, dv));
    steps
}

/// The index in `desired` listed under `h`, if any.
fn find_handle(desired: &[(u64, Vec<String>)], h: u64) -> (found: Option<usize>)
    requires
        increasing(desired@.map_values(|e: (u64, Vec<String>)| e.0)),
    ensures
        found matches Some(k) ==> k < desired@.len() && desired@[k as int].0 == h,
        found is None ==> forall|k: int| 0 <= k < desired@.len() ==> #[trigger] desired@[k].0 != h,
{
    let ghost keys = desired@.map_values(|e: (u64, Vec<String>)| e.0);
    let mut lo: usize = 0;
    let mut hi: usize = desired.len();
    while lo < hi
        invariant
            lo <= hi <= desired@.len(),
            keys == desired@.map_values(|e: (u64, Vec<String>)| e.0),
            increasing(keys),
            forall|k: int| 0 <= k < lo ==> #[trigger] desired@[k].0 < h,
            forall|k: int| hi <= k < desired@.len() ==> #[trigger] desired@[k].0 > h,
        decreases hi - lo,
    {
        let mid = lo + (hi - lo) / 2;
        let m = desired[mid].0;
        if m == h {
            return Some(mid);
        } else if m < h {
            proof {
                assert forall|k: int| 0 <= k < mid + 1 implies #[trigger] desired@[k].0 < h by {
                    if k < mid {
                        assert(keys[k] < keys[mid as int]);
                    }
                }
            }
            lo = mid + 1;
        } else {
            proof {
                assert forall|k: int| mid <= k < desired@.len() implies #[trigger] desired@[k].0 > h by {
                    if k > mid {
                        assert(keys[mid as int] < keys[k]);
                    }
                }
            }
            hi = mid;
        }
    }
    None
}

/// How many of `steps` change a record.
pub fn count_changed(steps: &[AttachStep]) -> (n: usize)
    ensures
        n == changed_steps(steps@),
{
    let mut n: usize = 0;
    let mut i: usize = 0;
    while i < steps.len()
        invariant
            i <= steps@.len(),
            n <= i,
            n == changed_steps(steps@.take(i as int)),
        decreases steps@.len() - i,
    {
        assert(steps@.take(i + 1).drop_last() =~= steps@.take(i as int));
        match steps[i] {
            AttachStep::Keep => {},
            _ => {
                n += 1;
            },
        }
        i += 1;
    }
    assert(steps@.take(steps@.len() as int) =~= steps@);
    n
}

} // verus!
