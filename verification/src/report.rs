//! The lines of the per-class summary printed for a recognised sheet that
//! are counts and names: hand-made groups, each class with its tags,
//! unknown blocks, the lettering left over, the pipe and each of its lines.
//! Distances and positions arrive already written as text.

use vstd::prelude::*;

use crate::line_index::Pipes;
use crate::ranges::{dec_chars, dec_digits};
use crate::rules::RangeAnnotation;
use crate::sorted::{insert_name, sorted, sorted_names, sorted_unique};
use crate::text::{append, chars_of, chars_of_all, join, joined, string_of, views};

verus! {

/// How many unknown shapes the summary lists one by one.
pub const REPORTED_SHAPES: usize = 20;

fn text_of(values: &[String], sep: &str) -> (out: Vec<char>)
    ensures
        out@ == join(views(values@), sep@),
{
    let pieces = chars_of_all(values);
    assert(pieces@.map_values(|p: Vec<char>| p@) =~= views(values@));
    joined(&pieces, chars_of(sep).as_slice())
}

fn push_str(out: &mut Vec<char>, s: &str)
    ensures
        final(out)@ == old(out)@ + s@,
{
    append(out, chars_of(s).as_slice());
}

fn push_num(out: &mut Vec<char>, n: usize)
    ensures
        final(out)@ == old(out)@ + dec_digits(n as nat),
{
    append(out, dec_chars(n).as_slice());
}

// ── hand-made groups ────────────────────────────────────────────────────

/// How many of the group symbols carry a tag.
pub open spec fn tagged_count(groups: Seq<(bool, bool)>) -> nat
    decreases groups.len(),
{
    if groups.len() == 0 {
        0
    } else {
        tagged_count(groups.drop_last()) + if groups.last().0 {
            1nat
        } else {
            0nat
        }
    }
}

/// How many of them carry a tag a person set.
pub open spec fn manual_count(groups: Seq<(bool, bool)>) -> nat
    decreases groups.len(),
{
    if groups.len() == 0 {
        0
    } else {
        manual_count(groups.drop_last()) + if groups.last().0 && groups.last().1 {
            1nat
        } else {
            0nat
        }
    }
}

/// The line on the symbols from hand-made groups.
pub open spec fn group_text(groups: Seq<(bool, bool)>) -> Seq<char> {
    "  GROUP "@ + dec_digits(groups.len()) + " manual symbols, "@ + dec_digits(tagged_count(groups))
        + " tagged ("@ + dec_digits(manual_count(groups)) + " manual tags)"@
}

/// The line on the symbols from hand-made groups, each given by whether it
/// carries a tag and whether its group's tag was set by a person; none when
/// there are no such symbols.
pub fn group_line(groups: &[(bool, bool)]) -> (line: Option<String>)
    ensures
        groups@.len() == 0 ==> line is None,
        groups@.len() > 0 ==> (line matches Some(l) && l@ == group_text(groups@)),
{
    if groups.len() == 0 {
        return None;
    }
    let mut tagged: usize = 0;
    let mut manual: usize = 0;
    let mut i: usize = 0;
    while i < groups.len()
        invariant
            i <= groups@.len(),
            tagged == tagged_count(groups@.take(i as int)),
            manual == manual_count(groups@.take(i as int)),
            tagged <= i,
            manual <= i,
        decreases groups@.len() - i,
    {
        assert(groups@.take(i + 1).drop_last() =~= groups@.take(i as int));
        let (t, m) = groups[i];
        if t {
            tagged += 1;
            if m {
                manual += 1;
            }
        }
        i += 1;
    }
    assert(groups@.take(groups@.len() as int) =~= groups@);
    let mut out = chars_of("  GROUP ");
    push_num(&mut out, groups.len());
    push_str(&mut out, " manual symbols, ");
    push_num(&mut out, tagged);
    push_str(&mut out, " tagged (");
    push_num(&mut out, manual);
    push_str(&mut out, " manual tags)");
    Some(string_of(out.as_slice()))
}

// ── one class ───────────────────────────────────────────────────────────

/// What the line of a class that wants tags says about them: the range of
/// tag distances already written (`a..b`), the tags, and the positions of
/// the untagged symbols it reports, already written.
#[derive(Debug, Clone, PartialEq, Eq)]
pub struct ClassTags {
    pub distances: Option<String>,
    pub tags: Vec<String>,
    pub untagged_at: Vec<String>,
}

/// The tags part of a class line, `tags` sorted as `sorted_tags`.
pub open spec fn tags_text(count: nat, t: ClassTags, sorted_tags: Seq<Seq<char>>) -> Seq<char> {
    "  tagged "@ + dec_digits(t.tags@.len()) + "/"@ + dec_digits(count) + match t.distances {
        Some(d) => "  at "@ + d@ + " mm"@,
        None => Seq::empty(),
    } + if t.tags@.len() > 0 {
        ": "@ + join(sorted_tags, ", "@)
    } else {
        Seq::empty()
    } + if t.untagged_at@.len() > 0 {
        "  UNTAGGED at "@ + join(views(t.untagged_at@), " "@)
    } else {
        Seq::empty()
    }
}

/// A class's line: its label, class and count, and for a class that wants
/// tags how many got one, at what distances, which, and where the untagged
/// ones stand. The tags are listed sorted, each as often as it occurs.
pub fn class_line(label: &str, class: &str, count: usize, tags: &Option<ClassTags>) -> (line: String)
    ensures
        exists|sorted_tags: Seq<Seq<char>>|
            #[trigger] sorted(sorted_tags) && (match tags {
                Some(t) => sorted_tags.to_multiset() == views(t.tags@).to_multiset(),
                None => true,
            }) && line@ == "  "@ + label@ + " ("@ + class@ + ") x"@ + dec_digits(count as nat)
                + match tags {
                Some(t) => tags_text(count as nat, *t, sorted_tags),
                None => Seq::empty(),
            },
{
    let mut out = chars_of("  ");
    push_str(&mut out, label);
    push_str(&mut out, " (");
    push_str(&mut out, class);
    push_str(&mut out, ") x");
    push_num(&mut out, count);
    let ghost head = out@;
    match tags {
        None => {
            let line = string_of(out.as_slice());
            assert(sorted(Seq::<Seq<char>>::empty()));
            line
        },
        Some(t) => {
            push_str(&mut out, "  tagged ");
            push_num(&mut out, t.tags.len());
            push_str(&mut out, "/");
            push_num(&mut out, count);
            match &t.distances {
                Some(d) => {
                    push_str(&mut out, "  at ");
                    push_str(&mut out, d.as_str());
                    push_str(&mut out, " mm");
                },
                None => {},
            }
            let names = sorted_names(t.tags.as_slice());
            if t.tags.len() > 0 {
                push_str(&mut out, ": ");
                append(&mut out, text_of(names.as_slice(), ", ").as_slice());
            }
            if t.untagged_at.len() > 0 {
                push_str(&mut out, "  UNTAGGED at ");
                append(&mut out, text_of(t.untagged_at.as_slice(), " ").as_slice());
            }
            let line = string_of(out.as_slice());
            assert(line@ =~= head + tags_text(count as nat, *t, views(names@)));
            assert(sorted(views(names@)));
            line
        },
    }
}

// ── what is left over ───────────────────────────────────────────────────

/// The line on a block no rule names, seen `n` times.
pub fn unknown_block_line(what: &str, n: usize) -> (line: String)
    ensures
        line@ == "  UNKNOWN BLOCK "@ + what@ + " x"@ + dec_digits(n as nat) + " -- add it to the rules"@,
{
    let mut out = chars_of("  UNKNOWN BLOCK ");
    push_str(&mut out, what);
    push_str(&mut out, " x");
    push_num(&mut out, n);
    push_str(&mut out, " -- add it to the rules");
    string_of(out.as_slice())
}

/// One piece of lettering near an unknown shape: the text, with how often
/// it occurs when more than once.
pub open spec fn near_item(item: (Seq<char>, usize)) -> Seq<char> {
    if item.1 > 1 {
        item.0 + " x"@ + dec_digits(item.1 as nat)
    } else {
        item.0
    }
}

/// The `near:` part of an unknown shape's line: the lettering near it, or
/// nothing.
pub open spec fn near_text(nearby: Seq<(String, usize)>) -> Seq<char> {
    if nearby.len() == 0 {
        Seq::empty()
    } else {
        "  near: "@ + join(nearby.map_values(|e: (String, usize)| near_item((e.0@, e.1))), ", "@)
    }
}

/// The `near:` part of an unknown shape's line.
pub fn near_part(nearby: &[(String, usize)]) -> (part: String)
    ensures
        part@ == near_text(nearby@),
{
    if nearby.len() == 0 {
        return string_of(Vec::new().as_slice());
    }
    let mut items: Vec<String> = Vec::new();
    let mut i: usize = 0;
    while i < nearby.len()
        invariant
            i <= nearby@.len(),
            views(items@) == nearby@.take(i as int).map_values(
                |e: (String, usize)| near_item((e.0@, e.1)),
            ),
        decreases nearby@.len() - i,
    {
        let mut v = chars_of(nearby[i].0.as_str());
        if nearby[i].1 > 1 {
            push_str(&mut v, " x");
            push_num(&mut v, nearby[i].1);
        }
        let ghost before = views(items@);
        items.push(string_of(v.as_slice()));
        assert(views(items@) =~= before.push(near_item((nearby@[i as int].0@, nearby@[i as int].1))));
        assert(nearby@.take(i + 1) =~= nearby@.take(i as int).push(nearby@[i as int]));
        assert(views(items@) =~= nearby@.take(i + 1).map_values(
            |e: (String, usize)| near_item((e.0@, e.1)),
        ));
        i += 1;
    }
    assert(nearby@.take(nearby@.len() as int) =~= nearby@);
    let mut out = chars_of("  near: ");
    append(&mut out, text_of(items.as_slice(), ", ").as_slice());
    string_of(out.as_slice())
}

/// The line after the listed unknown shapes, when there are more than
/// [`REPORTED_SHAPES`].
pub fn more_shapes_line(total: usize) -> (line: Option<String>)
    ensures
        total <= REPORTED_SHAPES ==> line is None,
        total > REPORTED_SHAPES ==> (line matches Some(l) && l@ == "  ... and "@ + dec_digits(
            (total - REPORTED_SHAPES) as nat,
        ) + " more unknown shapes"@),
{
    if total <= REPORTED_SHAPES {
        return None;
    }
    let mut out = chars_of("  ... and ");
    push_num(&mut out, total - REPORTED_SHAPES);
    push_str(&mut out, " more unknown shapes");
    Some(string_of(out.as_slice()))
}

/// The line on tag-shaped lettering of `label` no symbol claimed.
pub fn orphan_line(label: &str, tags: &[String]) -> (line: String)
    ensures
        line@ == "  ORPHAN "@ + label@ + " tags (no symbol claimed them): "@ + join(views(tags@), ", "@),
{
    let mut out = chars_of("  ORPHAN ");
    push_str(&mut out, label);
    push_str(&mut out, " tags (no symbol claimed them): ");
    append(&mut out, text_of(tags, ", ").as_slice());
    string_of(out.as_slice())
}

/// The line on lettering of `label` whose value a symbol already carries.
pub fn duplicate_line(label: &str, tags: &[String]) -> (line: String)
    ensures
        line@ == "  DUPLICATE "@ + label@ + " tags (a symbol already carries them): "@ + join(
            views(tags@),
            ", "@,
        ),
{
    let mut out = chars_of("  DUPLICATE ");
    push_str(&mut out, label);
    push_str(&mut out, " tags (a symbol already carries them): ");
    append(&mut out, text_of(tags, ", ").as_slice());
    string_of(out.as_slice())
}

/// How a range annotation is listed: its value, and the members no symbol
/// carries.
pub open spec fn spelt(a: RangeAnnotation) -> Seq<char> {
    if a.missing@.len() == 0 {
        a.value@
    } else {
        a.value@ + " (missing "@ + join(views(a.missing@), ", "@) + ")"@
    }
}

/// How many annotations have every member on a symbol.
pub open spec fn complete_count(annotations: Seq<RangeAnnotation>) -> nat
    decreases annotations.len(),
{
    if annotations.len() == 0 {
        0
    } else {
        complete_count(annotations.drop_last()) + if annotations.last().missing@.len() == 0 {
            1nat
        } else {
            0nat
        }
    }
}

/// The line on the range annotations of `label`.
pub fn range_line(label: &str, annotations: &[RangeAnnotation]) -> (line: String)
    ensures
        line@ == "  RANGE "@ + label@ + " annotations, "@ + dec_digits(complete_count(annotations@))
            + "/"@ + dec_digits(annotations@.len()) + " with every member on a symbol: "@ + join(
            annotations@.map_values(|a: RangeAnnotation| spelt(a)),
            ", "@,
        ),
{
    let mut items: Vec<String> = Vec::new();
    let mut complete: usize = 0;
    let mut i: usize = 0;
    while i < annotations.len()
        invariant
            i <= annotations@.len(),
            complete == complete_count(annotations@.take(i as int)),
            complete <= i,
            views(items@) == annotations@.take(i as int).map_values(|a: RangeAnnotation| spelt(a)),
        decreases annotations@.len() - i,
    {
        let a = &annotations[i];
        assert(annotations@.take(i + 1).drop_last() =~= annotations@.take(i as int));
        let mut v = chars_of(a.value.as_str());
        if a.missing.len() == 0 {
            complete += 1;
        } else {
            push_str(&mut v, " (missing ");
            append(&mut v, text_of(a.missing.as_slice(), ", ").as_slice());
            push_str(&mut v, ")");
        }
        let ghost before = views(items@);
        items.push(string_of(v.as_slice()));
        assert(views(items@) =~= before.push(spelt(annotations@[i as int])));
        assert(annotations@.take(i + 1) =~= annotations@.take(i as int).push(annotations@[i as int]));
        assert(views(items@) =~= annotations@.take(i + 1).map_values(|a: RangeAnnotation| spelt(a)));
        i += 1;
    }
    assert(annotations@.take(annotations@.len() as int) =~= annotations@);
    let mut out = chars_of("  RANGE ");
    push_str(&mut out, label);
    push_str(&mut out, " annotations, ");
    push_num(&mut out, complete);
    push_str(&mut out, "/");
    push_num(&mut out, annotations.len());
    push_str(&mut out, " with every member on a symbol: ");
    append(&mut out, text_of(items.as_slice(), ", ").as_slice());
    string_of(out.as_slice())
}

// ── the pipe ────────────────────────────────────────────────────────────

/// How many runs letter a number of their own.
pub open spec fn lettered_runs(runs: Seq<crate::line_index::Run>) -> nat
    decreases runs.len(),
{
    if runs.len() == 0 {
        0
    } else {
        lettered_runs(runs.drop_last()) + if runs.last().numbers@.len() > 0 {
            1nat
        } else {
            0nat
        }
    }
}

/// How many runs carry at least `k` line numbers.
pub open spec fn runs_with_lines(runs: Seq<crate::line_index::Run>, k: nat) -> nat
    decreases runs.len(),
{
    if runs.len() == 0 {
        0
    } else {
        runs_with_lines(runs.drop_last(), k) + if runs.last().lines@.len() >= k {
            1nat
        } else {
            0nat
        }
    }
}

/// The pipe's line: strokes, runs, how many are lettered, on a line, on
/// two, on none, and how the connection points and ends fared.
pub open spec fn pipe_text(p: Pipes) -> Seq<char> {
    let runs = p.runs@;
    "  PIPE "@ + dec_digits(p.segments as nat) + " strokes -> "@ + dec_digits(runs.len()) + " runs: "@
        + dec_digits(lettered_runs(runs)) + " lettered, "@ + dec_digits(runs_with_lines(runs, 1))
        + " on a line ("@ + dec_digits(runs_with_lines(runs, 2)) + " on two), "@ + dec_digits(
        (runs.len() - runs_with_lines(runs, 1)) as nat,
    ) + " on none; "@ + dec_digits(p.connected_ports as nat) + "/"@ + dec_digits(p.ports as nat)
        + " connection points on a pipe, "@ + dec_digits(p.open_ends as nat) + " open ends"@
}

proof fn lemma_runs_with_lines_bound(runs: Seq<crate::line_index::Run>, k: nat)
    ensures
        runs_with_lines(runs, k) <= runs.len(),
    decreases runs.len(),
{
    if runs.len() > 0 {
        lemma_runs_with_lines_bound(runs.drop_last(), k);
    }
}

/// The pipe's line, when any stroke was read as pipe.
pub fn pipe_line(pipes: &Pipes) -> (line: Option<String>)
    ensures
        pipes.segments == 0 ==> line is None,
        pipes.segments > 0 ==> (line matches Some(l) && l@ == pipe_text(*pipes)),
{
    if pipes.segments == 0 {
        return None;
    }
    let ghost runs = pipes.runs@;
    let mut lettered: usize = 0;
    let mut on_a_line: usize = 0;
    let mut ambiguous: usize = 0;
    let mut i: usize = 0;
    while i < pipes.runs.len()
        invariant
            i <= runs.len(),
            runs == pipes.runs@,
            lettered == lettered_runs(runs.take(i as int)),
            on_a_line == runs_with_lines(runs.take(i as int), 1),
            ambiguous == runs_with_lines(runs.take(i as int), 2),
            lettered <= i,
            on_a_line <= i,
            ambiguous <= i,
        decreases runs.len() - i,
    {
        assert(runs.take(i + 1).drop_last() =~= runs.take(i as int));
        let r = &pipes.runs[i];
        if r.numbers.len() > 0 {
            lettered += 1;
        }
        if r.lines.len() >= 1 {
            on_a_line += 1;
        }
        if r.lines.len() >= 2 {
            ambiguous += 1;
        }
        i += 1;
    }
    assert(runs.take(runs.len() as int) =~= runs);
    let mut out = chars_of("  PIPE ");
    push_num(&mut out, pipes.segments);
    push_str(&mut out, " strokes -> ");
    push_num(&mut out, pipes.runs.len());
    push_str(&mut out, " runs: ");
    push_num(&mut out, lettered);
    push_str(&mut out, " lettered, ");
    push_num(&mut out, on_a_line);
    push_str(&mut out, " on a line (");
    push_num(&mut out, ambiguous);
    push_str(&mut out, " on two), ");
    push_num(&mut out, pipes.runs.len() - on_a_line);
    push_str(&mut out, " on none; ");
    push_num(&mut out, pipes.connected_ports);
    push_str(&mut out, "/");
    push_num(&mut out, pipes.ports);
    push_str(&mut out, " connection points on a pipe, ");
    push_num(&mut out, pipes.open_ends);
    push_str(&mut out, " open ends");
    Some(string_of(out.as_slice()))
}

/// A line number's line: how many runs carry it, their length already
/// written, and the symbols at their ends -- each named once, sorted, or
/// `-` for none.
pub fn line_line(line: &str, runs: usize, length: &str, symbols: &[String]) -> (out: String)
    ensures
        exists|names: Seq<Seq<char>>|
            #[trigger] sorted_unique(names) && names.to_set() == views(symbols@).to_set() && out@
                == "  LINE "@ + line@ + ": "@ + dec_digits(runs as nat) + " runs, "@ + length@
                + " mm, symbols: "@ + if symbols@.len() == 0 {
                "-"@
            } else {
                join(names, ", "@)
            },
{
    let mut names: Vec<String> = Vec::new();
    let mut i: usize = 0;
    assert(views(names@).to_set() =~= views(symbols@).take(0).to_set());
    while i < symbols.len()
        invariant
            i <= symbols@.len(),
            sorted_unique(views(names@)),
            views(names@).to_set() == views(symbols@).take(i as int).to_set(),
        decreases symbols@.len() - i,
    {
        insert_name(&mut names, symbols[i].as_str());
        proof {
            crate::sorted::lemma_take_push_to_set(views(symbols@), i as int);
        }
        i += 1;
    }
    assert(views(symbols@).take(symbols@.len() as int) =~= views(symbols@));
    let mut out = chars_of("  LINE ");
    push_str(&mut out, line);
    push_str(&mut out, ": ");
    push_num(&mut out, runs);
    push_str(&mut out, " runs, ");
    push_str(&mut out, length);
    push_str(&mut out, " mm, symbols: ");
    if symbols.len() == 0 {
        push_str(&mut out, "-");
    } else {
        append(&mut out, text_of(names.as_slice(), ", ").as_slice());
    }
    let s = string_of(out.as_slice());
    assert(sorted_unique(views(names@)));
    s
}

// ── which members a class line lists ────────────────────────────────────

/// The indices whose flag is set, in order.
pub open spec fn picked(flags: Seq<bool>) -> Seq<usize>
    decreases flags.len(),
{
    if flags.len() == 0 {
        Seq::<usize>::empty()
    } else if flags.last() {
        picked(flags.drop_last()).push((flags.len() - 1) as usize)
    } else {
        picked(flags.drop_last())
    }
}

/// The indices of the set flags, in order.
pub fn pick(flags: &[bool]) -> (out: Vec<usize>)
    ensures
        out@ == picked(flags@),
{
    let mut out: Vec<usize> = Vec::new();
    let mut i: usize = 0;
    while i < flags.len()
        invariant
            i <= flags@.len(),
            out@ == picked(flags@.take(i as int)),
        decreases flags@.len() - i,
    {
        assert(flags@.take(i + 1).drop_last() =~= flags@.take(i as int));
        assert(flags@.take(i + 1).last() == flags@[i as int]);
        if flags[i] {
            out.push(i);
        }
        i += 1;
    }
    assert(flags@.take(flags@.len() as int) =~= flags@);
    out
}

/// Which members of a class its line lists: those with a tag, whose tags it
/// names, and those without one whose class reports where its untagged
/// symbols stand. `tagged[i]` and `report_untagged[i]` describe member `i`.
pub fn tag_split(tagged: &[bool], report_untagged: &[bool]) -> (out: (Vec<usize>, Vec<usize>))
    requires
        tagged@.len() == report_untagged@.len(),
    ensures
        out.0@ == picked(tagged@),
        out.1@ == picked(Seq::new(tagged@.len(), |i: int| !tagged@[i] && report_untagged@[i])),
{
    let mut untagged: Vec<bool> = Vec::new();
    let mut i: usize = 0;
    while i < tagged.len()
        invariant
            i <= tagged@.len(),
            tagged@.len() == report_untagged@.len(),
            untagged@.len() == i,
            forall|k: int| 0 <= k < i ==> #[trigger] untagged@[k] == (!tagged@[k] && report_untagged@[k]),
        decreases tagged@.len() - i,
    {
        untagged.push(!tagged[i] && report_untagged[i]);
        i += 1;
    }
    assert(untagged@ =~= Seq::new(tagged@.len(), |i: int| !tagged@[i] && report_untagged@[i]));
    (pick(tagged), pick(&untagged))
}

impl Pipes {
    /// The runs on no numbered line, in run order.
    pub fn off_line_runs(&self) -> (out: Vec<usize>)
        ensures
            out@ == picked(self.runs@.map_values(|r: crate::line_index::Run| r.lines@.len() == 0)),
    {
        let mut flags: Vec<bool> = Vec::new();
        let mut i: usize = 0;
        while i < self.runs.len()
            invariant
                i <= self.runs@.len(),
                flags@.len() == i,
                forall|k: int| 0 <= k < i ==> #[trigger] flags@[k] == (self.runs@[k].lines@.len() == 0),
            decreases self.runs@.len() - i,
        {
            flags.push(self.runs[i].lines.len() == 0);
            i += 1;
        }
        assert(flags@ =~= self.runs@.map_values(|r: crate::line_index::Run| r.lines@.len() == 0));
        pick(&flags)
    }
}

} // verus!
