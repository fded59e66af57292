//! The CSV export: two tables in one document, the symbols first, then one
//! row per pipe line number with the distinct endpoints of every run
//! carrying it.

use vstd::prelude::*;

use crate::export::{csv_row, distinct, end_text, line_endpoints, numbered, row, End, SymbolName};
use crate::line_index::{carried_lines, carriers, family_in, index_keys, line_index, Pipes, Run};
use crate::ranges::{dec_chars, dec_digits};
use crate::text::{chars_of, chars_of_all, joined, opt_chars, same, string_of, views};

verus! {

/// A symbol as the CSV export lists it. Its position is in millimetres,
/// each coordinate written with six decimals, or `None` when it is not a
/// finite number.
#[derive(Debug, Clone, PartialEq, Eq)]
pub struct CsvSymbol {
    pub class: String,
    pub label: String,
    pub tag: Option<String>,
    pub x_mm: Option<String>,
    pub y_mm: Option<String>,
    pub lines: Vec<String>,
    pub source: String,
}

/// `s` without its trailing zeros.
pub open spec fn strip_zeros(s: Seq<char>) -> Seq<char>
    decreases s.len(),
{
    if s.len() > 0 && s.last() == '0' {
        strip_zeros(s.drop_last())
    } else {
        s
    }
}

/// A number written with six decimals, as the CSV shows it: trailing
/// zeros and a bare decimal point dropped, `-0` read as `0`.
pub open spec fn number_text(fixed: Seq<char>) -> Seq<char> {
    let a = strip_zeros(fixed);
    let b = if a.len() > 0 && a.last() == '.' {
        a.drop_last()
    } else {
        a
    };
    if b == seq!['-', '0'] {
        seq!['0']
    } else {
        b
    }
}

/// A coordinate or a length as its cell shows it: empty for no number.
pub open spec fn number_cell(fixed: Option<String>) -> Seq<char> {
    match fixed {
        Some(t) => number_text(t@),
        None => Seq::empty(),
    }
}

/// A number written with six decimals as the CSV shows it; empty for no
/// number.
pub fn csv_number(fixed: &Option<String>) -> (out: String)
    ensures
        out@ == number_cell(*fixed),
{
    match fixed {
        None => string_of(Vec::new().as_slice()),
        Some(t) => {
            let mut v = chars_of(t.as_str());
            while v.len() > 0 && v[v.len() - 1] == '0'
                invariant
                    strip_zeros(v@) == strip_zeros(t@),
                decreases v@.len(),
            {
                let ghost before = v@;
                v.pop();
                assert(v@ =~= before.drop_last());
            }
            if v.len() > 0 && v[v.len() - 1] == '.' {
                let ghost before = v@;
                v.pop();
                assert(v@ =~= before.drop_last());
            }
            if v.len() == 2 && v[0] == '-' && v[1] == '0' {
                assert(v@ =~= seq!['-', '0']);
                let mut z: Vec<char> = Vec::new();
                z.push('0');
                assert(z@ =~= seq!['0']);
                return string_of(z.as_slice());
            }
            assert(v@ != seq!['-', '0']) by {
                if v@ == seq!['-', '0'] {
                    assert(v@[0] == '-' && v@[1] == '0');
                }
            }
            string_of(v.as_slice())
        },
    }
}

/// The cells of a symbol's row: class, label, tag, x and y in millimetres,
/// its line numbers joined ` + `, and where it was read from.
pub open spec fn symbol_cells(s: CsvSymbol) -> Seq<Seq<char>> {
    seq![
        s.class@,
        s.label@,
        match s.tag {
            Some(t) => t@,
            None => Seq::empty(),
        },
        number_cell(s.x_mm),
        number_cell(s.y_mm),
        crate::text::join(views(s.lines@), seq![' ', '+', ' ']),
        s.source@,
    ]
}

/// The symbol table's rows.
pub open spec fn symbol_rows(symbols: Seq<CsvSymbol>) -> Seq<char>
    decreases symbols.len(),
{
    if symbols.len() == 0 {
        Seq::empty()
    } else {
        symbol_rows(symbols.drop_last()) + row(symbol_cells(symbols.last()))
    }
}

/// How the ends name the symbols: by tag, else by label.
pub open spec fn names_of(symbols: Seq<CsvSymbol>) -> Seq<(Option<Seq<char>>, Seq<char>)> {
    symbols.map_values(|s: CsvSymbol| (opt_chars(s.tag), s.label@))
}

/// The length cell of `line`: its total run length (with six decimals) as
/// the first entry for it gives it, else empty.
pub open spec fn length_cell(lengths: Seq<(String, String)>, line: Seq<char>) -> Seq<char>
    decreases lengths.len(),
{
    if lengths.len() == 0 {
        Seq::empty()
    } else if lengths[0].0@ == line {
        number_text(lengths[0].1@)
    } else {
        length_cell(lengths.drop_first(), line)
    }
}

/// The cells of a line's row: the number, its family, how many runs carry
/// it, their length, and the distinct names of the first and of the
/// second ends of those runs, joined ` | `.
pub open spec fn line_cells(
    runs: Seq<Run>,
    families: Seq<(String, String)>,
    names: Seq<(Option<Seq<char>>, Seq<char>)>,
    lengths: Seq<(String, String)>,
    line: Seq<char>,
    carrying: Seq<usize>,
) -> Seq<Seq<char>> {
    seq![
        line,
        family_in(families, line),
        dec_digits(carrying.len()),
        length_cell(lengths, line),
        crate::text::join(
            distinct(carrying.map_values(|j: usize| end_text(runs[j as int].ends[0], names))),
            seq![' ', '|', ' '],
        ),
        crate::text::join(
            distinct(carrying.map_values(|j: usize| end_text(runs[j as int].ends[1], names))),
            seq![' ', '|', ' '],
        ),
    ]
}

/// The pipe table's rows, one per entry of the line index.
pub open spec fn line_rows(
    index: Seq<(String, Vec<usize>)>,
    runs: Seq<Run>,
    families: Seq<(String, String)>,
    names: Seq<(Option<Seq<char>>, Seq<char>)>,
    lengths: Seq<(String, String)>,
) -> Seq<char>
    decreases index.len(),
{
    if index.len() == 0 {
        Seq::empty()
    } else {
        line_rows(index.drop_last(), runs, families, names, lengths) + row(
            line_cells(runs, families, names, lengths, index.last().0@, index.last().1@),
        )
    }
}

/// The symbol table's header.
pub open spec fn symbol_header() -> Seq<Seq<char>> {
    seq!["class"@, "label"@, "tag"@, "x_mm"@, "y_mm"@, "lines"@, "source"@]
}

/// The pipe table's header.
pub open spec fn line_header() -> Seq<Seq<char>> {
    seq!["line"@, "family"@, "runs"@, "length_mm"@, "from"@, "to"@]
}

/// The whole document, the lines in the order of `index`.
pub open spec fn csv_document(
    symbols: Seq<CsvSymbol>,
    index: Seq<(String, Vec<usize>)>,
    pipes: Pipes,
    lengths: Seq<(String, String)>,
) -> Seq<char> {
    row(symbol_header()) + symbol_rows(symbols) + seq!['\n'] + row(line_header()) + line_rows(
        index,
        pipes.runs@,
        pipes.families@,
        names_of(symbols),
        lengths,
    )
}

/// Every run ends where the CSV can number it.
pub open spec fn ends_numbered(runs: Seq<Run>) -> bool {
    forall|j: int| 0 <= j < runs.len() ==> numbered((#[trigger] runs[j]).ends[0]) && numbered(runs[j].ends[1])
}

fn strs(values: &[&str]) -> (out: Vec<String>)
    ensures
        views(out@) == values@.map_values(|s: &str| s@),
{
    let mut out: Vec<String> = Vec::new();
    let mut i: usize = 0;
    while i < values.len()
        invariant
            i <= values@.len(),
            views(out@) == values@.take(i as int).map_values(|s: &str| s@),
        decreases values@.len() - i,
    {
        let ghost before = views(out@);
        let v = string_of(chars_of(values[i]).as_slice());
        out.push(v);
        assert(views(out@) =~= before.push(values@[i as int]@));
        assert(values@.take(i + 1) =~= values@.take(i as int).push(values@[i as int]));
        assert(views(out@) =~= values@.take(i + 1).map_values(|s: &str| s@));
        i += 1;
    }
    assert(values@.take(values@.len() as int) =~= values@);
    out
}

fn join_strings(values: &Vec<String>, sep: &[char]) -> (out: String)
    ensures
        out@ == crate::text::join(views(values@), sep@),
{
    let pieces = chars_of_all(values.as_slice());
    assert(pieces@.map_values(|p: Vec<char>| p@) =~= views(values@));
    string_of(joined(&pieces, sep).as_slice())
}

fn length_of(lengths: &[(String, String)], line: &Vec<char>) -> (out: String)
    ensures
        out@ == length_cell(lengths@, line@),
{
    let mut i: usize = 0;
    assert(lengths@.skip(0) =~= lengths@);
    while i < lengths.len()
        invariant
            i <= lengths@.len(),
            length_cell(lengths@, line@) == length_cell(lengths@.skip(i as int), line@),
        decreases lengths@.len() - i,
    {
        let ghost rest = lengths@.skip(i as int);
        assert(rest[0] == lengths@[i as int]);
        if same(chars_of(lengths[i].0.as_str()).as_slice(), line.as_slice()) {
            return csv_number(&Some(string_of(chars_of(lengths[i].1.as_str()).as_slice())));
        }
        assert(rest.drop_first() =~= lengths@.skip(i + 1));
        i += 1;
    }
    string_of(Vec::new().as_slice())
}

proof fn lemma_carriers_bound(runs: Seq<Run>, line: Seq<char>)
    ensures
        forall|i: int| 0 <= i < carriers(runs, line).len() ==> (#[trigger] carriers(runs, line)[i]) < runs.len(),
    decreases runs.len(),
{
    if runs.len() > 0 {
        lemma_carriers_bound(runs.drop_last(), line);
        let c = carriers(runs, line);
        let p = carriers(runs.drop_last(), line);
        assert forall|i: int| 0 <= i < c.len() implies (#[trigger] c[i]) < runs.len() by {
            if i < p.len() {
                assert(c[i] == p[i]);
            }
        }
    }
}

/// The CSV document: the symbols, a blank line, then one row per line
/// number the runs carry, in line-number order. `lengths` gives each
/// line's total run length with six decimals; a line it does not list has
/// an empty length.
pub fn to_csv(symbols: &[CsvSymbol], pipes: &Pipes, lengths: &[(String, String)]) -> (out: String)
    requires
        ends_numbered(pipes.runs@),
    ensures
        exists|index: Seq<(String, Vec<usize>)>|
            #[trigger] line_index(index, pipes.runs@) && index_keys(index).to_set() == carried_lines(
                pipes.runs@,
            ) && out@ == csv_document(symbols@, index, *pipes, lengths@),
{
    proof {
        reveal_strlit("class");
        reveal_strlit("label");
        reveal_strlit("tag");
        reveal_strlit("x_mm");
        reveal_strlit("y_mm");
        reveal_strlit("lines");
        reveal_strlit("source");
        reveal_strlit("line");
        reveal_strlit("family");
        reveal_strlit("runs");
        reveal_strlit("length_mm");
        reveal_strlit("from");
        reveal_strlit("to");
    }
    let mut output: Vec<char> = Vec::new();
    let head = strs(&["class", "label", "tag", "x_mm", "y_mm", "lines", "source"]);
    assert(views(head@) =~= symbol_header());
    csv_row(&mut output, head.as_slice());
    let ghost start = output@;
    let plus = [' ', '+', ' '];
    assert(plus@ =~= seq![' ', '+', ' ']);
    let mut names: Vec<SymbolName> = Vec::new();
    let mut i: usize = 0;
    assert(symbols@.take(0) =~= Seq::<CsvSymbol>::empty());
    while i < symbols.len()
        invariant
            i <= symbols@.len(),
            plus@ == seq![' ', '+', ' '],
            output@ == start + symbol_rows(symbols@.take(i as int)),
            names@.len() == i,
            forall|k: int|
                0 <= k < i ==> (#[trigger] names@[k]).tag == symbols@[k].tag && names@[k].label
                    == symbols@[k].label,
        decreases symbols@.len() - i,
    {
        let s = &symbols[i];
        let cells: Vec<String> = vec![
            string_of(chars_of(s.class.as_str()).as_slice()),
            string_of(chars_of(s.label.as_str()).as_slice()),
            match &s.tag {
                Some(t) => string_of(chars_of(t.as_str()).as_slice()),
                None => string_of(Vec::new().as_slice()),
            },
            csv_number(&s.x_mm),
            csv_number(&s.y_mm),
            join_strings(&s.lines, &plus),
            string_of(chars_of(s.source.as_str()).as_slice()),
        ];
        assert(views(cells@) =~= symbol_cells(symbols@[i as int]));
        csv_row(&mut output, cells.as_slice());
        assert(symbols@.take(i + 1).drop_last() =~= symbols@.take(i as int));
        assert(output@ =~= start + symbol_rows(symbols@.take(i + 1)));
        names.push(SymbolName {
            tag: match &s.tag {
                Some(t) => Some(t.clone()),
                None => None,
            },
            label: s.label.clone(),
        });
        i += 1;
    }
    assert(symbols@.take(symbols@.len() as int) =~= symbols@);
    assert(crate::export::symbol_names_view(names@) =~= names_of(symbols@));
    output.push('\n');
    let head = strs(&["line", "family", "runs", "length_mm", "from", "to"]);
    assert(views(head@) =~= line_header());
    csv_row(&mut output, head.as_slice());
    let ghost mid = output@;
    let ghost nv = names_of(symbols@);
    let bar = [' ', '|', ' '];
    assert(bar@ =~= seq![' ', '|', ' ']);
    let index = pipes.by_line();
    let mut k: usize = 0;
    assert(index@.take(0) =~= Seq::<(String, Vec<usize>)>::empty());
    while k < index.len()
        invariant
            k <= index@.len(),
            bar@ == seq![' ', '|', ' '],
            nv == names_of(symbols@),
            crate::export::symbol_names_view(names@) == nv,
            ends_numbered(pipes.runs@),
            line_index(index@, pipes.runs@),
            output@ == mid + line_rows(index@.take(k as int), pipes.runs@, pipes.families@, nv, lengths@),
        decreases index@.len() - k,
    {
        let line = chars_of(index[k].0.as_str());
        let list = &index[k].1;
        proof {
            lemma_carriers_bound(pipes.runs@, index@[k as int].0@);
        }
        let mut ends: Vec<(End, End)> = Vec::new();
        let mut m: usize = 0;
        while m < list.len()
            invariant
                m <= list@.len(),
                list@ == carriers(pipes.runs@, index@[k as int].0@),
                forall|i: int| 0 <= i < list@.len() ==> (#[trigger] list@[i]) < pipes.runs@.len(),
                ends@ == list@.take(m as int).map_values(
                    |j: usize| (pipes.runs@[j as int].ends[0], pipes.runs@[j as int].ends[1]),
                ),
            decreases list@.len() - m,
        {
            let r = &pipes.runs[list[m]];
            let ghost before = ends@;
            ends.push((r.ends[0], r.ends[1]));
            assert(list@.take(m + 1) =~= list@.take(m as int).push(list@[m as int]));
            assert(ends@ =~= list@.take(m + 1).map_values(
                |j: usize| (pipes.runs@[j as int].ends[0], pipes.runs@[j as int].ends[1]),
            ));
            m += 1;
        }
        assert(list@.take(list@.len() as int) =~= list@);
        let (from, to) = line_endpoints(ends.as_slice(), names.as_slice());
        assert(ends@.map_values(|e: (End, End)| end_text(e.0, nv)) =~= list@.map_values(
            |j: usize| end_text(pipes.runs@[j as int].ends[0], nv),
        ));
        assert(ends@.map_values(|e: (End, End)| end_text(e.1, nv)) =~= list@.map_values(
            |j: usize| end_text(pipes.runs@[j as int].ends[1], nv),
        ));
        let cells: Vec<String> = vec![
            string_of(line.as_slice()),
            pipes.family_of(index[k].0.as_str()),
            string_of(dec_chars(list.len()).as_slice()),
            length_of(lengths, &line),
            join_strings(&from, &bar),
            join_strings(&to, &bar),
        ];
        assert(views(cells@) =~= line_cells(
            pipes.runs@,
            pipes.families@,
            nv,
            lengths@,
            index@[k as int].0@,
            index@[k as int].1@,
        ));
        csv_row(&mut output, cells.as_slice());
        assert(index@.take(k + 1).drop_last() =~= index@.take(k as int));
        assert(output@ =~= mid + line_rows(index@.take(k + 1), pipes.runs@, pipes.families@, nv, lengths@));
        k += 1;
    }
    assert(index@.take(index@.len() as int) =~= index@);
    let out = string_of(output.as_slice());
    assert(out@ =~= csv_document(symbols@, index@, *pipes, lengths@));
    assert(line_index(index@, pipes.runs@));
    out
}

} // verus!
