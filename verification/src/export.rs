//! The machine-readable exports: which format a path asks for, and the
//! pieces of the CSV document -- cells, rows, and the endpoints of a line.

use vstd::prelude::*;

use crate::paths::{extension_of, path_extension};
use crate::ranges::{dec_chars, dec_digits};
use crate::text::{
    ascii_lower, chars_of, join, lower_seq, opt_chars, same, string_of, views,
};

verus! {

/// The two export formats.
#[derive(Debug, Clone, Copy, PartialEq, Eq, Structural)]
pub enum ExportFormat {
    Json,
    Csv,
}

/// What a written export was: its format and its size in bytes.
#[derive(Debug, Clone, Copy, PartialEq, Eq, Structural)]
pub struct ExportReceipt {
    pub format: ExportFormat,
    pub bytes: usize,
}

pub open spec fn json_word() -> Seq<char> {
    seq!['j', 's', 'o', 'n']
}

pub open spec fn csv_word() -> Seq<char> {
    seq!['c', 's', 'v']
}

pub open spec fn bad_path_prefix() -> Seq<char> {
    "P&ID export path must end in .json or .csv: "@
}

/// The format a path's extension names, case-insensitively.
pub open spec fn format_for(path: Seq<char>) -> Option<ExportFormat> {
    match path_extension(path) {
        Some(e) => if lower_seq(e) == json_word() {
            Some(ExportFormat::Json)
        } else if lower_seq(e) == csv_word() {
            Some(ExportFormat::Csv)
        } else {
            None
        },
        None => None,
    }
}

impl ExportFormat {
    /// The format `path`'s extension asks for (`.json` or `.csv`, any case),
    /// or the message saying it must be one of them.
    pub fn for_path(path: &str) -> (r: Result<ExportFormat, String>)
        ensures
            match r {
                Ok(f) => format_for(path@) == Some(f),
                Err(msg) => format_for(path@).is_none() && msg@ == bad_path_prefix() + path@,
            },
    {
        let json = chars_of("json");
        let csv = chars_of("csv");
        proof {
            reveal_strlit("json");
            reveal_strlit("csv");
            assert(json@ =~= json_word());
            assert(csv@ =~= csv_word());
        }
        match extension_of(path) {
            Some(e) => {
                let low = ascii_lower(chars_of(e.as_str()).as_slice());
                if same(low.as_slice(), json.as_slice()) {
                    return Ok(ExportFormat::Json);
                } else if same(low.as_slice(), csv.as_slice()) {
                    return Ok(ExportFormat::Csv);
                }
            },
            None => {},
        }
        let mut msg = chars_of("P&ID export path must end in .json or .csv: ");
        let p = chars_of(path);
        crate::text::append(&mut msg, p.as_slice());
        Err(string_of(msg.as_slice()))
    }

    /// The format's name, as its extension spells it.
    pub fn name(self) -> (n: &'static str)
        ensures
            n@ == match self {
                ExportFormat::Json => json_word(),
                ExportFormat::Csv => csv_word(),
            },
    {
        proof {
            reveal_strlit("json");
            reveal_strlit("csv");
        }
        match self {
            ExportFormat::Json => "json",
            ExportFormat::Csv => "csv",
        }
    }
}

// ── CSV ─────────────────────────────────────────────────────────────────

/// A cell has to be quoted: it holds a comma, a quote or a line break.
pub open spec fn needs_quotes(s: Seq<char>) -> bool {
    exists|i: int|
        0 <= i < s.len() && (#[trigger] s[i] == ',' || s[i] == '"' || s[i] == '\r' || s[i] == '\n')
}

/// `s` with every `"` doubled.
pub open spec fn doubled_quotes(s: Seq<char>) -> Seq<char>
    decreases s.len(),
{
    if s.len() == 0 {
        Seq::<char>::empty()
    } else if s.last() == '"' {
        doubled_quotes(s.drop_last()) + seq!['"', '"']
    } else {
        doubled_quotes(s.drop_last()).push(s.last())
    }
}

/// A value as one CSV cell: quoted, with its quotes doubled, when it needs
/// quoting, else as it is.
pub open spec fn cell(s: Seq<char>) -> Seq<char> {
    if needs_quotes(s) {
        seq!['"'] + doubled_quotes(s) + seq!['"']
    } else {
        s
    }
}

/// A row of cells: the values' cells joined by commas, and a line break.
pub open spec fn row(values: Seq<Seq<char>>) -> Seq<char> {
    join(values.map_values(|v: Seq<char>| cell(v)), seq![',']).push('\n')
}

/// `value` as one CSV cell.
pub fn csv_cell(value: &str) -> (c: String)
    ensures
        c@ == cell(value@),
{
    let v = chars_of(value);
    let mut quote = false;
    let mut i: usize = 0;
    while i < v.len() && !quote
        invariant
            i <= v@.len(),
            v@ == value@,
            quote == exists|k: int|
                0 <= k < i && (#[trigger] v@[k] == ',' || v@[k] == '"' || v@[k] == '\r' || v@[k]
                    == '\n'),
        decreases v@.len() - i,
    {
        let c = v[i];
        if c == ',' || c == '"' || c == '\r' || c == '\n' {
            quote = true;
        }
        i += 1;
    }
    proof {
        if needs_quotes(value@) && !quote {
            let k = choose|k: int|
                0 <= k < value@.len() && (#[trigger] value@[k] == ',' || value@[k] == '"'
                    || value@[k] == '\r' || value@[k] == '\n');
            assert(k >= i);
        }
    }
    if !quote {
        return string_of(v.as_slice());
    }
    let mut out: Vec<char> = Vec::new();
    out.push('"');
    let mut j: usize = 0;
    assert(v@.take(0) =~= Seq::<char>::empty());
    while j < v.len()
        invariant
            j <= v@.len(),
            out@ == seq!['"'] + doubled_quotes(v@.take(j as int)),
        decreases v@.len() - j,
    {
        assert(v@.take(j + 1).drop_last() =~= v@.take(j as int));
        assert(v@.take(j + 1).last() == v@[j as int]);
        if v[j] == '"' {
            out.push('"');
            out.push('"');
        } else {
            out.push(v[j]);
        }
        j += 1;
        assert(out@ =~= seq!['"'] + doubled_quotes(v@.take(j as int)));
    }
    assert(v@.take(v@.len() as int) =~= v@);
    out.push('"');
    string_of(out.as_slice())
}

/// Append one CSV row of `values` to `output`.
pub fn csv_row(output: &mut Vec<char>, values: &[String])
    ensures
        final(output)@ == old(output)@ + row(views(values@)),
{
    let ghost vs = views(values@);
    let ghost cells = vs.map_values(|v: Seq<char>| cell(v));
    let ghost start = output@;
    let mut i: usize = 0;
    while i < values.len()
        invariant
            i <= values@.len(),
            vs == views(values@),
            cells == vs.map_values(|v: Seq<char>| cell(v)),
            output@ == start + join(cells.take(i as int), seq![',']),
        decreases values@.len() - i,
    {
        let c = csv_cell(values[i].as_str());
        let cc = chars_of(c.as_str());
        proof {
            crate::text::lemma_join_push(cells.take(i as int), c@, seq![',']);
            assert(cells.take(i + 1) =~= cells.take(i as int).push(c@));
        }
        if i > 0 {
            output.push(',');
        }
        crate::text::append(output, cc.as_slice());
        proof {
            if i == 0 {
                assert(output@ =~= start + join(cells.take(i + 1), seq![',']));
            } else {
                assert(output@ =~= start + join(cells.take(i + 1), seq![',']));
            }
        }
        i += 1;
    }
    assert(cells.take(values@.len() as int) =~= cells);
    output.push('\n');
    assert(output@ =~= start + row(vs));
}

/// Add `value` to `values` unless it is there already.
pub fn push_unique(values: &mut Vec<String>, value: String)
    ensures
        views(final(values)@) == if views(old(values)@).contains(value@) {
            views(old(values)@)
        } else {
            views(old(values)@).push(value@)
        },
{
    let v = chars_of(value.as_str());
    let mut i: usize = 0;
    while i < values.len()
        invariant
            i <= values@.len(),
            v@ == value@,
            forall|k: int| 0 <= k < i ==> values@[k]@ != value@,
        decreases values@.len() - i,
    {
        let e = chars_of(values[i].as_str());
        if same(e.as_slice(), v.as_slice()) {
            assert(views(values@)[i as int] == value@);
            return;
        }
        i += 1;
    }
    proof {
        if views(values@).contains(value@) {
            let k = choose|k: int| 0 <= k < views(values@).len() && views(values@)[k] == value@;
            assert(values@[k]@ == value@);
        }
    }
    let ghost before = values@;
    values.push(value);
    assert(views(values@) =~= views(before).push(value@));
}

// ── line endpoints ──────────────────────────────────────────────────────

/// What a run ends at.
#[derive(Debug, Clone, Copy, PartialEq, Eq, Structural)]
pub enum End {
    /// A symbol's connection point; the index into the recognised symbols.
    Symbol(usize),
    /// Other runs: three or more strokes meet here.
    Tee,
    /// Nothing: the pipe just stops.
    Open,
    /// The run closes on itself with no symbol or tee on it.
    Loop,
}

/// What the CSV export names a symbol by: its tag, or its label.
#[derive(Debug, Clone, PartialEq, Eq)]
pub struct SymbolName {
    pub tag: Option<String>,
    pub label: String,
}

pub open spec fn symbol_names_view(s: Seq<SymbolName>) -> Seq<(Option<Seq<char>>, Seq<char>)> {
    s.map_values(|n: SymbolName| (opt_chars(n.tag), n.label@))
}

/// How the CSV export names an end: a symbol by its tag, else by its label
/// and its 1-based number (`蝶阀 #2`), one past the list as `symbol #n`;
/// the others by their kind.
pub open spec fn end_text(end: End, symbols: Seq<(Option<Seq<char>>, Seq<char>)>) -> Seq<char> {
    match end {
        End::Symbol(i) => if i < symbols.len() {
            match symbols[i as int].0 {
                Some(t) => t,
                None => symbols[i as int].1 + seq![' ', '#'] + dec_digits((i + 1) as nat),
            }
        } else {
            "symbol #"@ + dec_digits((i + 1) as nat)
        },
        End::Tee => seq!['t', 'e', 'e'],
        End::Open => seq!['o', 'p', 'e', 'n'],
        End::Loop => seq!['l', 'o', 'o', 'p'],
    }
}

/// An end whose 1-based symbol number fits a `usize`.
pub open spec fn numbered(end: End) -> bool {
    match end {
        End::Symbol(i) => i < usize::MAX,
        _ => true,
    }
}

/// How the CSV export names `end`.
pub fn end_csv(end: End, symbols: &[SymbolName]) -> (t: String)
    requires
        numbered(end),
    ensures
        t@ == end_text(end, symbol_names_view(symbols@)),
{
    proof {
        reveal_strlit("tee");
        reveal_strlit("open");
        reveal_strlit("loop");
        reveal_strlit(" #");
        reveal_strlit("symbol #");
    }
    match end {
        End::Symbol(i) => {
            let n = dec_chars(i + 1);
            if i < symbols.len() {
                match &symbols[i].tag {
                    Some(t) => t.clone(),
                    None => {
                        let mut out = chars_of(symbols[i].label.as_str());
                        let mark = chars_of(" #");
                        crate::text::append(&mut out, mark.as_slice());
                        crate::text::append(&mut out, n.as_slice());
                        assert(out@ =~= symbols@[i as int].label@ + seq![' ', '#'] + dec_digits(
                            (i + 1) as nat,
                        ));
                        string_of(out.as_slice())
                    },
                }
            } else {
                let mut out = chars_of("symbol #");
                crate::text::append(&mut out, n.as_slice());
                string_of(out.as_slice())
            }
        },
        End::Tee => {
            let t = chars_of("tee");
            string_of(t.as_slice())
        },
        End::Open => {
            let t = chars_of("open");
            string_of(t.as_slice())
        },
        End::Loop => {
            let t = chars_of("loop");
            string_of(t.as_slice())
        },
    }
}

/// `s` with each value after its first occurrence left out.
pub open spec fn distinct(s: Seq<Seq<char>>) -> Seq<Seq<char>>
    decreases s.len(),
{
    if s.len() == 0 {
        Seq::<Seq<char>>::empty()
    } else {
        let d = distinct(s.drop_last());
        if d.contains(s.last()) {
            d
        } else {
            d.push(s.last())
        }
    }
}

/// The `from` and `to` cells of a line's row: the distinct names of the
/// first and of the second ends of the runs carrying the line, in run
/// order, so an in-line chain keeps every valve along it.
pub fn line_endpoints(ends: &[(End, End)], symbols: &[SymbolName]) -> (r: (Vec<String>, Vec<String>))
    requires
        forall|i: int| 0 <= i < ends@.len() ==> numbered((#[trigger] ends@[i]).0) && numbered(ends@[i].1),
    ensures
        views(r.0@) == distinct(
            ends@.map_values(|e: (End, End)| end_text(e.0, symbol_names_view(symbols@))),
        ),
        views(r.1@) == distinct(
            ends@.map_values(|e: (End, End)| end_text(e.1, symbol_names_view(symbols@))),
        ),
{
    let ghost sv = symbol_names_view(symbols@);
    let ghost froms = ends@.map_values(|e: (End, End)| end_text(e.0, sv));
    let ghost tos = ends@.map_values(|e: (End, End)| end_text(e.1, sv));
    let mut from: Vec<String> = Vec::new();
    let mut to: Vec<String> = Vec::new();
    let mut i: usize = 0;
    while i < ends.len()
        invariant
            i <= ends@.len(),
            sv == symbol_names_view(symbols@),
            froms == ends@.map_values(|e: (End, End)| end_text(e.0, sv)),
            tos == ends@.map_values(|e: (End, End)| end_text(e.1, sv)),
            forall|k: int| 0 <= k < ends@.len() ==> numbered((#[trigger] ends@[k]).0) && numbered(ends@[k].1),
            views(from@) == distinct(froms.take(i as int)),
            views(to@) == distinct(tos.take(i as int)),
        decreases ends@.len() - i,
    {
        let (a, b) = ends[i];
        assert(froms.take(i + 1).drop_last() =~= froms.take(i as int));
        assert(tos.take(i + 1).drop_last() =~= tos.take(i as int));
        let ta = end_csv(a, symbols);
        let tb = end_csv(b, symbols);
        push_unique(&mut from, ta);
        push_unique(&mut to, tb);
        i += 1;
    }
    assert(froms.take(ends@.len() as int) =~= froms);
    assert(tos.take(ends@.len() as int) =~= tos);
    (from, to)
}

// ── reading a cell back ─────────────────────────────────────────────────

/// The text inside a quoted CSV field, each `""` read as one `"`; `None`
/// when a quote stands alone.
pub open spec fn unescaped(s: Seq<char>) -> Option<Seq<char>>
    decreases s.len(),
{
    if s.len() == 0 {
        Some(Seq::<char>::empty())
    } else if s.last() == '"' {
        if s.len() >= 2 && s[s.len() - 2] == '"' {
            match unescaped(s.take(s.len() - 2)) {
                Some(r) => Some(r.push('"')),
                None => None,
            }
        } else {
            None
        }
    } else {
        match unescaped(s.drop_last()) {
            Some(r) => Some(r.push(s.last())),
            None => None,
        }
    }
}

/// One CSV field read as RFC 4180 reads it: a field in quotes is the text
/// between them with its doubled quotes undone; a field not in quotes may
/// hold no comma, quote or line break and is itself.
pub open spec fn field_value(c: Seq<char>) -> Option<Seq<char>> {
    if c.len() >= 2 && c[0] == '"' && c.last() == '"' {
        unescaped(c.subrange(1, c.len() - 1))
    } else if exists|i: int|
        0 <= i < c.len() && (#[trigger] c[i] == ',' || c[i] == '"' || c[i] == '\r' || c[i] == '\n') {
        None
    } else {
        Some(c)
    }
}

proof fn lemma_unescaped_doubled(s: Seq<char>)
    ensures
        unescaped(doubled_quotes(s)) == Some(s),
    decreases s.len(),
{
    if s.len() > 0 {
        let init = s.drop_last();
        lemma_unescaped_doubled(init);
        let t = doubled_quotes(s);
        if s.last() == '"' {
            assert(t == doubled_quotes(init) + seq!['"', '"']);
            assert(t.take(t.len() - 2) =~= doubled_quotes(init));
            assert(init.push('"') =~= s);
        } else {
            assert(t == doubled_quotes(init).push(s.last()));
            assert(t.drop_last() =~= doubled_quotes(init));
            assert(init.push(s.last()) =~= s);
        }
    }
}

/// Every value written as a CSV cell reads back as itself: a cell that
/// holds a comma, a quote or a line break is quoted with its quotes
/// doubled, so no cell breaks the row it stands in; any other value is
/// written bare.
pub proof fn law_a_cell_reads_back_as_its_value(value: Seq<char>)
    ensures
        field_value(cell(value)) == Some(value),
        (forall|i: int|
            0 <= i < value.len() ==> #[trigger] value[i] != ',' && value[i] != '"' && value[i] != '\r' && value[i]
                != '\n') ==> cell(value) == value,
{
    let c = cell(value);
    if needs_quotes(value) {
        let d = doubled_quotes(value);
        assert(c == seq!['"'] + d + seq!['"']);
        assert(c[0] == '"');
        assert(c.last() == '"');
        assert(c.subrange(1, c.len() - 1) =~= d);
        lemma_unescaped_doubled(value);
    } else {
        if c.len() >= 2 && c[0] == '"' {
            assert(needs_quotes(value));
        }
    }
}

} // verus!
