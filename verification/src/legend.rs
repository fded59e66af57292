//! The legend's layers: `PID-LEGEND-<CLASS>` for a symbol class,
//! `PID-PIPE-<line number>` for the runs on a line, and the colours a line
//! and an unnamed shape are given.

use vstd::prelude::*;

use vstd::string::StringSliceAdditionalSpecFns;

use crate::sorted::sorted_unique;
use crate::text::{ascii_upper, chars_of, concat, has_prefix, same, starts_with, string_of, upper_seq};

verus! {

/// Every legend layer starts with this; the rest is the class in upper case.
pub const LAYER_PREFIX: &'static str = "PID-LEGEND-";

/// Layer that unnamed exploded shapes go on.
pub const SHAPE_LAYER: &'static str = "PID-LEGEND-SHAPE";

/// Every pipe layer starts with this; the rest is the line number.
pub const PIPE_LAYER_PREFIX: &'static str = "PID-PIPE-";

/// Layer of the runs on no numbered line.
pub const PIPE_NONE_LAYER: &'static str = "PID-PIPE-NONE";

/// Colour of [`PIPE_NONE_LAYER`]: grey.
pub const PIPE_NONE_COLOR: [u8; 3] = [128, 128, 128];

/// Class prefix of an exploded shape the dictionary does not name.
pub const SHAPE_CLASS_PREFIX: &'static str = "shape-";

pub open spec fn layer_prefix() -> Seq<char> {
    seq!['P', 'I', 'D', '-', 'L', 'E', 'G', 'E', 'N', 'D', '-']
}

pub open spec fn shape_layer() -> Seq<char> {
    layer_prefix() + seq!['S', 'H', 'A', 'P', 'E']
}

pub open spec fn pipe_prefix() -> Seq<char> {
    seq!['P', 'I', 'D', '-', 'P', 'I', 'P', 'E', '-']
}

pub open spec fn pipe_none_layer() -> Seq<char> {
    pipe_prefix() + seq!['N', 'O', 'N', 'E']
}

pub open spec fn shape_class_prefix() -> Seq<char> {
    seq!['s', 'h', 'a', 'p', 'e', '-']
}

/// The layer a class's rectangles and labels go on: the shape layer for an
/// unnamed shape, else the class in capitals after the legend prefix.
pub open spec fn class_layer(class: Seq<char>) -> Seq<char> {
    if starts_with(class, shape_class_prefix()) {
        shape_layer()
    } else {
        layer_prefix() + upper_seq(class)
    }
}

fn literal(s: &str, Ghost(want): Ghost<Seq<char>>) -> (v: Vec<char>)
    requires
        s@ == want,
    ensures
        v@ == want,
{
    chars_of(s)
}

fn layer_prefix_chars() -> (v: Vec<char>)
    ensures
        v@ == layer_prefix(),
{
    proof {
        reveal_strlit("PID-LEGEND-");
    }
    assert(LAYER_PREFIX@ =~= layer_prefix());
    literal(LAYER_PREFIX, Ghost(layer_prefix()))
}

fn pipe_prefix_chars() -> (v: Vec<char>)
    ensures
        v@ == pipe_prefix(),
{
    proof {
        reveal_strlit("PID-PIPE-");
    }
    assert(PIPE_LAYER_PREFIX@ =~= pipe_prefix());
    literal(PIPE_LAYER_PREFIX, Ghost(pipe_prefix()))
}

/// Whether `class` is an exploded shape nothing has named yet.
pub fn is_shape_class(class: &str) -> (b: bool)
    ensures
        b == starts_with(class@, shape_class_prefix()),
{
    proof {
        reveal_strlit("shape-");
    }
    assert(SHAPE_CLASS_PREFIX@ =~= shape_class_prefix());
    let c = chars_of(class);
    let p = literal(SHAPE_CLASS_PREFIX, Ghost(shape_class_prefix()));
    has_prefix(c.as_slice(), p.as_slice())
}

/// The layer a class's rectangles and labels go on.
pub fn layer_for_class(class: &str) -> (layer: String)
    ensures
        layer@ == class_layer(class@),
{
    if is_shape_class(class) {
        proof {
            reveal_strlit("PID-LEGEND-SHAPE");
        }
        assert(SHAPE_LAYER@ =~= shape_layer());
        let v = literal(SHAPE_LAYER, Ghost(shape_layer()));
        return string_of(v.as_slice());
    }
    let prefix = layer_prefix_chars();
    let upper = ascii_upper(chars_of(class).as_slice());
    string_of(concat(prefix.as_slice(), upper.as_slice()).as_slice())
}

/// The layer the runs carrying `line` are drawn on.
pub fn pipe_layer(line: &str) -> (layer: String)
    ensures
        layer@ == pipe_prefix() + line@,
{
    let prefix = pipe_prefix_chars();
    string_of(concat(prefix.as_slice(), chars_of(line).as_slice()).as_slice())
}

/// Whether `layer` is one the legend writes to: a class layer or a pipe
/// layer.
pub fn is_legend_layer(layer: &str) -> (b: bool)
    ensures
        b == (starts_with(layer@, layer_prefix()) || starts_with(layer@, pipe_prefix())),
{
    let l = chars_of(layer);
    let a = layer_prefix_chars();
    let p = pipe_prefix_chars();
    has_prefix(l.as_slice(), a.as_slice()) || has_prefix(l.as_slice(), p.as_slice())
}

/// The layers a run carrying `lines` is drawn on: one per line number, so
/// each line's layer shows the whole line; [`PIPE_NONE_LAYER`] for a run on
/// none.
pub fn run_layers(lines: &[String]) -> (layers: Vec<String>)
    ensures
        lines@.len() == 0 ==> layers@.len() == 1 && layers@[0]@ == pipe_none_layer(),
        lines@.len() > 0 ==> layers@.len() == lines@.len() && forall|i: int|
            0 <= i < lines@.len() ==> #[trigger] layers@[i]@ == pipe_prefix() + lines@[i]@,
{
    let mut out: Vec<String> = Vec::new();
    if lines.len() == 0 {
        proof {
            reveal_strlit("PID-PIPE-NONE");
        }
        assert(PIPE_NONE_LAYER@ =~= pipe_none_layer());
        let v = literal(PIPE_NONE_LAYER, Ghost(pipe_none_layer()));
        out.push(string_of(v.as_slice()));
        return out;
    }
    let mut i: usize = 0;
    while i < lines.len()
        invariant
            i <= lines@.len(),
            out@.len() == i,
            forall|k: int| 0 <= k < i ==> #[trigger] out@[k]@ == pipe_prefix() + lines@[k]@,
        decreases lines@.len() - i,
    {
        out.push(pipe_layer(lines[i].as_str()));
        i += 1;
    }
    out
}

// ── colours ─────────────────────────────────────────────────────────────

pub open spec fn fnv_offset() -> u64 {
    0xcbf2_9ce4_8422_2325
}

pub open spec fn fnv_prime() -> u64 {
    0x0000_0100_0000_01b3
}

/// The FNV-1a hash of `bytes`, 64 bits.
pub open spec fn fnv(bytes: Seq<u8>) -> u64
    decreases bytes.len(),
{
    if bytes.len() == 0 {
        fnv_offset()
    } else {
        let h = fnv(bytes.drop_last()) ^ (bytes.last() as u64);
        ((h as nat * fnv_prime() as nat) % 0x1_0000_0000_0000_0000) as u64
    }
}

/// The FNV-1a hash of `bytes`, 64 bits.
pub fn fnv1a(bytes: &[u8]) -> (h: u64)
    ensures
        h == fnv(bytes@),
{
    let mut h: u64 = 0xcbf2_9ce4_8422_2325;
    let mut i: usize = 0;
    assert(bytes@.take(0) =~= Seq::<u8>::empty());
    while i < bytes.len()
        invariant
            i <= bytes@.len(),
            h == fnv(bytes@.take(i as int)),
        decreases bytes@.len() - i,
    {
        assert(bytes@.take(i + 1).drop_last() =~= bytes@.take(i as int));
        assert(bytes@.take(i + 1).last() == bytes@[i as int]);
        h = h ^ (bytes[i] as u64);
        h = h.wrapping_mul(0x0000_0100_0000_01b3);
        i += 1;
    }
    assert(bytes@.take(bytes@.len() as int) =~= bytes@);
    h
}

/// The light channel of the colour wheel at `hue`: a tent that rises from
/// 43 to 238 over a sector and falls back over the next.
pub open spec fn ramp(hue: int) -> int {
    let j = hue % 120;
    let t = if j < 60 {
        j
    } else {
        120 - j
    };
    (325125 * t + 4321250) / 100000
}

/// A saturated, mid-light colour (saturation 0.85, lightness 0.55) at hue
/// `hash % 360` degrees, each channel rounded to a byte.
pub open spec fn hue_color(hash: u64) -> [u8; 3] {
    let hue = (hash % 360) as int;
    let x = ramp(hue) as u8;
    let sector = hue / 60;
    if sector == 0 {
        [238, x, 43]
    } else if sector == 1 {
        [x, 238, 43]
    } else if sector == 2 {
        [43, 238, x]
    } else if sector == 3 {
        [43, x, 238]
    } else if sector == 4 {
        [x, 43, 238]
    } else {
        [238, 43, x]
    }
}

proof fn lemma_ramp_bounds(hue: int)
    requires
        0 <= hue < 360,
    ensures
        43 <= ramp(hue) <= 238,
{
    let j = hue % 120;
    let t = if j < 60 {
        j
    } else {
        120 - j
    };
    assert(0 <= t <= 60);
    assert(4321250 <= 325125 * t + 4321250 <= 23828750) by (nonlinear_arith)
        requires
            0 <= t <= 60,
    ;
}

/// A saturated, mid-light colour that differs between shape ids. The
/// brightest channel is always 238 and the darkest 43.
pub fn hash_color(hash: u64) -> (rgb: [u8; 3])
    ensures
        rgb == hue_color(hash),
        rgb[0] >= 200 || rgb[1] >= 200 || rgb[2] >= 200,
        43 <= rgb[0] <= 238 && 43 <= rgb[1] <= 238 && 43 <= rgb[2] <= 238,
{
    let hue: u64 = hash % 360;
    proof {
        lemma_ramp_bounds(hue as int);
    }
    let j: u64 = hue % 120;
    let t: u64 = if j < 60 {
        j
    } else {
        120 - j
    };
    assert(325125 * t + 4321250 <= 23828750) by (nonlinear_arith)
        requires
            t <= 60,
    ;
    let x: u8 = ((325125 * t + 4321250) / 100000) as u8;
    let sector = hue / 60;
    if sector == 0 {
        [238, x, 43]
    } else if sector == 1 {
        [x, 238, 43]
    } else if sector == 2 {
        [43, 238, x]
    } else if sector == 3 {
        [43, x, 238]
    } else if sector == 4 {
        [x, 43, 238]
    } else {
        [238, 43, x]
    }
}

/// A line's colour: its number hashed, so the same line is the same colour
/// on every sheet.
pub fn line_color(line: &str) -> (rgb: [u8; 3])
    ensures
        rgb == hue_color(fnv(line.spec_bytes())),
{
    hash_color(fnv1a(line.as_bytes()))
}

// ── the layers and their colours ────────────────────────────────────────

/// A line's colour as [`line_color`] gives it.
pub open spec fn line_hue(line: Seq<char>) -> [u8; 3] {
    hue_color(fnv(vstd::utf8::encode_utf8(line)))
}

/// Layer names with colours, as text.
pub open spec fn entry_views(v: Seq<(String, [u8; 3])>) -> Seq<(Seq<char>, [u8; 3])> {
    v.map_values(|e: (String, [u8; 3])| (e.0@, e.1))
}

/// Layer name -> colour, a later entry for a name replacing an earlier one.
pub open spec fn layer_map(entries: Seq<(Seq<char>, [u8; 3])>) -> Map<Seq<char>, [u8; 3]>
    decreases entries.len(),
{
    if entries.len() == 0 {
        Map::empty()
    } else {
        layer_map(entries.drop_last()).insert(entries.last().0, entries.last().1)
    }
}

/// `out` holds the layers of `entries` by name, each once, with the colour
/// the last entry for it gives.
pub open spec fn layers_of(out: Seq<(String, [u8; 3])>, entries: Seq<(Seq<char>, [u8; 3])>) -> bool {
    let names = out.map_values(|e: (String, [u8; 3])| e.0@);
    &&& sorted_unique(names)
    &&& names.to_set() == layer_map(entries).dom()
    &&& forall|k: int| 0 <= k < out.len() ==> (#[trigger] out[k]).1 == layer_map(entries)[out[k].0@]
}

/// The layers of a run carrying `lines`: each line's layer in the line's
/// colour, or the layer of no line in grey.
pub open spec fn run_entries(lines: Seq<Seq<char>>) -> Seq<(Seq<char>, [u8; 3])> {
    if lines.len() == 0 {
        seq![(pipe_none_layer(), [128u8, 128u8, 128u8])]
    } else {
        lines.map_values(|l: Seq<char>| (pipe_prefix() + l, line_hue(l)))
    }
}

/// The layers of the runs, each run given by the line numbers it carries,
/// in run order.
pub open spec fn pipe_entries(runs: Seq<Seq<Seq<char>>>) -> Seq<(Seq<char>, [u8; 3])>
    decreases runs.len(),
{
    if runs.len() == 0 {
        Seq::empty()
    } else {
        pipe_entries(runs.drop_last()) + run_entries(runs.last())
    }
}

/// The runs' line numbers, as text.
pub open spec fn runs_view(runs: Seq<Vec<String>>) -> Seq<Seq<Seq<char>>> {
    runs.map_values(|r: Vec<String>| crate::text::views(r@))
}

/// The layer of a symbol of `class` drawn in `color`: an unnamed shape goes
/// on the shape layer, white.
pub open spec fn symbol_entry(class: Seq<char>, color: [u8; 3]) -> (Seq<char>, [u8; 3]) {
    if starts_with(class, shape_class_prefix()) {
        (shape_layer(), [255u8, 255u8, 255u8])
    } else {
        (class_layer(class), color)
    }
}

/// The layers of the symbols, each given by its class and colour.
pub open spec fn symbol_entries(symbols: Seq<(String, [u8; 3])>) -> Seq<(Seq<char>, [u8; 3])> {
    symbols.map_values(|s: (String, [u8; 3])| symbol_entry(s.0@, s.1))
}

proof fn lemma_layer_map_dom(entries: Seq<(Seq<char>, [u8; 3])>)
    ensures
        layer_map(entries).dom() == entries.map_values(|e: (Seq<char>, [u8; 3])| e.0).to_set(),
    decreases entries.len(),
{
    let names = entries.map_values(|e: (Seq<char>, [u8; 3])| e.0);
    if entries.len() == 0 {
        assert(names.to_set() =~= Set::<Seq<char>>::empty());
        assert(layer_map(entries).dom() =~= Set::<Seq<char>>::empty());
    } else {
        lemma_layer_map_dom(entries.drop_last());
        let prev = entries.drop_last().map_values(|e: (Seq<char>, [u8; 3])| e.0);
        assert(names =~= prev.push(entries.last().0));
        crate::sorted::lemma_push_to_set(prev, entries.last().0);
        assert(layer_map(entries).dom() =~= names.to_set());
    }
}

proof fn lemma_layer_map_last(entries: Seq<(Seq<char>, [u8; 3])>, j: int)
    requires
        0 <= j < entries.len(),
        forall|q: int| j < q < entries.len() ==> (#[trigger] entries[q]).0 != entries[j].0,
    ensures
        layer_map(entries).dom().contains(entries[j].0),
        layer_map(entries)[entries[j].0] == entries[j].1,
    decreases entries.len(),
{
    if j < entries.len() - 1 {
        let d = entries.drop_last();
        assert forall|q: int| j < q < d.len() implies (#[trigger] d[q]).0 != d[j].0 by {
            assert(d[q] == entries[q]);
        }
        lemma_layer_map_last(d, j);
        assert(entries.last() == entries[entries.len() - 1]);
    }
}

fn run_entries_exec(lines: &Vec<String>, out: &mut Vec<(String, [u8; 3])>)
    ensures
        entry_views(final(out)@) == entry_views(old(out)@) + run_entries(crate::text::views(lines@)),
{
    let ghost start = entry_views(out@);
    if lines.len() == 0 {
        proof {
            reveal_strlit("PID-PIPE-NONE");
        }
        assert(PIPE_NONE_LAYER@ =~= pipe_none_layer());
        let v = literal(PIPE_NONE_LAYER, Ghost(pipe_none_layer()));
        out.push((string_of(v.as_slice()), PIPE_NONE_COLOR));
        assert(entry_views(out@) =~= start + run_entries(crate::text::views(lines@)));
        return;
    }
    let ghost lv = crate::text::views(lines@);
    let mut i: usize = 0;
    while i < lines.len()
        invariant
            i <= lines@.len(),
            lv == crate::text::views(lines@),
            lv.len() > 0,
            entry_views(out@) == start + lv.take(i as int).map_values(
                |l: Seq<char>| (pipe_prefix() + l, line_hue(l)),
            ),
        decreases lines@.len() - i,
    {
        let layer = pipe_layer(lines[i].as_str());
        let color = line_color(lines[i].as_str());
        assert(lv[i as int] == lines@[i as int]@);
        assert(color == line_hue(lv[i as int]));
        let ghost before = entry_views(out@);
        out.push((layer, color));
        assert(entry_views(out@) =~= before.push((pipe_prefix() + lv[i as int], line_hue(lv[i as int]))));
        assert(entry_views(out@) =~= start + lv.take(i + 1).map_values(
            |l: Seq<char>| (pipe_prefix() + l, line_hue(l)),
        ));
        i += 1;
    }
    assert(lv.take(lv.len() as int) =~= lv);
}

fn pipe_entries_exec(runs: &[Vec<String>], out: &mut Vec<(String, [u8; 3])>)
    ensures
        entry_views(final(out)@) == entry_views(old(out)@) + pipe_entries(runs_view(runs@)),
{
    let ghost start = entry_views(out@);
    let ghost rv = runs_view(runs@);
    let mut j: usize = 0;
    assert(start + pipe_entries(rv.take(0)) =~= start);
    while j < runs.len()
        invariant
            j <= runs@.len(),
            rv == runs_view(runs@),
            entry_views(out@) == start + pipe_entries(rv.take(j as int)),
        decreases runs@.len() - j,
    {
        run_entries_exec(&runs[j], out);
        assert(rv.take(j + 1).drop_last() =~= rv.take(j as int));
        assert(rv.take(j + 1).last() == crate::text::views(runs@[j as int]@));
        assert(entry_views(out@) =~= start + pipe_entries(rv.take(j + 1)));
        j += 1;
    }
    assert(rv.take(rv.len() as int) =~= rv);
}

/// The layers of `entries`, each once, sorted by name, with the colour of
/// the last entry for it.
fn layers_from(entries: &Vec<(String, [u8; 3])>) -> (out: Vec<(String, [u8; 3])>)
    ensures
        layers_of(out@, entry_views(entries@)),
{
    let ghost ev = entry_views(entries@);
    let ghost en = ev.map_values(|e: (Seq<char>, [u8; 3])| e.0);
    let mut names: Vec<String> = Vec::new();
    let mut i: usize = 0;
    assert(crate::text::views(names@).to_set() =~= en.take(0).to_set());
    while i < entries.len()
        invariant
            i <= entries@.len(),
            ev == entry_views(entries@),
            en == ev.map_values(|e: (Seq<char>, [u8; 3])| e.0),
            sorted_unique(crate::text::views(names@)),
            crate::text::views(names@).to_set() == en.take(i as int).to_set(),
        decreases entries@.len() - i,
    {
        crate::sorted::insert_name(&mut names, entries[i].0.as_str());
        proof {
            crate::sorted::lemma_take_push_to_set(en, i as int);
        }
        i += 1;
    }
    proof {
        assert(en.take(en.len() as int) =~= en);
        lemma_layer_map_dom(ev);
    }
    let mut out: Vec<(String, [u8; 3])> = Vec::new();
    let mut k: usize = 0;
    while k < names.len()
        invariant
            k <= names@.len(),
            ev == entry_views(entries@),
            en == ev.map_values(|e: (Seq<char>, [u8; 3])| e.0),
            crate::text::views(names@).to_set() == en.to_set(),
            layer_map(ev).dom() == en.to_set(),
            out@.len() == k,
            forall|a: int| 0 <= a < k ==> (#[trigger] out@[a]).0@ == names@[a]@,
            forall|a: int| 0 <= a < k ==> (#[trigger] out@[a]).1 == layer_map(ev)[out@[a].0@],
        decreases names@.len() - k,
    {
        let key = chars_of(names[k].as_str());
        assert(crate::text::views(names@)[k as int] == key@);
        assert(en.to_set().contains(key@));
        let mut j: usize = entries.len();
        while j > 0 && !same(chars_of(entries[j - 1].0.as_str()).as_slice(), key.as_slice())
            invariant
                j <= entries@.len(),
                ev == entry_views(entries@),
                forall|q: int| j <= q < entries@.len() ==> (#[trigger] ev[q]).0 != key@,
            decreases j,
        {
            j -= 1;
        }
        proof {
            if j == 0 {
                let q = choose|q: int| 0 <= q < en.len() && #[trigger] en[q] == key@;
                assert(ev[q].0 == key@);
            }
        }
        let jj = j - 1;
        proof {
            lemma_layer_map_last(ev, jj as int);
        }
        let color = entries[jj].1;
        out.push((string_of(key.as_slice()), color));
        k += 1;
    }
    assert(out@.map_values(|e: (String, [u8; 3])| e.0@) =~= crate::text::views(names@));
    out
}

/// Layer name -> colour for the pipe runs, each run given by the line
/// numbers it carries: a colour of its own per line number, derived from
/// the number so the same line is the same colour on every sheet; grey for
/// the runs on no numbered line. Sorted by layer name.
pub fn pipe_layers(runs: &[Vec<String>]) -> (layers: Vec<(String, [u8; 3])>)
    ensures
        layers_of(layers@, pipe_entries(runs_view(runs@))),
{
    let mut entries: Vec<(String, [u8; 3])> = Vec::new();
    assert(entry_views(entries@) =~= Seq::<(Seq<char>, [u8; 3])>::empty());
    pipe_entries_exec(runs, &mut entries);
    assert(entry_views(entries@) =~= pipe_entries(runs_view(runs@)));
    layers_from(&entries)
}

/// Layer name -> colour for every class among the symbols (each given by
/// its class and colour) and every line number the runs carry. Unnamed
/// shapes share the shape layer, white. Sorted by layer name; where two
/// symbols of one class differ in colour, the later one's stands.
pub fn legend_layers(symbols: &[(String, [u8; 3])], runs: &[Vec<String>]) -> (layers: Vec<
    (String, [u8; 3]),
>)
    ensures
        layers_of(layers@, symbol_entries(symbols@) + pipe_entries(runs_view(runs@))),
{
    let mut entries: Vec<(String, [u8; 3])> = Vec::new();
    let mut i: usize = 0;
    assert(entry_views(entries@) =~= symbol_entries(symbols@.take(0)));
    while i < symbols.len()
        invariant
            i <= symbols@.len(),
            entry_views(entries@) == symbol_entries(symbols@.take(i as int)),
        decreases symbols@.len() - i,
    {
        let class = symbols[i].0.as_str();
        let ghost before = entry_views(entries@);
        let ghost want = symbol_entry(symbols@[i as int].0@, symbols@[i as int].1);
        assert(symbols@.take(i + 1) =~= symbols@.take(i as int).push(symbols@[i as int]));
        if is_shape_class(class) {
            proof {
                reveal_strlit("PID-LEGEND-SHAPE");
            }
            assert(SHAPE_LAYER@ =~= shape_layer());
            let v = literal(SHAPE_LAYER, Ghost(shape_layer()));
            entries.push((string_of(v.as_slice()), [255u8, 255u8, 255u8]));
        } else {
            entries.push((layer_for_class(class), symbols[i].1));
        }
        assert(entry_views(entries@) =~= before.push(want));
        assert(entry_views(entries@) =~= symbol_entries(symbols@.take(i + 1)));
        i += 1;
    }
    assert(symbols@.take(symbols@.len() as int) =~= symbols@);
    let ghost sym = entry_views(entries@);
    pipe_entries_exec(runs, &mut entries);
    layers_from(&entries)
}

} // verus!
