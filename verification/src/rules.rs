//! The plain records of the legend rules and of what recognition reports,
//! and the rule checks that need no geometry: how long a tag must be, which
//! layer rule a block falls back to, what a circle's inner lettering must
//! say.

use vstd::prelude::*;

use crate::tags::{composed, compose_tag, shape_match, shape_matches, TagSource};
use crate::text::{chars_of, joined, same, starts_with, string_of, strings_of, trim, trimmed, views};

verus! {

/// How lettering that has the shape of a tag but that no symbol claimed is
/// sorted, `orphans` in the rules JSON.
#[derive(Debug, Clone, Copy, PartialEq, Eq, Structural)]
pub struct OrphanRules {
    /// Report lettering whose value a symbol already carries as its tag as
    /// an orphan too. Off (the default), such lettering is listed as a
    /// duplicate instead.
    pub claimed_elsewhere: bool,
}

impl Default for OrphanRules {
    fn default() -> (o: OrphanRules)
        ensures
            !o.claimed_elsewhere,
    {
        OrphanRules { claimed_elsewhere: false }
    }
}

/// Where pipe joins a block that carries no connection `POINT`.
#[derive(Debug, Clone, Copy, PartialEq, Eq, Structural)]
pub enum PortRule {
    /// Its insertion point: the sheet connector, the foam interface.
    Insertion,
    /// The far end of the block along its stem, where the block's geometry
    /// stops.
    StemEnd,
}

/// A fallback for block ids the dictionary has not met: the layer they are
/// placed on says what family they belong to.
#[derive(Debug, Clone, PartialEq, Eq)]
pub struct LayerPrefixRule {
    pub prefix: String,
    pub class: String,
    pub label: String,
}

/// A bubble drawn inside a square of loose lines is panel-mounted rather
/// than field-mounted; this promotes it to its own class.
#[derive(Debug, Clone, PartialEq, Eq)]
pub struct PanelBubbleRule {
    /// Circle class this applies to.
    pub from: String,
    pub class: String,
    pub label: String,
    pub color: [u8; 3],
    /// Loose lines of length about 2r with both ends near the centre.
    pub min_lines: usize,
}

/// The class a tag names by its shape.
#[derive(Debug, Clone, PartialEq, Eq)]
pub struct TagClass {
    pub class: String,
    pub label: String,
    pub color: [u8; 3],
}

/// A rule that names a class for lettering of one tag shape: a tag class
/// of the exploded family, a block rule (of a block name or of the shape
/// dictionary) or a circle rule. A rule without a shape names nothing.
#[derive(Debug, Clone, PartialEq, Eq)]
pub struct ShapeClass {
    pub shape: Option<String>,
    pub class: TagClass,
}

/// The rules a tag's class is looked up in, each list in the order the
/// rule set gives it.
#[derive(Debug, Clone, PartialEq, Eq)]
pub struct TagClassRules {
    pub tag_classes: Vec<ShapeClass>,
    /// The block rules by block name, then the shape dictionary's.
    pub blocks: Vec<ShapeClass>,
    pub circles: Vec<ShapeClass>,
}

/// The class of rules that recognise what is not a symbol.
pub const IGNORE_CLASS: &'static str = "ignore";

/// The text before the first ` + ` of `s`, all of `s` when it has none.
pub open spec fn before_plus(s: Seq<char>) -> Seq<char>
    decreases s.len(),
{
    if s.len() < 3 {
        s
    } else if s.take(3) == seq![' ', '+', ' '] {
        Seq::<char>::empty()
    } else {
        seq![s[0]] + before_plus(s.drop_first())
    }
}

/// Whether `rule` has a shape that fits `value`.
pub open spec fn rule_fits(rule: ShapeClass, value: Seq<char>) -> bool {
    rule.shape matches Some(shape) && shape_match(shape@, value)
}

/// Whether block rule `rule` names `value`: an ignoring rule never does.
pub open spec fn block_fits(rule: ShapeClass, value: Seq<char>) -> bool {
    rule.class.class@ != IGNORE_CLASS@ && rule_fits(rule, value)
}

/// The first of `rules` that fits `value` (block rules when `blocks`).
pub open spec fn first_fit(rules: Seq<ShapeClass>, value: Seq<char>, blocks: bool) -> Option<int>
    decreases rules.len(),
{
    if rules.len() == 0 {
        None
    } else {
        match first_fit(rules.drop_last(), value, blocks) {
            Some(i) => Some(i),
            None => if (if blocks {
                block_fits(rules.last(), value)
            } else {
                rule_fits(rules.last(), value)
            }) {
                Some(rules.len() - 1)
            } else {
                None
            },
        }
    }
}

/// The class a tag names by its shape: the tag classes first, then the
/// block rules, then the circle rules; an assembly `A + B` goes by its
/// first tag.
pub open spec fn class_of_tag(tag: Seq<char>, rules: TagClassRules) -> Option<TagClass> {
    let first = trim(before_plus(tag));
    match first_fit(rules.tag_classes@, first, false) {
        Some(i) => Some(rules.tag_classes@[i].class),
        None => match first_fit(rules.blocks@, first, true) {
            Some(i) => Some(rules.blocks@[i].class),
            None => match first_fit(rules.circles@, first, false) {
                Some(i) => Some(rules.circles@[i].class),
                None => None,
            },
        },
    }
}

fn first_piece(tag: &[char]) -> (out: Vec<char>)
    ensures
        out@ == before_plus(tag@),
{
    let mut i: usize = 0;
    assert(tag@.skip(0) =~= tag@);
    while tag.len() - i >= 3 && !(tag[i] == ' ' && tag[i + 1] == '+' && tag[i + 2] == ' ')
        invariant
            i <= tag@.len(),
            before_plus(tag@) == tag@.take(i as int) + before_plus(tag@.skip(i as int)),
        decreases tag@.len() - i,
    {
        let ghost rest = tag@.skip(i as int);
        assert(rest.take(3) != seq![' ', '+', ' ']) by {
            if rest.take(3) == seq![' ', '+', ' '] {
                assert(rest.take(3)[0] == tag@[i as int]);
                assert(rest.take(3)[1] == tag@[i + 1]);
                assert(rest.take(3)[2] == tag@[i + 2]);
            }
        }
        assert(rest.drop_first() =~= tag@.skip(i + 1));
        assert(tag@.take(i + 1) =~= tag@.take(i as int) + seq![rest[0]]);
        i += 1;
    }
    if tag.len() - i >= 3 {
        let ghost rest = tag@.skip(i as int);
        assert(rest.take(3) =~= seq![' ', '+', ' ']);
        assert(before_plus(tag@) =~= tag@.take(i as int));
    } else {
        assert(before_plus(tag@) =~= tag@.take(i as int) + tag@.skip(i as int));
        assert(tag@.take(i as int) + tag@.skip(i as int) =~= tag@);
    }
    crate::text::slice_of(tag, 0, if tag.len() - i >= 3 { i } else { tag.len() })
}

fn first_fitting(rules: &Vec<ShapeClass>, value: &str, blocks: bool) -> (out: Option<usize>)
    ensures
        match out {
            Some(i) => i < rules@.len() && first_fit(rules@, value@, blocks) == Some(i as int),
            None => first_fit(rules@, value@, blocks) is None,
        },
{
    let ignore = chars_of(IGNORE_CLASS);
    let mut i: usize = 0;
    assert(rules@.take(0) =~= Seq::<ShapeClass>::empty());
    while i < rules.len()
        invariant
            i <= rules@.len(),
            ignore@ == IGNORE_CLASS@,
            first_fit(rules@.take(i as int), value@, blocks) is None,
        decreases rules@.len() - i,
    {
        assert(rules@.take(i + 1).drop_last() =~= rules@.take(i as int));
        let rule = &rules[i];
        let fits = match &rule.shape {
            Some(shape) => shape_matches(shape.as_str(), value),
            None => false,
        };
        let counts = if blocks {
            fits && !same(chars_of(rule.class.class.as_str()).as_slice(), ignore.as_slice())
        } else {
            fits
        };
        if counts {
            proof {
                lemma_first_fit_prefix(rules@, value@, blocks, i + 1, i as int);
            }
            return Some(i);
        }
        i += 1;
    }
    assert(rules@.take(rules@.len() as int) =~= rules@);
    None
}

proof fn lemma_first_fit_prefix(
    rules: Seq<ShapeClass>,
    value: Seq<char>,
    blocks: bool,
    n: int,
    k: int,
)
    requires
        0 <= n <= rules.len(),
        first_fit(rules.take(n), value, blocks) == Some(k),
    ensures
        first_fit(rules, value, blocks) == Some(k),
    decreases rules.len() - n,
{
    if n < rules.len() {
        assert(rules.take(n + 1).drop_last() =~= rules.take(n));
        lemma_first_fit_prefix(rules, value, blocks, n + 1, k);
    } else {
        assert(rules.take(n) =~= rules);
    }
}

fn class_copy(c: &TagClass) -> (out: TagClass)
    ensures
        out == *c,
{
    TagClass { class: c.class.clone(), label: c.label.clone(), color: c.color }
}

/// The class a tag names by its shape: the tag classes (`BV9999*` is a ball
/// valve), then the block rules' tag shapes (`BUV-9999` a butterfly valve),
/// the circle rules'. A ` + ` assembly goes by its first tag. `None` when no
/// rule has the shape.
pub fn class_for_tag(tag: &str, rules: &TagClassRules) -> (out: Option<TagClass>)
    ensures
        out == class_of_tag(tag@, *rules),
{
    let t = chars_of(tag);
    let piece = first_piece(t.as_slice());
    let first = string_of(trimmed(piece.as_slice()).as_slice());
    match first_fitting(&rules.tag_classes, first.as_str(), false) {
        Some(i) => Some(class_copy(&rules.tag_classes[i].class)),
        None => match first_fitting(&rules.blocks, first.as_str(), true) {
            Some(i) => Some(class_copy(&rules.blocks[i].class)),
            None => match first_fitting(&rules.circles, first.as_str(), false) {
                Some(i) => Some(class_copy(&rules.circles[i].class)),
                None => None,
            },
        },
    }
}

/// The marked group a symbol came from.
#[derive(Debug, Clone, PartialEq, Eq)]
pub struct GroupOrigin {
    pub name: String,
    pub tag_source: TagSource,
}

/// Lettering that names several tags at once -- `XV-0407A～0409A` -- with
/// the tags it names, in order, and those of them no symbol carries.
#[derive(Debug, Clone, PartialEq, Eq)]
pub struct RangeAnnotation {
    pub value: String,
    /// The tags it names, in order.
    pub members: Vec<String>,
    /// Those of `members` no symbol carries.
    pub missing: Vec<String>,
}

/// The members no symbol carries, in order.
pub open spec fn not_carried(members: Seq<Seq<char>>, carried: Seq<Seq<char>>) -> Seq<Seq<char>> {
    members.filter(|m: Seq<char>| !carried.contains(m))
}

fn holds_text(values: &[String], v: &Vec<char>) -> (b: bool)
    ensures
        b == views(values@).contains(v@),
{
    let mut i: usize = 0;
    while i < values.len()
        invariant
            i <= values@.len(),
            forall|k: int| 0 <= k < i ==> values@[k]@ != v@,
        decreases values@.len() - i,
    {
        let c = chars_of(values[i].as_str());
        if same(c.as_slice(), v.as_slice()) {
            assert(views(values@)[i as int] == v@);
            return true;
        }
        i += 1;
    }
    proof {
        if views(values@).contains(v@) {
            let k = choose|k: int| 0 <= k < views(values@).len() && views(values@)[k] == v@;
            assert(values@[k]@ == v@);
        }
    }
    false
}

impl RangeAnnotation {
    /// The annotation `value` makes, naming `members`, checked against the
    /// tags the symbols carry.
    pub fn of(value: String, members: Vec<String>, carried: &[String]) -> (a: RangeAnnotation)
        ensures
            a.value == value,
            views(a.members@) == views(members@),
            views(a.missing@) == not_carried(views(members@), views(carried@)),
    {
        let ghost ms = views(members@);
        let ghost cs = views(carried@);
        let mut missing: Vec<String> = Vec::new();
        let mut i: usize = 0;
        assert(ms.take(0).filter(|m: Seq<char>| !cs.contains(m)) =~= Seq::<Seq<char>>::empty());
        while i < members.len()
            invariant
                i <= members@.len(),
                ms == views(members@),
                cs == views(carried@),
                views(missing@) == ms.take(i as int).filter(|m: Seq<char>| !cs.contains(m)),
            decreases members@.len() - i,
        {
            let m = chars_of(members[i].as_str());
            assert(ms.take(i + 1).drop_last() =~= ms.take(i as int));
            proof {
                ms.take(i + 1).filter_lemma(|m: Seq<char>| !cs.contains(m));
                reveal(Seq::filter);
            }
            if !holds_text(carried, &m) {
                let ghost before = missing@;
                missing.push(members[i].clone());
                assert(views(missing@) =~= views(before).push(m@));
            }
            i += 1;
        }
        assert(ms.take(members@.len() as int) =~= ms);
        RangeAnnotation { value, members, missing }
    }
}

/// Serde's default for a rule flag that is on unless the file says off.
pub fn default_true() -> (b: bool)
    ensures
        b,
{
    true
}

/// Whether `value` is long enough to be a tag at all: at least `min_chars`
/// characters, surrounding whitespace not counted.
pub fn accepts_tag(min_chars: usize, value: &str) -> (b: bool)
    ensures
        b == (trim(value@).len() >= min_chars),
{
    let t = trimmed(chars_of(value).as_slice());
    t.len() >= min_chars
}

/// The first layer rule whose prefix the layer's name starts with.
pub fn layer_fallback(rules: &[LayerPrefixRule], layer: &str) -> (r: Option<usize>)
    ensures
        match r {
            Some(i) => i < rules@.len() && starts_with(layer@, rules@[i as int].prefix@) && forall|k: int|
                0 <= k < i ==> !starts_with(layer@, #[trigger] rules@[k].prefix@),
            None => forall|k: int|
                0 <= k < rules@.len() ==> !starts_with(layer@, #[trigger] rules@[k].prefix@),
        },
{
    let l = chars_of(layer);
    let mut i: usize = 0;
    while i < rules.len()
        invariant
            i <= rules@.len(),
            l@ == layer@,
            forall|k: int| 0 <= k < i ==> !starts_with(layer@, #[trigger] rules@[k].prefix@),
        decreases rules@.len() - i,
    {
        let p = chars_of(rules[i].prefix.as_str());
        if crate::text::has_prefix(l.as_slice(), p.as_slice()) {
            return Some(i);
        }
        i += 1;
    }
    None
}

/// What a circle rule asks of the lettering inside the circle.
pub open spec fn inner_fits(
    inner_is: Seq<Seq<char>>,
    inner: Option<Seq<char>>,
    lettering: Seq<Seq<char>>,
) -> bool {
    if inner_is.len() > 0 {
        inner_is.contains(crate::text::join(lettering, seq![' ']))
    } else if inner == Some("tag"@) {
        composed(lettering) is Some
    } else if inner == Some("empty"@) {
        lettering.len() == 0
    } else {
        true
    }
}

/// Whether the lettering inside a circle is what a circle rule asks for:
/// one of `inner_is`, joined by spaces, when that names any; else a
/// composable tag for `"tag"`, nothing for `"empty"`, anything otherwise.
pub fn inner_matches(inner_is: &[String], inner: Option<&str>, lettering: &[String]) -> (b: bool)
    ensures
        b == inner_fits(views(inner_is@), match inner {
            Some(s) => Some(s@),
            None => None,
        }, views(lettering@)),
{
    if inner_is.len() > 0 {
        let pieces = crate::text::chars_of_all(lettering);
        assert(pieces@.map_values(|p: Vec<char>| p@) =~= views(lettering@));
        let mut sep: Vec<char> = Vec::new();
        sep.push(' ');
        assert(sep@ =~= seq![' ']);
        let j = joined(&pieces, sep.as_slice());
        return holds_text(inner_is, &j);
    }
    match inner {
        Some(word) => {
            let w = chars_of(word);
            let tag = chars_of("tag");
            let empty = chars_of("empty");
            if same(w.as_slice(), tag.as_slice()) {
                compose_tag(lettering).is_some()
            } else if same(w.as_slice(), empty.as_slice()) {
                lettering.len() == 0
            } else {
                true
            }
        },
        None => true,
    }
}

/// Whether a class expects a tag at all: its rule gives a tag shape, reads
/// the lettering inside, or names a bubble.
pub fn wants_tag(has_shape: bool, inner: bool, has_bubble: bool) -> (b: bool)
    ensures
        b == (has_shape || inner || has_bubble),
{
    has_shape || inner || has_bubble
}

/// Whether the report lists where the untagged symbols of a class stand:
/// as the class says, or as it says of its orphans when it does not say.
pub fn reports_untagged(report_untagged: Option<bool>, report_orphans: bool) -> (b: bool)
    ensures
        b == match report_untagged {
            Some(x) => x,
            None => report_orphans,
        },
{
    match report_untagged {
        Some(x) => x,
        None => report_orphans,
    }
}

} // verus!
