//! What recognition decides of a symbol once the geometry has spoken: the
//! tag read from the lettering inside it, the class a block the dictionary
//! lacks falls back to, whether a bubble offers its tag to a valve, and what
//! an exploded shape is called.

use vstd::prelude::*;

use crate::legend::{hash_color, hue_color, shape_class_prefix, SHAPE_CLASS_PREFIX};
use crate::rules::{accepts_tag, layer_fallback, LayerPrefixRule, TagClass, IGNORE_CLASS};
use crate::tags::{reading, str_views, tag_from_lettering, TagHow};
use crate::text::{chars_of, concat, has_prefix, same, starts_with, string_of, trim, trimmed, views};

verus! {

/// What the lettering inside a symbol says of its tag.
#[derive(Debug, Clone, PartialEq, Eq)]
pub enum InnerTag {
    /// The tag.
    Tag(String),
    /// Lettering that reads as a tag would, but too short to be one (the
    /// `S` of a spray point): the symbol is lettered, not tagged.
    Lettered,
    /// Nothing to read.
    Unread,
}

/// The reading of `inner` an inner-tag rule takes: with a `shape`, only
/// lettering of that shape; without one, the lettering as a bubble's or as
/// it stands.
pub open spec fn inner_reading(inner: Seq<Seq<char>>, shape: Option<Seq<char>>) -> Option<(Seq<char>, TagHow)> {
    match shape {
        Some(s) => match reading(inner, seq![s]) {
            Some(r) => if r.1 == TagHow::Shape {
                Some(r)
            } else {
                None
            },
            None => None,
        },
        None => reading(inner, Seq::empty()),
    }
}

/// The view of an optional string.
pub open spec fn opt_view(s: Option<String>) -> Option<Seq<char>> {
    match s {
        Some(v) => Some(v@),
        None => None,
    }
}

fn str_refs(values: &[String]) -> (out: Vec<&str>)
    ensures
        str_views(out@) == views(values@),
{
    let mut out: Vec<&str> = Vec::new();
    let mut i: usize = 0;
    while i < values.len()
        invariant
            i <= values@.len(),
            out@.len() == i,
            forall|k: int| 0 <= k < i ==> (#[trigger] out@[k])@ == values@[k]@,
        decreases values@.len() - i,
    {
        out.push(values[i].as_str());
        i += 1;
    }
    assert(str_views(out@) =~= views(values@));
    out
}

/// The tag read from the lettering `inner` inside a symbol whose rule reads
/// tags there, with the rule's tag `shape` if it has one: a reading at
/// least `min_chars` long is the tag; a shorter one leaves the symbol
/// lettered and untagged.
pub fn inner_tag(inner: &[String], shape: &Option<String>, min_chars: usize) -> (out: InnerTag)
    ensures
        match inner_reading(views(inner@), opt_view(*shape)) {
            Some(r) => if trim(r.0).len() >= min_chars {
                out matches InnerTag::Tag(t) && t@ == r.0
            } else {
                out == InnerTag::Lettered
            },
            None => out == InnerTag::Unread,
        },
{
    let refs = str_refs(inner);
    let read = match shape {
        Some(s) => {
            let mut shapes: Vec<&str> = Vec::new();
            shapes.push(s.as_str());
            assert(str_views(shapes@) =~= seq![s@]);
            match tag_from_lettering(refs.as_slice(), shapes.as_slice()) {
                Some(r) => match r.how {
                    TagHow::Shape => Some(r),
                    _ => None,
                },
                None => None,
            }
        },
        None => {
            let shapes: Vec<&str> = Vec::new();
            assert(str_views(shapes@) =~= Seq::<Seq<char>>::empty());
            tag_from_lettering(refs.as_slice(), shapes.as_slice())
        },
    };
    match read {
        Some(r) => if accepts_tag(min_chars, r.value.as_str()) {
            InnerTag::Tag(r.value)
        } else {
            InnerTag::Lettered
        },
        None => InnerTag::Unread,
    }
}

/// What a block the dictionary lacks is recognised as, and the line it is
/// counted under in the report.
#[derive(Debug, Clone, PartialEq, Eq)]
pub struct UnknownBlock {
    pub class: String,
    pub label: String,
    /// `<block name> on <layer>`.
    pub key: String,
}

/// The class of blocks no rule knows.
pub open spec fn unknown_class() -> Seq<char> {
    seq!['u', 'n', 'k', 'n', 'o', 'w', 'n']
}

/// The family of blocks no rule knows, "unknown block".
pub open spec fn unknown_family() -> Seq<char> {
    seq!['未', '知', '块']
}

/// A block named `name` on `layer` that no block rule names: of the class
/// and family of the first layer rule whose prefix starts the layer's name,
/// labelled with the family and the block's name; of the unknown class and
/// family when no layer rule fits.
pub fn unknown_block(name: &str, layer: &str, fallbacks: &[LayerPrefixRule]) -> (u: UnknownBlock)
    ensures
        u.key@ == name@ + seq![' ', 'o', 'n', ' '] + layer@,
        (exists|i: int|
            0 <= i < fallbacks@.len() && starts_with(layer@, fallbacks@[i].prefix@) && (forall|k: int|
                0 <= k < i ==> !starts_with(layer@, #[trigger] fallbacks@[k].prefix@)) && u.class@
                == fallbacks@[i].class@ && u.label@ == fallbacks@[i].label@ + seq![' '] + name@) || ((
        forall|k: int| 0 <= k < fallbacks@.len() ==> !starts_with(layer@, #[trigger] fallbacks@[k].prefix@))
            && u.class@ == unknown_class() && u.label@ == unknown_family() + seq![' '] + name@),
{
    proof {
        reveal_strlit(" on ");
        reveal_strlit(" ");
        reveal_strlit("unknown");
        reveal_strlit("未知块");
    }
    let n = chars_of(name);
    let on = chars_of(" on ");
    let key = concat(concat(n.as_slice(), on.as_slice()).as_slice(), chars_of(layer).as_slice());
    let space = chars_of(" ");
    let (class, family) = match layer_fallback(fallbacks, layer) {
        Some(i) => (chars_of(fallbacks[i].class.as_str()), chars_of(fallbacks[i].label.as_str())),
        None => (chars_of("unknown"), chars_of("未知块")),
    };
    let label = concat(concat(family.as_slice(), space.as_slice()).as_slice(), n.as_slice());
    UnknownBlock {
        class: string_of(class.as_slice()),
        label: string_of(label.as_slice()),
        key: string_of(key.as_slice()),
    }
}

/// The class of the bubbles.
pub open spec fn bubble_prefix() -> Seq<char> {
    seq!['b', 'u', 'b', 'b', 'l', 'e']
}

/// Whether a symbol of `class` tagged `tag` offers its tag to a valve whose
/// rule takes a bubble lettered `letters`: it is a bubble and its tag starts
/// with the letters and a hyphen.
pub fn bubble_offers(class: &str, tag: &Option<String>, letters: &str) -> (b: bool)
    ensures
        b == (starts_with(class@, bubble_prefix()) && match tag {
            Some(t) => starts_with(t@, letters@ + seq!['-']),
            None => false,
        }),
{
    proof {
        reveal_strlit("bubble");
        reveal_strlit("-");
    }
    let bubble = chars_of("bubble");
    assert(bubble@ =~= bubble_prefix());
    if !has_prefix(chars_of(class).as_slice(), bubble.as_slice()) {
        return false;
    }
    match tag {
        Some(t) => {
            let want = concat(chars_of(letters).as_slice(), chars_of("-").as_slice());
            assert(want@ =~= letters@ + seq!['-']);
            has_prefix(chars_of(t.as_str()).as_slice(), want.as_slice())
        },
        None => false,
    }
}

/// The label of an exploded shape no rule names, "shape <id>".
pub open spec fn shape_label(id: Seq<char>) -> Seq<char> {
    seq!['图', '形', ' '] + id
}

/// What an exploded shape with id `id` and hash `hash` is: the class the
/// dictionary's `rule` names (nothing when the rule ignores the shape);
/// without a rule, a class of its own named by the id, in the hash's colour,
/// when the sheet repeats it, and nothing otherwise. The flag says whether a
/// rule named it.
pub fn shape_symbol(id: &str, hash: u64, rule: &Option<TagClass>, repeated: bool) -> (out: Option<(TagClass, bool)>)
    ensures
        match rule {
            Some(r) => if r.class@ == IGNORE_CLASS@ {
                out is None
            } else {
                out == Some((*r, true))
            },
            None => if repeated {
                out matches Some((c, known)) && !known && c.class@ == shape_class_prefix() + id@
                    && c.label@ == shape_label(id@) && c.color == hue_color(hash)
            } else {
                out is None
            },
        },
{
    match rule {
        Some(r) => {
            if same(chars_of(r.class.as_str()).as_slice(), chars_of(IGNORE_CLASS).as_slice()) {
                None
            } else {
                Some((TagClass { class: r.class.clone(), label: r.label.clone(), color: r.color }, true))
            }
        },
        None => {
            if !repeated {
                return None;
            }
            proof {
                reveal_strlit("shape-");
                reveal_strlit("图形 ");
            }
            assert(SHAPE_CLASS_PREFIX@ =~= shape_class_prefix());
            let i = chars_of(id);
            let class = concat(chars_of(SHAPE_CLASS_PREFIX).as_slice(), i.as_slice());
            let label = concat(chars_of("图形 ").as_slice(), i.as_slice());
            Some((
                TagClass {
                    class: string_of(class.as_slice()),
                    label: string_of(label.as_slice()),
                    color: hash_color(hash),
                },
                false,
            ))
        },
    }
}

/// `s` with each paragraph break `\P` of an MTEXT, left to right, as a
/// space.
pub open spec fn unbroken(s: Seq<char>) -> Seq<char>
    decreases s.len(),
{
    if s.len() < 2 {
        s
    } else if s[0] == '\\' && s[1] == 'P' {
        seq![' '] + unbroken(s.skip(2))
    } else {
        seq![s[0]] + unbroken(s.skip(1))
    }
}

fn unbreak(s: &[char]) -> (out: Vec<char>)
    ensures
        out@ == unbroken(s@),
{
    let mut out: Vec<char> = Vec::new();
    let mut i: usize = 0;
    assert(s@.skip(0) =~= s@);
    while i < s.len()
        invariant
            i <= s@.len(),
            out@ + unbroken(s@.skip(i as int)) == unbroken(s@),
        decreases s@.len() - i,
    {
        let ghost rest = s@.skip(i as int);
        if i + 1 < s.len() && s[i] == '\\' && s[i + 1] == 'P' {
            assert(rest[0] == '\\' && rest[1] == 'P');
            assert(rest.skip(2) =~= s@.skip(i + 2));
            out.push(' ');
            i += 2;
        } else {
            proof {
                if i + 1 < s@.len() {
                    assert(rest.skip(1) =~= s@.skip(i + 1));
                } else {
                    assert(unbroken(rest) == rest);
                    assert(rest =~= seq![s@[i as int]]);
                    assert(s@.skip(i + 1) =~= Seq::<char>::empty());
                    assert(unbroken(Seq::<char>::empty()) =~= Seq::<char>::empty());
                }
            }
            out.push(s[i]);
            i += 1;
        }
    }
    assert(s@.skip(i as int) =~= Seq::<char>::empty());
    out
}

/// The lettering a TEXT (`paragraphs` false) or an MTEXT (`paragraphs`
/// true) spells: its value, an MTEXT's paragraph breaks as spaces, without
/// surrounding whitespace; `None` when nothing is left.
pub fn lettering_text(value: &str, paragraphs: bool) -> (out: Option<String>)
    ensures
        ({
            let v = if paragraphs {
                trim(unbroken(value@))
            } else {
                trim(value@)
            };
            match out {
                Some(t) => v.len() > 0 && t@ == v,
                None => v.len() == 0,
            }
        }),
{
    let c = chars_of(value);
    let t = if paragraphs {
        trimmed(unbreak(c.as_slice()).as_slice())
    } else {
        trimmed(c.as_slice())
    };
    if t.len() == 0 {
        None
    } else {
        Some(string_of(t.as_slice()))
    }
}

/// `16^e`.
pub open spec fn pow16(e: nat) -> nat
    decreases e,
{
    if e == 0 {
        1
    } else {
        16 * pow16((e - 1) as nat)
    }
}

/// A lower-case hexadecimal digit.
pub open spec fn hex_digit(d: nat) -> char {
    if d < 10 {
        (48 + d) as char
    } else {
        (87 + d) as char
    }
}

/// `v` as eight hexadecimal digits, leading zeros kept.
pub open spec fn hex8(v: nat) -> Seq<char> {
    Seq::new(8, |k: int| hex_digit((v / pow16((7 - k) as nat)) % 16))
}

/// A shape's hash folded to 32 bits: its high half across its low half.
pub open spec fn fold32(hash: u64) -> u32 {
    ((hash >> 32u64) as u32) ^ (hash as u32)
}

proof fn lemma_pow16_step(e: nat)
    requires
        e >= 1,
    ensures
        pow16(e) == 16 * pow16((e - 1) as nat),
        pow16(e) >= 16,
    decreases e,
{
    if e > 1 {
        lemma_pow16_step((e - 1) as nat);
    } else {
        assert(pow16(0) == 1);
    }
}

proof fn lemma_pow16_positive(e: nat)
    ensures
        pow16(e) >= 1,
    decreases e,
{
    if e > 0 {
        lemma_pow16_positive((e - 1) as nat);
    }
}

/// The id of a shape with hash `hash`, as the report and the dictionary
/// write it: the hash folded to 32 bits, in eight hexadecimal digits.
pub fn shape_id(hash: u64) -> (id: String)
    ensures
        id@ == hex8(fold32(hash) as nat),
{
    let high: u32 = #[verifier::truncate] ((hash >> 32u64) as u32);
    let low: u32 = #[verifier::truncate] (hash as u32);
    let v: u32 = high ^ low;
    assert(v == fold32(hash));
    let mut out: Vec<char> = Vec::new();
    let mut div: u32 = 0x1000_0000;
    let mut k: usize = 0;
    proof {
        assert(pow16(7) == 0x1000_0000) by {
            reveal_with_fuel(pow16, 8);
        }
        lemma_pow16_positive(7);
    }
    while k < 8
        invariant
            k <= 8,
            v == fold32(hash),
            k < 8 ==> div as nat == pow16((7 - k) as nat) && div > 0,
            out@.len() == k,
            forall|q: int| 0 <= q < k ==> out@[q] == hex8(v as nat)[q],
        decreases 8 - k,
    {
        let d: u32 = (v / div) % 16;
        let c: char = if d < 10 {
            ((48 + d) as u8) as char
        } else {
            ((87 + d) as u8) as char
        };
        assert(c == hex_digit((v as nat / pow16((7 - k) as nat)) % 16));
        out.push(c);
        proof {
            if k < 7 {
                lemma_pow16_step((7 - k) as nat);
                lemma_pow16_positive((7 - k - 1) as nat);
                assert(div as nat / 16 == pow16((7 - k - 1) as nat)) by (nonlinear_arith)
                    requires
                        div as nat == 16 * pow16((7 - k - 1) as nat),
                ;
            }
        }
        div = div / 16;
        k += 1;
    }
    assert(out@ =~= hex8(v as nat));
    string_of(out.as_slice())
}

/// The marks of the lettering and of the symbols taken, and the claims
/// taken, after the first `n` claims of `claims` (each a piece of lettering
/// and a symbol, nearest first) are offered in turn: a claim is taken when
/// neither its lettering nor its symbol is taken yet.
pub open spec fn offered(
    claims: Seq<(usize, usize)>,
    texts: Seq<bool>,
    symbols: Seq<bool>,
    n: int,
) -> (Seq<bool>, Seq<bool>, Seq<usize>)
    decreases n,
{
    if n <= 0 {
        (texts, symbols, Seq::empty())
    } else {
        let (t, s, taken) = offered(claims, texts, symbols, n - 1);
        let (k, c) = claims[n - 1];
        if !t[k as int] && !s[c as int] {
            (t.update(k as int, true), s.update(c as int, true), taken.push((n - 1) as usize))
        } else {
            (t, s, taken)
        }
    }
}

/// Offer `claims` in order, nearest first: take each whose lettering and
/// symbol are both still free, and mark them taken. Returns the claims
/// taken, by index, in order.
pub fn take_free(claims: &[(usize, usize)], texts: &mut Vec<bool>, symbols: &mut Vec<bool>) -> (taken: Vec<usize>)
    requires
        forall|e: int|
            0 <= e < claims@.len() ==> (#[trigger] claims@[e]).0 < old(texts)@.len() && claims@[e].1 < old(
                symbols,
            )@.len(),
    ensures
        (final(texts)@, final(symbols)@, taken@) == offered(claims@, old(texts)@, old(symbols)@, claims@.len() as int),
{
    let ghost t0 = texts@;
    let ghost s0 = symbols@;
    let mut taken: Vec<usize> = Vec::new();
    let mut e: usize = 0;
    while e < claims.len()
        invariant
            e <= claims@.len(),
            texts@.len() == t0.len(),
            symbols@.len() == s0.len(),
            forall|q: int| 0 <= q < claims@.len() ==> (#[trigger] claims@[q]).0 < t0.len() && claims@[q].1 < s0.len(),
            (texts@, symbols@, taken@) == offered(claims@, t0, s0, e as int),
        decreases claims@.len() - e,
    {
        let (k, c) = claims[e];
        if !texts[k] && !symbols[c] {
            texts.set(k, true);
            symbols.set(c, true);
            taken.push(e);
        }
        e += 1;
    }
    taken
}

} // verus!
