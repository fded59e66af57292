//! The tag rule: the tag-shape language, how a tag is read from a handful of
//! lettering, and how a group carries its tag in its description.

use vstd::prelude::*;

use crate::text::{
    all_digits, all_upper, append, ascii_lower, chars_of, chars_of_all, concat, digit, find,
    first_index, is_digit, is_trimmed, is_upper, is_ws, join, joined, lemma_find, lemma_split_len,
    lemma_trim_end_prefix, lemma_trim_start_suffix, lemma_trim_trimmed, lower_seq, same, slice_of,
    split, split_on, string_of, trim, trim_end, trim_start, trimmed, upper, views,
};

verus! {

// ── the tag-shape language ──────────────────────────────────────────────

/// Whether value character `c` fits shape character `p`: `9` a digit, `?` a
/// capital letter, anything else itself.
pub open spec fn fits(p: char, c: char) -> bool {
    if p == '9' {
        is_digit(c)
    } else if p == '?' {
        is_upper(c)
    } else {
        c == p
    }
}

/// A shape without a leading `*` against the whole of `value`: each shape
/// character takes one value character, a `*` takes whatever is left.
pub open spec fn body_matches(shape: Seq<char>, value: Seq<char>) -> bool
    decreases shape.len(),
{
    if shape.len() == 0 {
        value.len() == 0
    } else if shape[0] == '*' {
        true
    } else if value.len() == 0 {
        false
    } else {
        fits(shape[0], value[0]) && body_matches(shape.drop_first(), value.drop_first())
    }
}

/// Whether `value` has the shape `shape` describes. A leading `*` lets
/// anything come before: the rest of the shape must match from one of the
/// value's characters on.
pub open spec fn shape_match(shape: Seq<char>, value: Seq<char>) -> bool
    decreases shape.len(), 1int, 0int,
{
    if shape.len() > 0 && shape[0] == '*' {
        shape.len() == 1 || suffix_match(shape.drop_first(), value, 0)
    } else {
        body_matches(shape, value)
    }
}

/// `rest` matches `value` from one of its characters at or after `k` on.
pub open spec fn suffix_match(rest: Seq<char>, value: Seq<char>, k: int) -> bool
    decreases rest.len(), 2int, value.len() - k,
{
    if 0 <= k < value.len() {
        shape_match(rest, value.skip(k)) || suffix_match(rest, value, k + 1)
    } else {
        false
    }
}

fn fits_exec(p: char, c: char) -> (b: bool)
    ensures
        b == fits(p, c),
{
    if p == '9' {
        digit(c)
    } else if p == '?' {
        upper(c)
    } else {
        c == p
    }
}

fn body_at(shape: &[char], si: usize, value: &[char], vi: usize) -> (b: bool)
    requires
        si <= shape@.len(),
        vi <= value@.len(),
    ensures
        b == body_matches(shape@.skip(si as int), value@.skip(vi as int)),
{
    let mut i = si;
    let mut j = vi;
    while i < shape.len()
        invariant
            si <= i <= shape@.len(),
            vi <= j <= value@.len(),
            body_matches(shape@.skip(si as int), value@.skip(vi as int)) == body_matches(
                shape@.skip(i as int),
                value@.skip(j as int),
            ),
        decreases shape@.len() - i,
    {
        if shape[i] == '*' {
            return true;
        }
        if j >= value.len() {
            return false;
        }
        if !fits_exec(shape[i], value[j]) {
            return false;
        }
        assert(shape@.skip(i as int).drop_first() =~= shape@.skip(i + 1));
        assert(value@.skip(j as int).drop_first() =~= value@.skip(j + 1));
        i += 1;
        j += 1;
    }
    j == value.len()
}

fn shape_at(shape: &[char], si: usize, value: &[char], vi: usize) -> (b: bool)
    requires
        si <= shape@.len(),
        vi <= value@.len(),
    ensures
        b == shape_match(shape@.skip(si as int), value@.skip(vi as int)),
    decreases shape@.len() - si,
{
    if si < shape.len() && shape[si] == '*' {
        if si + 1 == shape.len() {
            return true;
        }
        let ghost rest = shape@.skip(si as int).drop_first();
        let ghost v = value@.skip(vi as int);
        assert(rest =~= shape@.skip(si + 1));
        let next: usize = si + 1;
        let mut k: usize = vi;
        while k < value.len()
            invariant
                next == si + 1,
                si + 1 < shape@.len(),
                shape@.skip(si as int).len() > 1,
                shape@.skip(si as int)[0] == '*',
                rest == shape@.skip(si as int).drop_first(),
                vi <= k <= value@.len(),
                rest == shape@.skip(si + 1),
                v == value@.skip(vi as int),
                suffix_match(rest, v, 0) == suffix_match(rest, v, k - vi),
            decreases value@.len() - k,
        {
            assert(v.skip(k - vi) =~= value@.skip(k as int));
            if shape_at(shape, next, value, k) {
                return true;
            }
            k += 1;
        }
        assert(suffix_match(rest, v, k - vi) == false);
        false
    } else {
        body_at(shape, si, value, vi)
    }
}

/// Whether `value` has the shape `shape` describes: `9` a digit, `?` a
/// capital letter, `*` anything from here on (a leading `*`: anything
/// before), other characters literal.
pub fn shape_matches(shape: &str, value: &str) -> (b: bool)
    ensures
        b == shape_match(shape@, value@),
{
    let s = chars_of(shape);
    let v = chars_of(value);
    assert(s@.skip(0) =~= s@);
    assert(v@.skip(0) =~= v@);
    shape_at(s.as_slice(), 0, v.as_slice(), 0)
}

// ── a bubble's two lines ────────────────────────────────────────────────

/// A line of one to five capitals: a bubble's function letters.
pub open spec fn is_letters(v: Seq<char>) -> bool {
    1 <= v.len() <= 5 && all_upper(v)
}

/// `v` without the capitals it ends with.
pub open spec fn trim_upper_end(v: Seq<char>) -> Seq<char>
    decreases v.len(),
{
    if v.len() > 0 && is_upper(v.last()) {
        trim_upper_end(v.drop_last())
    } else {
        v
    }
}

/// A line of three to five digits with at most one capital after them: a
/// bubble's loop number.
pub open spec fn is_number(v: Seq<char>) -> bool {
    let body = trim_upper_end(v);
    &&& 3 <= body.len() <= 5
    &&& all_digits(body)
    &&& v.len() - body.len() <= 1
}

/// The index of the first of `vs` that is a bubble's letters.
pub open spec fn first_letters(vs: Seq<Seq<char>>) -> Option<int>
    decreases vs.len(),
{
    if vs.len() == 0 {
        None
    } else if is_letters(vs[0]) {
        Some(0)
    } else {
        match first_letters(vs.drop_first()) {
            Some(i) => Some(i + 1),
            None => None,
        }
    }
}

/// The index of the first of `vs` that is a bubble's number.
pub open spec fn first_number(vs: Seq<Seq<char>>) -> Option<int>
    decreases vs.len(),
{
    if vs.len() == 0 {
        None
    } else if is_number(vs[0]) {
        Some(0)
    } else {
        match first_number(vs.drop_first()) {
            Some(i) => Some(i + 1),
            None => None,
        }
    }
}

/// A bubble's composition of `vs`: the first line of capitals, a hyphen, the
/// first number.
pub open spec fn composed(vs: Seq<Seq<char>>) -> Option<Seq<char>> {
    match (first_letters(vs), first_number(vs)) {
        (Some(l), Some(d)) => Some(vs[l] + seq!['-'] + vs[d]),
        _ => None,
    }
}

proof fn lemma_first_letters(vs: Seq<Seq<char>>)
    ensures
        match first_letters(vs) {
            Some(i) => 0 <= i < vs.len() && is_letters(vs[i]) && forall|k: int|
                0 <= k < i ==> !is_letters(#[trigger] vs[k]),
            None => forall|k: int| 0 <= k < vs.len() ==> !is_letters(#[trigger] vs[k]),
        },
    decreases vs.len(),
{
    if vs.len() > 0 {
        lemma_first_letters(vs.drop_first());
        assert forall|k: int| 1 <= k < vs.len() implies vs[k] == vs.drop_first()[k - 1] by {}
    }
}

proof fn lemma_first_number(vs: Seq<Seq<char>>)
    ensures
        match first_number(vs) {
            Some(i) => 0 <= i < vs.len() && is_number(vs[i]) && forall|k: int|
                0 <= k < i ==> !is_number(#[trigger] vs[k]),
            None => forall|k: int| 0 <= k < vs.len() ==> !is_number(#[trigger] vs[k]),
        },
    decreases vs.len(),
{
    if vs.len() > 0 {
        lemma_first_number(vs.drop_first());
        assert forall|k: int| 1 <= k < vs.len() implies vs[k] == vs.drop_first()[k - 1] by {}
    }
}

fn letters_exec(v: &[char]) -> (b: bool)
    ensures
        b == is_letters(v@),
{
    if v.len() < 1 || v.len() > 5 {
        return false;
    }
    let mut i: usize = 0;
    while i < v.len()
        invariant
            i <= v@.len(),
            forall|k: int| 0 <= k < i ==> is_upper(#[trigger] v@[k]),
        decreases v@.len() - i,
    {
        if !upper(v[i]) {
            return false;
        }
        i += 1;
    }
    true
}

fn number_exec(v: &[char]) -> (b: bool)
    ensures
        b == is_number(v@),
{
    let mut end: usize = v.len();
    assert(v@.take(end as int) =~= v@);
    while end > 0 && upper(v[end - 1])
        invariant
            end <= v@.len(),
            trim_upper_end(v@) == trim_upper_end(v@.take(end as int)),
        decreases end,
    {
        assert(v@.take(end as int).drop_last() =~= v@.take(end - 1));
        end -= 1;
    }
    assert(trim_upper_end(v@) == v@.take(end as int));
    if end < 3 || end > 5 || v.len() - end > 1 {
        return false;
    }
    let mut i: usize = 0;
    while i < end
        invariant
            end <= v@.len(),
            i <= end,
            3 <= end <= 5,
            v@.len() - end <= 1,
            trim_upper_end(v@) == v@.take(end as int),
            forall|k: int| 0 <= k < i ==> is_digit(#[trigger] v@[k]),
        decreases end - i,
    {
        if !digit(v[i]) {
            assert(v@.take(end as int)[i as int] == v@[i as int]);
            return false;
        }
        i += 1;
    }
    assert forall|k: int| 0 <= k < end implies is_digit(#[trigger] v@.take(end as int)[k]) by {
        assert(v@.take(end as int)[k] == v@[k]);
    }
    true
}

/// A circle's inner lettering as a tag, when it has the two parts of one: a
/// line of capitals and a line of digits (optionally suffixed, `0320A`)
/// become `HS-0320A`.
pub fn compose_chars(inner: &Vec<Vec<char>>) -> (out: Option<Vec<char>>)
    ensures
        match out {
            Some(t) => composed(inner@.map_values(|p: Vec<char>| p@)) == Some(t@),
            None => composed(inner@.map_values(|p: Vec<char>| p@)) is None,
        },
{
    let ghost vs = inner@.map_values(|p: Vec<char>| p@);
    proof {
        lemma_first_letters(vs);
        lemma_first_number(vs);
    }
    let mut l: usize = 0;
    while l < inner.len() && !letters_exec(inner[l].as_slice())
        invariant
            l <= inner@.len(),
            vs == inner@.map_values(|p: Vec<char>| p@),
            forall|k: int| 0 <= k < l ==> !is_letters(#[trigger] vs[k]),
        decreases inner@.len() - l,
    {
        l += 1;
    }
    let mut d: usize = 0;
    while d < inner.len() && !number_exec(inner[d].as_slice())
        invariant
            d <= inner@.len(),
            vs == inner@.map_values(|p: Vec<char>| p@),
            forall|k: int| 0 <= k < d ==> !is_number(#[trigger] vs[k]),
        decreases inner@.len() - d,
    {
        d += 1;
    }
    if l == inner.len() || d == inner.len() {
        proof {
            if l == inner@.len() {
                match first_letters(vs) {
                    Some(i) => {
                        assert(!is_letters(vs[i]));
                    },
                    None => {},
                }
            } else {
                match first_number(vs) {
                    Some(i) => {
                        assert(!is_number(vs[i]));
                    },
                    None => {},
                }
            }
        }
        return None;
    }
    proof {
        match first_letters(vs) {
            Some(i) => {
                if i < l {
                    assert(!is_letters(vs[i]));
                }
                if l < i {
                    assert(is_letters(vs[l as int]));
                }
            },
            None => {
                assert(is_letters(vs[l as int]));
            },
        }
        match first_number(vs) {
            Some(i) => {
                if i < d {
                    assert(!is_number(vs[i]));
                }
                if d < i {
                    assert(is_number(vs[d as int]));
                }
            },
            None => {
                assert(is_number(vs[d as int]));
            },
        }
    }
    let mut out = concat(inner[l].as_slice(), &['-']);
    append(&mut out, inner[d].as_slice());
    Some(out)
}

/// A circle's inner lettering as a tag, when it has the two parts of one: a
/// line of capitals and a line of digits (optionally suffixed, `0320A`)
/// become `HS-0320A`.
pub fn compose_tag(inner: &[String]) -> (out: Option<String>)
    ensures
        match out {
            Some(t) => composed(views(inner@)) == Some(t@),
            None => composed(views(inner@)) is None,
        },
{
    let chars = chars_of_all(inner);
    assert(chars@.map_values(|p: Vec<char>| p@) =~= views(inner@));
    match compose_chars(&chars) {
        Some(t) => Some(string_of(t.as_slice())),
        None => None,
    }
}

// ── reading a tag from lettering ────────────────────────────────────────

/// How a tag was read from a set of lettering.
#[derive(Debug, Clone, Copy, PartialEq, Eq, Structural)]
pub enum TagHow {
    /// Lettering with the shape of a tag; several pieces joined ` + `.
    Shape,
    /// A line of capitals and a line of digits, composed as a bubble's.
    Bubble,
    /// The one piece of lettering there was.
    Single,
    /// Several pieces, none shaped like a tag, joined as read.
    Joined,
}

/// A tag read from lettering, and how.
#[derive(Debug, Clone, PartialEq, Eq)]
pub struct TagRead {
    pub value: String,
    pub how: TagHow,
}

impl View for TagRead {
    type V = (Seq<char>, TagHow);

    open spec fn view(&self) -> (Seq<char>, TagHow) {
        (self.value@, self.how)
    }
}

pub open spec fn str_views(v: Seq<&str>) -> Seq<Seq<char>> {
    v.map_values(|s: &str| s@)
}

/// Whether one of `shapes` fits `v`.
pub open spec fn any_shape(shapes: Seq<Seq<char>>, v: Seq<char>) -> bool {
    exists|k: int| 0 <= k < shapes.len() && shape_match(#[trigger] shapes[k], v)
}

/// The pieces of `texts` one of `shapes` fits, in order.
pub open spec fn shaped(texts: Seq<Seq<char>>, shapes: Seq<Seq<char>>) -> Seq<Seq<char>>
    decreases texts.len(),
{
    if texts.len() == 0 {
        Seq::<Seq<char>>::empty()
    } else {
        let before = shaped(texts.drop_last(), shapes);
        if any_shape(shapes, texts.last()) {
            before.push(texts.last())
        } else {
            before
        }
    }
}

pub open spec fn plus_sep() -> Seq<char> {
    seq![' ', '+', ' ']
}

/// The tag `texts` read as, and how: the shaped pieces joined ` + `; else a
/// bubble's composition; else the one piece; else the pieces joined by a
/// space; nothing for no lettering.
pub open spec fn reading(texts: Seq<Seq<char>>, shapes: Seq<Seq<char>>) -> Option<(Seq<char>, TagHow)> {
    let s = shaped(texts, shapes);
    if s.len() > 0 {
        Some((join(s, plus_sep()), TagHow::Shape))
    } else {
        match composed(texts) {
            Some(v) => Some((v, TagHow::Bubble)),
            None => if texts.len() == 0 {
                None
            } else if texts.len() == 1 {
                Some((texts[0], TagHow::Single))
            } else {
                Some((join(texts, seq![' ']), TagHow::Joined))
            },
        }
    }
}

fn any_shape_exec(shapes: &Vec<Vec<char>>, v: &[char]) -> (b: bool)
    ensures
        b == any_shape(shapes@.map_values(|p: Vec<char>| p@), v@),
{
    let ghost all = shapes@.map_values(|p: Vec<char>| p@);
    let mut k: usize = 0;
    while k < shapes.len()
        invariant
            k <= shapes@.len(),
            all == shapes@.map_values(|p: Vec<char>| p@),
            forall|j: int| 0 <= j < k ==> !shape_match(#[trigger] all[j], v@),
        decreases shapes@.len() - k,
    {
        assert(shapes[k as int]@.skip(0) =~= shapes[k as int]@);
        assert(v@.skip(0) =~= v@);
        if shape_at(shapes[k].as_slice(), 0, v, 0) {
            assert(shape_match(all[k as int], v@));
            return true;
        }
        k += 1;
    }
    false
}

fn strs_to_chars(values: &[&str]) -> (out: Vec<Vec<char>>)
    ensures
        out@.map_values(|p: Vec<char>| p@) == str_views(values@),
{
    let mut out: Vec<Vec<char>> = Vec::new();
    let mut i: usize = 0;
    while i < values.len()
        invariant
            i <= values@.len(),
            out@.len() == i,
            forall|k: int| 0 <= k < i ==> #[trigger] out@[k]@ == values@[k]@,
        decreases values@.len() - i,
    {
        let c = chars_of(values[i]);
        out.push(c);
        i += 1;
    }
    assert(out@.map_values(|p: Vec<char>| p@) =~= str_views(values@));
    out
}

/// Read a tag from `texts`, given in reading order. `shapes` are the tag
/// shapes to try first (see [`shape_matches`]); every piece that has one of
/// them is taken, joined ` + ` when there are several. With no shape
/// matched (or none given) the pieces compose as a bubble's do, else the
/// single piece is the tag, else the pieces are joined as read. `None` for
/// no lettering at all. Length is not checked here.
pub fn tag_from_lettering(texts: &[&str], shapes: &[&str]) -> (out: Option<TagRead>)
    ensures
        match out {
            Some(r) => reading(str_views(texts@), str_views(shapes@)) == Some(r@),
            None => reading(str_views(texts@), str_views(shapes@)) is None,
        },
{
    let t = strs_to_chars(texts);
    let s = strs_to_chars(shapes);
    let ghost tv = str_views(texts@);
    let ghost sv = str_views(shapes@);
    let mut hits: Vec<Vec<char>> = Vec::new();
    let mut i: usize = 0;
    while i < t.len()
        invariant
            i <= t@.len(),
            tv == t@.map_values(|p: Vec<char>| p@),
            sv == s@.map_values(|p: Vec<char>| p@),
            hits@.map_values(|p: Vec<char>| p@) == shaped(tv.take(i as int), sv),
        decreases t@.len() - i,
    {
        assert(tv.take(i + 1).drop_last() =~= tv.take(i as int));
        if any_shape_exec(&s, t[i].as_slice()) {
            hits.push(t[i].clone());
        }
        i += 1;
        assert(hits@.map_values(|p: Vec<char>| p@) =~= shaped(tv.take(i as int), sv));
    }
    assert(tv.take(t@.len() as int) =~= tv);
    if hits.len() > 0 {
        let sep = [' ', '+', ' '];
        assert(sep@ =~= plus_sep());
        let v = joined(&hits, &sep);
        return Some(TagRead { value: string_of(v.as_slice()), how: TagHow::Shape });
    }
    match compose_chars(&t) {
        Some(v) => Some(TagRead { value: string_of(v.as_slice()), how: TagHow::Bubble }),
        None => {
            if t.len() == 0 {
                None
            } else if t.len() == 1 {
                assert(t[0]@ == tv[0]);
                Some(TagRead { value: string_of(t[0].as_slice()), how: TagHow::Single })
            } else {
                let sep = [' '];
                assert(sep@ =~= seq![' ']);
                let v = joined(&t, &sep);
                Some(TagRead { value: string_of(v.as_slice()), how: TagHow::Joined })
            }
        },
    }
}

// ── a group's tag in its description ────────────────────────────────────

/// Description key that carries a group's tag, and marks the group as a
/// P&ID symbol.
pub const TAG_NAME_KEY: &'static str = "tagName";

/// Description key that says where the tag came from ([`TagSource`]).
pub const TAG_SOURCE_KEY: &'static str = "tagSource";

/// Where a group's tag comes from.
#[derive(Debug, Clone, Copy, PartialEq, Eq, Structural)]
pub enum TagSource {
    /// Read from the group's own lettering by the rule, and read again from
    /// the lettering as it stands whenever the sheet is recognised.
    Auto,
    /// Set by a person; the stored value is the tag whatever the lettering
    /// says.
    Manual,
}

impl Default for TagSource {
    fn default() -> (s: TagSource)
        ensures
            s == TagSource::Auto,
    {
        TagSource::Auto
    }
}

pub open spec fn name_key() -> Seq<char> {
    seq!['t', 'a', 'g', 'N', 'a', 'm', 'e']
}

pub open spec fn source_key() -> Seq<char> {
    seq!['t', 'a', 'g', 'S', 'o', 'u', 'r', 'c', 'e']
}

pub open spec fn manual_word() -> Seq<char> {
    seq!['m', 'a', 'n', 'u', 'a', 'l']
}

pub open spec fn auto_word() -> Seq<char> {
    seq!['a', 'u', 't', 'o']
}

/// The word a source is written as.
pub open spec fn source_word(s: TagSource) -> Seq<char> {
    match s {
        TagSource::Auto => auto_word(),
        TagSource::Manual => manual_word(),
    }
}

/// The source a written word reads as: `manual` in any case and spacing is
/// manual, anything else auto.
pub open spec fn source_of(v: Seq<char>) -> TagSource {
    if lower_seq(trim(v)) == manual_word() {
        TagSource::Manual
    } else {
        TagSource::Auto
    }
}

/// The description's `;`-separated pieces, trimmed, empty ones left out.
pub open spec fn nonempty_trimmed(ps: Seq<Seq<char>>) -> Seq<Seq<char>>
    decreases ps.len(),
{
    if ps.len() == 0 {
        Seq::<Seq<char>>::empty()
    } else {
        let before = nonempty_trimmed(ps.drop_last());
        let t = trim(ps.last());
        if t.len() > 0 {
            before.push(t)
        } else {
            before
        }
    }
}

pub open spec fn pieces(d: Seq<char>) -> Seq<Seq<char>> {
    nonempty_trimmed(split(d, ';'))
}

/// A piece's key and value, each trimmed: what stands before and after its
/// first `=`.
pub open spec fn key_value(p: Seq<char>) -> Option<(Seq<char>, Seq<char>)> {
    match find(p, '=') {
        Some(i) => Some((trim(p.take(i)), trim(p.skip(i + 1)))),
        None => None,
    }
}

pub open spec fn is_key(p: Seq<char>, key: Seq<char>) -> bool {
    match key_value(p) {
        Some(kv) => kv.0 == key,
        None => false,
    }
}

/// Every `;` turned into its full-width `；`.
pub open spec fn no_semicolons(s: Seq<char>) -> Seq<char> {
    s.map_values(|c: char| if c == ';' { '；' } else { c })
}

/// A tag value fit for the description: trimmed, never empty, and holding
/// no `;`.
pub open spec fn clean(name: Seq<char>) -> Option<Seq<char>> {
    let t = no_semicolons(trim(name));
    if t.len() > 0 {
        Some(t)
    } else {
        None
    }
}

pub open spec fn clean_opt(name: Option<Seq<char>>) -> Option<Seq<char>> {
    match name {
        Some(n) => clean(n),
        None => None,
    }
}

/// Whether a tag value is as `clean` leaves one.
pub open spec fn is_clean(name: Option<Seq<char>>) -> bool {
    match name {
        Some(n) => clean(n) == Some(n),
        None => true,
    }
}

/// What the pieces say, read in order: whether a `tagName` was met, the last
/// one's value, the last `tagSource`'s.
pub open spec fn parse_fold(ps: Seq<Seq<char>>) -> (bool, Option<Seq<char>>, TagSource)
    decreases ps.len(),
{
    if ps.len() == 0 {
        (false, None, TagSource::Auto)
    } else {
        let before = parse_fold(ps.drop_last());
        match key_value(ps.last()) {
            Some(kv) => if kv.0 == name_key() {
                (true, clean(kv.1), before.2)
            } else if kv.0 == source_key() {
                (before.0, before.1, source_of(kv.1))
            } else {
                before
            },
            None => before,
        }
    }
}

/// The tag a description carries, `None` for a description without
/// `tagName`.
pub open spec fn parsed(d: Seq<char>) -> Option<(Option<Seq<char>>, TagSource)> {
    let r = parse_fold(pieces(d));
    if r.0 {
        Some((r.1, r.2))
    } else {
        None
    }
}

pub open spec fn name_piece(name: Option<Seq<char>>) -> Seq<char> {
    name_key() + seq!['='] + match name {
        Some(n) => n,
        None => Seq::<char>::empty(),
    }
}

pub open spec fn source_piece(source: TagSource) -> Seq<char> {
    source_key() + seq!['='] + source_word(source)
}

/// The pieces written back, in order: each piece of ours replaced by the new
/// one the first time, dropped after; every other piece kept.
pub open spec fn write_fold(ps: Seq<Seq<char>>, np: Seq<char>, sp: Seq<char>) -> (
    Seq<Seq<char>>,
    bool,
    bool,
)
    decreases ps.len(),
{
    if ps.len() == 0 {
        (Seq::<Seq<char>>::empty(), false, false)
    } else {
        let before = write_fold(ps.drop_last(), np, sp);
        let p = ps.last();
        if is_key(p, name_key()) {
            if before.1 {
                before
            } else {
                (before.0.push(np), true, before.2)
            }
        } else if is_key(p, source_key()) {
            if before.2 {
                before
            } else {
                (before.0.push(sp), before.1, true)
            }
        } else {
            (before.0.push(p), before.1, before.2)
        }
    }
}

pub open spec fn written_pieces(d: Seq<char>, name: Option<Seq<char>>, source: TagSource) -> Seq<
    Seq<char>,
> {
    let np = name_piece(name);
    let sp = source_piece(source);
    let r = write_fold(pieces(d), np, sp);
    let with_name = if r.1 {
        r.0
    } else {
        r.0.push(np)
    };
    if r.2 {
        with_name
    } else {
        with_name.push(sp)
    }
}

/// `d` with the tag written into it.
pub open spec fn written(d: Seq<char>, name: Option<Seq<char>>, source: TagSource) -> Seq<char> {
    join(written_pieces(d, name, source), seq![';'])
}

/// The pieces that are not ours, in order.
pub open spec fn foreign(ps: Seq<Seq<char>>) -> Seq<Seq<char>>
    decreases ps.len(),
{
    if ps.len() == 0 {
        Seq::<Seq<char>>::empty()
    } else {
        let before = foreign(ps.drop_last());
        if is_key(ps.last(), name_key()) || is_key(ps.last(), source_key()) {
            before
        } else {
            before.push(ps.last())
        }
    }
}

/// `d` with our two keys taken out.
pub open spec fn stripped(d: Seq<char>) -> Seq<char> {
    join(foreign(pieces(d)), seq![';'])
}

/// A group's tag as its description carries it. `name` is `None` for a
/// group marked as a P&ID symbol that has no tag (yet).
#[derive(Debug, Clone, PartialEq, Eq)]
pub struct GroupTag {
    pub name: Option<String>,
    pub source: TagSource,
}

pub open spec fn opt_view(o: Option<String>) -> Option<Seq<char>> {
    match o {
        Some(s) => Some(s@),
        None => None,
    }
}

impl View for GroupTag {
    type V = (Option<Seq<char>>, TagSource);

    open spec fn view(&self) -> (Option<Seq<char>>, TagSource) {
        (opt_view(self.name), self.source)
    }
}

impl Default for GroupTag {
    fn default() -> (g: GroupTag)
        ensures
            g@ == (None::<Seq<char>>, TagSource::Auto),
    {
        GroupTag { name: None, source: TagSource::Auto }
    }
}

// ── executable pieces ───────────────────────────────────────────────────

fn name_key_exec() -> (v: Vec<char>)
    ensures
        v@ == name_key(),
{
    let v = chars_of(TAG_NAME_KEY);
    proof {
        reveal_strlit("tagName");
    }
    assert(v@ =~= name_key());
    v
}

fn source_key_exec() -> (v: Vec<char>)
    ensures
        v@ == source_key(),
{
    let v = chars_of(TAG_SOURCE_KEY);
    proof {
        reveal_strlit("tagSource");
    }
    assert(v@ =~= source_key());
    v
}

fn source_word_exec(s: TagSource) -> (v: Vec<char>)
    ensures
        v@ == source_word(s),
{
    match s {
        TagSource::Auto => {
            let v = chars_of("auto");
            proof {
                reveal_strlit("auto");
            }
            assert(v@ =~= auto_word());
            v
        },
        TagSource::Manual => {
            let v = chars_of("manual");
            proof {
                reveal_strlit("manual");
            }
            assert(v@ =~= manual_word());
            v
        },
    }
}

fn source_of_exec(v: &[char]) -> (s: TagSource)
    ensures
        s == source_of(v@),
{
    let t = trimmed(v);
    let l = ascii_lower(t.as_slice());
    let m = source_word_exec(TagSource::Manual);
    if same(l.as_slice(), m.as_slice()) {
        TagSource::Manual
    } else {
        TagSource::Auto
    }
}

impl TagSource {
    /// The word the source is written as in a description.
    pub fn as_str(self) -> (w: &'static str)
        ensures
            w@ == source_word(self),
    {
        proof {
            reveal_strlit("auto");
            reveal_strlit("manual");
        }
        match self {
            TagSource::Auto => "auto",
            TagSource::Manual => "manual",
        }
    }

    /// The source a written word reads as: `manual`, trimmed, in any case,
    /// is manual; anything else auto.
    pub fn parse(value: &str) -> (s: TagSource)
        ensures
            s == source_of(value@),
    {
        source_of_exec(chars_of(value).as_slice())
    }
}

/// The trimmed, non-empty pieces of `d`.
fn pieces_exec(d: &[char]) -> (out: Vec<Vec<char>>)
    ensures
        out@.map_values(|p: Vec<char>| p@) == pieces(d@),
{
    let parts = split_on(d, ';');
    let ghost sp = split(d@, ';');
    let mut out: Vec<Vec<char>> = Vec::new();
    let mut i: usize = 0;
    while i < parts.len()
        invariant
            i <= parts@.len(),
            parts@.len() == sp.len(),
            forall|k: int| 0 <= k < parts@.len() ==> #[trigger] parts@[k]@ == sp[k],
            out@.map_values(|p: Vec<char>| p@) == nonempty_trimmed(sp.take(i as int)),
        decreases parts@.len() - i,
    {
        assert(sp.take(i + 1).drop_last() =~= sp.take(i as int));
        let t = trimmed(parts[i].as_slice());
        if t.len() > 0 {
            out.push(t);
        }
        i += 1;
        assert(out@.map_values(|p: Vec<char>| p@) =~= nonempty_trimmed(sp.take(i as int)));
    }
    assert(sp.take(parts@.len() as int) =~= sp);
    out
}

fn key_value_exec(p: &[char]) -> (out: Option<(Vec<char>, Vec<char>)>)
    ensures
        match out {
            Some(kv) => key_value(p@) == Some((kv.0@, kv.1@)),
            None => key_value(p@) is None,
        },
{
    match first_index(p, '=') {
        Some(i) => {
            let k = slice_of(p, 0, i);
            let v = slice_of(p, i + 1, p.len());
            assert(k@ =~= p@.take(i as int));
            assert(v@ =~= p@.skip(i + 1));
            Some((trimmed(k.as_slice()), trimmed(v.as_slice())))
        },
        None => None,
    }
}

fn is_key_exec(p: &[char], key: &[char]) -> (b: bool)
    ensures
        b == is_key(p@, key@),
{
    match key_value_exec(p) {
        Some(kv) => same(kv.0.as_slice(), key),
        None => false,
    }
}

fn clean_exec(name: &[char]) -> (out: Option<Vec<char>>)
    ensures
        match out {
            Some(n) => clean(name@) == Some(n@),
            None => clean(name@) is None,
        },
{
    let t = trimmed(name);
    let mut out: Vec<char> = Vec::new();
    let mut i: usize = 0;
    while i < t.len()
        invariant
            i <= t@.len(),
            out@ == no_semicolons(t@.take(i as int)),
        decreases t@.len() - i,
    {
        if t[i] == ';' {
            out.push('；');
        } else {
            out.push(t[i]);
        }
        i += 1;
        assert(out@ =~= no_semicolons(t@.take(i as int)));
    }
    assert(t@.take(t@.len() as int) =~= t@);
    if out.len() > 0 {
        Some(out)
    } else {
        None
    }
}

fn clean_string(name: &str) -> (out: Option<String>)
    ensures
        opt_view(out) == clean(name@),
{
    let c = chars_of(name);
    match clean_exec(c.as_slice()) {
        Some(n) => Some(string_of(n.as_slice())),
        None => None,
    }
}

impl GroupTag {
    /// A tag read by the rule.
    pub fn auto(name: Option<String>) -> (g: GroupTag)
        ensures
            g@ == (clean_opt(opt_view(name)), TagSource::Auto),
    {
        let cleaned = match name {
            Some(n) => clean_string(n.as_str()),
            None => None,
        };
        GroupTag { name: cleaned, source: TagSource::Auto }
    }

    /// A tag set by a person.
    pub fn manual(name: &str) -> (g: GroupTag)
        ensures
            g@ == (clean(name@), TagSource::Manual),
    {
        GroupTag { name: clean_string(name), source: TagSource::Manual }
    }

    /// The tag in `description`, or `None` when the description carries no
    /// `tagName=` -- a group that is not a P&ID symbol. A missing or unknown
    /// `tagSource=` reads as `auto`.
    pub fn parse(description: &str) -> (out: Option<GroupTag>)
        ensures
            match out {
                Some(g) => parsed(description@) == Some(g@),
                None => parsed(description@) is None,
            },
    {
        let d = chars_of(description);
        let ps = pieces_exec(d.as_slice());
        let ghost all = pieces(d@);
        let nk = name_key_exec();
        let sk = source_key_exec();
        let mut marked = false;
        let mut name: Option<Vec<char>> = None;
        let mut source = TagSource::Auto;
        let mut i: usize = 0;
        while i < ps.len()
            invariant
                i <= ps@.len(),
                all == ps@.map_values(|p: Vec<char>| p@),
                nk@ == name_key(),
                sk@ == source_key(),
                parse_fold(all.take(i as int)) == (
                    marked,
                    match name {
                        Some(n) => Some(n@),
                        None => None::<Seq<char>>,
                    },
                    source,
                ),
            decreases ps@.len() - i,
        {
            assert(all.take(i + 1).drop_last() =~= all.take(i as int));
            assert(all.take(i + 1).last() == ps@[i as int]@);
            match key_value_exec(ps[i].as_slice()) {
                Some(kv) => {
                    if same(kv.0.as_slice(), nk.as_slice()) {
                        marked = true;
                        name = clean_exec(kv.1.as_slice());
                    } else if same(kv.0.as_slice(), sk.as_slice()) {
                        source = source_of_exec(kv.1.as_slice());
                    }
                },
                None => {},
            }
            i += 1;
        }
        assert(all.take(ps@.len() as int) =~= all);
        if marked {
            let n = match name {
                Some(n) => Some(string_of(n.as_slice())),
                None => None,
            };
            Some(GroupTag { name: n, source })
        } else {
            None
        }
    }

    /// `description` with this tag written into it: our two keys replaced in
    /// place (or appended), everything else kept as it was.
    pub fn write_into(&self, description: &str) -> (out: String)
        ensures
            out@ == written(description@, self@.0, self.source),
    {
        let d = chars_of(description);
        let ps = pieces_exec(d.as_slice());
        let ghost all = pieces(d@);
        let nk = name_key_exec();
        let sk = source_key_exec();
        let mut np = concat(nk.as_slice(), &['=']);
        match &self.name {
            Some(n) => {
                let nc = chars_of(n.as_str());
                append(&mut np, nc.as_slice());
            },
            None => {},
        }
        assert(np@ =~= name_piece(self@.0));
        let mut sp = concat(sk.as_slice(), &['=']);
        let w = source_word_exec(self.source);
        append(&mut sp, w.as_slice());
        assert(sp@ =~= source_piece(self.source));
        let mut out: Vec<Vec<char>> = Vec::new();
        let mut wrote_name = false;
        let mut wrote_source = false;
        let mut i: usize = 0;
        while i < ps.len()
            invariant
                i <= ps@.len(),
                all == ps@.map_values(|p: Vec<char>| p@),
                nk@ == name_key(),
                sk@ == source_key(),
                write_fold(all.take(i as int), np@, sp@) == (
                    out@.map_values(|p: Vec<char>| p@),
                    wrote_name,
                    wrote_source,
                ),
            decreases ps@.len() - i,
        {
            assert(all.take(i + 1).drop_last() =~= all.take(i as int));
            assert(all.take(i + 1).last() == ps@[i as int]@);
            if is_key_exec(ps[i].as_slice(), nk.as_slice()) {
                if !wrote_name {
                    out.push(np.clone());
                    wrote_name = true;
                }
            } else if is_key_exec(ps[i].as_slice(), sk.as_slice()) {
                if !wrote_source {
                    out.push(sp.clone());
                    wrote_source = true;
                }
            } else {
                out.push(ps[i].clone());
            }
            i += 1;
            assert(out@.map_values(|p: Vec<char>| p@) =~= write_fold(all.take(i as int), np@, sp@).0);
        }
        assert(all.take(ps@.len() as int) =~= all);
        if !wrote_name {
            out.push(np);
        }
        if !wrote_source {
            out.push(sp);
        }
        let ghost wp = written_pieces(d@, self@.0, self.source);
        assert(out@.map_values(|p: Vec<char>| p@) =~= wp);
        let joined_chars = joined(&out, &[';']);
        assert([';']@ =~= seq![';']);
        string_of(joined_chars.as_slice())
    }

    /// `description` with our two keys taken out: the group is a plain
    /// group again.
    pub fn strip(description: &str) -> (out: String)
        ensures
            out@ == stripped(description@),
    {
        let d = chars_of(description);
        let ps = pieces_exec(d.as_slice());
        let ghost all = pieces(d@);
        let nk = name_key_exec();
        let sk = source_key_exec();
        let mut out: Vec<Vec<char>> = Vec::new();
        let mut i: usize = 0;
        while i < ps.len()
            invariant
                i <= ps@.len(),
                all == ps@.map_values(|p: Vec<char>| p@),
                nk@ == name_key(),
                sk@ == source_key(),
                out@.map_values(|p: Vec<char>| p@) == foreign(all.take(i as int)),
            decreases ps@.len() - i,
        {
            assert(all.take(i + 1).drop_last() =~= all.take(i as int));
            assert(all.take(i + 1).last() == ps@[i as int]@);
            if !is_key_exec(ps[i].as_slice(), nk.as_slice()) && !is_key_exec(
                ps[i].as_slice(),
                sk.as_slice(),
            ) {
                out.push(ps[i].clone());
            }
            i += 1;
            assert(out@.map_values(|p: Vec<char>| p@) =~= foreign(all.take(i as int)));
        }
        assert(all.take(ps@.len() as int) =~= all);
        let joined_chars = joined(&out, &[';']);
        assert([';']@ =~= seq![';']);
        string_of(joined_chars.as_slice())
    }
}


// ── what the description rule keeps ─────────────────────────────────────

/// A piece as the description's reading leaves one: not empty, not
/// starting or ending with whitespace, holding no `;`.
pub open spec fn good_piece(p: Seq<char>) -> bool {
    p.len() > 0 && is_trimmed(p) && !p.contains(';')
}

proof fn lemma_split_no_sep(b: Seq<char>, sep: char)
    requires
        !b.contains(sep),
    ensures
        split(b, sep) == seq![b],
    decreases b.len(),
{
    if b.len() > 0 {
        assert(!b.drop_last().contains(sep)) by {
            if b.drop_last().contains(sep) {
                let k = choose|k: int| 0 <= k < b.drop_last().len() && #[trigger] b.drop_last()[k] == sep;
                assert(b[k] == sep);
            }
        }
        lemma_split_no_sep(b.drop_last(), sep);
        assert(b.last() != sep) by {
            assert(b[b.len() - 1] == b.last());
        }
        assert(b.drop_last().push(b.last()) =~= b);
        assert(split(b, sep) =~= seq![b]);
    } else {
        assert(b =~= Seq::<char>::empty());
    }
}

proof fn lemma_split_append(a: Seq<char>, b: Seq<char>, sep: char)
    requires
        !b.contains(sep),
    ensures
        split(a + seq![sep] + b, sep) == split(a, sep).push(b),
    decreases b.len(),
{
    let x = a + seq![sep] + b;
    if b.len() == 0 {
        assert(x.drop_last() =~= a);
        assert(b =~= Seq::<char>::empty());
    } else {
        assert(!b.drop_last().contains(sep)) by {
            if b.drop_last().contains(sep) {
                let k = choose|k: int| 0 <= k < b.drop_last().len() && #[trigger] b.drop_last()[k] == sep;
                assert(b[k] == sep);
            }
        }
        lemma_split_append(a, b.drop_last(), sep);
        assert(x.drop_last() =~= a + seq![sep] + b.drop_last());
        assert(x.last() == b.last());
        assert(b.last() != sep) by {
            assert(b[b.len() - 1] == b.last());
        }
        assert(b.drop_last().push(b.last()) =~= b);
        assert(split(x, sep) =~= split(a, sep).push(b));
    }
}

proof fn lemma_split_join(qs: Seq<Seq<char>>)
    requires
        qs.len() >= 1,
        forall|i: int| 0 <= i < qs.len() ==> !(#[trigger] qs[i]).contains(';'),
    ensures
        split(join(qs, seq![';']), ';') == qs,
    decreases qs.len(),
{
    if qs.len() == 1 {
        lemma_split_no_sep(qs[0], ';');
        assert(qs =~= seq![qs[0]]);
    } else {
        let init = qs.drop_last();
        assert forall|i: int| 0 <= i < init.len() implies !(#[trigger] init[i]).contains(';') by {
            assert(init[i] == qs[i]);
        }
        lemma_split_join(init);
        assert(!qs.last().contains(';')) by {
            assert(qs[qs.len() - 1] == qs.last());
        }
        lemma_split_append(join(init, seq![';']), qs.last(), ';');
        assert(init.push(qs.last()) =~= qs);
    }
}

proof fn lemma_nonempty_trimmed_id(qs: Seq<Seq<char>>)
    requires
        forall|i: int| 0 <= i < qs.len() ==> good_piece(#[trigger] qs[i]),
    ensures
        nonempty_trimmed(qs) == qs,
    decreases qs.len(),
{
    if qs.len() > 0 {
        let init = qs.drop_last();
        assert forall|i: int| 0 <= i < init.len() implies good_piece(#[trigger] init[i]) by {
            assert(init[i] == qs[i]);
        }
        lemma_nonempty_trimmed_id(init);
        assert(good_piece(qs[qs.len() - 1]));
        lemma_trim_trimmed(qs.last());
        assert(init.push(qs.last()) =~= qs);
    }
}

/// Joining good pieces by `;` and reading the pieces back gives them again.
proof fn lemma_pieces_join(qs: Seq<Seq<char>>)
    requires
        forall|i: int| 0 <= i < qs.len() ==> good_piece(#[trigger] qs[i]),
    ensures
        pieces(join(qs, seq![';'])) == qs,
{
    if qs.len() == 0 {
        let e = Seq::<char>::empty();
        assert(split(e, ';') =~= seq![e]);
        assert(seq![e].drop_last() =~= Seq::<Seq<char>>::empty());
        assert(trim_start(e) == e);
        assert(trim_end(e) == e);
        assert(join(qs, seq![';']) == e);
        assert(nonempty_trimmed(seq![e].drop_last()) =~= Seq::<Seq<char>>::empty());
        assert(nonempty_trimmed(seq![e]) =~= Seq::<Seq<char>>::empty());
        assert(qs =~= Seq::<Seq<char>>::empty());
    } else {
        assert forall|i: int| 0 <= i < qs.len() implies !(#[trigger] qs[i]).contains(';') by {
            assert(good_piece(qs[i]));
        }
        lemma_split_join(qs);
        lemma_nonempty_trimmed_id(qs);
    }
}

proof fn lemma_split_pieces_no_sep(s: Seq<char>, sep: char)
    ensures
        forall|i: int| 0 <= i < split(s, sep).len() ==> !(#[trigger] split(s, sep)[i]).contains(sep),
    decreases s.len(),
{
    if s.len() > 0 {
        lemma_split_pieces_no_sep(s.drop_last(), sep);
        lemma_split_len(s.drop_last(), sep);
        let before = split(s.drop_last(), sep);
        if s.last() != sep {
            let last = before.last().push(s.last());
            assert(!last.contains(sep)) by {
                assert(!before[before.len() - 1].contains(sep));
                if last.contains(sep) {
                    let k = choose|k: int| 0 <= k < last.len() && #[trigger] last[k] == sep;
                    if k < last.len() - 1 {
                        assert(before.last()[k] == sep);
                    }
                }
            }
            assert forall|i: int| 0 <= i < split(s, sep).len() implies !(#[trigger] split(s, sep)[i]).contains(sep) by {
                if i < before.len() - 1 {
                    assert(split(s, sep)[i] == before[i]);
                }
            }
        } else {
            assert forall|i: int| 0 <= i < split(s, sep).len() implies !(#[trigger] split(s, sep)[i]).contains(sep) by {
                if i < before.len() {
                    assert(split(s, sep)[i] == before[i]);
                } else {
                    assert(split(s, sep)[i] =~= Seq::<char>::empty());
                }
            }
        }
    }
}

proof fn lemma_trim_sub(p: Seq<char>, c: char)
    requires
        !p.contains(c),
    ensures
        !trim(p).contains(c),
{
    lemma_trim_start_suffix(p);
    let a = trim_start(p);
    lemma_trim_end_prefix(a);
    if trim(p).contains(c) {
        let k = choose|k: int| 0 <= k < trim(p).len() && #[trigger] trim(p)[k] == c;
        assert(a[k] == c);
        assert(p[p.len() - a.len() + k] == c);
    }
}

proof fn lemma_nonempty_trimmed_good(ps: Seq<Seq<char>>)
    requires
        forall|i: int| 0 <= i < ps.len() ==> !(#[trigger] ps[i]).contains(';'),
    ensures
        forall|i: int| 0 <= i < nonempty_trimmed(ps).len() ==> good_piece(#[trigger] nonempty_trimmed(ps)[i]),
    decreases ps.len(),
{
    if ps.len() > 0 {
        let init = ps.drop_last();
        assert forall|i: int| 0 <= i < init.len() implies !(#[trigger] init[i]).contains(';') by {
            assert(init[i] == ps[i]);
        }
        lemma_nonempty_trimmed_good(init);
        let t = trim(ps.last());
        assert(!ps[ps.len() - 1].contains(';'));
        lemma_trim_sub(ps.last(), ';');
        lemma_trim_trimmed(ps.last());
        let r = nonempty_trimmed(ps);
        assert forall|i: int| 0 <= i < r.len() implies good_piece(#[trigger] r[i]) by {
            if i < nonempty_trimmed(init).len() {
                assert(r[i] == nonempty_trimmed(init)[i]);
            }
        }
    }
}

/// Every piece of a description is a good piece.
proof fn lemma_pieces_good(d: Seq<char>)
    ensures
        forall|i: int| 0 <= i < pieces(d).len() ==> good_piece(#[trigger] pieces(d)[i]),
{
    lemma_split_pieces_no_sep(d, ';');
    lemma_nonempty_trimmed_good(split(d, ';'));
}

proof fn lemma_no_semicolons(s: Seq<char>)
    ensures
        !no_semicolons(s).contains(';'),
        no_semicolons(s).len() == s.len(),
        is_trimmed(s) ==> is_trimmed(no_semicolons(s)),
        !s.contains(';') ==> no_semicolons(s) == s,
{
    let t = no_semicolons(s);
    if t.contains(';') {
        let k = choose|k: int| 0 <= k < t.len() && #[trigger] t[k] == ';';
        assert(t[k] == if s[k] == ';' { '；' } else { s[k] });
    }
    if !s.contains(';') {
        assert forall|k: int| 0 <= k < s.len() implies #[trigger] t[k] == s[k] by {
            assert(s[k] != ';');
        }
        assert(t =~= s);
    }
}

/// Cleaning a clean value changes nothing.
pub proof fn lemma_clean_idempotent(name: Seq<char>)
    ensures
        is_clean(clean(name)),
{
    let t = no_semicolons(trim(name));
    if t.len() > 0 {
        lemma_trim_trimmed(name);
        lemma_no_semicolons(trim(name));
        lemma_trim_trimmed(t);
        lemma_no_semicolons(t);
    }
}

proof fn lemma_clean_good(n: Seq<char>)
    requires
        clean(n) == Some(n),
    ensures
        is_trimmed(n),
        !n.contains(';'),
        n.len() > 0,
{
    lemma_trim_trimmed(n);
    lemma_no_semicolons(trim(n));
}

proof fn lemma_key_value_of(key: Seq<char>, value: Seq<char>)
    requires
        key.len() > 0,
        !key.contains('='),
        is_trimmed(key),
        is_trimmed(value),
    ensures
        key_value(key + seq!['='] + value) == Some((key, value)),
{
    let p = key + seq!['='] + value;
    lemma_find(p, '=');
    let i = key.len() as int;
    assert(p[i] == '=');
    match find(p, '=') {
        Some(j) => {
            if j < i {
                assert(p[j] == key[j]);
            }
            if j > i {
                assert(p.take(j)[i] == '=');
            }
        },
        None => {},
    }
    assert(p.take(i) =~= key);
    assert(p.skip(i + 1) =~= value);
    lemma_trim_trimmed(key);
    lemma_trim_trimmed(value);
}

proof fn lemma_name_piece(name: Option<Seq<char>>)
    requires
        is_clean(name),
    ensures
        key_value(name_piece(name)) == Some(
            (
                name_key(),
                match name {
                    Some(n) => n,
                    None => Seq::<char>::empty(),
                },
            ),
        ),
        clean(key_value(name_piece(name)).unwrap().1) == name,
        good_piece(name_piece(name)),
        is_key(name_piece(name), name_key()),
        !is_key(name_piece(name), source_key()),
{
    let v = match name {
        Some(n) => n,
        None => Seq::<char>::empty(),
    };
    match name {
        Some(n) => {
            lemma_clean_good(n);
        },
        None => {
            assert(trim_start(v) == v);
            assert(trim_end(v) == v);
            assert(no_semicolons(v) =~= v);
        },
    }
    assert(!name_key().contains('=')) by {
        if name_key().contains('=') {
            let k = choose|k: int| 0 <= k < name_key().len() && #[trigger] name_key()[k] == '=';
        }
    }
    lemma_key_value_of(name_key(), v);
    let p = name_piece(name);
    assert(p[0] == 't');
    assert(p.last() == if v.len() > 0 { v.last() } else { '=' });
    assert(!p.contains(';')) by {
        if p.contains(';') {
            let k = choose|k: int| 0 <= k < p.len() && #[trigger] p[k] == ';';
            if k > 7 {
                assert(v[k - 8] == ';');
            }
        }
    }
    assert(name_key() != source_key()) by {
        assert(name_key().len() != source_key().len());
    }
}

proof fn lemma_source_piece(source: TagSource)
    ensures
        key_value(source_piece(source)) == Some((source_key(), source_word(source))),
        source_of(source_word(source)) == source,
        good_piece(source_piece(source)),
        is_key(source_piece(source), source_key()),
        !is_key(source_piece(source), name_key()),
{
    let w = source_word(source);
    assert(!source_key().contains('=')) by {
        if source_key().contains('=') {
            let k = choose|k: int| 0 <= k < source_key().len() && #[trigger] source_key()[k] == '=';
        }
    }
    assert(w.len() > 0 && !is_ws(w[0]) && !is_ws(w.last()));
    lemma_key_value_of(source_key(), w);
    lemma_trim_trimmed(w);
    assert(lower_seq(manual_word()) =~= manual_word());
    assert(lower_seq(auto_word()).len() == 4);
    let p = source_piece(source);
    assert(p[0] == 't');
    assert(p.last() == w.last());
    assert(!p.contains(';')) by {
        if p.contains(';') {
            let k = choose|k: int| 0 <= k < p.len() && #[trigger] p[k] == ';';
            if k > 9 {
                assert(w[k - 10] == ';');
            }
        }
    }
    assert(name_key() != source_key()) by {
        assert(name_key().len() != source_key().len());
    }
}

/// Reading pieces that are the new name piece, the new source piece, or
/// pieces of neither key.
proof fn lemma_parse_fold_of(
    qs: Seq<Seq<char>>,
    np: Seq<char>,
    sp: Seq<char>,
    name: Option<Seq<char>>,
    source: TagSource,
)
    requires
        key_value(np) matches Some(kv) && kv.0 == name_key() && clean(kv.1) == name,
        key_value(sp) matches Some(kv) && kv.0 == source_key() && source_of(kv.1) == source,
        forall|i: int|
            0 <= i < qs.len() ==> #[trigger] qs[i] == np || qs[i] == sp || (!is_key(
                qs[i],
                name_key(),
            ) && !is_key(qs[i], source_key())),
    ensures
        parse_fold(qs) == (
            qs.contains(np),
            if qs.contains(np) {
                name
            } else {
                None
            },
            if qs.contains(sp) {
                source
            } else {
                TagSource::Auto
            },
        ),
    decreases qs.len(),
{
    if qs.len() > 0 {
        let init = qs.drop_last();
        assert forall|i: int| 0 <= i < init.len() implies #[trigger] init[i] == np || init[i]
            == sp || (!is_key(init[i], name_key()) && !is_key(init[i], source_key())) by {
            assert(init[i] == qs[i]);
        }
        lemma_parse_fold_of(init, np, sp, name, source);
        assert(name_key() != source_key()) by {
            assert(name_key().len() != source_key().len());
        }
        let last = qs.last();
        assert(qs[qs.len() - 1] == last);
        assert(qs.contains(np) == (init.contains(np) || last == np)) by {
            if qs.contains(np) && last != np {
                let k = choose|k: int| 0 <= k < qs.len() && #[trigger] qs[k] == np;
                assert(init[k] == np);
            }
            if init.contains(np) {
                let k = choose|k: int| 0 <= k < init.len() && #[trigger] init[k] == np;
                assert(qs[k] == np);
            }
        }
        assert(qs.contains(sp) == (init.contains(sp) || last == sp)) by {
            if qs.contains(sp) && last != sp {
                let k = choose|k: int| 0 <= k < qs.len() && #[trigger] qs[k] == sp;
                assert(init[k] == sp);
            }
            if init.contains(sp) {
                let k = choose|k: int| 0 <= k < init.len() && #[trigger] init[k] == sp;
                assert(qs[k] == sp);
            }
        }
    }
}

/// What the written pieces are made of.
proof fn lemma_write_fold(ps: Seq<Seq<char>>, np: Seq<char>, sp: Seq<char>)
    ensures
        ({
            let r = write_fold(ps, np, sp);
            &&& r.1 ==> r.0.contains(np)
            &&& r.2 ==> r.0.contains(sp)
            &&& forall|i: int|
                0 <= i < r.0.len() ==> #[trigger] r.0[i] == np || r.0[i] == sp || (ps.contains(
                    r.0[i],
                ) && !is_key(r.0[i], name_key()) && !is_key(r.0[i], source_key()))
        }),
    decreases ps.len(),
{
    if ps.len() > 0 {
        let init = ps.drop_last();
        lemma_write_fold(init, np, sp);
        let before = write_fold(init, np, sp);
        let r = write_fold(ps, np, sp);
        let p = ps.last();
        assert(ps[ps.len() - 1] == p);
        assert forall|q: Seq<char>| init.contains(q) implies ps.contains(q) by {
            let k = choose|k: int| 0 <= k < init.len() && #[trigger] init[k] == q;
            assert(ps[k] == q);
        }
        assert forall|i: int| 0 <= i < r.0.len() implies #[trigger] r.0[i] == np || r.0[i] == sp
            || (ps.contains(r.0[i]) && !is_key(r.0[i], name_key()) && !is_key(
            r.0[i],
            source_key(),
        )) by {
            if i < before.0.len() {
                assert(r.0[i] == before.0[i]);
            }
        }
        if r.1 && !before.1 {
            assert(r.0[r.0.len() - 1] == np);
        }
        if r.1 && before.1 {
            let k = choose|k: int| 0 <= k < before.0.len() && #[trigger] before.0[k] == np;
            assert(r.0[k] == np);
        }
        if r.2 && !before.2 {
            assert(r.0[r.0.len() - 1] == sp);
        }
        if r.2 && before.2 {
            let k = choose|k: int| 0 <= k < before.0.len() && #[trigger] before.0[k] == sp;
            assert(r.0[k] == sp);
        }
    }
}

/// A tag written into any description reads back as itself, whatever else
/// the description holds.
pub proof fn law_parse_reads_back_what_was_written(
    description: Seq<char>,
    name: Option<Seq<char>>,
    source: TagSource,
)
    requires
        is_clean(name),
    ensures
        parsed(written(description, name, source)) == Some((name, source)),
{
    let np = name_piece(name);
    let sp = source_piece(source);
    let ps = pieces(description);
    lemma_pieces_good(description);
    lemma_write_fold(ps, np, sp);
    lemma_name_piece(name);
    lemma_source_piece(source);
    let r = write_fold(ps, np, sp);
    let with_name = if r.1 {
        r.0
    } else {
        r.0.push(np)
    };
    let qs = written_pieces(description, name, source);
    assert(qs.contains(np)) by {
        if r.1 {
            let k = choose|k: int| 0 <= k < r.0.len() && #[trigger] r.0[k] == np;
            assert(with_name[k] == np);
            if !r.2 {
                assert(qs[k] == np);
            }
        } else {
            assert(with_name[with_name.len() - 1] == np);
            if !r.2 {
                assert(qs[with_name.len() - 1] == np);
            }
        }
    }
    assert(qs.contains(sp)) by {
        if r.2 {
            let k = choose|k: int| 0 <= k < r.0.len() && #[trigger] r.0[k] == sp;
            assert(with_name[k] == sp);
        } else {
            assert(qs[qs.len() - 1] == sp);
        }
    }
    assert forall|i: int| 0 <= i < qs.len() implies #[trigger] qs[i] == np || qs[i] == sp || (
    !is_key(qs[i], name_key()) && !is_key(qs[i], source_key())) by {
        if i < r.0.len() {
            assert(qs[i] == r.0[i]);
        } else if i < with_name.len() {
            assert(qs[i] == with_name[i]);
        }
    }
    assert forall|i: int| 0 <= i < qs.len() implies good_piece(#[trigger] qs[i]) by {
        if i < r.0.len() {
            assert(qs[i] == r.0[i]);
            if r.0[i] != np && r.0[i] != sp {
                let k = choose|k: int| 0 <= k < ps.len() && #[trigger] ps[k] == r.0[i];
                assert(good_piece(ps[k]));
            }
        } else if i < with_name.len() {
            assert(qs[i] == with_name[i]);
        }
    }
    lemma_pieces_join(qs);
    lemma_parse_fold_of(qs, np, sp, name, source);
}

/// A description with our keys taken out carries no tag.
pub proof fn law_stripped_description_carries_no_tag(description: Seq<char>)
    ensures
        parsed(stripped(description)) is None,
{
    let ps = pieces(description);
    lemma_pieces_good(description);
    lemma_foreign(ps);
    let qs = foreign(ps);
    assert forall|i: int| 0 <= i < qs.len() implies good_piece(#[trigger] qs[i]) by {
        let k = choose|k: int| 0 <= k < ps.len() && #[trigger] ps[k] == qs[i];
        assert(good_piece(ps[k]));
    }
    lemma_pieces_join(qs);
    lemma_name_piece(None);
    lemma_source_piece(TagSource::Auto);
    lemma_parse_fold_of(qs, name_piece(None), source_piece(TagSource::Auto), None, TagSource::Auto);
    assert(!qs.contains(name_piece(None))) by {
        if qs.contains(name_piece(None)) {
            let k = choose|k: int| 0 <= k < qs.len() && #[trigger] qs[k] == name_piece(None);
        }
    }
}

proof fn lemma_foreign(ps: Seq<Seq<char>>)
    ensures
        forall|i: int|
            0 <= i < foreign(ps).len() ==> ps.contains(#[trigger] foreign(ps)[i]) && !is_key(
                foreign(ps)[i],
                name_key(),
            ) && !is_key(foreign(ps)[i], source_key()),
    decreases ps.len(),
{
    if ps.len() > 0 {
        let init = ps.drop_last();
        lemma_foreign(init);
        assert(ps[ps.len() - 1] == ps.last());
        assert forall|i: int| 0 <= i < foreign(ps).len() implies ps.contains(
            #[trigger] foreign(ps)[i],
        ) && !is_key(foreign(ps)[i], name_key()) && !is_key(foreign(ps)[i], source_key()) by {
            if i < foreign(init).len() {
                assert(foreign(ps)[i] == foreign(init)[i]);
                let k = choose|k: int| 0 <= k < init.len() && #[trigger] init[k] == foreign(init)[i];
                assert(ps[k] == init[k]);
            }
        }
    }
}

/// What `GroupTag::auto` and `GroupTag::manual` hold is clean, so it writes
/// and reads back unchanged.
pub proof fn law_group_tag_round_trips(description: Seq<char>, name: Option<Seq<char>>, source: TagSource)
    ensures
        parsed(written(description, clean_opt(name), source)) == Some((clean_opt(name), source)),
{
    match name {
        Some(n) => lemma_clean_idempotent(n),
        None => {},
    }
    law_parse_reads_back_what_was_written(description, clean_opt(name), source);
}

// ── writing twice, and what writing keeps ──────────────────────────────

/// `p` stands at most once among `qs`.
pub open spec fn at_most_once(qs: Seq<Seq<char>>, p: Seq<char>) -> bool {
    forall|i: int, j: int| 0 <= i < j < qs.len() && #[trigger] qs[i] == p ==> #[trigger] qs[j] != p
}

/// Each of `qs` is the name piece `np`, the source piece `sp`, or a piece
/// of neither key.
pub open spec fn made_of(qs: Seq<Seq<char>>, np: Seq<char>, sp: Seq<char>) -> bool {
    forall|i: int|
        0 <= i < qs.len() ==> #[trigger] qs[i] == np || qs[i] == sp || (!is_key(qs[i], name_key()) && !is_key(
            qs[i],
            source_key(),
        ))
}

proof fn lemma_contains_push(qs: Seq<Seq<char>>, p: Seq<char>, x: Seq<char>)
    ensures
        qs.push(p).contains(x) <==> (qs.contains(x) || p == x),
{
    let t = qs.push(p);
    if t.contains(x) && p != x {
        let k = choose|k: int| 0 <= k < t.len() && t[k] == x;
        assert(qs[k] == x);
    }
    if qs.contains(x) {
        let k = choose|k: int| 0 <= k < qs.len() && qs[k] == x;
        assert(t[k] == x);
    }
    if p == x {
        assert(t[qs.len() as int] == x);
    }
}

proof fn lemma_once_push(qs: Seq<Seq<char>>, p: Seq<char>, x: Seq<char>)
    requires
        at_most_once(qs, x),
        p == x ==> !qs.contains(x),
    ensures
        at_most_once(qs.push(p), x),
{
    let t = qs.push(p);
    assert forall|i: int, j: int| 0 <= i < j < t.len() && #[trigger] t[i] == x implies #[trigger] t[j] != x by {
        assert(t[i] == qs[i]);
        if j < qs.len() {
            assert(t[j] == qs[j]);
        } else if p == x {
            assert(qs.contains(x));
        }
    }
}

/// What `write_fold` lays down: the new pieces only when it says so, each
/// at most once, between pieces of neither key.
proof fn lemma_write_fold_once(ps: Seq<Seq<char>>, np: Seq<char>, sp: Seq<char>)
    requires
        is_key(np, name_key()),
        !is_key(np, source_key()),
        is_key(sp, source_key()),
        !is_key(sp, name_key()),
    ensures
        ({
            let r = write_fold(ps, np, sp);
            &&& r.0.contains(np) <==> r.1
            &&& r.0.contains(sp) <==> r.2
            &&& at_most_once(r.0, np)
            &&& at_most_once(r.0, sp)
            &&& made_of(r.0, np, sp)
            &&& foreign(r.0) == foreign(ps)
        }),
    decreases ps.len(),
{
    if ps.len() > 0 {
        let init = ps.drop_last();
        lemma_write_fold_once(init, np, sp);
        let before = write_fold(init, np, sp);
        let p = ps.last();
        let r = write_fold(ps, np, sp);
        if r.0 != before.0 {
            let q = r.0.last();
            assert(r.0 == before.0.push(q));
            lemma_contains_push(before.0, q, np);
            lemma_contains_push(before.0, q, sp);
            lemma_once_push(before.0, q, np);
            lemma_once_push(before.0, q, sp);
            assert forall|i: int| 0 <= i < r.0.len() implies #[trigger] r.0[i] == np || r.0[i] == sp || (!is_key(
                r.0[i],
                name_key(),
            ) && !is_key(r.0[i], source_key())) by {
                if i < before.0.len() {
                    assert(r.0[i] == before.0[i]);
                }
            }
            assert(r.0.drop_last() =~= before.0);
        }
    }
}

/// `qs` with every `from` turned into `to`.
pub open spec fn swapped(qs: Seq<Seq<char>>, from: Seq<char>, to: Seq<char>) -> Seq<Seq<char>> {
    qs.map_values(|q: Seq<char>| if q == from { to } else { q })
}

/// A tag value the description can hold as one piece: no `;` in it.
pub open spec fn unsplit(name: Option<Seq<char>>) -> bool {
    match name {
        Some(n) => !n.contains(';'),
        None => true,
    }
}

proof fn lemma_name_keyed(p: Seq<char>)
    requires
        p.len() >= 8,
        p.take(7) == name_key(),
        p[7] == '=',
    ensures
        is_key(p, name_key()),
        !is_key(p, source_key()),
{
    lemma_find(p, '=');
    match find(p, '=') {
        Some(j) => {
            if j < 7 {
                assert(p.take(7)[j] == p[j]);
            }
            if j > 7 {
                assert(p.take(j)[7] == '=');
            }
        },
        None => {},
    }
    assert(is_trimmed(name_key()));
    lemma_trim_trimmed(name_key());
    assert(name_key() != source_key()) by {
        assert(name_key().len() != source_key().len());
    }
}

/// The name piece of a value without `;`, and what reading trims it to.
proof fn lemma_unsplit_name_piece(name: Option<Seq<char>>)
    requires
        unsplit(name),
    ensures
        is_key(name_piece(name), name_key()),
        !is_key(name_piece(name), source_key()),
        !name_piece(name).contains(';'),
        is_key(trim(name_piece(name)), name_key()),
        !is_key(trim(name_piece(name)), source_key()),
        good_piece(trim(name_piece(name))),
{
    let np = name_piece(name);
    let v = match name {
        Some(n) => n,
        None => Seq::<char>::empty(),
    };
    assert(np =~= name_key() + seq!['='] + v);
    assert(np.take(7) =~= name_key());
    assert(np[7] == '=');
    lemma_name_keyed(np);
    assert(!np.contains(';')) by {
        if np.contains(';') {
            let k = choose|k: int| 0 <= k < np.len() && #[trigger] np[k] == ';';
            if k > 7 {
                assert(v[k - 8] == ';');
            }
        }
    }
    assert(!is_ws(np[0]));
    assert(trim_start(np) == np);
    lemma_trim_end_prefix(np);
    let nt = trim(np);
    assert(nt == trim_end(np));
    assert(nt.len() >= 8) by {
        if nt.len() < 8 {
            assert(is_ws(np[7]));
        }
    }
    assert(nt.take(7) =~= np.take(7));
    assert(nt[7] == np[7]);
    lemma_name_keyed(nt);
    lemma_trim_trimmed(np);
    lemma_trim_sub(np, ';');
}

proof fn lemma_nonempty_trimmed_swap(qs: Seq<Seq<char>>, np: Seq<char>)
    requires
        trim(np).len() > 0,
        forall|i: int| 0 <= i < qs.len() ==> #[trigger] qs[i] == np || good_piece(qs[i]),
    ensures
        nonempty_trimmed(qs) == swapped(qs, np, trim(np)),
    decreases qs.len(),
{
    if qs.len() > 0 {
        let init = qs.drop_last();
        assert forall|i: int| 0 <= i < init.len() implies #[trigger] init[i] == np || good_piece(init[i]) by {
            assert(init[i] == qs[i]);
        }
        lemma_nonempty_trimmed_swap(init, np);
        let q = qs.last();
        assert(qs[qs.len() - 1] == q);
        if q != np {
            lemma_trim_trimmed(q);
        }
        assert(swapped(qs, np, trim(np)) =~= swapped(init, np, trim(np)).push(
            if q == np {
                trim(np)
            } else {
                q
            },
        ));
    }
}

proof fn lemma_foreign_swap(qs: Seq<Seq<char>>, from: Seq<char>, to: Seq<char>)
    requires
        is_key(from, name_key()) || is_key(from, source_key()),
        is_key(to, name_key()) || is_key(to, source_key()),
    ensures
        foreign(swapped(qs, from, to)) == foreign(qs),
    decreases qs.len(),
{
    if qs.len() > 0 {
        let init = qs.drop_last();
        lemma_foreign_swap(init, from, to);
        let q = qs.last();
        let t = swapped(qs, from, to);
        assert(t =~= swapped(init, from, to).push(
            if q == from {
                to
            } else {
                q
            },
        ));
        assert(t.drop_last() =~= swapped(init, from, to));
    }
}

/// Pieces made of the old name piece `from`, the source piece, each at most
/// once, and pieces of neither key, are written back with `from` turned into
/// the name piece `np`.
proof fn lemma_write_fold_swap(qs: Seq<Seq<char>>, from: Seq<char>, np: Seq<char>, sp: Seq<char>)
    requires
        is_key(from, name_key()),
        !is_key(from, source_key()),
        is_key(np, name_key()),
        !is_key(np, source_key()),
        is_key(sp, source_key()),
        !is_key(sp, name_key()),
        at_most_once(qs, from),
        at_most_once(qs, sp),
        made_of(qs, from, sp),
    ensures
        write_fold(qs, np, sp) == (swapped(qs, from, np), qs.contains(from), qs.contains(sp)),
    decreases qs.len(),
{
    if qs.len() > 0 {
        let init = qs.drop_last();
        let p = qs.last();
        assert(qs[qs.len() - 1] == p);
        assert forall|i: int, j: int| 0 <= i < j < init.len() && #[trigger] init[i] == from implies #[trigger] init[j]
            != from by {
            assert(init[i] == qs[i] && init[j] == qs[j]);
        }
        assert forall|i: int, j: int| 0 <= i < j < init.len() && #[trigger] init[i] == sp implies #[trigger] init[j]
            != sp by {
            assert(init[i] == qs[i] && init[j] == qs[j]);
        }
        assert forall|i: int| 0 <= i < init.len() implies #[trigger] init[i] == from || init[i] == sp || (!is_key(
            init[i],
            name_key(),
        ) && !is_key(init[i], source_key())) by {
            assert(init[i] == qs[i]);
        }
        lemma_write_fold_swap(init, from, np, sp);
        lemma_contains_push(init, p, from);
        lemma_contains_push(init, p, sp);
        assert(init.push(p) =~= qs);
        if p == from && init.contains(from) {
            let k = choose|k: int| 0 <= k < init.len() && init[k] == from;
            assert(qs[k] == from);
        }
        if p == sp && init.contains(sp) {
            let k = choose|k: int| 0 <= k < init.len() && init[k] == sp;
            assert(qs[k] == sp);
        }
        assert(swapped(qs, from, np) =~= swapped(init, from, np).push(
            if p == from {
                np
            } else {
                p
            },
        ));
    }
}

/// The pieces of a written description are the pieces written, with the
/// name piece trimmed as reading trims it; the pieces written hold the new
/// name and source pieces once each, between pieces of neither key, and
/// keep the description's other pieces in order.
proof fn lemma_written(description: Seq<char>, name: Option<Seq<char>>, source: TagSource)
    requires
        unsplit(name),
    ensures
        ({
            let qs = written_pieces(description, name, source);
            let np = name_piece(name);
            let sp = source_piece(source);
            &&& pieces(written(description, name, source)) == swapped(qs, np, trim(np))
            &&& qs.contains(np)
            &&& qs.contains(sp)
            &&& at_most_once(qs, np)
            &&& at_most_once(qs, sp)
            &&& made_of(qs, np, sp)
            &&& foreign(qs) == foreign(pieces(description))
            &&& forall|i: int| 0 <= i < qs.len() ==> #[trigger] qs[i] == np || good_piece(qs[i])
        }),
{
    let np = name_piece(name);
    let sp = source_piece(source);
    let ps = pieces(description);
    lemma_pieces_good(description);
    lemma_write_fold(ps, np, sp);
    lemma_unsplit_name_piece(name);
    lemma_source_piece(source);
    lemma_write_fold_once(ps, np, sp);
    let r = write_fold(ps, np, sp);
    let with_name = if r.1 {
        r.0
    } else {
        r.0.push(np)
    };
    let qs = written_pieces(description, name, source);
    if !r.1 {
        lemma_contains_push(r.0, np, np);
        lemma_contains_push(r.0, np, sp);
        lemma_once_push(r.0, np, np);
        lemma_once_push(r.0, np, sp);
        assert(with_name.drop_last() =~= r.0);
    }
    assert(made_of(with_name, np, sp)) by {
        assert forall|i: int| 0 <= i < with_name.len() implies #[trigger] with_name[i] == np || with_name[i] == sp || (
        !is_key(with_name[i], name_key()) && !is_key(with_name[i], source_key())) by {
            if i < r.0.len() {
                assert(with_name[i] == r.0[i]);
            }
        }
    }
    assert(foreign(with_name) == foreign(r.0));
    assert(with_name.contains(np));
    assert(with_name.contains(sp) <==> r.2);
    if !r.2 {
        lemma_contains_push(with_name, sp, np);
        lemma_contains_push(with_name, sp, sp);
        lemma_once_push(with_name, sp, np);
        lemma_once_push(with_name, sp, sp);
        assert(qs.drop_last() =~= with_name);
        assert forall|i: int| 0 <= i < qs.len() implies #[trigger] qs[i] == np || qs[i] == sp || (!is_key(
            qs[i],
            name_key(),
        ) && !is_key(qs[i], source_key())) by {
            if i < with_name.len() {
                assert(qs[i] == with_name[i]);
            }
        }
    }
    assert forall|i: int| 0 <= i < qs.len() implies #[trigger] qs[i] == np || good_piece(qs[i]) by {
        if qs[i] != np && qs[i] != sp {
            let k = choose|k: int| 0 <= k < ps.len() && #[trigger] ps[k] == qs[i];
            assert(good_piece(ps[k]));
        }
    }
    assert forall|i: int| 0 <= i < qs.len() implies !(#[trigger] qs[i]).contains(';') by {
        if qs[i] != np {
            assert(good_piece(qs[i]));
        }
    }
    assert(qs.contains(np));
    lemma_split_join(qs);
    lemma_nonempty_trimmed_swap(qs, np);
}

/// Writing the same tag a second time changes nothing.
pub proof fn law_writing_a_tag_twice_changes_nothing(
    description: Seq<char>,
    name: Option<Seq<char>>,
    source: TagSource,
)
    requires
        unsplit(name),
    ensures
        written(written(description, name, source), name, source) == written(description, name, source),
{
    let w = written(description, name, source);
    let qs = written_pieces(description, name, source);
    let np = name_piece(name);
    let sp = source_piece(source);
    let nt = trim(np);
    lemma_written(description, name, source);
    lemma_unsplit_name_piece(name);
    lemma_source_piece(source);
    let q2 = swapped(qs, np, nt);
    // A piece that reads as the trimmed name piece was the name piece.
    assert forall|i: int| 0 <= i < qs.len() implies (#[trigger] q2[i] == nt <==> qs[i] == np) && (q2[i] == sp
        <==> qs[i] == sp) && (qs[i] != np ==> q2[i] == qs[i]) by {
        if qs[i] != np {
            if qs[i] == nt {
                assert(qs[i] == sp || (!is_key(qs[i], name_key()) && !is_key(qs[i], source_key())));
            }
        }
        assert(nt != sp);
    }
    assert(at_most_once(q2, nt)) by {
        assert forall|i: int, j: int| 0 <= i < j < q2.len() && #[trigger] q2[i] == nt implies #[trigger] q2[j] != nt by {
            assert(qs[i] == np);
            if q2[j] == nt {
                assert(qs[j] == np);
            }
        }
    }
    assert(at_most_once(q2, sp)) by {
        assert forall|i: int, j: int| 0 <= i < j < q2.len() && #[trigger] q2[i] == sp implies #[trigger] q2[j] != sp by {
            assert(qs[i] == sp);
            if q2[j] == sp {
                assert(qs[j] == sp);
            }
        }
    }
    assert(made_of(q2, nt, sp)) by {
        assert forall|i: int| 0 <= i < q2.len() implies #[trigger] q2[i] == nt || q2[i] == sp || (!is_key(
            q2[i],
            name_key(),
        ) && !is_key(q2[i], source_key())) by {
            assert(made_of(qs, np, sp));
            assert(qs[i] == np || qs[i] == sp || (!is_key(qs[i], name_key()) && !is_key(qs[i], source_key())));
        }
    }
    assert(q2.contains(nt)) by {
        let k = choose|k: int| 0 <= k < qs.len() && qs[k] == np;
        assert(q2[k] == nt);
    }
    assert(q2.contains(sp)) by {
        let k = choose|k: int| 0 <= k < qs.len() && qs[k] == sp;
        assert(q2[k] == sp);
    }
    lemma_write_fold_swap(q2, nt, np, sp);
    assert(swapped(q2, nt, np) =~= qs);
    assert(written_pieces(w, name, source) == qs);
}

/// Writing a tag keeps everything else in the description as it was, in
/// its order: taking our keys out again gives what taking them out of the
/// description gave.
pub proof fn law_writing_a_tag_keeps_everything_else(
    description: Seq<char>,
    name: Option<Seq<char>>,
    source: TagSource,
)
    requires
        unsplit(name),
    ensures
        stripped(written(description, name, source)) == stripped(description),
{
    let np = name_piece(name);
    lemma_written(description, name, source);
    lemma_unsplit_name_piece(name);
    lemma_foreign_swap(written_pieces(description, name, source), np, trim(np));
}

// ── a bubble's letters and number ───────────────────────────────────────

proof fn lemma_trim_upper_end_digits(d: Seq<char>, sfx: Seq<char>)
    requires
        d.len() > 0,
        forall|i: int| 0 <= i < d.len() ==> is_digit(#[trigger] d[i]),
        forall|i: int| 0 <= i < sfx.len() ==> is_upper(#[trigger] sfx[i]),
    ensures
        trim_upper_end(d + sfx) == d,
    decreases sfx.len(),
{
    if sfx.len() == 0 {
        assert(d + sfx =~= d);
        assert(d.last() == d[d.len() - 1]);
    } else {
        let s2 = sfx.drop_last();
        assert((d + sfx).drop_last() =~= d + s2);
        assert((d + sfx).last() == sfx[sfx.len() - 1]);
        lemma_trim_upper_end_digits(d, s2);
    }
}

proof fn lemma_trim_upper_end_all(l: Seq<char>)
    requires
        forall|i: int| 0 <= i < l.len() ==> is_upper(#[trigger] l[i]),
    ensures
        trim_upper_end(l).len() == 0,
    decreases l.len(),
{
    if l.len() > 0 {
        assert(l.last() == l[l.len() - 1]);
        lemma_trim_upper_end_all(l.drop_last());
    }
}

/// A bubble's two lines, one to five capitals and a loop number of three to
/// five digits with at most one capital after it, make the tag letters,
/// hyphen, number.
pub proof fn law_a_bubble_reads_letters_hyphen_number(letters: Seq<char>, digits: Seq<char>, suffix: Seq<char>)
    requires
        1 <= letters.len() <= 5,
        forall|i: int| 0 <= i < letters.len() ==> is_upper(#[trigger] letters[i]),
        3 <= digits.len() <= 5,
        forall|i: int| 0 <= i < digits.len() ==> is_digit(#[trigger] digits[i]),
        suffix.len() <= 1,
        forall|i: int| 0 <= i < suffix.len() ==> is_upper(#[trigger] suffix[i]),
    ensures
        composed(seq![letters, digits + suffix]) == Some(letters + seq!['-'] + digits + suffix),
        reading(seq![letters, digits + suffix], Seq::<Seq<char>>::empty()) == Some(
            (letters + seq!['-'] + digits + suffix, TagHow::Bubble),
        ),
{
    let vs = seq![letters, digits + suffix];
    assert(is_letters(letters));
    lemma_trim_upper_end_all(letters);
    assert(!is_number(letters));
    lemma_trim_upper_end_digits(digits, suffix);
    assert(is_number(digits + suffix));
    assert((digits + suffix)[0] == digits[0]);
    assert(!is_letters(digits + suffix));
    assert(vs.drop_first() =~= seq![digits + suffix]);
    assert(vs.drop_first().drop_first() =~= Seq::<Seq<char>>::empty());
    assert(first_letters(vs) == Some(0int));
    assert(first_number(vs.drop_first()) == Some(0int));
    assert(first_number(vs) == Some(1int));
    assert(vs[0] + seq!['-'] + vs[1] =~= letters + seq!['-'] + digits + suffix);
    let none = Seq::<Seq<char>>::empty();
    assert(vs.drop_last() =~= seq![letters]);
    assert(seq![letters].drop_last() =~= none);
    assert(shaped(none, none) =~= none);
    assert(!any_shape(none, letters));
    assert(!any_shape(none, digits + suffix));
    assert(seq![letters].last() == letters);
    assert(vs.last() == digits + suffix);
    assert(shaped(seq![letters], none) =~= none);
    assert(shaped(vs, none) =~= none);
}

/// Among several lines, a bubble takes the first line of capitals and the
/// first loop number, in the order the lines come.
pub proof fn law_a_bubble_takes_the_first_letters_and_number(vs: Seq<Seq<char>>, l: int, d: int)
    requires
        0 <= l < vs.len(),
        0 <= d < vs.len(),
        is_letters(vs[l]),
        is_number(vs[d]),
        forall|k: int| 0 <= k < l ==> !is_letters(#[trigger] vs[k]),
        forall|k: int| 0 <= k < d ==> !is_number(#[trigger] vs[k]),
    ensures
        composed(vs) == Some(vs[l] + seq!['-'] + vs[d]),
{
    lemma_first_letters(vs);
    lemma_first_number(vs);
}

} // verus!
