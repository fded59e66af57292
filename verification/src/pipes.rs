//! Line numbers and pipe layers: which layers are pipe, which lettering is
//! a line number by the rules' patterns, and the family a line number
//! belongs to by the coding rule. The patterns are `regex` patterns,
//! matched against the whole of a piece of lettering.

use vstd::prelude::*;
use vstd::string::StringSliceAdditionalSpecFns;

use crate::text::{append, chars_of, find, opt_chars, same, slice_of, string_of, views};

verus! {

// ── what the regex crate answers ────────────────────────────────────────

/// Whether `regex::Regex::new` compiles `pattern` (within its default size
/// limit).
pub uninterp spec fn regex_compiles(pattern: Seq<char>) -> bool;

/// What the error `regex::Regex::new` gives for `pattern` says.
pub uninterp spec fn regex_error(pattern: Seq<char>) -> Seq<char>;

/// The names of `pattern`'s named groups, in order (`capture_names`, the
/// unnamed ones left out).
pub uninterp spec fn regex_group_names(pattern: Seq<char>) -> Seq<Seq<char>>;

/// Whether `pattern` matches somewhere in `text` (`Regex::is_match`).
pub uninterp spec fn regex_is_match(pattern: Seq<char>, text: Seq<char>) -> bool;

/// The text the group `name` captured in the first match of `pattern` in
/// `text` (`Regex::captures`, then `Captures::name`).
pub uninterp spec fn regex_capture(pattern: Seq<char>, text: Seq<char>, name: Seq<char>) -> Option<
    Seq<char>,
>;

/// How `{:?}` writes a string: quoted, with its escapes.
pub uninterp spec fn debug_quoted(s: Seq<char>) -> Seq<char>;

/// `Regex::new(pattern)`: `Ok` exactly when it compiles, else the error's
/// text.
#[verifier::external_body]
fn regex_check(pattern: &str) -> (r: Result<(), String>)
    ensures
        r is Ok <==> regex_compiles(pattern@),
        r matches Err(m) ==> m@ == regex_error(pattern@),
{
    regex::Regex::new(pattern).map(|_| ()).map_err(|e| e.to_string())
}

/// `Regex::capture_names` of the compiled `pattern`, the named ones.
#[verifier::external_body]
fn regex_names(pattern: &str) -> (r: Vec<String>)
    requires
        regex_compiles(pattern@),
    ensures
        views(r@) == regex_group_names(pattern@),
{
    regex::Regex::new(pattern)
        .map(|re| re.capture_names().flatten().map(|n| n.to_string()).collect())
        .unwrap_or_default()
}

/// `Regex::is_match` of the compiled `pattern` on `text`.
#[verifier::external_body]
fn regex_matches(pattern: &str, text: &str) -> (b: bool)
    requires
        regex_compiles(pattern@),
    ensures
        b == regex_is_match(pattern@, text@),
{
    regex::Regex::new(pattern).map(|re| re.is_match(text)).unwrap_or(false)
}

/// The group `name` of the compiled `pattern`'s first match in `text`.
#[verifier::external_body]
fn regex_group(pattern: &str, text: &str, name: &str) -> (r: Option<String>)
    requires
        regex_compiles(pattern@),
    ensures
        opt_chars(r) == regex_capture(pattern@, text@, name@),
{
    regex::Regex::new(pattern)
        .ok()
        .and_then(|re| re.captures(text).and_then(|c| c.name(name).map(|m| m.as_str().to_string())))
}

/// `format!("{s:?}")`.
#[verifier::external_body]
fn debug_text(s: &str) -> (r: String)
    ensures
        r@ == debug_quoted(s@),
{
    format!("{s:?}")
}

// ── the rules ───────────────────────────────────────────────────────────

/// What the pipe pass reads from its rules besides distances: the layer
/// prefixes that make a stroke pipe, the line number patterns, and the
/// family template.
#[derive(Debug, Clone, PartialEq, Eq)]
pub struct PipeRules {
    /// A stroke on a layer whose name starts with one of these (ASCII case
    /// insensitive) is pipe. Empty turns the pass off.
    pub layer_prefixes: Vec<String>,
    /// What a line number looks like: a pattern that matches the whole of a
    /// piece of lettering; the first that matches is the one `family`
    /// reads.
    pub number_pattern: Vec<String>,
    /// The family a line number belongs to, written from the groups its
    /// pattern captured: `{service}-{seq}`.
    pub family: String,
}

/// The default line number spellings: `<size>-<service>` with an optional
/// `-<5 digits>-<class>`, and the loading islands' `<size>-<service>-<4
/// digits>-<class>`.
pub const DEFAULT_NUMBER_PATTERN_SHORT: &'static str = "(?<size>[0-9]+)-(?<service>[A-Z]{1,3})(?:-(?<seq>[0-9]{5})-(?<class>[A-Z][0-9]))?";

pub const DEFAULT_NUMBER_PATTERN_ISLAND: &'static str = "(?<size>[0-9]+)-(?<service>[A-Z]{2,3})-(?<seq>[0-9]{4})-(?<class>[A-Z][0-9])";

pub const DEFAULT_FAMILY: &'static str = "{service}-{seq}";

impl PipeRules {
    /// No pipe layers, the default line number patterns and family.
    pub fn new() -> (r: PipeRules)
        ensures
            r.layer_prefixes@.len() == 0,
            views(r.number_pattern@) == seq![DEFAULT_NUMBER_PATTERN_SHORT@, DEFAULT_NUMBER_PATTERN_ISLAND@],
            r.family@ == DEFAULT_FAMILY@,
    {
        let mut number_pattern: Vec<String> = Vec::new();
        number_pattern.push(string_of(chars_of(DEFAULT_NUMBER_PATTERN_SHORT).as_slice()));
        number_pattern.push(string_of(chars_of(DEFAULT_NUMBER_PATTERN_ISLAND).as_slice()));
        let r = PipeRules {
            layer_prefixes: Vec::new(),
            number_pattern,
            family: string_of(chars_of(DEFAULT_FAMILY).as_slice()),
        };
        assert(views(r.number_pattern@) =~= seq![DEFAULT_NUMBER_PATTERN_SHORT@, DEFAULT_NUMBER_PATTERN_ISLAND@]);
        r
    }
}

impl Default for PipeRules {
    fn default() -> (r: PipeRules)
        ensures
            r.layer_prefixes@.len() == 0,
            views(r.number_pattern@) == seq![DEFAULT_NUMBER_PATTERN_SHORT@, DEFAULT_NUMBER_PATTERN_ISLAND@],
            r.family@ == DEFAULT_FAMILY@,
    {
        PipeRules::new()
    }
}

// ── pipe layers ─────────────────────────────────────────────────────────

pub open spec fn lower_byte(b: u8) -> u8 {
    if 65 <= b <= 90 {
        (b + 32) as u8
    } else {
        b
    }
}

/// `layer` starts with `prefix`, byte for byte, ASCII case ignored.
pub open spec fn starts_with_ignoring_case(layer: Seq<u8>, prefix: Seq<u8>) -> bool {
    prefix.len() <= layer.len() && forall|i: int| 0 <= i < prefix.len() ==> lower_byte(#[trigger] layer[i]) == lower_byte(prefix[i])
}

fn lower_byte_exec(b: u8) -> (r: u8)
    ensures
        r == lower_byte(b),
{
    if 65 <= b && b <= 90 {
        b + 32
    } else {
        b
    }
}

fn head_matches(layer: &[u8], prefix: &[u8]) -> (b: bool)
    ensures
        b == starts_with_ignoring_case(layer@, prefix@),
{
    if prefix.len() > layer.len() {
        return false;
    }
    let mut i: usize = 0;
    while i < prefix.len()
        invariant
            i <= prefix@.len(),
            prefix@.len() <= layer@.len(),
            forall|k: int| 0 <= k < i ==> lower_byte(#[trigger] layer@[k]) == lower_byte(prefix@[k]),
        decreases prefix@.len() - i,
    {
        if lower_byte_exec(layer[i]) != lower_byte_exec(prefix[i]) {
            return false;
        }
        i += 1;
    }
    true
}

impl PipeRules {
    /// Whether a stroke on `layer` is pipe: the layer's name starts with one
    /// of the prefixes, ASCII case ignored.
    pub fn is_pipe_layer(&self, layer: &str) -> (b: bool)
        ensures
            b == exists|i: int|
                0 <= i < self.layer_prefixes@.len() && starts_with_ignoring_case(
                    vstd::utf8::encode_utf8(layer@),
                    #[trigger] vstd::utf8::encode_utf8(self.layer_prefixes@[i]@),
                ),
    {
        let bytes = layer.as_bytes();
        let mut i: usize = 0;
        while i < self.layer_prefixes.len()
            invariant
                i <= self.layer_prefixes@.len(),
                bytes@ == vstd::utf8::encode_utf8(layer@),
                forall|k: int|
                    0 <= k < i ==> !starts_with_ignoring_case(
                        vstd::utf8::encode_utf8(layer@),
                        #[trigger] vstd::utf8::encode_utf8(self.layer_prefixes@[k]@),
                    ),
            decreases self.layer_prefixes@.len() - i,
        {
            let p = self.layer_prefixes[i].as_str().as_bytes();
            if head_matches(bytes, p) {
                return true;
            }
            i += 1;
        }
        false
    }
}

// ── line numbers ────────────────────────────────────────────────────────

/// `pattern` anchored to match the whole of a text.
pub open spec fn anchored(pattern: Seq<char>) -> Seq<char> {
    "^(?:"@ + pattern + ")$"@
}

/// The index of the first pattern that compiles and matches `value`.
pub open spec fn first_match(patterns: Seq<Seq<char>>, value: Seq<char>) -> Option<int>
    decreases patterns.len(),
{
    if patterns.len() == 0 {
        None
    } else if regex_compiles(anchored(patterns[0])) && regex_is_match(anchored(patterns[0]), value) {
        Some(0)
    } else {
        match first_match(patterns.drop_first(), value) {
            Some(i) => Some(i + 1),
            None => None,
        }
    }
}

/// The `{group}` names a family template refers to, up to the first `{`
/// left open.
pub open spec fn template_names(t: Seq<char>) -> Seq<Seq<char>>
    decreases t.len(),
{
    match find(t, '{') {
        None => Seq::<Seq<char>>::empty(),
        Some(o) => match find(t.skip(o), '}') {
            None => Seq::<Seq<char>>::empty(),
            Some(c) => {
                proof {
                    crate::text::lemma_find(t, '{');
                    crate::text::lemma_find(t.skip(o), '}');
                }
                seq![t.subrange(o + 1, o + c)] + template_names(t.skip(o + c + 1))
            },
        },
    }
}

/// The template written from the groups `pattern` captured in `value`;
/// `None` when a group it names has no value, or a `{` is left open.
pub open spec fn written_family(t: Seq<char>, pattern: Seq<char>, value: Seq<char>) -> Option<Seq<char>>
    decreases t.len(),
{
    match find(t, '{') {
        None => Some(t),
        Some(o) => match find(t.skip(o), '}') {
            None => None,
            Some(c) => {
                proof {
                    crate::text::lemma_find(t, '{');
                    crate::text::lemma_find(t.skip(o), '}');
                }
                match regex_capture(pattern, value, t.subrange(o + 1, o + c)) {
                    None => None,
                    Some(g) => match written_family(t.skip(o + c + 1), pattern, value) {
                        None => None,
                        Some(rest) => Some(t.take(o) + g + rest),
                    },
                }
            },
        },
    }
}

/// The family `value` belongs to: the template written from the groups
/// the first matching pattern captured, or `value` itself when no pattern
/// matches or a group the template names has no value.
pub open spec fn family_of_value(patterns: Seq<Seq<char>>, template: Seq<char>, value: Seq<char>) -> Seq<char> {
    match first_match(patterns, value) {
        Some(i) => match written_family(template, anchored(patterns[i]), value) {
            Some(f) => f,
            None => value,
        },
        None => value,
    }
}

proof fn lemma_first_match(patterns: Seq<Seq<char>>, value: Seq<char>)
    ensures
        first_match(patterns, value) matches Some(i) ==> 0 <= i < patterns.len() && regex_compiles(
            anchored(patterns[i]),
        ) && regex_is_match(anchored(patterns[i]), value),
    decreases patterns.len(),
{
    if patterns.len() > 0 {
        lemma_first_match(patterns.drop_first(), value);
    }
}

fn anchored_exec(pattern: &str) -> (a: String)
    ensures
        a@ == anchored(pattern@),
{
    let mut out = chars_of("^(?:");
    append(&mut out, chars_of(pattern).as_slice());
    append(&mut out, chars_of(")$").as_slice());
    string_of(out.as_slice())
}

proof fn lemma_find_bound(s: Seq<char>, c: char)
    ensures
        find(s, c) matches Some(i) ==> 0 <= i < s.len() && s[i] == c,
        find(s, c) is None ==> forall|k: int| 0 <= k < s.len() ==> s[k] != c,
{
    crate::text::lemma_find(s, c);
}

/// The first `c` in `s`.
fn find_exec(s: &[char], c: char) -> (r: Option<usize>)
    ensures
        match r {
            Some(i) => find(s@, c) == Some(i as int),
            None => find(s@, c) is None,
        },
{
    let r = crate::text::first_index(s, c);
    r
}

/// The `{group}` names a family template refers to.
pub fn template_groups(template: &str) -> (names: Vec<String>)
    ensures
        views(names@) == template_names(template@),
{
    let t = chars_of(template);
    let mut names: Vec<String> = Vec::new();
    let mut rest: Vec<char> = t;
    let ghost all = template@;
    assert(views(names@) + template_names(rest@) =~= template_names(all));
    while rest.len() > 0
        invariant
            all == template@,
            views(names@) + template_names(rest@) == template_names(all),
        decreases rest@.len(),
    {
        let ghost r = rest@;
        match find_exec(rest.as_slice(), '{') {
            None => {
                assert(template_names(r) =~= Seq::<Seq<char>>::empty());
                assert(views(names@) =~= views(names@) + template_names(r));
                return names;
            },
            Some(o) => {
                proof {
                    lemma_find_bound(r, '{');
                }
                let tail = slice_of(rest.as_slice(), o, rest.len());
                assert(tail@ =~= r.skip(o as int));
                match find_exec(tail.as_slice(), '}') {
                    None => {
                        assert(template_names(r) =~= Seq::<Seq<char>>::empty());
                        assert(views(names@) =~= views(names@) + template_names(r));
                        return names;
                    },
                    Some(c) => {
                        proof {
                            lemma_find_bound(tail@, '}');
                        }
                        assert(c > 0);
                        let name = slice_of(rest.as_slice(), o + 1, o + c);
                        let ghost before = views(names@);
                        names.push(string_of(name.as_slice()));
                        let next = slice_of(rest.as_slice(), o + c + 1, rest.len());
                        assert(next@ =~= r.skip(o + c + 1));
                        assert(views(names@) =~= before.push(name@));
                        assert(template_names(r) =~= seq![r.subrange(o + 1, o + c)] + template_names(next@));
                        assert(views(names@) + template_names(next@) =~= before + template_names(r));
                        rest = next;
                    },
                }
            },
        }
    }
    assert(template_names(rest@) =~= Seq::<Seq<char>>::empty());
    assert(views(names@) =~= views(names@) + template_names(rest@));
    names
}

/// The family template written from the groups `pattern` (compiled)
/// captured in `value`.
fn write_family(template: &str, pattern: &str, value: &str) -> (r: Option<String>)
    requires
        regex_compiles(pattern@),
    ensures
        opt_chars(r) == written_family(template@, pattern@, value@),
{
    let mut out: Vec<char> = Vec::new();
    let mut rest: Vec<char> = chars_of(template);
    let ghost all = template@;
    proof {
        match written_family(rest@, pattern@, value@) {
            Some(w) => {
                assert(out@ + w =~= w);
            },
            None => {},
        }
    }
    while rest.len() > 0
        invariant
            all == template@,
            regex_compiles(pattern@),
            written_family(all, pattern@, value@) == match written_family(rest@, pattern@, value@) {
                Some(w) => Some(out@ + w),
                None => None::<Seq<char>>,
            },
        decreases rest@.len(),
    {
        let ghost r = rest@;
        match find_exec(rest.as_slice(), '{') {
            None => {
                append(&mut out, rest.as_slice());
                return Some(string_of(out.as_slice()));
            },
            Some(o) => {
                proof {
                    lemma_find_bound(r, '{');
                }
                let tail = slice_of(rest.as_slice(), o, rest.len());
                assert(tail@ =~= r.skip(o as int));
                match find_exec(tail.as_slice(), '}') {
                    None => {
                        return None;
                    },
                    Some(c) => {
                        proof {
                            lemma_find_bound(tail@, '}');
                        }
                        assert(c > 0);
                        let name = slice_of(rest.as_slice(), o + 1, o + c);
                        let name_s = string_of(name.as_slice());
                        match regex_group(pattern, value, name_s.as_str()) {
                            None => {
                                return None;
                            },
                            Some(g) => {
                                let head = slice_of(rest.as_slice(), 0, o);
                                assert(head@ =~= r.take(o as int));
                                let ghost old_out = out@;
                                append(&mut out, head.as_slice());
                                append(&mut out, chars_of(g.as_str()).as_slice());
                                let next = slice_of(rest.as_slice(), o + c + 1, rest.len());
                                assert(next@ =~= r.skip(o + c + 1));
                                proof {
                                    match written_family(next@, pattern@, value@) {
                                        Some(w) => {
                                            assert(old_out + (r.take(o as int) + g@ + w) =~= out@ + w);
                                        },
                                        None => {},
                                    }
                                }
                                rest = next;
                            },
                        }
                    },
                }
            },
        }
    }
    assert(written_family(rest@, pattern@, value@) == Some(rest@));
    assert(out@ + rest@ =~= out@);
    Some(string_of(out.as_slice()))
}

impl PipeRules {
    /// Whether `value` is a line number as the rules letter one: some
    /// pattern that compiles matches the whole of it.
    pub fn is_line_number(&self, value: &str) -> (b: bool)
        ensures
            b == (first_match(views(self.number_pattern@), value@) is Some),
    {
        match self.first_match_exec(value) {
            Some(_) => true,
            None => false,
        }
    }

    fn first_match_exec(&self, value: &str) -> (r: Option<usize>)
        ensures
            match r {
                Some(i) => first_match(views(self.number_pattern@), value@) == Some(i as int) && i
                    < self.number_pattern@.len(),
                None => first_match(views(self.number_pattern@), value@) is None,
            },
    {
        let ghost ps = views(self.number_pattern@);
        let mut i: usize = 0;
        assert(ps.skip(0) =~= ps);
        while i < self.number_pattern.len()
            invariant
                i <= self.number_pattern@.len(),
                ps == views(self.number_pattern@),
                first_match(ps, value@) == match first_match(ps.skip(i as int), value@) {
                    Some(k) => Some(k + i),
                    None => None::<int>,
                },
            decreases self.number_pattern@.len() - i,
        {
            let a = anchored_exec(self.number_pattern[i].as_str());
            assert(ps.skip(i as int)[0] == self.number_pattern@[i as int]@);
            assert(ps.skip(i as int).drop_first() =~= ps.skip(i + 1));
            if regex_check(a.as_str()).is_ok() {
                if regex_matches(a.as_str(), value) {
                    return Some(i);
                }
            }
            i += 1;
        }
        None
    }

    /// The family `value` belongs to by the coding rule: `family` written
    /// from the groups the first matching pattern captured
    /// (`200-FS-31001-A2` is `FS-31001`). A value no pattern matches, or
    /// one missing a group the template names, is its own family.
    pub fn line_family(&self, value: &str) -> (f: String)
        ensures
            f@ == family_of_value(views(self.number_pattern@), self.family@, value@),
    {
        match self.first_match_exec(value) {
            Some(i) => {
                let a = anchored_exec(self.number_pattern[i].as_str());
                assert(views(self.number_pattern@)[i as int] == self.number_pattern@[i as int]@);
                proof {
                    lemma_first_match(views(self.number_pattern@), value@);
                }
                match write_family(self.family.as_str(), a.as_str(), value) {
                    Some(f) => f,
                    None => string_of(chars_of(value).as_slice()),
                }
            },
            None => string_of(chars_of(value).as_slice()),
        }
    }
}

// ── checking the rules ──────────────────────────────────────────────────

/// The index of the first pattern that does not compile.
pub open spec fn first_broken(patterns: Seq<Seq<char>>) -> Option<int>
    decreases patterns.len(),
{
    if patterns.len() == 0 {
        None
    } else if !regex_compiles(anchored(patterns[0])) {
        Some(0)
    } else {
        match first_broken(patterns.drop_first()) {
            Some(i) => Some(i + 1),
            None => None,
        }
    }
}

/// The named groups of every pattern, pattern by pattern.
pub open spec fn all_group_names(patterns: Seq<Seq<char>>) -> Seq<Seq<char>>
    decreases patterns.len(),
{
    if patterns.len() == 0 {
        Seq::<Seq<char>>::empty()
    } else {
        all_group_names(patterns.drop_last()) + regex_group_names(anchored(patterns.last()))
    }
}

/// The first of `names` that `groups` lacks.
pub open spec fn first_absent(names: Seq<Seq<char>>, groups: Seq<Seq<char>>) -> Option<int>
    decreases names.len(),
{
    if names.len() == 0 {
        None
    } else if !groups.contains(names[0]) {
        Some(0)
    } else {
        match first_absent(names.drop_first(), groups) {
            Some(i) => Some(i + 1),
            None => None,
        }
    }
}

/// What is wrong with the rules, if anything: the first pattern that does
/// not compile, else the first group the family names that no pattern
/// has.
pub open spec fn rule_problem(patterns: Seq<Seq<char>>, family: Seq<char>) -> Option<Seq<char>> {
    match first_broken(patterns) {
        Some(k) => Some(
            "pipes.number_pattern "@ + debug_quoted(patterns[k]) + ": "@ + regex_error(anchored(patterns[k])),
        ),
        None => {
            let names = template_names(family);
            match first_absent(names, all_group_names(patterns)) {
                Some(j) => Some(
                    "pipes.family "@ + debug_quoted(family) + " names a group {"@ + names[j]
                        + "} no number_pattern captures"@,
                ),
                None => None,
            }
        },
    }
}

fn holds_text(values: &Vec<String>, v: &str) -> (b: bool)
    ensures
        b == views(values@).contains(v@),
{
    let c = chars_of(v);
    let mut i: usize = 0;
    while i < values.len()
        invariant
            i <= values@.len(),
            c@ == v@,
            forall|k: int| 0 <= k < i ==> values@[k]@ != v@,
        decreases values@.len() - i,
    {
        if same(chars_of(values[i].as_str()).as_slice(), c.as_slice()) {
            assert(views(values@)[i as int] == v@);
            return true;
        }
        i += 1;
    }
    proof {
        if views(values@).contains(v@) {
            let k = choose|k: int| 0 <= k < views(values@).len() && views(values@)[k] == v@;
            assert(values@[k]@ == v@);
        }
    }
    false
}

impl PipeRules {
    /// Whether every `number_pattern` compiles and `family` names only
    /// groups some pattern has; else what is wrong, so a typo in a rules
    /// file is reported when the rules are loaded.
    pub fn validate(&self) -> (r: Result<(), String>)
        ensures
            match rule_problem(views(self.number_pattern@), self.family@) {
                None => r is Ok,
                Some(m) => r matches Err(e) && e@ == m,
            },
    {
        let ghost ps = views(self.number_pattern@);
        let mut groups: Vec<String> = Vec::new();
        let mut i: usize = 0;
        assert(ps.skip(0) =~= ps);
        assert(views(groups@) =~= all_group_names(ps.take(0)));
        while i < self.number_pattern.len()
            invariant
                i <= self.number_pattern@.len(),
                ps == views(self.number_pattern@),
                first_broken(ps) == match first_broken(ps.skip(i as int)) {
                    Some(k) => Some(k + i),
                    None => None::<int>,
                },
                views(groups@) == all_group_names(ps.take(i as int)),
            decreases self.number_pattern@.len() - i,
        {
            let pattern = self.number_pattern[i].as_str();
            let a = anchored_exec(pattern);
            assert(ps.skip(i as int)[0] == ps[i as int]);
            assert(ps[i as int] == self.number_pattern@[i as int]@);
            assert(ps.skip(i as int).drop_first() =~= ps.skip(i + 1));
            match regex_check(a.as_str()) {
                Err(e) => {
                    let mut m = chars_of("pipes.number_pattern ");
                    append(&mut m, chars_of(debug_text(pattern).as_str()).as_slice());
                    append(&mut m, chars_of(": ").as_slice());
                    append(&mut m, chars_of(e.as_str()).as_slice());
                    return Err(string_of(m.as_slice()));
                },
                Ok(()) => {},
            }
            let names = regex_names(a.as_str());
            let ghost before = views(groups@);
            let mut k: usize = 0;
            while k < names.len()
                invariant
                    k <= names@.len(),
                    views(groups@) == before + views(names@).take(k as int),
                decreases names@.len() - k,
            {
                let ghost prev = views(groups@);
                groups.push(names[k].clone());
                assert(views(groups@) =~= prev.push(names@[k as int]@));
                assert(views(names@).take(k + 1) =~= views(names@).take(k as int).push(names@[k as int]@));
                k += 1;
                assert(views(groups@) =~= before + views(names@).take(k as int));
            }
            assert(views(names@).take(names@.len() as int) =~= views(names@));
            assert(ps.take(i + 1).drop_last() =~= ps.take(i as int));
            assert(ps.take(i + 1).last() == ps[i as int]);
            i += 1;
        }
        assert(ps.take(self.number_pattern@.len() as int) =~= ps);
        assert(ps.skip(self.number_pattern@.len() as int) =~= Seq::<Seq<char>>::empty());
        assert(first_broken(ps) is None);
        let wanted = template_groups(self.family.as_str());
        let ghost ns = views(wanted@);
        let mut j: usize = 0;
        assert(ns.skip(0) =~= ns);
        while j < wanted.len()
            invariant
                j <= wanted@.len(),
                ns == views(wanted@),
                ns == template_names(self.family@),
                ps == views(self.number_pattern@),
                first_broken(ps) is None,
                views(groups@) == all_group_names(ps),
                first_absent(ns, views(groups@)) == match first_absent(ns.skip(j as int), views(groups@)) {
                    Some(k) => Some(k + j),
                    None => None::<int>,
                },
            decreases wanted@.len() - j,
        {
            assert(ns.skip(j as int)[0] == ns[j as int]);
            assert(ns.skip(j as int).drop_first() =~= ns.skip(j + 1));
            assert(ns[j as int] == wanted@[j as int]@);
            if !holds_text(&groups, wanted[j].as_str()) {
                assert(first_absent(ns.skip(j as int), views(groups@)) == Some(0int));
                assert(first_absent(ns, views(groups@)) == Some(j as int));
                let mut m = chars_of("pipes.family ");
                append(&mut m, chars_of(debug_text(self.family.as_str()).as_str()).as_slice());
                append(&mut m, chars_of(" names a group {").as_slice());
                append(&mut m, chars_of(wanted[j].as_str()).as_slice());
                append(&mut m, chars_of("} no number_pattern captures").as_slice());
                return Err(string_of(m.as_slice()));
            }
            j += 1;
        }
        assert(ns.skip(wanted@.len() as int) =~= Seq::<Seq<char>>::empty());
        Ok(())
    }
}

} // verus!
