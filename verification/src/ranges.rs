//! Range annotations: lettering that names several tags at once --
//! `XV-0407A～0409A`, `XV-0407D/0407E` -- and the tags it names.

use vstd::prelude::*;

use crate::text::{
    append, chars_of, concat, digit, is_digit, is_upper, is_ws, lemma_split_len, same, slice_of, split, split_on,
    string_of, strings_of, upper, views, whitespace,
};

verus! {

/// The most members a range annotation may name; a wider span is a typo or
/// not a range at all.
pub const RANGE_MEMBERS_MAX: usize = 50;

// ── numbers ─────────────────────────────────────────────────────────────

/// The value of a line of decimal digits.
pub open spec fn dec_value(s: Seq<char>) -> nat
    decreases s.len(),
{
    if s.len() == 0 {
        0
    } else {
        dec_value(s.drop_last()) * 10 + ((s.last() as int) - ('0' as int)) as nat
    }
}

pub open spec fn digit_char(d: int) -> char {
    (d + 48) as char
}

/// `n` written in decimal, without leading zeros.
pub open spec fn dec_digits(n: nat) -> Seq<char>
    decreases n,
{
    if n < 10 {
        seq![digit_char(n as int)]
    } else {
        dec_digits(n / 10).push(digit_char((n % 10) as int))
    }
}

pub open spec fn zeros(n: int) -> Seq<char> {
    Seq::new(if n > 0 {
        n as nat
    } else {
        0
    }, |i: int| '0')
}

/// `n` written in decimal, zero-padded to `width` (`{n:0width$}`).
pub open spec fn padded(n: nat, width: int) -> Seq<char> {
    zeros(width - dec_digits(n).len()) + dec_digits(n)
}

proof fn lemma_dec_value_monotone(s: Seq<char>, k: int)
    requires
        0 <= k <= s.len(),
        forall|i: int| 0 <= i < s.len() ==> is_digit(#[trigger] s[i]),
    ensures
        dec_value(s.take(k)) <= dec_value(s),
    decreases s.len(),
{
    if k < s.len() {
        let init = s.drop_last();
        assert forall|i: int| 0 <= i < init.len() implies is_digit(#[trigger] init[i]) by {
            assert(init[i] == s[i]);
        }
        lemma_dec_value_monotone(init, k);
        assert(init.take(k) =~= s.take(k));
        assert(is_digit(s[s.len() - 1]));
    } else {
        assert(s.take(k) =~= s);
    }
}

/// The value of a line of digits, `None` when it does not fit a `usize`
/// (`str::parse::<usize>` on such a line).
fn parse_digits(s: &[char]) -> (out: Option<usize>)
    requires
        forall|i: int| 0 <= i < s@.len() ==> is_digit(#[trigger] s@[i]),
    ensures
        match out {
            Some(n) => n == dec_value(s@),
            None => dec_value(s@) > usize::MAX,
        },
{
    let mut acc: usize = 0;
    let mut i: usize = 0;
    assert(s@.take(0) =~= Seq::<char>::empty());
    while i < s.len()
        invariant
            i <= s@.len(),
            forall|k: int| 0 <= k < s@.len() ==> is_digit(#[trigger] s@[k]),
            acc == dec_value(s@.take(i as int)),
        decreases s@.len() - i,
    {
        let d: u32 = (s[i] as u32) - 48;
        assert(s@.take(i + 1).drop_last() =~= s@.take(i as int));
        assert(s@.take(i + 1).last() == s@[i as int]);
        proof {
            lemma_dec_value_monotone(s@, i + 1);
        }
        let times = acc.checked_mul(10);
        match times {
            Some(t) => match t.checked_add(d as usize) {
                Some(next) => {
                    acc = next;
                },
                None => {
                    return None;
                },
            },
            None => {
                proof {
                    assert(dec_value(s@.take(i + 1)) >= acc * 10);
                }
                return None;
            },
        }
        i += 1;
    }
    assert(s@.take(s@.len() as int) =~= s@);
    Some(acc)
}

fn digit_of(d: usize) -> (c: char)
    requires
        d < 10,
    ensures
        c == digit_char(d as int),
{
    let b: u8 = (d as u8) + 48;
    b as char
}

/// `n` in decimal.
pub fn dec_chars(n: usize) -> (out: Vec<char>)
    ensures
        out@ == dec_digits(n as nat),
    decreases n,
{
    if n < 10 {
        let mut v: Vec<char> = Vec::new();
        v.push(digit_of(n));
        assert(v@ =~= seq![digit_char(n as int)]);
        v
    } else {
        let mut v = dec_chars(n / 10);
        v.push(digit_of(n % 10));
        v
    }
}

/// `n` in decimal.
pub fn dec_chars_u64(n: u64) -> (out: Vec<char>)
    ensures
        out@ == dec_digits(n as nat),
    decreases n,
{
    let mut v = if n < 10 {
        Vec::new()
    } else {
        dec_chars_u64(n / 10)
    };
    let d: usize = (n % 10) as usize;
    v.push(digit_of(d));
    if n < 10 {
        assert(v@ =~= seq![digit_char(n as int)]);
    }
    v
}

/// `n` in decimal, zero-padded to `width` characters.
pub fn padded_chars(n: usize, width: usize) -> (out: Vec<char>)
    ensures
        out@ == padded(n as nat, width as int),
{
    let digits = dec_chars(n);
    let mut out: Vec<char> = Vec::new();
    let mut k: usize = digits.len();
    while k < width
        invariant
            digits@.len() <= k <= width || (k == digits@.len() && width < k),
            out@ == zeros(k - digits@.len()),
        decreases width - k,
    {
        out.push('0');
        k += 1;
        assert(out@ =~= zeros(k - digits@.len()));
    }
    assert(out@ =~= zeros(width - digits@.len()));
    append(&mut out, digits.as_slice());
    out
}

// ── splitting a tag ─────────────────────────────────────────────────────

/// The index of the first digit in `s` at or after `i`.
pub open spec fn first_digit_from(s: Seq<char>, i: int) -> Option<int>
    decreases s.len() - i,
{
    if i < 0 || i >= s.len() {
        None
    } else if is_digit(s[i]) {
        Some(i)
    } else {
        first_digit_from(s, i + 1)
    }
}

/// The index of the first character at or after `i` that is not a digit,
/// or the length.
pub open spec fn digits_end(s: Seq<char>, i: int) -> int
    decreases s.len() - i,
{
    if i < 0 || i >= s.len() {
        s.len() as int
    } else if !is_digit(s[i]) {
        i
    } else {
        digits_end(s, i + 1)
    }
}

/// A tag split into the part before its number, the number, and what
/// follows it -- which must be nothing or one capital letter.
pub open spec fn tag_split(v: Seq<char>) -> Option<(Seq<char>, Seq<char>, Seq<char>)> {
    match first_digit_from(v, 0) {
        None => None,
        Some(start) => {
            let end = digits_end(v, start);
            let suffix = v.skip(end);
            if suffix.len() == 0 || (suffix.len() == 1 && is_upper(suffix[0])) {
                Some((v.take(start), v.subrange(start, end), suffix))
            } else {
                None
            }
        },
    }
}

proof fn lemma_first_digit_from(s: Seq<char>, i: int)
    requires
        0 <= i <= s.len(),
    ensures
        match first_digit_from(s, i) {
            Some(j) => i <= j < s.len() && is_digit(s[j]) && forall|k: int|
                i <= k < j ==> !is_digit(#[trigger] s[k]),
            None => forall|k: int| i <= k < s.len() ==> !is_digit(#[trigger] s[k]),
        },
    decreases s.len() - i,
{
    if i < s.len() && !is_digit(s[i]) {
        lemma_first_digit_from(s, i + 1);
    }
}

proof fn lemma_digits_end(s: Seq<char>, i: int)
    requires
        0 <= i <= s.len(),
    ensures
        i <= digits_end(s, i) <= s.len(),
        digits_end(s, i) < s.len() ==> !is_digit(s[digits_end(s, i)]),
        forall|k: int| i <= k < digits_end(s, i) ==> is_digit(#[trigger] s[k]),
    decreases s.len() - i,
{
    if i < s.len() && is_digit(s[i]) {
        lemma_digits_end(s, i + 1);
    }
}

/// `split_tag` on characters, with the positions of the number.
fn split_tag_exec(v: &[char]) -> (out: Option<(Vec<char>, Vec<char>, Vec<char>)>)
    ensures
        match out {
            Some(t) => tag_split(v@) == Some((t.0@, t.1@, t.2@)),
            None => tag_split(v@) is None,
        },
{
    proof {
        lemma_first_digit_from(v@, 0);
    }
    let mut start: usize = 0;
    while start < v.len() && !digit(v[start])
        invariant
            start <= v@.len(),
            first_digit_from(v@, 0) == first_digit_from(v@, start as int),
        decreases v@.len() - start,
    {
        start += 1;
    }
    if start == v.len() {
        return None;
    }
    proof {
        lemma_digits_end(v@, start as int);
    }
    let mut end: usize = start;
    while end < v.len() && digit(v[end])
        invariant
            start <= end <= v@.len(),
            digits_end(v@, start as int) == digits_end(v@, end as int),
        decreases v@.len() - end,
    {
        end += 1;
    }
    let suffix = slice_of(v, end, v.len());
    assert(suffix@ =~= v@.skip(end as int));
    if suffix.len() == 0 || (suffix.len() == 1 && upper(suffix[0])) {
        let prefix = slice_of(v, 0, start);
        let number = slice_of(v, start, end);
        assert(prefix@ =~= v@.take(start as int));
        Some((prefix, number, suffix))
    } else {
        None
    }
}

// ── expanding a range ───────────────────────────────────────────────────

/// The separator a range is written with: `～`, else `~`, else `/`.
pub open spec fn range_sep(v: Seq<char>) -> Option<char> {
    if v.contains('～') {
        Some('～')
    } else if v.contains('~') {
        Some('~')
    } else if v.contains('/') {
        Some('/')
    } else {
        None
    }
}

/// The number and suffix of every part, each part either repeating `prefix`
/// or carrying none; `None` when a part is no tag or has another prefix.
pub open spec fn ends_of(parts: Seq<Seq<char>>, prefix: Seq<char>) -> Option<
    Seq<(Seq<char>, Seq<char>)>,
>
    decreases parts.len(),
{
    if parts.len() == 0 {
        Some(Seq::<(Seq<char>, Seq<char>)>::empty())
    } else {
        match ends_of(parts.drop_last(), prefix) {
            None => None,
            Some(before) => match tag_split(parts.last()) {
                None => None,
                Some(t) => if t.0.len() != 0 && t.0 != prefix {
                    None
                } else {
                    Some(before.push((t.1, t.2)))
                },
            },
        }
    }
}

/// The members of a span from `(n1, s1)` to `(n2, s2)`: over the numbers
/// when the suffixes agree, over the suffix letters when the numbers agree.
pub open spec fn span(
    prefix: Seq<char>,
    n1: Seq<char>,
    s1: Seq<char>,
    n2: Seq<char>,
    s2: Seq<char>,
) -> Option<Seq<Seq<char>>> {
    if n1 != n2 && s1 == s2 {
        let a = dec_value(n1);
        let b = dec_value(n2);
        if a > usize::MAX || b > usize::MAX {
            None
        } else if b < a || b - a + 1 > RANGE_MEMBERS_MAX {
            None
        } else {
            Some(
                Seq::new(
                    (b - a + 1) as nat,
                    |k: int| prefix + padded((a + k) as nat, n1.len() as int) + s1,
                ),
            )
        }
    } else if n1 == n2 && s1 != s2 && s1.len() == 1 && s2.len() == 1 {
        let a = s1[0] as int;
        let b = s2[0] as int;
        if b < a {
            None
        } else {
            Some(Seq::new((b - a + 1) as nat, |k: int| prefix + n1 + seq![(a + k) as char]))
        }
    } else {
        None
    }
}

pub open spec fn has_ws(v: Seq<char>) -> bool {
    exists|i: int| 0 <= i < v.len() && is_ws(#[trigger] v[i])
}

pub open spec fn has_empty(parts: Seq<Seq<char>>) -> bool {
    exists|i: int| 0 <= i < parts.len() && (#[trigger] parts[i]).len() == 0
}

/// The tags a range annotation names, or `None` when `v` is not one.
pub open spec fn expanded(v: Seq<char>) -> Option<Seq<Seq<char>>> {
    if has_ws(v) || v.contains('"') {
        None
    } else {
        match range_sep(v) {
            None => None,
            Some(sep) => {
                let parts = split(v, sep);
                if parts.len() < 2 || has_empty(parts) {
                    None
                } else {
                    match tag_split(parts[0]) {
                        None => None,
                        Some(first) => if first.0.len() == 0 {
                            None
                        } else {
                            match ends_of(parts.drop_first(), first.0) {
                                None => None,
                                Some(rest) => {
                                    let ends = seq![(first.1, first.2)] + rest;
                                    if sep == '/' {
                                        Some(ends.map_values(|e: (Seq<char>, Seq<char>)| first.0 + e.0 + e.1))
                                    } else if ends.len() != 2 {
                                        None
                                    } else {
                                        span(first.0, ends[0].0, ends[0].1, ends[1].0, ends[1].1)
                                    }
                                },
                            }
                        },
                    }
                }
            },
        }
    }
}

/// A tag split into the part before its number, the number, and what
/// follows it: `XV-0407A` -> `("XV-", "0407", "A")`, `0409A` -> `("",
/// "0409", "A")`, `LA-0303` -> `("LA-", "0303", "")`. `None` when there is
/// no number or more than one capital letter follows it.
pub fn split_tag(value: &str) -> (out: Option<(String, String, String)>)
    ensures
        match out {
            Some(t) => tag_split(value@) == Some((t.0@, t.1@, t.2@)),
            None => tag_split(value@) is None,
        },
{
    let v = chars_of(value);
    match split_tag_exec(v.as_slice()) {
        Some((prefix, number, suffix)) => Some(
            (
                string_of(prefix.as_slice()),
                string_of(number.as_slice()),
                string_of(suffix.as_slice()),
            ),
        ),
        None => None,
    }
}

fn has_char_exec(s: &[char], c: char) -> (b: bool)
    ensures
        b == s@.contains(c),
{
    let mut i: usize = 0;
    while i < s.len()
        invariant
            i <= s@.len(),
            forall|k: int| 0 <= k < i ==> s@[k] != c,
        decreases s@.len() - i,
    {
        if s[i] == c {
            return true;
        }
        i += 1;
    }
    false
}

fn has_ws_exec(s: &[char]) -> (b: bool)
    ensures
        b == has_ws(s@),
{
    let mut i: usize = 0;
    while i < s.len()
        invariant
            i <= s@.len(),
            forall|k: int| 0 <= k < i ==> !is_ws(#[trigger] s@[k]),
        decreases s@.len() - i,
    {
        if whitespace(s[i]) {
            return true;
        }
        i += 1;
    }
    false
}

fn span_exec(
    prefix: &[char],
    n1: &[char],
    s1: &[char],
    n2: &[char],
    s2: &[char],
) -> (out: Option<Vec<Vec<char>>>)
    requires
        forall|i: int| 0 <= i < n1@.len() ==> is_digit(#[trigger] n1@[i]),
        forall|i: int| 0 <= i < n2@.len() ==> is_digit(#[trigger] n2@[i]),
        s1@.len() <= 1,
        s2@.len() <= 1,
        s1@.len() == 1 ==> is_upper(s1@[0]),
        s2@.len() == 1 ==> is_upper(s2@[0]),
    ensures
        match out {
            Some(v) => span(prefix@, n1@, s1@, n2@, s2@) == Some(
                v@.map_values(|p: Vec<char>| p@),
            ),
            None => span(prefix@, n1@, s1@, n2@, s2@) is None,
        },
{
    let same_number = same(n1, n2);
    let same_suffix = same(s1, s2);
    if !same_number && same_suffix {
        let a = match parse_digits(n1) {
            Some(a) => a,
            None => {
                return None;
            },
        };
        let b = match parse_digits(n2) {
            Some(b) => b,
            None => {
                return None;
            },
        };
        if b < a || b - a >= RANGE_MEMBERS_MAX {
            return None;
        }
        let ghost want = Seq::new(
            (b - a + 1) as nat,
            |k: int| prefix@ + padded((a + k) as nat, n1@.len() as int) + s1@,
        );
        let mut out: Vec<Vec<char>> = Vec::new();
        let count: usize = b - a + 1;
        let mut k: usize = 0;
        while k < count
            invariant
                count == b - a + 1,
                k <= count,
                count <= RANGE_MEMBERS_MAX,
                want == Seq::new(
                    (b - a + 1) as nat,
                    |k: int| prefix@ + padded((a + k) as nat, n1@.len() as int) + s1@,
                ),
                out@.len() == k,
                forall|j: int| 0 <= j < out@.len() ==> #[trigger] out@[j]@ == want[j],
            decreases count - k,
        {
            let digits = padded_chars(a + k, n1.len());
            let mut member = concat(prefix, digits.as_slice());
            append(&mut member, s1);
            assert(member@ == want[k as int]);
            out.push(member);
            k += 1;
        }
        assert(out@.map_values(|p: Vec<char>| p@) =~= want);
        Some(out)
    } else if same_number && !same_suffix && s1.len() == 1 && s2.len() == 1 {
        let a = s1[0];
        let b = s2[0];
        if b < a {
            return None;
        }
        let ghost want = Seq::new(
            (b as int - a as int + 1) as nat,
            |k: int| prefix@ + n1@ + seq![((a as int) + k) as char],
        );
        let mut out: Vec<Vec<char>> = Vec::new();
        let mut c: u8 = a as u8;
        while c <= b as u8
            invariant
                'A' <= a <= b <= 'Z',
                a as int <= c as int <= b as int + 1,
                want == Seq::new(
                    (b as int - a as int + 1) as nat,
                    |k: int| prefix@ + n1@ + seq![((a as int) + k) as char],
                ),
                out@.len() == c - a,
                forall|k: int| 0 <= k < out@.len() ==> #[trigger] out@[k]@ == want[k],
            decreases b as int + 1 - c as int,
        {
            let mut member = concat(prefix, n1);
            member.push(c as char);
            assert(member@ =~= want[c - a]);
            out.push(member);
            c += 1;
        }
        assert(out@.map_values(|p: Vec<char>| p@) =~= want);
        Some(out)
    } else {
        None
    }
}

/// The tags a range annotation names, or `None` when `value` is not one.
///
/// Two spellings occur on the sheets: an enumeration, `XV-0407D/0407E` --
/// each part after the first inherits the first's prefix -- and a span,
/// `XV-0407A～0409A` (also `~`), which runs over the numbers when the
/// suffixes agree and over the suffix letters when the numbers agree.
/// Anything else -- a size like `1/2"`, a span over both number and letter,
/// a part with a different prefix -- is not a range.
#[verifier::loop_isolation(false)]
pub fn expand_range(value: &str) -> (out: Option<Vec<String>>)
    ensures
        match out {
            Some(v) => expanded(value@) == Some(views(v@)),
            None => expanded(value@) is None,
        },
{
    let v = chars_of(value);
    if has_ws_exec(v.as_slice()) || has_char_exec(v.as_slice(), '"') {
        return None;
    }
    let sep = if has_char_exec(v.as_slice(), '～') {
        '～'
    } else if has_char_exec(v.as_slice(), '~') {
        '~'
    } else if has_char_exec(v.as_slice(), '/') {
        '/'
    } else {
        return None;
    };
    assert(range_sep(v@) == Some(sep));
    let parts = split_on(v.as_slice(), sep);
    let ghost sp = split(v@, sep);
    if parts.len() < 2 {
        return None;
    }
    let mut e: usize = 0;
    while e < parts.len()
        invariant
            e <= parts@.len(),
            parts@.len() == sp.len(),
            forall|k: int| 0 <= k < parts@.len() ==> #[trigger] parts@[k]@ == sp[k],
            forall|k: int| 0 <= k < e ==> (#[trigger] sp[k]).len() != 0,
        decreases parts@.len() - e,
    {
        if parts[e].len() == 0 {
            assert(sp[e as int].len() == 0);
            return None;
        }
        e += 1;
    }
    assert(!has_empty(sp));
    let (prefix, n1, s1) = match split_tag_exec(parts[0].as_slice()) {
        Some(t) => t,
        None => {
            return None;
        },
    };
    if prefix.len() == 0 {
        return None;
    }
    proof {
        lemma_tag_split_parts(sp[0]);
    }
    // The other parts, in order.
    let ghost rest_parts = sp.drop_first();
    let mut ends: Vec<(Vec<char>, Vec<char>)> = Vec::new();
    ends.push((n1.clone(), s1.clone()));
    let mut i: usize = 1;
    while i < parts.len()
        invariant
            1 <= i <= parts@.len(),
            parts@.len() == sp.len(),
            rest_parts == sp.drop_first(),
            forall|k: int| 0 <= k < parts@.len() ==> #[trigger] parts@[k]@ == sp[k],
            ends@.len() == i,
            ends@[0].0@ == n1@,
            ends@[0].1@ == s1@,
            ends_of(rest_parts.take(i - 1), prefix@) matches Some(r) && r.len() == i - 1 && forall|
                k: int,
            | 0 <= k < i - 1 ==> (#[trigger] r[k]).0 == ends@[k + 1].0@ && r[k].1 == ends@[k + 1].1@,
            forall|k: int|
                0 <= k < ends@.len() ==> {
                    &&& forall|j: int|
                        0 <= j < (#[trigger] ends@[k]).0@.len() ==> is_digit(ends@[k].0@[j])
                    &&& ends@[k].1@.len() <= 1
                    &&& ends@[k].1@.len() == 1 ==> is_upper(ends@[k].1@[0])
                },
        decreases parts@.len() - i,
    {
        assert(rest_parts.take(i as int).drop_last() =~= rest_parts.take(i - 1));
        assert(rest_parts.take(i as int).last() == sp[i as int]);
        match split_tag_exec(parts[i].as_slice()) {
            Some(t) => {
                proof {
                    lemma_tag_split_parts(sp[i as int]);
                }
                if t.0.len() != 0 && !same(t.0.as_slice(), prefix.as_slice()) {
                    proof {
                        lemma_ends_of_none(rest_parts, i as int, prefix@);
                    }
                    return None;
                }
                ends.push((t.1, t.2));
            },
            None => {
                proof {
                    lemma_ends_of_none(rest_parts, i as int, prefix@);
                }
                return None;
            },
        }
        i += 1;
    }
    assert(rest_parts.take(parts@.len() - 1) =~= rest_parts);
    let ghost rest = ends_of(rest_parts, prefix@).unwrap();
    let ghost all_ends = seq![(n1@, s1@)] + rest;
    assert(all_ends.len() == ends@.len());
    assert(forall|k: int|
        0 <= k < ends@.len() ==> #[trigger] all_ends[k] == (ends@[k].0@, ends@[k].1@));
    if sep == '/' {
        let mut out: Vec<Vec<char>> = Vec::new();
        let mut k: usize = 0;
        while k < ends.len()
            invariant
                k <= ends@.len(),
                all_ends.len() == ends@.len(),
                forall|j: int|
                    0 <= j < ends@.len() ==> #[trigger] all_ends[j] == (ends@[j].0@, ends@[j].1@),
                out@.len() == k,
                forall|j: int|
                    0 <= j < k ==> #[trigger] out@[j]@ == prefix@ + all_ends[j].0 + all_ends[j].1,
            decreases ends@.len() - k,
        {
            let mut member = concat(prefix.as_slice(), ends[k].0.as_slice());
            append(&mut member, ends[k].1.as_slice());
            out.push(member);
            k += 1;
        }
        let strings = strings_of(&out);
        assert(views(strings@) =~= all_ends.map_values(
            |e: (Seq<char>, Seq<char>)| prefix@ + e.0 + e.1,
        ));
        return Some(strings);
    }
    if ends.len() != 2 {
        return None;
    }
    match span_exec(
        prefix.as_slice(),
        ends[0].0.as_slice(),
        ends[0].1.as_slice(),
        ends[1].0.as_slice(),
        ends[1].1.as_slice(),
    ) {
        Some(members) => {
            let strings = strings_of(&members);
            assert(views(strings@) =~= members@.map_values(|p: Vec<char>| p@));
            Some(strings)
        },
        None => None,
    }
}

proof fn lemma_ends_of_none(ps: Seq<Seq<char>>, k: int, prefix: Seq<char>)
    requires
        0 <= k <= ps.len(),
        ends_of(ps.take(k), prefix) is None,
    ensures
        ends_of(ps, prefix) is None,
    decreases ps.len() - k,
{
    if k < ps.len() {
        assert(ps.take(k + 1).drop_last() =~= ps.take(k));
        lemma_ends_of_none(ps, k + 1, prefix);
    } else {
        assert(ps.take(k) =~= ps);
    }
}

proof fn lemma_tag_split_parts(v: Seq<char>)
    ensures
        tag_split(v) matches Some(t) ==> {
            &&& forall|j: int| 0 <= j < t.1.len() ==> is_digit(#[trigger] t.1[j])
            &&& t.2.len() <= 1
            &&& t.2.len() == 1 ==> is_upper(t.2[0])
        },
{
    lemma_first_digit_from(v, 0);
    match first_digit_from(v, 0) {
        Some(start) => {
            lemma_digits_end(v, start);
            let end = digits_end(v, start);
            assert forall|j: int| 0 <= j < v.subrange(start, end).len() implies is_digit(
                #[trigger] v.subrange(start, end)[j],
            ) by {
                assert(v.subrange(start, end)[j] == v[start + j]);
            }
        },
        None => {},
    }
}

/// What `ends_of` reads from each part: the part's own number and suffix.
proof fn lemma_ends_of(parts: Seq<Seq<char>>, prefix: Seq<char>)
    requires
        ends_of(parts, prefix) is Some,
    ensures
        ends_of(parts, prefix).unwrap().len() == parts.len(),
        forall|k: int|
            0 <= k < parts.len() ==> ((#[trigger] tag_split(parts[k])) matches Some(t) && ends_of(
                parts,
                prefix,
            ).unwrap()[k] == (t.1, t.2) && (t.0.len() == 0 || t.0 == prefix)),
    decreases parts.len(),
{
    if parts.len() > 0 {
        let init = parts.drop_last();
        lemma_ends_of(init, prefix);
        let e = ends_of(parts, prefix).unwrap();
        let b = ends_of(init, prefix).unwrap();
        assert forall|k: int|
            0 <= k < parts.len() implies ((#[trigger] tag_split(parts[k])) matches Some(t) && e[k] == (t.1, t.2) && (
            t.0.len() == 0 || t.0 == prefix)) by {
            if k < init.len() {
                assert(parts[k] == init[k]);
                assert(e[k] == b[k]);
            } else {
                assert(parts[k] == parts.last());
            }
        }
    }
}

/// An enumeration written with `/` (and no `～` or `~`) names one tag per
/// part, in order: as many tags as parts, the `k`-th being the first part's
/// prefix followed by the `k`-th part's own number and suffix.
pub proof fn law_an_enumeration_names_one_tag_per_part(v: Seq<char>)
    requires
        !v.contains('～'),
        !v.contains('~'),
        expanded(v) is Some,
    ensures
        ({
            let parts = split(v, '/');
            let tags = expanded(v).unwrap();
            &&& tags.len() == parts.len()
            &&& forall|k: int|
                0 <= k < parts.len() ==> ((#[trigger] tag_split(parts[k])) matches Some(t) && tags[k]
                    == tag_split(parts[0]).unwrap().0 + t.1 + t.2)
        }),
{
    let parts = split(v, '/');
    let first = tag_split(parts[0]).unwrap();
    let rest = parts.drop_first();
    lemma_ends_of(rest, first.0);
    let e = ends_of(rest, first.0).unwrap();
    let ends = seq![(first.1, first.2)] + e;
    let tags = expanded(v).unwrap();
    assert(tags == ends.map_values(|x: (Seq<char>, Seq<char>)| first.0 + x.0 + x.1));
    assert forall|k: int|
        0 <= k < parts.len() implies ((#[trigger] tag_split(parts[k])) matches Some(t) && tags[k] == tag_split(
        parts[0],
    ).unwrap().0 + t.1 + t.2) by {
        if k > 0 {
            assert(parts[k] == rest[k - 1]);
            assert(ends[k] == e[k - 1]);
        }
    }
}

proof fn lemma_split_two(s: Seq<char>, sep: char)
    requires
        s.contains(sep),
    ensures
        split(s, sep).len() >= 2,
    decreases s.len(),
{
    lemma_split_len(s.drop_last(), sep);
    if s.last() != sep {
        let k = choose|k: int| 0 <= k < s.len() && s[k] == sep;
        assert(k < s.len() - 1);
        assert(s.drop_last()[k] == sep);
        lemma_split_two(s.drop_last(), sep);
    }
}

/// Parts that are all tags, each with no prefix or with `prefix`, are all
/// read.
proof fn lemma_ends_of_some(parts: Seq<Seq<char>>, prefix: Seq<char>)
    requires
        forall|k: int|
            0 <= k < parts.len() ==> ((#[trigger] tag_split(parts[k])) matches Some(t) && (t.0.len() == 0 || t.0
                == prefix)),
    ensures
        ends_of(parts, prefix) is Some,
    decreases parts.len(),
{
    if parts.len() > 0 {
        let init = parts.drop_last();
        assert forall|k: int| 0 <= k < init.len() implies ((#[trigger] tag_split(init[k])) matches Some(t) && (
        t.0.len() == 0 || t.0 == prefix)) by {
            assert(init[k] == parts[k]);
        }
        lemma_ends_of_some(init, prefix);
        assert(tag_split(parts[parts.len() - 1]) is Some);
    }
}

/// An enumeration with `/` of tags is read: when no part is empty, the
/// first part is a tag with a prefix, and every other part is a tag with no
/// prefix or the first's, the annotation names tags (as many as parts, by
/// the law above).
pub proof fn law_an_enumeration_of_tags_is_read(v: Seq<char>)
    requires
        !v.contains('～'),
        !v.contains('~'),
        v.contains('/'),
        !v.contains('"'),
        forall|i: int| 0 <= i < v.len() ==> !is_ws(#[trigger] v[i]),
        forall|k: int| 0 <= k < split(v, '/').len() ==> (#[trigger] split(v, '/')[k]).len() > 0,
        tag_split(split(v, '/')[0]) matches Some(f) && f.0.len() > 0,
        forall|k: int|
            0 < k < split(v, '/').len() ==> ((#[trigger] tag_split(split(v, '/')[k])) matches Some(t) && (t.0.len()
                == 0 || t.0 == tag_split(split(v, '/')[0]).unwrap().0)),
    ensures
        expanded(v) is Some,
{
    let parts = split(v, '/');
    lemma_split_two(v, '/');
    let first = tag_split(parts[0]).unwrap();
    let rest = parts.drop_first();
    assert forall|k: int| 0 <= k < rest.len() implies ((#[trigger] tag_split(rest[k])) matches Some(t) && (
    t.0.len() == 0 || t.0 == first.0)) by {
        assert(rest[k] == parts[k + 1]);
    }
    lemma_ends_of_some(rest, first.0);
    assert(!has_ws(v));
    assert(!has_empty(parts));
}

proof fn lemma_dec_value_of_digits(n: nat)
    ensures
        dec_value(dec_digits(n)) == n,
        forall|i: int| 0 <= i < dec_digits(n).len() ==> is_digit(#[trigger] dec_digits(n)[i]),
        dec_digits(n).len() >= 1,
    decreases n,
{
    if n >= 10 {
        lemma_dec_value_of_digits(n / 10);
        let d = dec_digits(n);
        assert(d.drop_last() =~= dec_digits(n / 10));
        assert(d.last() == digit_char((n % 10) as int));
        assert((digit_char((n % 10) as int) as int) == (n % 10) + 48);
        assert(n == (n / 10) * 10 + n % 10);
        assert(dec_value(d) == dec_value(dec_digits(n / 10)) * 10 + (n % 10));
        assert(dec_value(d) == n);
        assert forall|i: int| 0 <= i < d.len() implies is_digit(#[trigger] d[i]) by {
            if i < d.len() - 1 {
                assert(d[i] == dec_digits(n / 10)[i]);
            }
        }
    } else {
        assert((digit_char(n as int) as int) == n + 48);
        assert(dec_digits(n).drop_last() =~= Seq::<char>::empty());
        assert(dec_value(Seq::<char>::empty()) == 0);
        assert(dec_value(dec_digits(n)) == n);
    }
}

proof fn lemma_dec_value_zeros(z: Seq<char>, d: Seq<char>)
    requires
        forall|i: int| 0 <= i < z.len() ==> #[trigger] z[i] == '0',
    ensures
        dec_value(z + d) == dec_value(d),
    decreases z.len() + d.len(),
{
    if d.len() > 0 {
        lemma_dec_value_zeros(z, d.drop_last());
        assert((z + d).drop_last() =~= z + d.drop_last());
        assert((z + d).last() == d.last());
    } else {
        assert(z + d =~= z);
        if z.len() > 0 {
            assert(z.drop_last() + d =~= z.drop_last());
            lemma_dec_value_zeros(z.drop_last(), d);
            assert(z.last() == z[z.len() - 1]);
        }
    }
}

/// `n` zero-padded is a line of at least `width` digits whose value is `n`.
pub proof fn lemma_padded_value(n: nat, width: int)
    ensures
        dec_value(padded(n, width)) == n,
        forall|i: int| 0 <= i < padded(n, width).len() ==> is_digit(#[trigger] padded(n, width)[i]),
        padded(n, width).len() >= width,
{
    lemma_dec_value_of_digits(n);
    let z = zeros(width - dec_digits(n).len());
    lemma_dec_value_zeros(z, dec_digits(n));
    let p = padded(n, width);
    assert forall|i: int| 0 <= i < p.len() implies is_digit(#[trigger] p[i]) by {
        if i >= z.len() {
            assert(p[i] == dec_digits(n)[i - z.len()]);
        }
    }
}

/// A span written with `～` (or `~`) joins two tags, the second carrying the
/// first's prefix or none. Over numbers (the suffixes agreeing) it names
/// one tag per number from the first to the last, each zero-padded to the
/// first's width; over suffix letters (the numbers agreeing) one tag per
/// letter from the first to the last.
pub proof fn law_a_span_names_every_tag_between_its_ends(v: Seq<char>)
    requires
        v.contains('～') || v.contains('~'),
        expanded(v) is Some,
    ensures
        ({
            let sep = if v.contains('～') {
                '～'
            } else {
                '~'
            };
            let parts = split(v, sep);
            let tags = expanded(v).unwrap();
            let f = tag_split(parts[0]).unwrap();
            let t = tag_split(parts[1]).unwrap();
            &&& parts.len() == 2
            &&& tag_split(parts[0]) is Some
            &&& tag_split(parts[1]) is Some
            &&& f.0.len() > 0
            &&& (t.0.len() == 0 || t.0 == f.0)
            &&& f.1 != t.1 ==> {
                &&& f.2 == t.2
                &&& tags.len() == dec_value(t.1) - dec_value(f.1) + 1
                &&& forall|k: int|
                    #![trigger tags[k]]
                    0 <= k < tags.len() ==> exists|num: Seq<char>|
                        #![trigger dec_value(num)]
                        tags[k] == f.0 + num + f.2 && dec_value(num) == dec_value(f.1) + k && num.len() >= f.1.len()
                            && forall|i: int| 0 <= i < num.len() ==> is_digit(#[trigger] num[i])
            }
            &&& f.1 == t.1 ==> {
                &&& f.2.len() == 1 && t.2.len() == 1
                &&& tags.len() == (t.2[0] as int) - (f.2[0] as int) + 1
                &&& forall|k: int|
                    0 <= k < tags.len() ==> #[trigger] tags[k] == f.0 + f.1 + seq![((f.2[0] as int) + k) as char]
            }
        }),
{
    let sep = if v.contains('～') {
        '～'
    } else {
        '~'
    };
    assert(range_sep(v) == Some(sep));
    let parts = split(v, sep);
    let f = tag_split(parts[0]).unwrap();
    let rest = parts.drop_first();
    lemma_ends_of(rest, f.0);
    let e = ends_of(rest, f.0).unwrap();
    assert(rest.len() == 1);
    assert(parts[1] == rest[0]);
    let t = tag_split(parts[1]).unwrap();
    let ends = seq![(f.1, f.2)] + e;
    assert(ends[1] == (t.1, t.2));
    let tags = expanded(v).unwrap();
    assert(tags == span(f.0, f.1, f.2, t.1, t.2).unwrap());
    if f.1 != t.1 {
        let a = dec_value(f.1);
        assert forall|k: int| #![trigger tags[k]] 0 <= k < tags.len() implies exists|num: Seq<char>|
            #![trigger dec_value(num)]
            tags[k] == f.0 + num + f.2 && dec_value(num) == dec_value(f.1) + k && num.len() >= f.1.len() && forall|
                i: int,
            |
                0 <= i < num.len() ==> is_digit(#[trigger] num[i]) by {
            let num = padded((a + k) as nat, f.1.len() as int);
            lemma_padded_value((a + k) as nat, f.1.len() as int);
            assert(tags[k] == f.0 + num + f.2);
            assert(dec_value(num) == a + k);
        }
    }
}

} // verus!
