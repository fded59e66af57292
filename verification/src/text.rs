//! Text as sequences of characters: the few operations the tag, layer and
//! description rules are written in, each with the meaning it has on `str`.

use vstd::prelude::*;

verus! {

// ── characters ──────────────────────────────────────────────────────────

pub open spec fn is_digit(c: char) -> bool {
    '0' <= c && c <= '9'
}

pub open spec fn is_upper(c: char) -> bool {
    'A' <= c && c <= 'Z'
}

pub open spec fn is_lower(c: char) -> bool {
    'a' <= c && c <= 'z'
}

/// The Unicode `White_Space` property, which `char::is_whitespace` and
/// `str::trim` go by.
pub open spec fn is_ws(c: char) -> bool {
    ||| ('\u{9}' <= c && c <= '\u{d}')
    ||| c == ' '
    ||| c == '\u{85}'
    ||| c == '\u{a0}'
    ||| c == '\u{1680}'
    ||| ('\u{2000}' <= c && c <= '\u{200a}')
    ||| c == '\u{2028}'
    ||| c == '\u{2029}'
    ||| c == '\u{202f}'
    ||| c == '\u{205f}'
    ||| c == '\u{3000}'
}

pub open spec fn upper_of(c: char) -> char {
    if is_lower(c) {
        ((c as u32) - 32) as char
    } else {
        c
    }
}

pub open spec fn lower_of(c: char) -> char {
    if is_upper(c) {
        ((c as u32) + 32) as char
    } else {
        c
    }
}

pub fn digit(c: char) -> (b: bool)
    ensures
        b == is_digit(c),
{
    '0' <= c && c <= '9'
}

pub fn upper(c: char) -> (b: bool)
    ensures
        b == is_upper(c),
{
    'A' <= c && c <= 'Z'
}

pub fn whitespace(c: char) -> (b: bool)
    ensures
        b == is_ws(c),
{
    ('\u{9}' <= c && c <= '\u{d}') || c == ' ' || c == '\u{85}' || c == '\u{a0}' || c == '\u{1680}'
        || ('\u{2000}' <= c && c <= '\u{200a}') || c == '\u{2028}' || c == '\u{2029}' || c
        == '\u{202f}' || c == '\u{205f}' || c == '\u{3000}'
}

pub fn to_upper(c: char) -> (u: char)
    ensures
        u == upper_of(c),
{
    if 'a' <= c && c <= 'z' {
        let n: u8 = ((c as u32) - 32) as u8;
        n as char
    } else {
        c
    }
}

pub fn to_lower(c: char) -> (l: char)
    ensures
        l == lower_of(c),
{
    if 'A' <= c && c <= 'Z' {
        let n: u8 = ((c as u32) + 32) as u8;
        n as char
    } else {
        c
    }
}

// ── sequences ───────────────────────────────────────────────────────────

pub open spec fn views(v: Seq<String>) -> Seq<Seq<char>> {
    v.map_values(|s: String| s@)
}

/// The text behind an optional string.
pub open spec fn opt_chars(o: Option<String>) -> Option<Seq<char>> {
    match o {
        Some(s) => Some(s@),
        None => None,
    }
}

pub open spec fn all_digits(s: Seq<char>) -> bool {
    forall|i: int| 0 <= i < s.len() ==> is_digit(#[trigger] s[i])
}

pub open spec fn all_upper(s: Seq<char>) -> bool {
    forall|i: int| 0 <= i < s.len() ==> is_upper(#[trigger] s[i])
}

pub open spec fn starts_with(s: Seq<char>, prefix: Seq<char>) -> bool {
    prefix.len() <= s.len() && s.take(prefix.len() as int) == prefix
}

pub open spec fn ends_with(s: Seq<char>, suffix: Seq<char>) -> bool {
    suffix.len() <= s.len() && s.skip(s.len() - suffix.len()) == suffix
}

pub open spec fn upper_seq(s: Seq<char>) -> Seq<char> {
    s.map_values(|c: char| upper_of(c))
}

pub open spec fn lower_seq(s: Seq<char>) -> Seq<char> {
    s.map_values(|c: char| lower_of(c))
}

/// `s` without the whitespace it starts with.
pub open spec fn trim_start(s: Seq<char>) -> Seq<char>
    decreases s.len(),
{
    if s.len() > 0 && is_ws(s[0]) {
        trim_start(s.drop_first())
    } else {
        s
    }
}

/// `s` without the whitespace it ends with.
pub open spec fn trim_end(s: Seq<char>) -> Seq<char>
    decreases s.len(),
{
    if s.len() > 0 && is_ws(s.last()) {
        trim_end(s.drop_last())
    } else {
        s
    }
}

/// `str::trim`.
pub open spec fn trim(s: Seq<char>) -> Seq<char> {
    trim_end(trim_start(s))
}

/// The text neither starts nor ends with whitespace.
pub open spec fn is_trimmed(s: Seq<char>) -> bool {
    s.len() > 0 ==> !is_ws(s[0]) && !is_ws(s.last())
}

/// `str::split` on one character: the pieces between the separators, an
/// empty piece between two separators or at either end.
pub open spec fn split(s: Seq<char>, sep: char) -> Seq<Seq<char>>
    decreases s.len(),
{
    if s.len() == 0 {
        seq![Seq::<char>::empty()]
    } else {
        let before = split(s.drop_last(), sep);
        if s.last() == sep {
            before.push(Seq::<char>::empty())
        } else {
            before.update(before.len() - 1, before.last().push(s.last()))
        }
    }
}

/// `pieces.join(sep)`.
pub open spec fn join(pieces: Seq<Seq<char>>, sep: Seq<char>) -> Seq<char>
    decreases pieces.len(),
{
    if pieces.len() == 0 {
        Seq::<char>::empty()
    } else if pieces.len() == 1 {
        pieces[0]
    } else {
        join(pieces.drop_last(), sep) + sep + pieces.last()
    }
}

/// The index of the first `c` in `s`, if any.
pub open spec fn find(s: Seq<char>, c: char) -> Option<int>
    decreases s.len(),
{
    if s.len() == 0 {
        None
    } else if s[0] == c {
        Some(0)
    } else {
        match find(s.drop_first(), c) {
            Some(i) => Some(i + 1),
            None => None,
        }
    }
}

// ── lemmas ──────────────────────────────────────────────────────────────

pub proof fn lemma_split_len(s: Seq<char>, sep: char)
    ensures
        split(s, sep).len() >= 1,
    decreases s.len(),
{
    if s.len() > 0 {
        lemma_split_len(s.drop_last(), sep);
    }
}

pub proof fn lemma_find(s: Seq<char>, c: char)
    ensures
        match find(s, c) {
            Some(i) => 0 <= i < s.len() && s[i] == c && !s.take(i).contains(c),
            None => !s.contains(c),
        },
    decreases s.len(),
{
    if s.len() > 0 {
        lemma_find(s.drop_first(), c);
        if s[0] != c {
            match find(s.drop_first(), c) {
                Some(i) => {
                    assert(s.take(i + 1) =~= seq![s[0]] + s.drop_first().take(i));
                    if s.take(i + 1).contains(c) {
                        let k = choose|k: int| 0 <= k < i + 1 && #[trigger] s.take(i + 1)[k] == c;
                        assert(k != 0);
                        assert(s.drop_first().take(i)[k - 1] == c);
                    }
                },
                None => {
                    if s.contains(c) {
                        let k = choose|k: int| 0 <= k < s.len() && #[trigger] s[k] == c;
                        assert(s.drop_first()[k - 1] == c);
                    }
                },
            }
        }
    }
}

pub proof fn lemma_trim_start_suffix(s: Seq<char>)
    ensures
        trim_start(s).len() <= s.len(),
        trim_start(s) == s.skip(s.len() - trim_start(s).len()),
        trim_start(s).len() > 0 ==> !is_ws(trim_start(s)[0]),
        forall|i: int| 0 <= i < s.len() - trim_start(s).len() ==> is_ws(#[trigger] s[i]),
    decreases s.len(),
{
    if s.len() > 0 && is_ws(s[0]) {
        lemma_trim_start_suffix(s.drop_first());
        let t = trim_start(s.drop_first());
        assert(s.drop_first().skip(s.drop_first().len() - t.len()) =~= s.skip(s.len() - t.len()));
        assert forall|i: int| 0 <= i < s.len() - t.len() implies is_ws(#[trigger] s[i]) by {
            if i > 0 {
                assert(s[i] == s.drop_first()[i - 1]);
            }
        }
    } else {
        assert(s.skip(0) =~= s);
    }
}

pub proof fn lemma_trim_end_prefix(s: Seq<char>)
    ensures
        trim_end(s).len() <= s.len(),
        trim_end(s) == s.take(trim_end(s).len() as int),
        trim_end(s).len() > 0 ==> !is_ws(trim_end(s).last()),
        forall|i: int| trim_end(s).len() <= i < s.len() ==> is_ws(#[trigger] s[i]),
    decreases s.len(),
{
    if s.len() > 0 && is_ws(s.last()) {
        lemma_trim_end_prefix(s.drop_last());
        let t = trim_end(s.drop_last());
        assert(s.drop_last().take(t.len() as int) =~= s.take(t.len() as int));
        assert forall|i: int| t.len() <= i < s.len() implies is_ws(#[trigger] s[i]) by {
            if i < s.len() - 1 {
                assert(s[i] == s.drop_last()[i]);
            }
        }
    } else {
        assert(s.take(s.len() as int) =~= s);
    }
}

/// Trimming yields trimmed text, and trimmed text trims to itself.
pub proof fn lemma_trim_trimmed(s: Seq<char>)
    ensures
        is_trimmed(trim(s)),
        is_trimmed(s) ==> trim(s) == s,
{
    lemma_trim_start_suffix(s);
    let a = trim_start(s);
    lemma_trim_end_prefix(a);
    let t = trim_end(a);
    if t.len() > 0 {
        assert(t[0] == a[0]);
    }
}

pub proof fn lemma_join_push(pieces: Seq<Seq<char>>, p: Seq<char>, sep: Seq<char>)
    ensures
        join(pieces.push(p), sep) == if pieces.len() == 0 {
            p
        } else {
            join(pieces, sep) + sep + p
        },
{
    assert(pieces.push(p).drop_last() =~= pieces);
}

// ── executable ──────────────────────────────────────────────────────────

/// The characters of `s`, in order.
pub fn chars_of(s: &str) -> (out: Vec<char>)
    ensures
        out@ == s@,
{
    let mut out: Vec<char> = Vec::new();
    for c in it: s.chars()
        invariant
            out@ == it.seq().take(it.index() as int),
            it.seq() == s@,
    {
        out.push(c);
    }
    out
}

/// A `String` holding `chars`, through `String`'s `FromIterator<&char>`.
#[verifier::external_body]
pub fn string_of(chars: &[char]) -> (s: String)
    ensures
        s@ == chars@,
{
    chars.iter().collect()
}

/// The characters of each of `values`.
pub fn chars_of_all(values: &[String]) -> (out: Vec<Vec<char>>)
    ensures
        out@.len() == values@.len(),
        forall|i: int| 0 <= i < values@.len() ==> #[trigger] out@[i]@ == values@[i]@,
{
    let mut out: Vec<Vec<char>> = Vec::new();
    let mut i: usize = 0;
    while i < values.len()
        invariant
            i <= values@.len(),
            out@.len() == i,
            forall|k: int| 0 <= k < i ==> #[trigger] out@[k]@ == values@[k]@,
        decreases values@.len() - i,
    {
        out.push(chars_of(values[i].as_str()));
        i += 1;
    }
    out
}

/// A `String` for each of `pieces`.
pub fn strings_of(pieces: &Vec<Vec<char>>) -> (out: Vec<String>)
    ensures
        out@.len() == pieces@.len(),
        forall|i: int| 0 <= i < pieces@.len() ==> #[trigger] out@[i]@ == pieces@[i]@,
{
    let mut out: Vec<String> = Vec::new();
    let mut i: usize = 0;
    while i < pieces.len()
        invariant
            i <= pieces@.len(),
            out@.len() == i,
            forall|k: int| 0 <= k < i ==> #[trigger] out@[k]@ == pieces@[k]@,
        decreases pieces@.len() - i,
    {
        out.push(string_of(pieces[i].as_slice()));
        i += 1;
    }
    out
}

/// A copy of a list of strings.
pub fn copied(v: &Vec<String>) -> (out: Vec<String>)
    ensures
        views(out@) == views(v@),
{
    let out = v.clone();
    assert forall|i: int| 0 <= i < out@.len() implies #[trigger] views(out@)[i] == views(v@)[i] by {
        assert(cloned::<String>(v[i], out[i]));
    }
    assert(views(out@) =~= views(v@));
    out
}

pub fn same(a: &[char], b: &[char]) -> (r: bool)
    ensures
        r == (a@ == b@),
{
    if a.len() != b.len() {
        return false;
    }
    let mut i: usize = 0;
    while i < a.len()
        invariant
            a@.len() == b@.len(),
            i <= a@.len(),
            forall|k: int| 0 <= k < i ==> a@[k] == b@[k],
        decreases a@.len() - i,
    {
        if a[i] != b[i] {
            return false;
        }
        i += 1;
    }
    assert(a@ =~= b@);
    true
}

pub fn has_prefix(s: &[char], prefix: &[char]) -> (r: bool)
    ensures
        r == starts_with(s@, prefix@),
{
    if prefix.len() > s.len() {
        return false;
    }
    let mut i: usize = 0;
    while i < prefix.len()
        invariant
            prefix@.len() <= s@.len(),
            i <= prefix@.len(),
            forall|k: int| 0 <= k < i ==> s@[k] == prefix@[k],
        decreases prefix@.len() - i,
    {
        if s[i] != prefix[i] {
            assert(s@.take(prefix@.len() as int)[i as int] != prefix@[i as int]);
            return false;
        }
        i += 1;
    }
    assert(s@.take(prefix@.len() as int) =~= prefix@);
    true
}

pub fn has_char(s: &[char], c: char) -> (r: bool)
    ensures
        r == s@.contains(c),
{
    let mut i: usize = 0;
    while i < s.len()
        invariant
            i <= s@.len(),
            forall|k: int| 0 <= k < i ==> s@[k] != c,
        decreases s@.len() - i,
    {
        if s[i] == c {
            return true;
        }
        i += 1;
    }
    false
}

pub fn first_index(s: &[char], c: char) -> (r: Option<usize>)
    ensures
        match r {
            Some(i) => find(s@, c) == Some(i as int) && i < s.len() && s@[i as int] == c,
            None => find(s@, c) is None,
        },
{
    let mut i: usize = 0;
    while i < s.len()
        invariant
            i <= s@.len(),
            forall|k: int| 0 <= k < i ==> s@[k] != c,
        decreases s@.len() - i,
    {
        if s[i] == c {
            proof {
                lemma_find(s@, c);
                match find(s@, c) {
                    Some(j) => {
                        if j < i {
                        } else if j > i {
                            assert(s@.take(j)[i as int] == c);
                        }
                    },
                    None => {
                        assert(s@[i as int] == c);
                    },
                }
            }
            return Some(i);
        }
        i += 1;
    }
    proof {
        lemma_find(s@, c);
        match find(s@, c) {
            Some(j) => {
                assert(s@[j] == c);
            },
            None => {},
        }
    }
    None
}

/// `s[lo..hi]` as a vector.
pub fn slice_of(s: &[char], lo: usize, hi: usize) -> (out: Vec<char>)
    requires
        lo <= hi <= s@.len(),
    ensures
        out@ == s@.subrange(lo as int, hi as int),
{
    let mut out: Vec<char> = Vec::new();
    let mut i: usize = lo;
    while i < hi
        invariant
            lo <= i <= hi <= s@.len(),
            out@ == s@.subrange(lo as int, i as int),
        decreases hi - i,
    {
        out.push(s[i]);
        i += 1;
        assert(out@ =~= s@.subrange(lo as int, i as int));
    }
    out
}

/// `a` followed by `b`.
pub fn concat(a: &[char], b: &[char]) -> (out: Vec<char>)
    ensures
        out@ == a@ + b@,
{
    let mut out: Vec<char> = Vec::new();
    let mut i: usize = 0;
    while i < a.len()
        invariant
            i <= a@.len(),
            out@ == a@.take(i as int),
        decreases a@.len() - i,
    {
        out.push(a[i]);
        i += 1;
        assert(out@ =~= a@.take(i as int));
    }
    let mut j: usize = 0;
    while j < b.len()
        invariant
            j <= b@.len(),
            out@ == a@ + b@.take(j as int),
        decreases b@.len() - j,
    {
        out.push(b[j]);
        j += 1;
        assert(out@ =~= a@ + b@.take(j as int));
    }
    assert(a@.take(a@.len() as int) =~= a@);
    assert(b@.take(b@.len() as int) =~= b@);
    out
}

/// Append `b` to `out`.
pub fn append(out: &mut Vec<char>, b: &[char])
    ensures
        final(out)@ == old(out)@ + b@,
{
    let ghost start = out@;
    let mut j: usize = 0;
    while j < b.len()
        invariant
            j <= b@.len(),
            out@ == start + b@.take(j as int),
        decreases b@.len() - j,
    {
        out.push(b[j]);
        j += 1;
        assert(out@ =~= start + b@.take(j as int));
    }
    assert(b@.take(b@.len() as int) =~= b@);
}

/// `str::trim`.
pub fn trimmed(s: &[char]) -> (out: Vec<char>)
    ensures
        out@ == trim(s@),
{
    proof {
        lemma_trim_start_suffix(s@);
    }
    let mut lo: usize = 0;
    assert(s@.skip(0) =~= s@);
    while lo < s.len() && whitespace(s[lo])
        invariant
            lo <= s@.len(),
            trim_start(s@) == trim_start(s@.skip(lo as int)),
        decreases s@.len() - lo,
    {
        assert(s@.skip(lo as int).drop_first() =~= s@.skip(lo + 1));
        lo += 1;
    }
    assert(trim_start(s@) == s@.skip(lo as int));
    let mut hi: usize = s.len();
    proof {
        assert(s@.subrange(lo as int, hi as int) =~= s@.skip(lo as int));
    }
    while hi > lo && whitespace(s[hi - 1])
        invariant
            lo <= hi <= s@.len(),
            trim(s@) == trim_end(s@.subrange(lo as int, hi as int)),
        decreases hi,
    {
        assert(s@.subrange(lo as int, hi as int).drop_last() =~= s@.subrange(lo as int, hi - 1));
        hi -= 1;
    }
    slice_of(s, lo, hi)
}

/// `str::split` on one character.
pub fn split_on(s: &[char], sep: char) -> (out: Vec<Vec<char>>)
    ensures
        out@.len() == split(s@, sep).len(),
        forall|i: int| 0 <= i < out@.len() ==> #[trigger] out@[i]@ == split(s@, sep)[i],
{
    let mut done: Vec<Vec<char>> = Vec::new();
    let mut cur: Vec<char> = Vec::new();
    let mut i: usize = 0;
    proof {
        assert(s@.take(0) =~= Seq::<char>::empty());
    }
    while i < s.len()
        invariant
            i <= s@.len(),
            done@.len() + 1 == split(s@.take(i as int), sep).len(),
            forall|k: int|
                0 <= k < done@.len() ==> #[trigger] done@[k]@ == split(s@.take(i as int), sep)[k],
            cur@ == split(s@.take(i as int), sep).last(),
        decreases s@.len() - i,
    {
        let ghost before = split(s@.take(i as int), sep);
        assert(s@.take(i + 1).drop_last() =~= s@.take(i as int));
        if s[i] == sep {
            let piece = cur;
            done.push(piece);
            cur = Vec::new();
        } else {
            cur.push(s[i]);
        }
        i += 1;
    }
    assert(s@.take(s@.len() as int) =~= s@);
    done.push(cur);
    done
}

/// `pieces.join(sep)`.
pub fn joined(pieces: &Vec<Vec<char>>, sep: &[char]) -> (out: Vec<char>)
    ensures
        out@ == join(pieces@.map_values(|p: Vec<char>| p@), sep@),
{
    let ghost all = pieces@.map_values(|p: Vec<char>| p@);
    let mut out: Vec<char> = Vec::new();
    let mut i: usize = 0;
    while i < pieces.len()
        invariant
            i <= pieces@.len(),
            all == pieces@.map_values(|p: Vec<char>| p@),
            out@ == join(all.take(i as int), sep@),
        decreases pieces@.len() - i,
    {
        proof {
            lemma_join_push(all.take(i as int), all[i as int], sep@);
            assert(all.take(i as int).push(all[i as int]) =~= all.take(i + 1));
        }
        if i > 0 {
            append(&mut out, sep);
        }
        append(&mut out, pieces[i].as_slice());
        i += 1;
    }
    assert(all.take(pieces@.len() as int) =~= all);
    out
}

/// `s` in ASCII capitals (`str::to_ascii_uppercase`).
pub fn ascii_upper(s: &[char]) -> (out: Vec<char>)
    ensures
        out@ == upper_seq(s@),
{
    let mut out: Vec<char> = Vec::new();
    let mut i: usize = 0;
    while i < s.len()
        invariant
            i <= s@.len(),
            out@ == upper_seq(s@.take(i as int)),
        decreases s@.len() - i,
    {
        out.push(to_upper(s[i]));
        i += 1;
        assert(out@ =~= upper_seq(s@.take(i as int)));
    }
    assert(s@.take(s@.len() as int) =~= s@);
    out
}

/// `s` in ASCII small letters (`str::to_ascii_lowercase`).
pub fn ascii_lower(s: &[char]) -> (out: Vec<char>)
    ensures
        out@ == lower_seq(s@),
{
    let mut out: Vec<char> = Vec::new();
    let mut i: usize = 0;
    while i < s.len()
        invariant
            i <= s@.len(),
            out@ == lower_seq(s@.take(i as int)),
        decreases s@.len() - i,
    {
        out.push(to_lower(s[i]));
        i += 1;
        assert(out@ =~= lower_seq(s@.take(i as int)));
    }
    assert(s@.take(s@.len() as int) =~= s@);
    out
}

} // verus!
