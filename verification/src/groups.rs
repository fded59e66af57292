//! Symbols a person grouped by hand: the decisions recognition makes about a
//! marked GROUP that need no geometry -- the tag its lettering reads as, the
//! tag it carries, the class it is, the name it goes by.

use vstd::prelude::*;

use crate::ranges::{dec_chars_u64, dec_digits, expand_range, expanded};
use crate::rules::{accepts_tag, class_for_tag, class_of_tag, TagClass, TagClassRules, IGNORE_CLASS};
use crate::tags::{reading, str_views, tag_from_lettering, GroupTag, TagHow, TagRead, TagSource};
use crate::text::{chars_of, opt_chars, same, string_of, trim, trimmed, views};

verus! {

/// The pieces of lettering that are not range annotations, in order.
pub open spec fn unranged(texts: Seq<Seq<char>>) -> Seq<Seq<char>>
    decreases texts.len(),
{
    if texts.len() == 0 {
        Seq::<Seq<char>>::empty()
    } else {
        let before = unranged(texts.drop_last());
        if expanded(texts.last()) is None {
            before.push(texts.last())
        } else {
            before
        }
    }
}

/// The pieces at least `min` characters long, surrounding whitespace not
/// counted, in order.
pub open spec fn long_pieces(texts: Seq<Seq<char>>, min: nat) -> Seq<Seq<char>>
    decreases texts.len(),
{
    if texts.len() == 0 {
        Seq::<Seq<char>>::empty()
    } else {
        let before = long_pieces(texts.drop_last(), min);
        if trim(texts.last()).len() >= min {
            before.push(texts.last())
        } else {
            before
        }
    }
}

/// The tag a group's own lettering `texts` (in reading order) reads as,
/// under the tag `shapes` of the rules: range annotations are left out;
/// then the shaped pieces, or a bubble's composition; else the one piece
/// long enough to be a tag. Several long pieces, or a value too short to
/// be a tag, read as nothing.
pub open spec fn derived_tag(texts: Seq<Seq<char>>, shapes: Seq<Seq<char>>, min: nat) -> Option<
    (Seq<char>, TagHow),
> {
    let t = unranged(texts);
    let long = long_pieces(t, min);
    let single = if long.len() == 1 {
        Some((long[0], TagHow::Single))
    } else {
        None
    };
    let read = match reading(t, shapes) {
        Some((v, how)) => if how == TagHow::Shape || how == TagHow::Bubble {
            Some((v, how))
        } else {
            single
        },
        None => single,
    };
    match read {
        Some((v, how)) => if trim(v).len() >= min {
            Some((v, how))
        } else {
            None
        },
        None => None,
    }
}

fn unranged_refs(texts: &[String]) -> (out: Vec<&str>)
    ensures
        str_views(out@) == unranged(views(texts@)),
{
    let ghost tv = views(texts@);
    let mut out: Vec<&str> = Vec::new();
    let mut i: usize = 0;
    assert(str_views(out@) =~= unranged(tv.take(0)));
    while i < texts.len()
        invariant
            i <= texts@.len(),
            tv == views(texts@),
            str_views(out@) == unranged(tv.take(i as int)),
        decreases texts@.len() - i,
    {
        assert(tv.take(i + 1).drop_last() =~= tv.take(i as int));
        assert(tv.take(i + 1).last() == texts@[i as int]@);
        let t = texts[i].as_str();
        if expand_range(t).is_none() {
            out.push(t);
        }
        assert(str_views(out@) =~= unranged(tv.take(i + 1)));
        i += 1;
    }
    assert(tv.take(texts@.len() as int) =~= tv);
    out
}

fn long_refs<'a>(texts: &Vec<&'a str>, min_chars: usize) -> (out: Vec<&'a str>)
    ensures
        str_views(out@) == long_pieces(str_views(texts@), min_chars as nat),
{
    let ghost tv = str_views(texts@);
    let mut out: Vec<&str> = Vec::new();
    let mut i: usize = 0;
    assert(str_views(out@) =~= long_pieces(tv.take(0), min_chars as nat));
    while i < texts.len()
        invariant
            i <= texts@.len(),
            tv == str_views(texts@),
            str_views(out@) == long_pieces(tv.take(i as int), min_chars as nat),
        decreases texts@.len() - i,
    {
        assert(tv.take(i + 1).drop_last() =~= tv.take(i as int));
        assert(tv.take(i + 1).last() == texts@[i as int]@);
        if accepts_tag(min_chars, texts[i]) {
            out.push(texts[i]);
        }
        assert(str_views(out@) =~= long_pieces(tv.take(i + 1), min_chars as nat));
        i += 1;
    }
    assert(tv.take(texts@.len() as int) =~= tv);
    out
}

/// The tag a group's own lettering reads as, by the rule recognition
/// applies everywhere else. `texts` is the group's lettering in reading
/// order, `shapes` the rules' tag shapes, `min_chars` the shortest a tag
/// may be. Range annotations (`XV-0407A～0409A` names several symbols) are
/// left out first; then the pieces shaped like a tag are the tag -- else a
/// bubble's composition -- else the one piece long enough to be a tag.
/// Several such pieces read as nothing, and so does a tag too short to be
/// one.
pub fn derive_tag(texts: &[String], shapes: &[String], min_chars: usize) -> (out: Option<TagRead>)
    ensures
        match out {
            Some(r) => derived_tag(views(texts@), views(shapes@), min_chars as nat) == Some(r@),
            None => derived_tag(views(texts@), views(shapes@), min_chars as nat) is None,
        },
{
    let t = unranged_refs(texts);
    let mut s: Vec<&str> = Vec::new();
    let mut i: usize = 0;
    while i < shapes.len()
        invariant
            i <= shapes@.len(),
            s@.len() == i,
            forall|k: int| 0 <= k < i ==> #[trigger] s@[k]@ == shapes@[k]@,
        decreases shapes@.len() - i,
    {
        s.push(shapes[i].as_str());
        i += 1;
    }
    assert(str_views(s@) =~= views(shapes@));
    let read = match tag_from_lettering(t.as_slice(), s.as_slice()) {
        Some(r) => {
            match r.how {
                TagHow::Shape | TagHow::Bubble => Some(r),
                _ => None,
            }
        },
        None => None,
    };
    let read = match read {
        Some(r) => r,
        None => {
            let long = long_refs(&t, min_chars);
            if long.len() == 1 {
                TagRead { value: string_of(chars_of(long[0]).as_slice()), how: TagHow::Single }
            } else {
                return None;
            }
        },
    };
    if accepts_tag(min_chars, read.value.as_str()) {
        Some(read)
    } else {
        None
    }
}

/// The tag a marked group carries: the stored value when a person set it,
/// else what its own lettering reads as now.
pub open spec fn effective_tag_of(carried: GroupTag, derived: Option<Seq<char>>) -> Option<Seq<char>> {
    match carried.source {
        TagSource::Auto => derived,
        TagSource::Manual => opt_chars(carried.name),
    }
}

/// The tag a marked group carries, given what its lettering reads as now.
pub fn effective_tag(carried: &GroupTag, derived: Option<TagRead>) -> (tag: Option<String>)
    ensures
        opt_chars(tag) == effective_tag_of(
            *carried,
            match derived {
                Some(r) => Some(r.value@),
                None => None,
            },
        ),
{
    match carried.source {
        TagSource::Auto => match derived {
            Some(r) => Some(r.value),
            None => None,
        },
        TagSource::Manual => match &carried.name {
            Some(n) => Some(n.clone()),
            None => None,
        },
    }
}

/// A block rule by block name.
#[derive(Debug, Clone, PartialEq, Eq)]
pub struct BlockClass {
    pub block: String,
    pub class: TagClass,
}

/// The class of the first member block (by name, in member order) that a
/// block rule, other than an ignoring one, names.
pub open spec fn block_class_of(members: Seq<Seq<char>>, rules: Seq<BlockClass>) -> Option<TagClass>
    decreases members.len(),
{
    if members.len() == 0 {
        None
    } else {
        match rule_for(members[0], rules) {
            Some(c) => Some(c),
            None => block_class_of(members.drop_first(), rules),
        }
    }
}

/// The class the first rule for `block` names, unless it ignores the block.
pub open spec fn rule_for(block: Seq<char>, rules: Seq<BlockClass>) -> Option<TagClass>
    decreases rules.len(),
{
    if rules.len() == 0 {
        None
    } else if rules[0].block@ == block {
        if rules[0].class.class@ == IGNORE_CLASS@ {
            None
        } else {
            Some(rules[0].class)
        }
    } else {
        rule_for(block, rules.drop_first())
    }
}

fn class_copy(c: &TagClass) -> (out: TagClass)
    ensures
        out == *c,
{
    TagClass { class: c.class.clone(), label: c.label.clone(), color: c.color }
}

fn rule_for_exec(block: &str, rules: &[BlockClass]) -> (out: Option<TagClass>)
    ensures
        out == rule_for(block@, rules@),
{
    let b = chars_of(block);
    let ignore = chars_of(IGNORE_CLASS);
    let mut i: usize = 0;
    assert(rules@.skip(0) =~= rules@);
    while i < rules.len()
        invariant
            i <= rules@.len(),
            b@ == block@,
            ignore@ == IGNORE_CLASS@,
            rule_for(block@, rules@) == rule_for(block@, rules@.skip(i as int)),
        decreases rules@.len() - i,
    {
        let ghost rest = rules@.skip(i as int);
        assert(rest[0] == rules@[i as int]);
        if same(chars_of(rules[i].block.as_str()).as_slice(), b.as_slice()) {
            if same(chars_of(rules[i].class.class.as_str()).as_slice(), ignore.as_slice()) {
                return None;
            }
            return Some(class_copy(&rules[i].class));
        }
        assert(rest.drop_first() =~= rules@.skip(i + 1));
        i += 1;
    }
    None
}

/// The class the group's blocks name: that of the first member block a
/// block rule names.
pub fn block_class(members: &[String], rules: &[BlockClass]) -> (out: Option<TagClass>)
    ensures
        out == block_class_of(views(members@), rules@),
{
    let ghost mv = views(members@);
    let mut i: usize = 0;
    assert(mv.skip(0) =~= mv);
    while i < members.len()
        invariant
            i <= members@.len(),
            mv == views(members@),
            block_class_of(mv, rules@) == block_class_of(mv.skip(i as int), rules@),
        decreases members@.len() - i,
    {
        let ghost rest = mv.skip(i as int);
        assert(rest[0] == members@[i as int]@);
        match rule_for_exec(members[i].as_str(), rules) {
            Some(c) => {
                return Some(c);
            },
            None => {},
        }
        assert(rest.drop_first() =~= mv.skip(i + 1));
        i += 1;
    }
    None
}

/// The class a marked group is, by evidence in this order: a known block
/// among its members, then a circle rule one of its circles fits, then the
/// shape of the tag it carries, then the rules' class for hand-made groups.
pub open spec fn group_class_of(
    block: Option<TagClass>,
    circle: Option<TagClass>,
    tag: Option<Seq<char>>,
    rules: TagClassRules,
    manual: TagClass,
) -> TagClass {
    match block {
        Some(b) => b,
        None => match circle {
            Some(c) => c,
            None => match tag {
                Some(t) => match class_of_tag(t, rules) {
                    Some(k) => k,
                    None => manual,
                },
                None => manual,
            },
        },
    }
}

/// The class a marked group is; see [`group_class_of`].
pub fn group_class(
    block: Option<TagClass>,
    circle: Option<TagClass>,
    tag: &Option<String>,
    rules: &TagClassRules,
    manual: &TagClass,
) -> (out: TagClass)
    ensures
        out == group_class_of(block, circle, opt_chars(*tag), *rules, *manual),
{
    match block {
        Some(b) => b,
        None => match circle {
            Some(c) => c,
            None => match tag {
                Some(t) => match class_for_tag(t.as_str(), rules) {
                    Some(k) => k,
                    None => class_copy(manual),
                },
                None => class_copy(manual),
            },
        },
    }
}

/// The name a group goes by: its own when it has one that is not blank,
/// else the key the group dictionary files it under, else `#` and its
/// handle.
pub open spec fn group_name_of(name: Seq<char>, dictionary_key: Option<Seq<char>>, handle: u64) -> Seq<
    char,
> {
    if trim(name).len() > 0 {
        name
    } else {
        match dictionary_key {
            Some(k) => k,
            None => seq!['#'] + dec_digits(handle as nat),
        }
    }
}

/// The name a group goes by; see [`group_name_of`].
pub fn group_name(name: &str, dictionary_key: &Option<String>, handle: u64) -> (out: String)
    ensures
        out@ == group_name_of(name@, opt_chars(*dictionary_key), handle),
{
    if trimmed(chars_of(name).as_slice()).len() > 0 {
        return string_of(chars_of(name).as_slice());
    }
    match dictionary_key {
        Some(k) => k.clone(),
        None => {
            let mut out: Vec<char> = Vec::new();
            out.push('#');
            crate::text::append(&mut out, dec_chars_u64(handle).as_slice());
            assert(out@ =~= seq!['#'] + dec_digits(handle as nat));
            string_of(out.as_slice())
        },
    }
}

} // verus!
