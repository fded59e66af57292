//! The P&ID view filter: which authored sheet layers and which import roles
//! are switched off, the record it is stored as, and the `invisible` bit it
//! gives an entity:
//!
//! ```text
//! invisible = !(sheet_layer_on && role_on)
//! ```
//!
//! over every entity that states a sheet layer or a role. An entity without
//! a sheet layer answers to its role alone; one stating neither is not the
//! filter's to touch. Only the switched-off names are kept; everything else
//! is on.

use vstd::prelude::*;

use crate::sorted::{holds, insert_name, lemma_lex_irreflexive, remove_name, sorted_unique};
use crate::text::{
    append, chars_of, concat, copied, opt_chars, has_prefix, is_ws, slice_of, starts_with, string_of, trim, trimmed,
    views, whitespace,
};

verus! {

/// The XRecord key the filter is stored under, in the model-space block
/// record's extension dictionary.
pub const XRECORD_KEY: &'static str = "PID_VIEW_FILTER";

pub open spec fn layer_off_key() -> Seq<char> {
    seq!['l', 'a', 'y', 'e', 'r', '_', 'o', 'f', 'f', '=']
}

pub open spec fn role_off_key() -> Seq<char> {
    seq!['r', 'o', 'l', 'e', '_', 'o', 'f', 'f', '=']
}

pub open spec fn sheet_layer_key() -> Seq<char> {
    seq!['s', 'h', 'e', 'e', 't', '_', 'l', 'a', 'y', 'e', 'r', '=']
}

pub open spec fn role_key() -> Seq<char> {
    seq!['r', 'o', 'l', 'e', '=']
}

// ── hidden sheet layers ─────────────────────────────────────────────────

/// The lowercase mapping of a character, as `char::to_lowercase` yields it
/// (one or more characters).
pub uninterp spec fn char_lowercase(c: char) -> Seq<char>;

/// `char::to_lowercase`, collected.
#[verifier::external_body]
fn lowercase(c: char) -> (out: Vec<char>)
    ensures
        out@ == char_lowercase(c),
{
    c.to_lowercase().collect()
}

/// `s` without its whitespace, each character lowercased.
pub open spec fn folded(s: Seq<char>) -> Seq<char>
    decreases s.len(),
{
    if s.len() == 0 {
        Seq::<char>::empty()
    } else if is_ws(s.last()) {
        folded(s.drop_last())
    } else {
        folded(s.drop_last()) + char_lowercase(s.last())
    }
}

pub open spec fn hidden_names() -> Seq<Seq<char>> {
    seq![
        seq!['h', 'i', 'd', 'd', 'e', 'n'],
        seq!['h', 'i', 'd', 'd', 'e', 'n', 'o', 'b', 'j', 'e', 'c', 't', 's'],
        seq!['i', 'n', 'v', 'i', 's', 'i', 'b', 'l', 'e'],
    ]
}

/// Whether an authored sheet layer name means "SmartPlant does not draw
/// this": `Hidden`, `HiddenObjects` or `Invisible`, trimmed, case-folded and
/// with inner whitespace ignored, so `Hidden Objects` and `HIDDENOBJECTS`
/// both count.
pub fn is_hidden_sheet_layer(name: &str) -> (b: bool)
    ensures
        b == hidden_names().contains(folded(trim(name@))),
{
    let t = trimmed(chars_of(name).as_slice());
    let mut normalized: Vec<char> = Vec::new();
    let mut i: usize = 0;
    assert(t@.take(0) =~= Seq::<char>::empty());
    while i < t.len()
        invariant
            i <= t@.len(),
            normalized@ == folded(t@.take(i as int)),
        decreases t@.len() - i,
    {
        assert(t@.take(i + 1).drop_last() =~= t@.take(i as int));
        assert(t@.take(i + 1).last() == t@[i as int]);
        if !whitespace(t[i]) {
            let low = lowercase(t[i]);
            append(&mut normalized, low.as_slice());
        }
        i += 1;
    }
    assert(t@.take(t@.len() as int) =~= t@);
    let a = chars_of("hidden");
    let b = chars_of("hiddenobjects");
    let c = chars_of("invisible");
    proof {
        reveal_strlit("hidden");
        reveal_strlit("hiddenobjects");
        reveal_strlit("invisible");
        assert(a@ =~= hidden_names()[0]);
        assert(b@ =~= hidden_names()[1]);
        assert(c@ =~= hidden_names()[2]);
    }
    let r = crate::text::same(normalized.as_slice(), a.as_slice()) || crate::text::same(
        normalized.as_slice(),
        b.as_slice(),
    ) || crate::text::same(normalized.as_slice(), c.as_slice());
    proof {
        if hidden_names().contains(normalized@) {
            let k = choose|k: int| 0 <= k < 3 && #[trigger] hidden_names()[k] == normalized@;
        }
        if r {
            if normalized@ == a@ {
                assert(hidden_names()[0] == normalized@);
            } else if normalized@ == b@ {
                assert(hidden_names()[1] == normalized@);
            } else {
                assert(hidden_names()[2] == normalized@);
            }
        }
    }
    r
}

// ── the filter ──────────────────────────────────────────────────────────

/// The on/off state of a drawing's sheet layers and import roles. Everything
/// not named here is on.
#[derive(Debug, PartialEq, Eq)]
pub struct PidViewFilter {
    layers_off: Vec<String>,
    roles_off: Vec<String>,
}

impl View for PidViewFilter {
    type V = (Set<Seq<char>>, Set<Seq<char>>);

    closed spec fn view(&self) -> (Set<Seq<char>>, Set<Seq<char>>) {
        (views(self.layers_off@).to_set(), views(self.roles_off@).to_set())
    }
}

/// Whether `s` is the sorted list of the set `set`.
pub open spec fn lists(s: Seq<Seq<char>>, set: Set<Seq<char>>) -> bool {
    sorted_unique(s) && s.to_set() == set
}

/// The record a filter is stored as: `layer_off=<name>` for each sheet layer
/// switched off, sorted, then `role_off=<name>` for each role.
pub open spec fn record_of(layers: Seq<Seq<char>>, roles: Seq<Seq<char>>) -> Seq<Seq<char>> {
    layers.map_values(|l: Seq<char>| layer_off_key() + l) + roles.map_values(
        |r: Seq<char>| role_off_key() + r,
    )
}

/// What a record's entries switch off: an entry `layer_off=<name>` a sheet
/// layer, `role_off=<name>` a role, anything else nothing.
pub open spec fn record_layers(entries: Seq<Seq<char>>) -> Set<Seq<char>> {
    Set::new(
        |l: Seq<char>|
            exists|i: int| 0 <= i < entries.len() && #[trigger] entries[i] == layer_off_key() + l,
    )
}

pub open spec fn record_roles(entries: Seq<Seq<char>>) -> Set<Seq<char>> {
    Set::new(
        |r: Seq<char>|
            exists|i: int|
                0 <= i < entries.len() && !starts_with(entries[i], layer_off_key()) && #[trigger] entries[i]
                    == role_off_key() + r,
    )
}

impl PidViewFilter {
    /// The switched-off sheet layers as the sorted list the record stores.
    pub closed spec fn layer_list(&self) -> Seq<Seq<char>> {
        views(self.layers_off@)
    }

    /// The switched-off roles as the sorted list the record stores.
    pub closed spec fn role_list(&self) -> Seq<Seq<char>> {
        views(self.roles_off@)
    }

    /// The view is the set of each list.
    pub proof fn lemma_lists_are_the_view(self)
        ensures
            self.layer_list().to_set() == self@.0,
            self.role_list().to_set() == self@.1,
    {
    }

    #[verifier::type_invariant]
    spec fn well_formed(self) -> bool {
        &&& sorted_unique(views(self.layers_off@))
        &&& sorted_unique(views(self.roles_off@))
    }

    /// Everything on.
    pub fn new() -> (f: PidViewFilter)
        ensures
            f@.0 == Set::<Seq<char>>::empty(),
            f@.1 == Set::<Seq<char>>::empty(),
    {
        let f = PidViewFilter { layers_off: Vec::new(), roles_off: Vec::new() };
        assert(views(f.layers_off@).to_set() =~= Set::<Seq<char>>::empty());
        assert(views(f.roles_off@).to_set() =~= Set::<Seq<char>>::empty());
        f
    }

    pub fn layer_is_on(&self, layer: &str) -> (on: bool)
        ensures
            on == !self@.0.contains(layer@),
    {
        !holds(&self.layers_off, layer)
    }

    pub fn role_is_on(&self, role: &str) -> (on: bool)
        ensures
            on == !self@.1.contains(role@),
    {
        !holds(&self.roles_off, role)
    }

    pub fn set_layer(&mut self, layer: &str, on: bool)
        ensures
            final(self)@.0 == if on {
                old(self)@.0.remove(layer@)
            } else {
                old(self)@.0.insert(layer@)
            },
            final(self)@.1 == old(self)@.1,
    {
        proof {
            use_type_invariant(&*self);
        }
        let mut names: Vec<String> = Vec::new();
        std::mem::swap(&mut names, &mut self.layers_off);
        if on {
            remove_name(&mut names, layer);
        } else {
            insert_name(&mut names, layer);
        }
        self.layers_off = names;
    }

    pub fn set_role(&mut self, role: &str, on: bool)
        ensures
            final(self)@.1 == if on {
                old(self)@.1.remove(role@)
            } else {
                old(self)@.1.insert(role@)
            },
            final(self)@.0 == old(self)@.0,
    {
        proof {
            use_type_invariant(&*self);
        }
        let mut names: Vec<String> = Vec::new();
        std::mem::swap(&mut names, &mut self.roles_off);
        if on {
            remove_name(&mut names, role);
        } else {
            insert_name(&mut names, role);
        }
        self.roles_off = names;
    }

    /// The sheet layers switched off, sorted.
    pub fn layers_off(&self) -> (out: Vec<String>)
        ensures
            lists(views(out@), self@.0),
    {
        proof {
            use_type_invariant(self);
        }
        copied(&self.layers_off)
    }

    /// The roles switched off, sorted.
    pub fn roles_off(&self) -> (out: Vec<String>)
        ensures
            lists(views(out@), self@.1),
    {
        proof {
            use_type_invariant(self);
        }
        copied(&self.roles_off)
    }

    /// Nothing is switched off.
    pub fn is_empty(&self) -> (b: bool)
        ensures
            b == (self@.0.is_empty() && self@.1.is_empty()),
    {
        proof {
            if self.layers_off@.len() > 0 {
                assert(views(self.layers_off@).to_set().contains(views(self.layers_off@)[0]));
            }
            if self.roles_off@.len() > 0 {
                assert(views(self.roles_off@).to_set().contains(views(self.roles_off@)[0]));
            }
            if self.layers_off@.len() == 0 {
                assert(views(self.layers_off@).to_set() =~= Set::<Seq<char>>::empty());
            }
            if self.roles_off@.len() == 0 {
                assert(views(self.roles_off@).to_set() =~= Set::<Seq<char>>::empty());
            }
        }
        self.layers_off.len() == 0 && self.roles_off.len() == 0
    }

    /// The record the filter is stored as.
    pub fn to_record(&self) -> (entries: Vec<String>)
        ensures
            views(entries@) == record_of(self.layer_list(), self.role_list()),
            lists(self.layer_list(), self@.0),
            lists(self.role_list(), self@.1),
    {
        proof {
            use_type_invariant(self);
        }
        let lk = layer_off_chars();
        let rk = role_off_chars();
        let mut out: Vec<String> = Vec::new();
        let mut i: usize = 0;
        while i < self.layers_off.len()
            invariant
                i <= self.layers_off@.len(),
                lk@ == layer_off_key(),
                out@.len() == i,
                forall|k: int|
                    0 <= k < i ==> #[trigger] out@[k]@ == layer_off_key() + self.layers_off@[k]@,
            decreases self.layers_off@.len() - i,
        {
            let name = chars_of(self.layers_off[i].as_str());
            out.push(string_of(concat(lk.as_slice(), name.as_slice()).as_slice()));
            i += 1;
        }
        let mut j: usize = 0;
        while j < self.roles_off.len()
            invariant
                j <= self.roles_off@.len(),
                rk@ == role_off_key(),
                out@.len() == self.layers_off@.len() + j,
                forall|k: int|
                    0 <= k < self.layers_off@.len() ==> #[trigger] out@[k]@ == layer_off_key()
                        + self.layers_off@[k]@,
                forall|k: int|
                    0 <= k < j ==> #[trigger] out@[self.layers_off@.len() + k]@ == role_off_key()
                        + self.roles_off@[k]@,
            decreases self.roles_off@.len() - j,
        {
            let name = chars_of(self.roles_off[j].as_str());
            out.push(string_of(concat(rk.as_slice(), name.as_slice()).as_slice()));
            j += 1;
        }
        let ghost want = record_of(views(self.layers_off@), views(self.roles_off@));
        assert forall|k: int| 0 <= k < out@.len() implies #[trigger] views(out@)[k] == want[k] by {
            if k >= self.layers_off@.len() {
                assert(out@[self.layers_off@.len() + (k - self.layers_off@.len())]@ == role_off_key()
                    + self.roles_off@[k - self.layers_off@.len()]@);
            }
        }
        assert(views(out@) =~= want);
        out
    }

    /// The filter a stored record describes: each `layer_off=` entry a sheet
    /// layer switched off, each `role_off=` entry a role; other entries are
    /// not the filter's.
    pub fn from_record(entries: &[String]) -> (f: PidViewFilter)
        ensures
            f@.0 == record_layers(views(entries@)),
            f@.1 == record_roles(views(entries@)),
    {
        let lk = layer_off_chars();
        let rk = role_off_chars();
        let mut f = PidViewFilter::new();
        let ghost es = views(entries@);
        let mut i: usize = 0;
        while i < entries.len()
            invariant
                i <= entries@.len(),
                es == views(entries@),
                lk@ == layer_off_key(),
                rk@ == role_off_key(),
                f@.0 == record_layers(es.take(i as int)),
                f@.1 == record_roles(es.take(i as int)),
            decreases entries@.len() - i,
        {
            let e = chars_of(entries[i].as_str());
            let ghost before = es.take(i as int);
            let ghost after = es.take(i + 1);
            assert(after == before.push(e@));
            if has_prefix(e.as_slice(), lk.as_slice()) {
                let name = slice_of(e.as_slice(), lk.len(), e.len());
                let s = string_of(name.as_slice());
                f.set_layer(s.as_str(), false);
                proof {
                    assert(e@ =~= layer_off_key() + name@);
                    assert(record_layers(after) =~= record_layers(before).insert(name@)) by {
                        assert forall|l: Seq<char>| record_layers(after).contains(l) implies record_layers(
                            before,
                        ).insert(name@).contains(l) by {
                            let k = choose|k: int|
                                0 <= k < after.len() && #[trigger] after[k] == layer_off_key() + l;
                            if k == i {
                                assert(l =~= (layer_off_key() + l).skip(10));
                                assert(name@ =~= (layer_off_key() + name@).skip(10));
                            } else {
                                assert(before[k] == after[k]);
                            }
                        }
                        assert forall|l: Seq<char>| record_layers(before).insert(name@).contains(
                            l,
                        ) implies record_layers(after).contains(l) by {
                            if l == name@ {
                                assert(after[i as int] == layer_off_key() + l);
                            } else {
                                let k = choose|k: int|
                                    0 <= k < before.len() && #[trigger] before[k] == layer_off_key()
                                        + l;
                                assert(after[k] == before[k]);
                            }
                        }
                    }
                    assert(record_roles(after) =~= record_roles(before)) by {
                        assert forall|r: Seq<char>| record_roles(after).contains(r) implies record_roles(
                            before,
                        ).contains(r) by {
                            let k = choose|k: int|
                                0 <= k < after.len() && !starts_with(after[k], layer_off_key())
                                    && #[trigger] after[k] == role_off_key() + r;
                            assert(k != i);
                            assert(before[k] == after[k]);
                        }
                        assert forall|r: Seq<char>| record_roles(before).contains(r) implies record_roles(
                            after,
                        ).contains(r) by {
                            let k = choose|k: int|
                                0 <= k < before.len() && !starts_with(before[k], layer_off_key())
                                    && #[trigger] before[k] == role_off_key() + r;
                            assert(after[k] == before[k]);
                        }
                    }
                }
            } else if has_prefix(e.as_slice(), rk.as_slice()) {
                let name = slice_of(e.as_slice(), rk.len(), e.len());
                let s = string_of(name.as_slice());
                f.set_role(s.as_str(), false);
                proof {
                    assert(e@ =~= role_off_key() + name@);
                    assert(record_roles(after) =~= record_roles(before).insert(name@)) by {
                        assert forall|r: Seq<char>| record_roles(after).contains(r) implies record_roles(
                            before,
                        ).insert(name@).contains(r) by {
                            let k = choose|k: int|
                                0 <= k < after.len() && !starts_with(after[k], layer_off_key())
                                    && #[trigger] after[k] == role_off_key() + r;
                            if k == i {
                                assert(r =~= (role_off_key() + r).skip(9));
                                assert(name@ =~= (role_off_key() + name@).skip(9));
                            } else {
                                assert(before[k] == after[k]);
                            }
                        }
                        assert forall|r: Seq<char>| record_roles(before).insert(name@).contains(
                            r,
                        ) implies record_roles(after).contains(r) by {
                            if r == name@ {
                                assert(after[i as int] == role_off_key() + r);
                            } else {
                                let k = choose|k: int|
                                    0 <= k < before.len() && !starts_with(
                                        before[k],
                                        layer_off_key(),
                                    ) && #[trigger] before[k] == role_off_key() + r;
                                assert(after[k] == before[k]);
                            }
                        }
                    }
                    assert(record_layers(after) =~= record_layers(before)) by {
                        assert forall|l: Seq<char>| record_layers(after).contains(l) implies record_layers(
                            before,
                        ).contains(l) by {
                            let k = choose|k: int|
                                0 <= k < after.len() && #[trigger] after[k] == layer_off_key() + l;
                            if k == i {
                                assert((layer_off_key() + l).take(10) =~= layer_off_key());
                            }
                            assert(before[k] == after[k]);
                        }
                        assert forall|l: Seq<char>| record_layers(before).contains(l) implies record_layers(
                            after,
                        ).contains(l) by {
                            let k = choose|k: int|
                                0 <= k < before.len() && #[trigger] before[k] == layer_off_key() + l;
                            assert(after[k] == before[k]);
                        }
                    }
                }
            } else {
                proof {
                    assert(record_layers(after) =~= record_layers(before)) by {
                        assert forall|l: Seq<char>| record_layers(after).contains(l) implies record_layers(
                            before,
                        ).contains(l) by {
                            let k = choose|k: int|
                                0 <= k < after.len() && #[trigger] after[k] == layer_off_key() + l;
                            if k == i {
                                assert((layer_off_key() + l).take(10) =~= layer_off_key());
                            }
                            assert(before[k] == after[k]);
                        }
                        assert forall|l: Seq<char>| record_layers(before).contains(l) implies record_layers(
                            after,
                        ).contains(l) by {
                            let k = choose|k: int|
                                0 <= k < before.len() && #[trigger] before[k] == layer_off_key() + l;
                            assert(after[k] == before[k]);
                        }
                    }
                    assert(record_roles(after) =~= record_roles(before)) by {
                        assert forall|r: Seq<char>| record_roles(after).contains(r) implies record_roles(
                            before,
                        ).contains(r) by {
                            let k = choose|k: int|
                                0 <= k < after.len() && !starts_with(after[k], layer_off_key())
                                    && #[trigger] after[k] == role_off_key() + r;
                            if k == i {
                                assert((role_off_key() + r).take(9) =~= role_off_key());
                            }
                            assert(before[k] == after[k]);
                        }
                        assert forall|r: Seq<char>| record_roles(before).contains(r) implies record_roles(
                            after,
                        ).contains(r) by {
                            let k = choose|k: int|
                                0 <= k < before.len() && !starts_with(before[k], layer_off_key())
                                    && #[trigger] before[k] == role_off_key() + r;
                            assert(after[k] == before[k]);
                        }
                    }
                }
            }
            i += 1;
        }
        assert(es.take(entries@.len() as int) =~= es);
        f
    }
}

impl Clone for PidViewFilter {
    fn clone(&self) -> (f: PidViewFilter)
        ensures
            f@ == self@,
    {
        proof {
            use_type_invariant(self);
        }
        PidViewFilter { layers_off: copied(&self.layers_off), roles_off: copied(&self.roles_off) }
    }
}

impl Default for PidViewFilter {
    fn default() -> (f: PidViewFilter)
        ensures
            f@.0 == Set::<Seq<char>>::empty(),
            f@.1 == Set::<Seq<char>>::empty(),
    {
        PidViewFilter::new()
    }
}

fn layer_off_chars() -> (v: Vec<char>)
    ensures
        v@ == layer_off_key(),
{
    let v = chars_of("layer_off=");
    proof {
        reveal_strlit("layer_off=");
    }
    assert(v@ =~= layer_off_key());
    v
}

fn role_off_chars() -> (v: Vec<char>)
    ensures
        v@ == role_off_key(),
{
    let v = chars_of("role_off=");
    proof {
        reveal_strlit("role_off=");
    }
    assert(v@ =~= role_off_key());
    v
}


// ── what an entity states ───────────────────────────────────────────────

/// What follows `key` in the first of `values` that starts with it.
pub open spec fn first_after(values: Seq<Seq<char>>, key: Seq<char>) -> Option<Seq<char>>
    decreases values.len(),
{
    if values.len() == 0 {
        None
    } else if starts_with(values[0], key) {
        Some(values[0].skip(key.len() as int))
    } else {
        first_after(values.drop_first(), key)
    }
}

/// The two keys of an entity's `PID_SEMANTICS` record the filter reads. An
/// entity with no such record states neither.
#[derive(Debug, Clone, Default, PartialEq, Eq)]
pub struct PidKeys {
    pub sheet_layer: Option<String>,
    pub role: Option<String>,
}

impl View for PidKeys {
    type V = (Option<Seq<char>>, Option<Seq<char>>);

    open spec fn view(&self) -> (Option<Seq<char>>, Option<Seq<char>>) {
        (opt_chars(self.sheet_layer), opt_chars(self.role))
    }
}

pub open spec fn keys_views(keys: Seq<PidKeys>) -> Seq<(Option<Seq<char>>, Option<Seq<char>>)> {
    keys.map_values(|k: PidKeys| k@)
}

/// What follows `key` in the first of `values` starting with it.
fn first_after_exec(values: &[String], key: &[char]) -> (r: Option<String>)
    ensures
        opt_chars(r) == first_after(views(values@), key@),
{
    let ghost vs = views(values@);
    let mut i: usize = 0;
    assert(vs.skip(0) =~= vs);
    while i < values.len()
        invariant
            i <= values@.len(),
            vs == views(values@),
            first_after(vs, key@) == first_after(vs.skip(i as int), key@),
        decreases values@.len() - i,
    {
        let v = chars_of(values[i].as_str());
        assert(vs.skip(i as int)[0] == v@);
        if has_prefix(v.as_slice(), key) {
            let rest = slice_of(v.as_slice(), key.len(), v.len());
            assert(rest@ =~= v@.skip(key@.len() as int));
            return Some(string_of(rest.as_slice()));
        }
        assert(vs.skip(i as int).drop_first() =~= vs.skip(i + 1));
        i += 1;
    }
    None
}

/// The keys an entity's `PID_SEMANTICS` string values state: the first
/// `sheet_layer=` and the first `role=` entry, each without its key.
pub fn pid_keys(values: &[String]) -> (k: PidKeys)
    ensures
        k@.0 == first_after(views(values@), sheet_layer_key()),
        k@.1 == first_after(views(values@), role_key()),
{
    let sk = chars_of("sheet_layer=");
    let rk = chars_of("role=");
    proof {
        reveal_strlit("sheet_layer=");
        reveal_strlit("role=");
        assert(sk@ =~= sheet_layer_key());
        assert(rk@ =~= role_key());
    }
    PidKeys {
        sheet_layer: first_after_exec(values, sk.as_slice()),
        role: first_after_exec(values, rk.as_slice()),
    }
}

/// The `invisible` bit the filter gives an entity stating `layer` and
/// `role`, or `None` when it states neither and is not the filter's.
pub open spec fn verdict(
    off: (Set<Seq<char>>, Set<Seq<char>>),
    keys: (Option<Seq<char>>, Option<Seq<char>>),
) -> Option<bool> {
    if keys.0.is_none() && keys.1.is_none() {
        None
    } else {
        let layer_on = match keys.0 {
            Some(l) => !off.0.contains(l),
            None => true,
        };
        let role_on = match keys.1 {
            Some(r) => !off.1.contains(r),
            None => true,
        };
        Some(!(layer_on && role_on))
    }
}

/// An entity's bit after the filter is applied: the verdict, or the bit it
/// had when the filter has none.
pub open spec fn new_bit(
    off: (Set<Seq<char>>, Set<Seq<char>>),
    keys: (Option<Seq<char>>, Option<Seq<char>>),
    bit: bool,
) -> bool {
    match verdict(off, keys) {
        Some(b) => b,
        None => bit,
    }
}

/// How many of the bits applying the filter changes.
pub open spec fn changes(
    off: (Set<Seq<char>>, Set<Seq<char>>),
    keys: Seq<(Option<Seq<char>>, Option<Seq<char>>)>,
    bits: Seq<bool>,
) -> nat
    decreases keys.len(),
{
    if keys.len() == 0 || bits.len() == 0 {
        0
    } else {
        changes(off, keys.drop_last(), bits.drop_last()) + if new_bit(
            off,
            keys.last(),
            bits.last(),
        ) != bits.last() {
            1nat
        } else {
            0nat
        }
    }
}

/// The sheet layers the entities state that read as hidden.
pub open spec fn hidden_stated(keys: Seq<(Option<Seq<char>>, Option<Seq<char>>)>) -> Set<
    Seq<char>,
> {
    Set::new(
        |l: Seq<char>|
            exists|i: int|
                0 <= i < keys.len() && #[trigger] keys[i].0 == Some(l) && hidden_names().contains(
                    folded(trim(l)),
                ),
    )
}

impl PidViewFilter {
    /// The `invisible` bit for an entity stating `keys`:
    /// `!(sheet_layer_on && role_on)`, a missing key counting as on, or
    /// `None` when it states neither.
    pub fn invisible_for(&self, keys: &PidKeys) -> (r: Option<bool>)
        ensures
            r == verdict(self@, keys@),
    {
        if keys.sheet_layer.is_none() && keys.role.is_none() {
            return None;
        }
        let layer_on = match &keys.sheet_layer {
            Some(l) => self.layer_is_on(l.as_str()),
            None => true,
        };
        let role_on = match &keys.role {
            Some(r) => self.role_is_on(r.as_str()),
            None => true,
        };
        Some(!(layer_on && role_on))
    }

    /// Set every entity's `invisible` bit from the filter, and return how
    /// many changed. `keys[i]` is what entity `i` states; only entities
    /// stating a sheet layer or a role are touched.
    pub fn apply(&self, keys: &[PidKeys], invisible: &mut Vec<bool>) -> (changed: usize)
        requires
            old(invisible)@.len() == keys@.len(),
        ensures
            final(invisible)@.len() == keys@.len(),
            forall|i: int|
                0 <= i < keys@.len() ==> #[trigger] final(invisible)@[i] == new_bit(
                    self@,
                    keys@[i]@,
                    old(invisible)@[i],
                ),
            changed == changes(self@, keys_views(keys@), old(invisible)@),
    {
        let ghost before = invisible@;
        let ghost ks = keys_views(keys@);
        let mut changed: usize = 0;
        let mut i: usize = 0;
        while i < keys.len()
            invariant
                i <= keys@.len(),
                invisible@.len() == keys@.len(),
                before.len() == keys@.len(),
                ks == keys_views(keys@),
                changed <= i,
                changed == changes(self@, ks.take(i as int), before.take(i as int)),
                forall|k: int| i <= k < keys@.len() ==> #[trigger] invisible@[k] == before[k],
                forall|k: int|
                    0 <= k < i ==> #[trigger] invisible@[k] == new_bit(self@, keys@[k]@, before[k]),
            decreases keys@.len() - i,
        {
            let ghost nk = ks.take(i + 1);
            let ghost nb = before.take(i + 1);
            assert(nk.drop_last() =~= ks.take(i as int));
            assert(nb.drop_last() =~= before.take(i as int));
            assert(nk.last() == keys@[i as int]@);
            assert(nb.last() == before[i as int]);
            match self.invisible_for(&keys[i]) {
                Some(b) => {
                    if invisible[i] != b {
                        invisible.set(i, b);
                        changed += 1;
                    }
                },
                None => {},
            }
            i += 1;
        }
        assert(ks.take(keys@.len() as int) =~= ks);
        assert(before.take(keys@.len() as int) =~= before);
        changed
    }

    /// The filter the importer starts a drawing with: every sheet layer an
    /// entity states that [`is_hidden_sheet_layer`] is off, no role is.
    pub fn initial(keys: &[PidKeys]) -> (f: PidViewFilter)
        ensures
            f@.0 == hidden_stated(keys_views(keys@)),
            f@.1 == Set::<Seq<char>>::empty(),
    {
        let ghost ks = keys_views(keys@);
        let mut f = PidViewFilter::new();
        let mut i: usize = 0;
        while i < keys.len()
            invariant
                i <= keys@.len(),
                ks == keys_views(keys@),
                f@.0 == hidden_stated(ks.take(i as int)),
                f@.1 == Set::<Seq<char>>::empty(),
            decreases keys@.len() - i,
        {
            let ghost before = ks.take(i as int);
            let ghost after = ks.take(i + 1);
            assert(after == before.push(keys@[i as int]@));
            match &keys[i].sheet_layer {
                Some(layer) => {
                    if is_hidden_sheet_layer(layer.as_str()) {
                        f.set_layer(layer.as_str(), false);
                        assert(hidden_stated(after) =~= hidden_stated(before).insert(layer@)) by {
                            assert(after[i as int].0 == Some(layer@));
                            assert forall|l: Seq<char>| #[trigger] hidden_stated(after).contains(l) implies hidden_stated(before).insert(layer@).contains(l) by {
                                let k = choose|k: int|
                                    0 <= k < after.len() && #[trigger] after[k].0 == Some(l)
                                        && hidden_names().contains(folded(trim(l)));
                                if k < i {
                                    assert(before[k] == after[k]);
                                }
                            }
                            assert forall|l: Seq<char>| #[trigger] hidden_stated(before).insert(layer@).contains(l) implies hidden_stated(after).contains(l) by {
                                if l != layer@ {
                                    let k = choose|k: int|
                                        0 <= k < before.len() && #[trigger] before[k].0 == Some(l)
                                            && hidden_names().contains(folded(trim(l)));
                                    assert(after[k] == before[k]);
                                }
                            }
                        }
                    } else {
                        assert(hidden_stated(after) =~= hidden_stated(before)) by {
                            assert forall|l: Seq<char>| #[trigger] hidden_stated(after).contains(l) implies hidden_stated(before).contains(l) by {
                                let k = choose|k: int|
                                    0 <= k < after.len() && #[trigger] after[k].0 == Some(l)
                                        && hidden_names().contains(folded(trim(l)));
                                if k < i {
                                    assert(before[k] == after[k]);
                                }
                            }
                            assert forall|l: Seq<char>| #[trigger] hidden_stated(before).contains(l) implies hidden_stated(after).contains(l) by {
                                let k = choose|k: int|
                                    0 <= k < before.len() && #[trigger] before[k].0 == Some(l)
                                        && hidden_names().contains(folded(trim(l)));
                                assert(after[k] == before[k]);
                            }
                        }
                    }
                },
                None => {
                    assert(hidden_stated(after) =~= hidden_stated(before)) by {
                        assert forall|l: Seq<char>| #[trigger] hidden_stated(after).contains(l) implies hidden_stated(before).contains(l) by {
                            let k = choose|k: int|
                                0 <= k < after.len() && #[trigger] after[k].0 == Some(l)
                                    && hidden_names().contains(folded(trim(l)));
                            if k < i {
                                assert(before[k] == after[k]);
                            }
                        }
                        assert forall|l: Seq<char>| #[trigger] hidden_stated(before).contains(l) implies hidden_stated(after).contains(l) by {
                            let k = choose|k: int|
                                0 <= k < before.len() && #[trigger] before[k].0 == Some(l)
                                    && hidden_names().contains(folded(trim(l)));
                            assert(after[k] == before[k]);
                        }
                    }
                },
            }
            i += 1;
        }
        assert(ks.take(keys@.len() as int) =~= ks);
        f
    }
}


// ── switching ───────────────────────────────────────────────────────────

/// What one switch did to the drawing.
#[derive(Debug, Clone, Copy, PartialEq, Eq)]
pub struct Switched {
    /// Entities whose `invisible` bit changed.
    pub entities: usize,
    /// The `PID-HIDDEN` layer was turned on so the entities the import filed
    /// there could show. Only switching a sheet layer on ever does this.
    pub released_hidden_layer: bool,
}

/// Some entity on `PID-HIDDEN` has its bit clear and should draw.
pub open spec fn lit_on_hidden(on_hidden: Seq<bool>, invisible: Seq<bool>) -> bool {
    exists|i: int| 0 <= i < on_hidden.len() && i < invisible.len() && #[trigger] on_hidden[i] && !invisible[i]
}

/// Turn `PID-HIDDEN` on (`Some(false)` for its `off` flag; `None` when the
/// drawing has no such layer) when it is off and holds an entity whose bit
/// says it should draw. Returns whether the layer changed.
pub fn release_hidden_layer(on_hidden: &[bool], invisible: &[bool], hidden_off: &mut Option<bool>) -> (released: bool)
    ensures
        released == (lit_on_hidden(on_hidden@, invisible@) && *old(hidden_off) == Some(true)),
        *final(hidden_off) == if released {
            Some(false)
        } else {
            *old(hidden_off)
        },
{
    let mut lit = false;
    let mut i: usize = 0;
    while i < on_hidden.len() && i < invisible.len() && !lit
        invariant
            i <= on_hidden@.len(),
            lit == exists|k: int| 0 <= k < i && k < invisible@.len() && #[trigger] on_hidden@[k] && !invisible@[k],
        decreases on_hidden@.len() - i,
    {
        if on_hidden[i] && !invisible[i] {
            lit = true;
        }
        i += 1;
    }
    proof {
        if lit_on_hidden(on_hidden@, invisible@) && !lit {
            let k = choose|k: int| 0 <= k < on_hidden@.len() && k < invisible@.len() && #[trigger] on_hidden@[k] && !invisible@[k];
            assert(k >= i);
        }
    }
    if !lit {
        return false;
    }
    match hidden_off {
        Some(off) => {
            if *off {
                *hidden_off = Some(false);
                true
            } else {
                false
            }
        },
        None => false,
    }
}

impl PidViewFilter {
    /// What storing the filter writes: its record, or `None` -- remove the
    /// record -- when nothing is switched off, so an all-on filter leaves no
    /// record behind.
    pub fn stored_record(&self) -> (r: Option<Vec<String>>)
        ensures
            r is None <==> (self@.0.is_empty() && self@.1.is_empty()),
            r matches Some(entries) ==> views(entries@) == record_of(self.layer_list(), self.role_list()),
    {
        if self.is_empty() {
            None
        } else {
            Some(self.to_record())
        }
    }
}

/// Switch one authored sheet layer on or off in a drawing whose stored
/// filter is `stored`, whose entities state `keys`, sit on `PID-HIDDEN`
/// where `on_hidden` says, and carry the bits `invisible`; `hidden_off` is
/// `PID-HIDDEN`'s `off` flag. Returns the filter to store and what changed;
/// the bits are set from the new filter, and switching on releases
/// `PID-HIDDEN` when an entity it just lit sits there.
pub fn switch_sheet_layer(
    stored: Option<PidViewFilter>,
    layer: &str,
    on: bool,
    keys: &[PidKeys],
    on_hidden: &[bool],
    invisible: &mut Vec<bool>,
    hidden_off: &mut Option<bool>,
) -> (r: (PidViewFilter, Switched))
    requires
        old(invisible)@.len() == keys@.len(),
    ensures
        ({
            let before = match stored {
                Some(f) => f@,
                None => (Set::<Seq<char>>::empty(), Set::<Seq<char>>::empty()),
            };
            let (f, sw) = r;
            &&& f@.0 == if on {
                before.0.remove(layer@)
            } else {
                before.0.insert(layer@)
            }
            &&& f@.1 == before.1
            &&& final(invisible)@.len() == keys@.len()
            &&& forall|i: int|
                0 <= i < keys@.len() ==> #[trigger] final(invisible)@[i] == new_bit(
                    f@,
                    keys@[i]@,
                    old(invisible)@[i],
                )
            &&& sw.entities == changes(f@, keys_views(keys@), old(invisible)@)
            &&& sw.released_hidden_layer == (on && lit_on_hidden(on_hidden@, final(invisible)@)
                && *old(hidden_off) == Some(true))
            &&& *final(hidden_off) == if sw.released_hidden_layer {
                Some(false)
            } else {
                *old(hidden_off)
            }
        }),
{
    let mut filter = match stored {
        Some(f) => f,
        None => PidViewFilter::new(),
    };
    filter.set_layer(layer, on);
    let entities = filter.apply(keys, invisible);
    let released = if on {
        release_hidden_layer(on_hidden, invisible.as_slice(), hidden_off)
    } else {
        false
    };
    (filter, Switched { entities, released_hidden_layer: released })
}

/// Switch one import role on or off; see [`switch_sheet_layer`]. A role
/// switch lights nothing the import hid, so `PID-HIDDEN` is never touched.
pub fn switch_role(stored: Option<PidViewFilter>, role: &str, on: bool, keys: &[PidKeys], invisible: &mut Vec<bool>) -> (r: (PidViewFilter, Switched))
    requires
        old(invisible)@.len() == keys@.len(),
    ensures
        ({
            let before = match stored {
                Some(f) => f@,
                None => (Set::<Seq<char>>::empty(), Set::<Seq<char>>::empty()),
            };
            let (f, sw) = r;
            &&& f@.1 == if on {
                before.1.remove(role@)
            } else {
                before.1.insert(role@)
            }
            &&& f@.0 == before.0
            &&& final(invisible)@.len() == keys@.len()
            &&& forall|i: int|
                0 <= i < keys@.len() ==> #[trigger] final(invisible)@[i] == new_bit(
                    f@,
                    keys@[i]@,
                    old(invisible)@[i],
                )
            &&& sw.entities == changes(f@, keys_views(keys@), old(invisible)@)
            &&& !sw.released_hidden_layer
        }),
{
    let mut filter = match stored {
        Some(f) => f,
        None => PidViewFilter::new(),
    };
    filter.set_role(role, on);
    let entities = filter.apply(keys, invisible);
    (filter, Switched { entities, released_hidden_layer: false })
}

// ── laws ────────────────────────────────────────────────────────────────

/// The record names each sheet layer of `layers` and each role of `roles`,
/// and nothing else: reading a stored record back gives the sets it was
/// written from.
pub proof fn lemma_record_reads_back(layers: Seq<Seq<char>>, roles: Seq<Seq<char>>)
    ensures
        record_layers(record_of(layers, roles)) == layers.to_set(),
        record_roles(record_of(layers, roles)) == roles.to_set(),
{
    let es = record_of(layers, roles);
    let n = layers.len() as int;
    assert forall|k: int| 0 <= k < n implies #[trigger] es[k] == layer_off_key() + layers[k] by {}
    assert forall|k: int| n <= k < es.len() implies #[trigger] es[k] == role_off_key() + roles[k - n] by {}
    assert forall|l: Seq<char>| record_layers(es).contains(l) implies #[trigger] layers.to_set().contains(l) by {
        let k = choose|k: int| 0 <= k < es.len() && #[trigger] es[k] == layer_off_key() + l;
        if k < n {
            assert(l =~= (layer_off_key() + l).skip(10));
            assert(layers[k] =~= (layer_off_key() + layers[k]).skip(10));
            assert(layers.contains(l));
        } else {
            assert((layer_off_key() + l)[0] == 'l');
            assert((role_off_key() + roles[k - n])[0] == 'r');
        }
    }
    assert forall|l: Seq<char>| #[trigger] layers.to_set().contains(l) implies record_layers(es).contains(l) by {
        let k = choose|k: int| 0 <= k < layers.len() && layers[k] == l;
        assert(es[k] == layer_off_key() + l);
    }
    assert(record_layers(es) =~= layers.to_set());
    assert forall|r: Seq<char>| record_roles(es).contains(r) implies #[trigger] roles.to_set().contains(r) by {
        let k = choose|k: int|
            0 <= k < es.len() && !starts_with(es[k], layer_off_key()) && #[trigger] es[k] == role_off_key() + r;
        if k < n {
            assert((layer_off_key() + layers[k]).take(10) =~= layer_off_key());
        } else {
            assert(r =~= (role_off_key() + r).skip(9));
            assert(roles[k - n] =~= (role_off_key() + roles[k - n]).skip(9));
            assert(roles.contains(r));
        }
    }
    assert forall|r: Seq<char>| #[trigger] roles.to_set().contains(r) implies record_roles(es).contains(r) by {
        let j = choose|j: int| 0 <= j < roles.len() && roles[j] == r;
        assert(es[n + j] == role_off_key() + r);
        assert((role_off_key() + r)[0] == 'r');
        assert(layer_off_key()[0] == 'l');
        assert(!starts_with(es[n + j], layer_off_key()));
    }
    assert(record_roles(es) =~= roles.to_set());
}

/// A stored filter reads back as itself: loading the record that
/// [`PidViewFilter::to_record`] writes gives the same switched-off sheet
/// layers and roles.
pub proof fn law_stored_filter_reads_back(f: PidViewFilter)
    ensures
        record_layers(record_of(f.layer_list(), f.role_list())) == f@.0,
        record_roles(record_of(f.layer_list(), f.role_list())) == f@.1,
{
    lemma_record_reads_back(f.layer_list(), f.role_list());
    f.lemma_lists_are_the_view();
}

/// Applying a filter a second time changes no entity: the bits it sets do
/// not depend on the bits it found.
pub proof fn law_apply_is_idempotent(
    off: (Set<Seq<char>>, Set<Seq<char>>),
    keys: Seq<(Option<Seq<char>>, Option<Seq<char>>)>,
    bits: Seq<bool>,
)
    requires
        keys.len() == bits.len(),
    ensures
        changes(off, keys, Seq::new(keys.len(), |i: int| new_bit(off, keys[i], bits[i]))) == 0,
    decreases keys.len(),
{
    let after = Seq::new(keys.len(), |i: int| new_bit(off, keys[i], bits[i]));
    if keys.len() > 0 {
        let k2 = keys.drop_last();
        let b2 = bits.drop_last();
        law_apply_is_idempotent(off, k2, b2);
        assert(after.drop_last() =~= Seq::new(k2.len(), |i: int| new_bit(off, k2[i], b2[i])));
    }
}

} // verus!
