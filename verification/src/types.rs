use vstd::prelude::*;
use vstd::string::StrSliceExecFns;

use crate::errors::{JecsDataError, JecsIncompatibleOrMalformedError, JecsWrongEntryTypeError};
use crate::text::str_eq;

verus! {

broadcast use vstd::std_specs::vec::group_vec_axioms, vstd::seq::group_seq_axioms;

// ---------------------------------------------------------------------------
// The public tree node and its mathematical model.
// ---------------------------------------------------------------------------

/// The mathematical model of a parsed tree node.
pub enum JecsVal {
    Any,
    Value(Seq<char>),
    Mapping(Map<Seq<char>, JecsVal>),
    List(Seq<JecsVal>),
}

/// A parsed tree node. `Any` is a childless node whose kind was never
/// observed; it satisfies both the mapping and the list shape requests.
/// A mapping's entries hold each key once, in first-insertion order: binding
/// a key again replaces that entry's value in place.
#[derive(Debug, PartialEq, Eq)]
pub enum JecsType {
    Any(),
    Value(String),
    Mapping(Vec<(String, JecsType)>),
    List(Vec<JecsType>),
}

/// Folds a key/value pair sequence into a map, later entries overriding
/// earlier ones.
pub open spec fn pairs_to_map(s: Seq<(Seq<char>, JecsVal)>) -> Map<Seq<char>, JecsVal>
    decreases s.len(),
{
    if s.len() == 0 {
        Map::empty()
    } else {
        pairs_to_map(s.drop_last()).insert(s.last().0, s.last().1)
    }
}

pub open spec fn node_view(n: JecsType) -> JecsVal
    decreases n,
{
    match n {
        JecsType::Any() => JecsVal::Any,
        JecsType::Value(s) => JecsVal::Value(s@),
        JecsType::Mapping(entries) => JecsVal::Mapping(pairs_to_map(entry_views(entries@))),
        JecsType::List(items) => JecsVal::List(node_views(items@)),
    }
}

pub open spec fn node_views(s: Seq<JecsType>) -> Seq<JecsVal>
    decreases s,
{
    if s.len() == 0 {
        Seq::empty()
    } else {
        seq![node_view(s[0])] + node_views(s.drop_first())
    }
}

pub open spec fn entry_views(s: Seq<(String, JecsType)>) -> Seq<(Seq<char>, JecsVal)>
    decreases s,
{
    if s.len() == 0 {
        Seq::empty()
    } else {
        seq![(s[0].0@, node_view(s[0].1))] + entry_views(s.drop_first())
    }
}

pub proof fn lemma_node_views_push(s: Seq<JecsType>, x: JecsType)
    ensures
        node_views(s.push(x)) == node_views(s).push(node_view(x)),
    decreases s,
{
    if s.len() == 0 {
        assert(s.push(x)[0] == x);
        assert(s.push(x).drop_first() =~= Seq::<JecsType>::empty());
        assert(node_views(Seq::<JecsType>::empty()) == Seq::<JecsVal>::empty());
        assert(node_views(s.push(x)) == seq![node_view(x)] + Seq::<JecsVal>::empty());
        assert(node_views(s.push(x)) =~= node_views(s).push(node_view(x)));
    } else {
        lemma_node_views_push(s.drop_first(), x);
        assert(s.push(x)[0] == s[0]);
        assert(s.push(x).drop_first() =~= s.drop_first().push(x));
        assert(node_views(s.push(x)) == seq![node_view(s[0])] + node_views(s.drop_first()).push(
            node_view(x),
        ));
        assert(node_views(s) == seq![node_view(s[0])] + node_views(s.drop_first()));
        assert(node_views(s.push(x)) =~= node_views(s).push(node_view(x)));
    }
}

pub proof fn lemma_entry_views_push(s: Seq<(String, JecsType)>, x: (String, JecsType))
    ensures
        entry_views(s.push(x)) == entry_views(s).push((x.0@, node_view(x.1))),
    decreases s,
{
    if s.len() == 0 {
        assert(s.push(x)[0] == x);
        assert(s.push(x).drop_first() =~= Seq::<(String, JecsType)>::empty());
        assert(entry_views(Seq::<(String, JecsType)>::empty()) == Seq::<(
            Seq<char>,
            JecsVal,
        )>::empty());
        assert(entry_views(s.push(x)) == seq![(x.0@, node_view(x.1))] + Seq::<(
            Seq<char>,
            JecsVal,
        )>::empty());
        assert(entry_views(s.push(x)) =~= entry_views(s).push((x.0@, node_view(x.1))));
    } else {
        lemma_entry_views_push(s.drop_first(), x);
        assert(s.push(x)[0] == s[0]);
        assert(s.push(x).drop_first() =~= s.drop_first().push(x));
        assert(entry_views(s.push(x)) == seq![(s[0].0@, node_view(s[0].1))] + entry_views(
            s.drop_first(),
        ).push((x.0@, node_view(x.1))));
        assert(entry_views(s) == seq![(s[0].0@, node_view(s[0].1))] + entry_views(s.drop_first()));
        assert(entry_views(s.push(x)) =~= entry_views(s).push((x.0@, node_view(x.1))));
    }
}

impl View for JecsType {
    type V = JecsVal;

    open spec fn view(&self) -> JecsVal {
        node_view(*self)
    }
}

/// No key occurs twice in the pair sequence.
pub open spec fn unique_keys(s: Seq<(Seq<char>, JecsVal)>) -> bool {
    forall|i: int, j: int|
        #![trigger s[i], s[j]]
        0 <= i < j < s.len() ==> s[i].0 != s[j].0
}

pub proof fn lemma_entry_views_props(s: Seq<(String, JecsType)>)
    ensures
        entry_views(s).len() == s.len(),
        forall|i: int|
            0 <= i < s.len() ==> entry_views(s)[i] == ((#[trigger] s[i]).0@, node_view(s[i].1)),
    decreases s,
{
    if s.len() > 0 {
        lemma_entry_views_props(s.drop_first());
        assert forall|i: int| 0 <= i < s.len() implies entry_views(s)[i] == ((#[trigger] s[
            i
        ]).0@, node_view(s[i].1)) by {
            if i > 0 {
                assert(s.drop_first()[i - 1] == s[i]);
                assert(entry_views(s.drop_first())[i - 1] == (
                    s.drop_first()[i - 1].0@,
                    node_view(s.drop_first()[i - 1].1),
                ));
            }
        }
    }
}

/// The map a pair list folds to depends on a prefix only through the map
/// that prefix folds to.
pub proof fn lemma_pairs_to_map_prefix_congruent(
    a: Seq<(Seq<char>, JecsVal)>,
    b: Seq<(Seq<char>, JecsVal)>,
    c: Seq<(Seq<char>, JecsVal)>,
)
    requires
        pairs_to_map(a) == pairs_to_map(b),
    ensures
        pairs_to_map(a + c) == pairs_to_map(b + c),
    decreases c.len(),
{
    if c.len() == 0 {
        assert(a + c =~= a);
        assert(b + c =~= b);
    } else {
        lemma_pairs_to_map_prefix_congruent(a, b, c.drop_last());
        assert((a + c).drop_last() =~= a + c.drop_last());
        assert((b + c).drop_last() =~= b + c.drop_last());
        assert((a + c).last() == c.last());
        assert((b + c).last() == c.last());
    }
}

/// Replacing the one entry that holds a key folds to the same map as
/// appending the new binding: in both, the new binding wins.
pub proof fn lemma_pairs_to_map_replace(
    s: Seq<(Seq<char>, JecsVal)>,
    i: int,
    p: (Seq<char>, JecsVal),
)
    requires
        0 <= i < s.len(),
        s[i].0 == p.0,
        forall|j: int| i < j < s.len() ==> (#[trigger] s[j]).0 != p.0,
    ensures
        pairs_to_map(s.update(i, p)) == pairs_to_map(s.push(p)),
    decreases s.len(),
{
    let u = s.update(i, p);
    assert(s.push(p).drop_last() =~= s);
    assert(s.push(p).last() == p);
    assert(pairs_to_map(s.push(p)) == pairs_to_map(s).insert(p.0, p.1));
    assert(pairs_to_map(s) == pairs_to_map(s.drop_last()).insert(s.last().0, s.last().1));
    if i == s.len() - 1 {
        assert(u.drop_last() =~= s.drop_last());
        assert(u.last() == p);
        assert(s.last().0 == p.0);
        assert(pairs_to_map(u) == pairs_to_map(s.drop_last()).insert(p.0, p.1));
        assert(pairs_to_map(s.drop_last()).insert(p.0, p.1) =~= pairs_to_map(
            s.drop_last(),
        ).insert(s.last().0, s.last().1).insert(p.0, p.1));
    } else {
        assert(u.drop_last() =~= s.drop_last().update(i, p));
        assert(u.last() == s.last());
        assert(s.drop_last()[i] == s[i]);
        assert forall|j: int| i < j < s.drop_last().len() implies (#[trigger] s.drop_last()[
            j
        ]).0 != p.0 by {
            assert(s.drop_last()[j] == s[j]);
        }
        lemma_pairs_to_map_replace(s.drop_last(), i, p);
        assert(s.drop_last().push(p).drop_last() =~= s.drop_last());
        assert(s.drop_last().push(p).last() == p);
        assert(pairs_to_map(s.drop_last().push(p)) == pairs_to_map(s.drop_last()).insert(
            p.0,
            p.1,
        ));
        assert(pairs_to_map(u) == pairs_to_map(u.drop_last()).insert(s.last().0, s.last().1));
        assert(pairs_to_map(u) == pairs_to_map(s.drop_last()).insert(p.0, p.1).insert(
            s.last().0,
            s.last().1,
        ));
        assert(s[s.len() - 1].0 != p.0);
        assert(pairs_to_map(s.drop_last()).insert(p.0, p.1).insert(s.last().0, s.last().1)
            =~= pairs_to_map(s.drop_last()).insert(s.last().0, s.last().1).insert(p.0, p.1));
    }
}

/// Binds a key among a mapping's entries: the entry holding an equal key, if
/// any, is replaced in place, otherwise the pair is appended. Either way the
/// entries' mapping model gains exactly this binding, and no key is
/// duplicated.
pub fn map_entry_insert(entries: &mut Vec<(String, JecsType)>, key: String, value: JecsType)
    requires
        unique_keys(entry_views(old(entries)@)),
    ensures
        pairs_to_map(entry_views(final(entries)@)) == pairs_to_map(
            entry_views(old(entries)@).push((key@, value@)),
        ),
        unique_keys(entry_views(final(entries)@)),
{
    let ghost kv = key@;
    let ghost vv = value@;
    let n = entries.len();
    let mut i: usize = 0;
    while i < n
        invariant
            0 <= i <= n,
            entries@ == old(entries)@,
            n == entries@.len(),
            kv == key@,
            vv == value@,
            unique_keys(entry_views(entries@)),
            forall|k: int| 0 <= k < i ==> (#[trigger] entries@[k]).0@ != kv,
        decreases n - i,
    {
        proof {
            lemma_entry_views_props(entries@);
        }
        if str_eq(entries[i].0.as_str(), key.as_str()) {
            let ghost s0 = entries@;
            let ghost ev0 = entry_views(s0);
            let slot = entries.as_mut_slice();
            slot[i] = (key, value);
            proof {
                lemma_entry_views_props(s0);
                lemma_entry_views_props(entries@);
                assert(entries@.len() == s0.len());
                assert(entries@[i as int].0@ == kv && node_view(entries@[i as int].1) == vv);
                assert(forall|k: int|
                    0 <= k < s0.len() && k != i ==> entries@[k] == #[trigger] s0[k]);
                assert forall|k: int| 0 <= k < ev0.len() implies entry_views(entries@)[k]
                    == ev0.update(i as int, (kv, vv))[k] by {
                    if k != i {
                        assert(entries@[k] == s0[k]);
                    }
                }
                assert(entry_views(entries@) =~= ev0.update(i as int, (kv, vv)));
                assert(ev0[i as int].0 == kv);
                assert forall|j: int| i < j < ev0.len() implies (#[trigger] ev0[j]).0 != kv by {
                    assert(ev0[i as int].0 != ev0[j].0);
                }
                lemma_pairs_to_map_replace(ev0, i as int, (kv, vv));
                assert(entry_views(s0).push((kv, vv)) == entry_views(old(entries)@).push(
                    (key@, value@),
                ));
                assert(unique_keys(entry_views(entries@))) by {
                    assert forall|i1: int, j1: int|
                        #![trigger entry_views(entries@)[i1], entry_views(entries@)[j1]]
                        0 <= i1 < j1 < entry_views(entries@).len() implies entry_views(
                        entries@,
                    )[i1].0 != entry_views(entries@)[j1].0 by {
                        assert(entry_views(entries@)[i1].0 == ev0[i1].0);
                        assert(entry_views(entries@)[j1].0 == ev0[j1].0);
                        assert(ev0[i1].0 != ev0[j1].0);
                    }
                }
            }
            return ;
        }
        i = i + 1;
    }
    let ghost s0 = entries@;
    entries.push((key, value));
    proof {
        lemma_entry_views_push(s0, entries@.last());
        lemma_entry_views_props(s0);
        lemma_entry_views_props(entries@);
        let ev = entry_views(entries@);
        assert(ev == entry_views(s0).push((kv, vv)));
        assert forall|i1: int, j1: int|
            #![trigger ev[i1], ev[j1]]
            0 <= i1 < j1 < ev.len() implies ev[i1].0 != ev[j1].0 by {
            if j1 < ev.len() - 1 {
                assert(ev[i1] == entry_views(s0)[i1]);
                assert(ev[j1] == entry_views(s0)[j1]);
            } else {
                assert(ev[j1] == (kv, vv));
                assert(ev[i1] == entry_views(s0)[i1]);
                assert(entry_views(s0)[i1].0 == s0[i1].0@);
                assert(s0[i1].0@ != kv);
            }
        }
    }
}

/// The kind name a node reports of itself.
pub open spec fn name_of(v: JecsVal) -> Seq<char> {
    match v {
        JecsVal::Any => "Any"@,
        JecsVal::Value(_) => "Value"@,
        JecsVal::Mapping(_) => "Map"@,
        JecsVal::List(_) => "List"@,
    }
}

// ---------------------------------------------------------------------------
// Coercion models.
// ---------------------------------------------------------------------------

/// The boolean a scalar's text stands for, if any.
pub open spec fn bool_of(s: Seq<char>) -> Option<bool> {
    if s == "true"@ || s == "on"@ || s == "yes"@ || s == "y"@ {
        Some(true)
    } else if s == "false"@ || s == "off"@ || s == "no"@ || s == "n"@ {
        Some(false)
    } else {
        None
    }
}

pub open spec fn is_digit(c: char) -> bool {
    '0' as int <= c as int && c as int <= '9' as int
}

pub open spec fn is_upper_hex(c: char) -> bool {
    is_digit(c) || ('A' as int <= c as int && c as int <= 'F' as int)
}

/// Value of one uppercase hexadecimal digit.
pub open spec fn hex_val(c: char) -> int {
    if is_digit(c) {
        c as int - '0' as int
    } else {
        c as int - 'A' as int + 10
    }
}

/// The red, green and blue bytes of a six-digit uppercase hex color.
pub open spec fn color_of(s: Seq<char>) -> Option<(u8, u8, u8)> {
    if s.len() == 6 && (forall|i: int| 0 <= i < 6 ==> is_upper_hex(s[i])) {
        Some(
            (
                (hex_val(s[0]) * 16 + hex_val(s[1])) as u8,
                (hex_val(s[2]) * 16 + hex_val(s[3])) as u8,
                (hex_val(s[4]) * 16 + hex_val(s[5])) as u8,
            ),
        )
    } else {
        None
    }
}

/// Numeric value of an all-digit string, most significant digit first.
pub open spec fn dec_val(s: Seq<char>) -> int
    decreases s.len(),
{
    if s.len() == 0 {
        0
    } else {
        dec_val(s.drop_last()) * 10 + (s.last() as int - '0' as int)
    }
}

pub open spec fn all_digits(s: Seq<char>) -> bool {
    forall|i: int| 0 <= i < s.len() ==> is_digit(s[i])
}

/// The 32-bit unsigned integer a text stands for: an optional leading plus
/// sign, then at least one decimal digit, the value fitting in 32 bits.
pub open spec fn u32_of(s: Seq<char>) -> Option<u32> {
    let d = if s.len() > 0 && s[0] == '+' {
        s.drop_first()
    } else {
        s
    };
    if d.len() > 0 && all_digits(d) && dec_val(d) <= 4294967295 {
        Some(dec_val(d) as u32)
    } else {
        None
    }
}

/// The component number of a text of the shape `C-<unsigned>`.
pub open spec fn addr_of(s: Seq<char>) -> Option<u32> {
    if s.len() >= 2 && s[0] == 'C' && s[1] == '-' {
        u32_of(s.skip(2))
    } else {
        None
    }
}

proof fn lemma_dec_val_nonneg(s: Seq<char>)
    requires
        all_digits(s),
    ensures
        dec_val(s) >= 0,
    decreases s.len(),
{
    if s.len() > 0 {
        assert(all_digits(s.drop_last()));
        lemma_dec_val_nonneg(s.drop_last());
    }
}

/// A digit string's value is at least the value of any of its prefixes.
proof fn lemma_dec_val_prefix(s: Seq<char>, k: int)
    requires
        all_digits(s),
        0 <= k <= s.len(),
    ensures
        dec_val(s.take(k)) <= dec_val(s),
    decreases s.len() - k,
{
    assert(all_digits(s.take(k)));
    if k == s.len() {
        assert(s.take(k) =~= s);
    } else {
        lemma_dec_val_prefix(s, k + 1);
        assert(s.take(k + 1).drop_last() =~= s.take(k));
        assert(all_digits(s.take(k + 1)));
        lemma_dec_val_nonneg(s.take(k));
        assert(dec_val(s.take(k + 1)) == dec_val(s.take(k)) * 10 + (s[k] as int - '0' as int));
        assert(dec_val(s.take(k)) <= dec_val(s.take(k + 1)));
    }
}

// ---------------------------------------------------------------------------
// Executable coercion helpers.
// ---------------------------------------------------------------------------

fn hex_digit(c: char) -> (d: u8)
    requires
        is_upper_hex(c),
    ensures
        d as int == hex_val(c),
        d < 16,
{
    let v = c as u32;
    if v >= 65 {
        (v - 55) as u8
    } else {
        (v - 48) as u8
    }
}

/// Parses a 32-bit unsigned decimal number, with an optional leading plus.
fn parse_u32(s: &str) -> (r: Option<u32>)
    ensures
        r == u32_of(s@),
{
    let n = s.unicode_len();
    let start: usize = if n > 0 && s.get_char(0) == '+' {
        1
    } else {
        0
    };
    let ghost d = if s@.len() > 0 && s@[0] == '+' {
        s@.drop_first()
    } else {
        s@
    };
    proof {
        assert(d.len() == n - start);
        assert(forall|k: int| 0 <= k < d.len() ==> d[k] == s@[k + start]);
    }
    if start >= n {
        return None;
    }
    let mut acc: u64 = 0;
    let mut i: usize = start;
    while i < n
        invariant
            start <= i <= n,
            n == s@.len(),
            d == (if s@.len() > 0 && s@[0] == '+' { s@.drop_first() } else { s@ }),
            (start == 1) == (s@.len() > 0 && s@[0] == '+'),
            d.len() == n - start,
            forall|k: int| 0 <= k < d.len() ==> d[k] == s@[k + start],
            all_digits(d.take(i - start)),
            acc as int == dec_val(d.take(i - start)),
            acc <= 4294967295u64,
        decreases n - i,
    {
        let c = s.get_char(i);
        let v = c as u32;
        proof {
            assert(c == d[i - start]);
            assert(v as int == c as int);
        }
        if v < 48 || v > 57 {
            proof {
                assert(!is_digit(d[i - start]));
                assert(!all_digits(d));
            }
            return None;
        }
        let nv: u64 = acc * 10 + (v - 48) as u64;
        proof {
            assert(d.take(i - start + 1).drop_last() =~= d.take(i - start));
            assert(all_digits(d.take(i - start + 1)));
            assert(dec_val(d.take(i - start + 1)) == nv as int);
        }
        if nv > 4294967295u64 {
            proof {
                assert(u32_of(s@) is None) by {
                    if all_digits(d) {
                        lemma_dec_val_prefix(d, i - start + 1);
                        assert(dec_val(d) > 4294967295);
                    }
                }
            }
            return None;
        }
        acc = nv;
        i = i + 1;
    }
    proof {
        assert(d.take(n - start) =~= d);
    }
    Some(acc as u32)
}

fn wrong_type(expected: &str, got: &JecsType) -> (e: JecsWrongEntryTypeError)
    ensures
        e.expected_type@ == expected@,
        e.encountered_type@ == name_of(got@),
{
    JecsWrongEntryTypeError {
        expected_type: String::from_str(expected),
        encountered_type: String::from_str(got.name()),
    }
}

fn malformed(data_type: &str, value: &str) -> (e: JecsIncompatibleOrMalformedError)
    ensures
        e.data_type@ == data_type@,
        e.value@ == value@,
{
    JecsIncompatibleOrMalformedError {
        data_type: String::from_str(data_type),
        value: String::from_str(value),
    }
}

// ---------------------------------------------------------------------------
// Shape accessors and typed coercions.
// ---------------------------------------------------------------------------

impl JecsType {
    /// The name of this node's kind.
    pub fn name(&self) -> (r: &str)
        ensures
            r@ == name_of(self@),
    {
        match self {
            JecsType::Any() => "Any",
            JecsType::Value(..) => "Value",
            JecsType::Mapping(..) => "Map",
            JecsType::List(..) => "List",
        }
    }

    pub fn is_any(&self) -> (r: bool)
        ensures
            r == (self@ is Any),
    {
        match self {
            JecsType::Any() => true,
            _ => false,
        }
    }

    pub fn is_value(&self) -> (r: bool)
        ensures
            r == (self@ is Value),
    {
        match self {
            JecsType::Value(..) => true,
            _ => false,
        }
    }

    pub fn get_value(&self) -> (r: Option<&str>)
        ensures
            match self {
                JecsType::Value(s) => r matches Some(v) && v@ == s@,
                _ => r is None,
            },
    {
        if let JecsType::Value(value) = self {
            return Some(value.as_str());
        }
        None
    }

    /// An `Any` node satisfies the mapping shape request as well.
    pub fn is_map(&self) -> (r: bool)
        ensures
            r == (self@ is Any || self@ is Mapping),
    {
        match self {
            JecsType::Any() => true,
            JecsType::Mapping(..) => true,
            _ => false,
        }
    }

    pub fn get_map(&self) -> (r: Option<&Vec<(String, JecsType)>>)
        ensures
            match self {
                JecsType::Mapping(entries) => r matches Some(v) && v == entries,
                _ => r is None,
            },
    {
        if let JecsType::Mapping(entries) = self {
            return Some(entries);
        }
        None
    }

    /// An `Any` node satisfies the list shape request as well.
    pub fn is_list(&self) -> (r: bool)
        ensures
            r == (self@ is Any || self@ is List),
    {
        match self {
            JecsType::Any() => true,
            JecsType::List(..) => true,
            _ => false,
        }
    }

    pub fn get_list(&self) -> (r: Option<&Vec<JecsType>>)
        ensures
            match self {
                JecsType::List(items) => r matches Some(v) && v == items,
                _ => r is None,
            },
    {
        if let JecsType::List(items) = self {
            return Some(items);
        }
        None
    }

    /// The node's entries as a mapping. An `Any` node yields zero entries.
    pub fn expect_map(&self) -> (r: Result<&[(String, JecsType)], JecsWrongEntryTypeError>)
        ensures
            match self {
                JecsType::Mapping(entries) => r matches Ok(v) && v@ == entries@,
                JecsType::Any() => r matches Ok(v) && v@.len() == 0,
                _ => r matches Err(e) && e.expected_type@ == "MAP"@ && e.encountered_type@
                    == name_of(self@),
            },
    {
        match self {
            JecsType::Mapping(entries) => Ok(entries.as_slice()),
            JecsType::Any() => Ok(empty_entries()),
            _ => Err(wrong_type("MAP", self)),
        }
    }

    /// The node's items as a list. An `Any` node yields zero items.
    pub fn expect_list(&self) -> (r: Result<&[JecsType], JecsWrongEntryTypeError>)
        ensures
            match self {
                JecsType::List(items) => r matches Ok(v) && v@ == items@,
                JecsType::Any() => r matches Ok(v) && v@.len() == 0,
                _ => r matches Err(e) && e.expected_type@ == "LIST"@ && e.encountered_type@
                    == name_of(self@),
            },
    {
        match self {
            JecsType::List(items) => Ok(items.as_slice()),
            JecsType::Any() => Ok(empty_items()),
            _ => Err(wrong_type("LIST", self)),
        }
    }

    pub fn expect_string(&self) -> (r: Result<&str, JecsWrongEntryTypeError>)
        ensures
            match self {
                JecsType::Value(s) => r matches Ok(v) && v@ == s@,
                _ => r matches Err(e) && e.expected_type@ == "VALUE"@ && e.encountered_type@
                    == name_of(self@),
            },
    {
        match self {
            JecsType::Value(s) => Ok(s.as_str()),
            _ => Err(wrong_type("VALUE", self)),
        }
    }

    /// Reads the scalar's text as a boolean.
    pub fn expect_bool(&self) -> (r: Result<bool, JecsDataError>)
        ensures
            match self@ {
                JecsVal::Value(s) => match bool_of(s) {
                    Some(b) => r matches Ok(v) && v == b,
                    None => r matches Err(JecsDataError::Malformed(e)) && e.data_type@
                        == "boolean"@ && e.value@ == s,
                },
                _ => r matches Err(JecsDataError::WrongType(e)) && e.expected_type@ == "bool"@
                    && e.encountered_type@ == name_of(self@),
            },
    {
        let value = match self {
            JecsType::Value(s) => s.as_str(),
            _ => {
                return Err(JecsDataError::WrongType(wrong_type("bool", self)));
            },
        };
        if str_eq(value, "true") || str_eq(value, "on") || str_eq(value, "yes") || str_eq(
            value,
            "y",
        ) {
            Ok(true)
        } else if str_eq(value, "false") || str_eq(value, "off") || str_eq(value, "no") || str_eq(
            value,
            "n",
        ) {
            Ok(false)
        } else {
            Err(JecsDataError::Malformed(malformed("boolean", value)))
        }
    }

    /// Reads the scalar's text as a six-digit uppercase hex color.
    pub fn expect_color(&self) -> (r: Result<(u8, u8, u8), JecsDataError>)
        ensures
            match self@ {
                JecsVal::Value(s) => match color_of(s) {
                    Some(c) => r matches Ok(v) && v == c,
                    None => r matches Err(JecsDataError::Malformed(e)) && e.data_type@ == "color"@
                        && e.value@ == s,
                },
                _ => r matches Err(JecsDataError::WrongType(e)) && e.expected_type@ == "color"@
                    && e.encountered_type@ == name_of(self@),
            },
    {
        let value = match self {
            JecsType::Value(s) => s.as_str(),
            _ => {
                return Err(JecsDataError::WrongType(wrong_type("color", self)));
            },
        };
        if value.unicode_len() != 6 {
            return Err(JecsDataError::Malformed(malformed("color", value)));
        }
        let mut i: usize = 0;
        while i < 6
            invariant
                self@ == JecsVal::Value(value@),
                value@.len() == 6,
                0 <= i <= 6,
                forall|k: int| 0 <= k < i ==> is_upper_hex(value@[k]),
            decreases 6 - i,
        {
            let c = value.get_char(i);
            let v = c as u32;
            if !(v >= 48 && v <= 57 || v >= 65 && v <= 70) {
                proof {
                    assert(!is_upper_hex(value@[i as int]));
                }
                return Err(JecsDataError::Malformed(malformed("color", value)));
            }
            i = i + 1;
        }
        let red = hex_digit(value.get_char(0)) * 16 + hex_digit(value.get_char(1));
        let green = hex_digit(value.get_char(2)) * 16 + hex_digit(value.get_char(3));
        let blue = hex_digit(value.get_char(4)) * 16 + hex_digit(value.get_char(5));
        Ok((red, green, blue))
    }

    /// Reads the scalar's text as a 32-bit unsigned integer.
    pub fn expect_unsigned(&self) -> (r: Result<u32, JecsDataError>)
        ensures
            match self@ {
                JecsVal::Value(s) => match u32_of(s) {
                    Some(u) => r matches Ok(v) && v == u,
                    None => r matches Err(JecsDataError::Malformed(e)) && e.data_type@
                        == "unsigned"@ && e.value@ == s,
                },
                _ => r matches Err(JecsDataError::WrongType(e)) && e.expected_type@ == "unsigned"@
                    && e.encountered_type@ == name_of(self@),
            },
    {
        let value = match self {
            JecsType::Value(s) => s.as_str(),
            _ => {
                return Err(JecsDataError::WrongType(wrong_type("unsigned", self)));
            },
        };
        match parse_u32(value) {
            Some(u) => Ok(u),
            None => Err(JecsDataError::Malformed(malformed("unsigned", value))),
        }
    }

    /// Reads the scalar's text as a component address: a `C-` prefix, then a
    /// 32-bit unsigned integer. A missing prefix or a malformed number is
    /// reported with the scalar's whole text.
    pub fn expect_component_address(&self) -> (r: Result<u32, JecsDataError>)
        ensures
            match self@ {
                JecsVal::Value(s) => match addr_of(s) {
                    Some(u) => r matches Ok(v) && v == u,
                    None => r matches Err(JecsDataError::Malformed(e)) && e.data_type@
                        == "component address"@ && e.value@ == s,
                },
                _ => r matches Err(JecsDataError::WrongType(e)) && e.expected_type@
                    == "component address"@ && e.encountered_type@ == name_of(self@),
            },
    {
        let value = match self {
            JecsType::Value(s) => s.as_str(),
            _ => {
                return Err(JecsDataError::WrongType(wrong_type("component address", self)));
            },
        };
        let n = value.unicode_len();
        if !(n >= 2 && value.get_char(0) == 'C' && value.get_char(1) == '-') {
            return Err(JecsDataError::Malformed(malformed("component address", value)));
        }
        let rest = value.substring_char(2, n);
        match parse_u32(rest) {
            Some(u) => Ok(u),
            None => Err(JecsDataError::Malformed(malformed("component address", value))),
        }
    }
}

fn empty_entries() -> (r: &'static [(String, JecsType)])
    ensures
        r@.len() == 0,
{
    &[]
}

fn empty_items() -> (r: &'static [JecsType])
    ensures
        r@.len() == 0,
{
    &[]
}

} // verus!
