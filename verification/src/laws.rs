use vstd::prelude::*;

use crate::builder::{
    build_all, build_step, drain, empty_bstate, fin_entries, fin_node, new_bnode, parse_result,
    pop_walk, seed_root, state_ok, BState,
};
use crate::scanner::{
    key_split, scan_line_basic, scan_record, shape_kind, triple_quote, value_chars, BasicScan,
    JecsTypeInner, LineRec,
};
use crate::text::{first_non_space, line_seqs, next_break, trim_end_spaces};
use crate::types::JecsVal;

verus! {

broadcast use vstd::std_specs::vec::group_vec_axioms, vstd::seq::group_seq_axioms;

/// Parsing is deterministic: two texts of identical characters always
/// produce structurally identical results. Together with the contract of
/// `parse_jecs_string`, whose outcome equals `parse_result` of its input,
/// two calls on equal input therefore return equal trees or equal errors.
pub proof fn lemma_parse_deterministic(a: Seq<char>, b: Seq<char>)
    requires
        a == b,
    ensures
        parse_result(a) == parse_result(b),
{
}

/// Root entries without a key are always rejected: a record without a key is
/// never accepted as a root, whatever the builder's state.
pub proof fn lemma_root_needs_key(st: BState, rec: LineRec)
    requires
        rec.key is None,
    ensures
        seed_root(st, rec) is Err,
{
}

/// A dedent to a level that is neither the root level nor any open
/// ancestor's recorded child indentation is always rejected.
pub proof fn lemma_dedent_mismatch_rejected(st: BState, rec: LineRec)
    requires
        st.stack.len() > 0,
        rec.indentation < st.stack.last().rec.indentation,
        rec.indentation != 0,
        forall|i: int|
            0 <= i < st.stack.len() ==> (#[trigger] st.stack[i]).expected_child_indentation
                != rec.indentation,
    ensures
        build_step(st, rec) is Err,
{
    lemma_pop_walk_mismatch(st, rec);
}

proof fn lemma_pop_walk_mismatch(st: BState, rec: LineRec)
    requires
        st.stack.len() > 0,
        rec.indentation != 0,
        forall|i: int|
            0 <= i < st.stack.len() ==> (#[trigger] st.stack[i]).expected_child_indentation
                != rec.indentation,
    ensures
        pop_walk(st, rec) is Err,
    decreases st.stack.len(),
{
    let rest = st.stack.drop_last();
    if rest.len() > 0 {
        let parent = rest.last();
        assert(parent == st.stack[st.stack.len() - 2]);
        assert(parent.expected_child_indentation != rec.indentation);
        if rec.indentation < parent.expected_child_indentation {
            let prev = st.stack.last();
            let parent2 = crate::builder::BNode {
                children: parent.children.push(prev),
                ..parent
            };
            let st2 = BState {
                stack: rest.update(rest.len() - 1, parent2),
                roots: st.roots,
            };
            assert forall|i: int|
                0 <= i < st2.stack.len() implies (#[trigger] st2.stack[
                i
            ]).expected_child_indentation != rec.indentation by {
                if i < st2.stack.len() - 1 {
                    assert(st2.stack[i] == st.stack[i]);
                } else {
                    assert(st2.stack[i] == parent2);
                }
            }
            lemma_pop_walk_mismatch(st2, rec);
        }
    }
}

/// Mixing a list entry and a keyed entry as direct siblings under one parent
/// is always rejected: a record at the open node's indentation whose shape
/// differs from that node's is refused.
pub proof fn lemma_sibling_mixing_rejected(st: BState, rec: LineRec)
    requires
        state_ok(st),
        st.stack.len() >= 2,
        rec.indentation == st.stack.last().rec.indentation,
        (rec.key is None) != (st.stack.last().rec.key is None),
    ensures
        build_step(st, rec) is Err,
{
    let parent = st.stack.drop_last().last();
    assert(parent == st.stack[st.stack.len() - 2]);
    assert(st.stack[st.stack.len() - 2 + 1] == st.stack.last());
    assert(parent.kind == JecsTypeInner::Mapping <==> st.stack.last().rec.key is Some);
    assert(parent.kind == JecsTypeInner::Mapping || parent.kind == JecsTypeInner::List);
    assert(parent.kind != shape_kind(rec));
}

proof fn lemma_key_split_clean(l: Seq<char>, p: int, k: Seq<char>)
    requires
        0 <= p,
        p + k.len() < l.len(),
        l[p + k.len()] == ':',
        forall|i: int| 0 <= i < k.len() ==> l[p + i] == k[i] && k[i] != ':' && k[i] != '#',
    ensures
        key_split(l, p) == Ok::<_, bool>((k, p + k.len() + 1)),
    decreases k.len(),
{
    if k.len() == 0 {
        assert(l[p] == ':');
        assert(key_split(l, p) == Ok::<_, bool>((Seq::<char>::empty(), p + 1)));
        assert(k =~= Seq::<char>::empty());
    } else {
        assert(l[p] == k[0]);
        let kd = k.drop_first();
        assert forall|i: int| 0 <= i < kd.len() implies l[p + 1 + i] == kd[i] && kd[i] != ':'
            && kd[i] != '#' by {
            assert(kd[i] == k[i + 1]);
            assert(l[p + 1 + i] == k[i + 1]);
        }
        lemma_key_split_clean(l, p + 1, kd);
        assert(key_split(l, p) == Ok::<_, bool>((seq![l[p]] + kd, p + k.len() + 1)));
        assert(seq![l[p]] + kd =~= k);
    }
}

proof fn lemma_value_chars_clean(l: Seq<char>, p: int)
    requires
        0 <= p <= l.len(),
        forall|i: int| p <= i < l.len() ==> l[i] != '#',
    ensures
        value_chars(l, p) == l.skip(p),
    decreases l.len() - p,
{
    if p >= l.len() {
        assert(value_chars(l, p) =~= l.skip(p));
    } else {
        lemma_value_chars_clean(l, p + 1);
        assert(value_chars(l, p) == seq![l[p]] + l.skip(p + 1));
        assert(value_chars(l, p) =~= l.skip(p));
    }
}

proof fn lemma_no_break(l: Seq<char>, p: int)
    requires
        0 <= p <= l.len(),
        forall|i: int| 0 <= i < l.len() ==> l[i] != '\n',
    ensures
        next_break(l, p) == l.len(),
    decreases l.len() - p,
{
    if p < l.len() {
        lemma_no_break(l, p + 1);
    }
}

/// Round-trip shape: a root-level `key: value` line parses to a mapping that
/// binds exactly that key to exactly that scalar. The key may not hold the
/// delimiter or comment characters, may not begin like an indentation, a
/// list entry or a comment, and neither key nor value may carry line breaks
/// or trailing spaces; the value must not be the multi-line opener token.
pub proof fn lemma_round_trip_shape(k: Seq<char>, v: Seq<char>)
    requires
        k.len() > 0,
        k[0] != ' ',
        k[0] != '-',
        k.last() != ' ',
        forall|i: int|
            0 <= i < k.len() ==> k[i] != ':' && k[i] != '#' && k[i] != '\n' && k[i] != '\r',
        v.len() > 0,
        v[0] != ' ',
        v.last() != ' ',
        forall|i: int| 0 <= i < v.len() ==> v[i] != '#' && v[i] != '\n' && v[i] != '\r',
        v != triple_quote(),
    ensures
        parse_result(k + ": "@ + v) == Ok::<JecsVal, crate::errors::CorruptSpec>(
            JecsVal::Mapping(Map::<Seq<char>, JecsVal>::empty().insert(k, JecsVal::Value(v))),
        ),
{
    reveal_strlit(": ");
    let text = k + ": "@ + v;
    let kl = k.len() as int;
    assert(text.len() == kl + 2 + v.len());
    assert forall|i: int| 0 <= i < kl implies text[i] == k[i] by {}
    assert(text[kl] == ':');
    assert(text[kl + 1] == ' ');
    assert forall|j: int| 0 <= j < v.len() implies text[kl + 2 + j] == v[j] by {}
    // One line only.
    assert forall|i: int| 0 <= i < text.len() implies text[i] != '\n' by {
        if i < kl {
        } else if i < kl + 2 {
        } else {
            assert(text[i] == v[i - kl - 2]);
        }
    }
    lemma_no_break(text, 0);
    assert(text.last() == v.last());
    assert(text.subrange(0, text.len() as int) =~= text);
    assert(line_seqs(text) =~= seq![text]);
    let lines = seq![text];
    // Scanning the single line.
    assert(first_non_space(text, 0) == 0);
    lemma_key_split_clean(text, 0, k);
    assert(trim_end_spaces(k) == k);
    assert(text[kl + 2] == v[0]);
    assert(first_non_space(text, kl + 2) == kl + 2);
    assert(first_non_space(text, kl + 1) == kl + 2);
    assert forall|i: int| kl + 2 <= i < text.len() implies text[i] != '#' by {
        assert(text[i] == v[i - kl - 2]);
    }
    lemma_value_chars_clean(text, kl + 2);
    assert(text.skip(kl + 2) =~= v);
    assert(trim_end_spaces(v) == v);
    assert(scan_line_basic(text, 1) == BasicScan::Rec(Some(k), 0, Some(v)));
    let rec = LineRec { row: 1, indentation: 0, key: Some(k), value: Some(v) };
    assert(lines[0] == text);
    assert(scan_record(lines, 0) == Ok::<(Option<LineRec>, int), crate::errors::CorruptSpec>(
        (Some(rec), 1),
    ));
    // Building and draining.
    let node = new_bnode(rec);
    let st1 = BState { stack: empty_bstate().stack.push(node), roots: empty_bstate().roots };
    assert(seed_root(empty_bstate(), rec) == Ok::<_, crate::errors::CorruptSpec>(st1));
    let st2 = BState { stack: st1.stack.drop_last(), roots: st1.roots.push(node) };
    assert(st1.stack.drop_last() =~= Seq::<crate::builder::BNode>::empty());
    assert(drain(st1) == drain(st2));
    assert(drain(st2) == st2.roots);
    assert(build_all(lines, 1, st1) == Ok::<_, crate::errors::CorruptSpec>(st2.roots));
    assert(build_all(lines, 0, empty_bstate()) == Ok::<_, crate::errors::CorruptSpec>(st2.roots));
    // Finalizing.
    assert(fin_node(node) == JecsVal::Value(v));
    assert(st2.roots[0] == node);
    assert(st2.roots.drop_first() =~= Seq::<crate::builder::BNode>::empty());
    assert(fin_entries(st2.roots) == seq![(k, JecsVal::Value(v))] + fin_entries(
        st2.roots.drop_first(),
    ));
    let entries = seq![(k, JecsVal::Value(v))];
    assert(fin_entries(st2.roots) =~= entries);
    assert(entries.drop_last() =~= Seq::<(Seq<char>, JecsVal)>::empty());
    assert(crate::types::pairs_to_map(Seq::<(Seq<char>, JecsVal)>::empty()) == Map::<
        Seq<char>,
        JecsVal,
    >::empty());
    assert(entries.last() == (k, JecsVal::Value(v)));
    assert(crate::types::pairs_to_map(entries) == Map::<Seq<char>, JecsVal>::empty().insert(
        k,
        JecsVal::Value(v),
    ));
}

/// A node that carries a scalar value never gains a child: a deeper-indented
/// record under it is always rejected. (A key-only node that has gained a
/// child carries no value by construction, so the two are exclusive.)
pub proof fn lemma_value_node_rejects_children(st: BState, rec: LineRec)
    requires
        state_ok(st),
        st.stack.len() > 0,
        rec.indentation > st.stack.last().rec.indentation,
        st.stack.last().rec.value is Some,
    ensures
        build_step(st, rec) is Err,
{
    assert(crate::builder::wf_node(st.stack.last()));
    assert(st.stack.last().kind == JecsTypeInner::Value);
}

} // verus!
