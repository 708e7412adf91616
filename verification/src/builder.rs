use vstd::prelude::*;

use crate::errors::{CorruptSpec, JecsCorruptedDataError};
use crate::scanner::{shape_kind, scan_record, JecsTypeInner, LineMeta, LineRec};
use crate::text::{chars_to_string, dec_rep, fmt_usize};
use crate::types::{pairs_to_map, JecsType, JecsVal};

verus! {

broadcast use vstd::std_specs::vec::group_vec_axioms, vstd::seq::group_seq_axioms;

// ---------------------------------------------------------------------------
// The builder's model: a stack machine over line records.
// ---------------------------------------------------------------------------

/// Spec-level form of a node under construction.
pub struct BNode {
    pub rec: LineRec,
    pub children: Seq<BNode>,
    /// The indentation this node's children must share; meaningful once the
    /// first child fixed the node's kind.
    pub expected_child_indentation: int,
    pub kind: JecsTypeInner,
}

/// Spec-level builder state: the ancestor stack (outermost first) and the
/// completed root nodes.
pub struct BState {
    pub stack: Seq<BNode>,
    pub roots: Seq<BNode>,
}

pub open spec fn empty_bstate() -> BState {
    BState { stack: Seq::empty(), roots: Seq::empty() }
}

/// A fresh node for a record: a record with a value is a scalar, one without
/// has its kind still open.
pub open spec fn new_bnode(rec: LineRec) -> BNode {
    BNode {
        rec,
        children: Seq::empty(),
        expected_child_indentation: 0,
        kind: if rec.value is None {
            JecsTypeInner::Any
        } else {
            JecsTypeInner::Value
        },
    }
}

/// Seeds the stack with a root entry, which must sit at indentation zero and
/// carry a key.
pub open spec fn seed_root(st: BState, rec: LineRec) -> Result<BState, CorruptSpec> {
    if rec.indentation != 0 {
        Err(
            CorruptSpec {
                row: rec.row,
                description: "Root level entries need indentation level 0, but got "@ + dec_rep(
                    rec.indentation,
                ),
            },
        )
    } else if rec.key is None {
        Err(
            CorruptSpec {
                row: rec.row,
                description: "Root level entries need a key, they may not be list entries"@,
            },
        )
    } else {
        Ok(BState { stack: st.stack.push(new_bnode(rec)), roots: st.roots })
    }
}

/// A record indented deeper than the open node becomes its first child and
/// fixes the node's kind.
pub open spec fn step_child(st: BState, rec: LineRec) -> Result<BState, CorruptSpec> {
    let top = st.stack.last();
    if top.kind != JecsTypeInner::Any {
        Err(
            CorruptSpec {
                row: rec.row,
                description: "Child entries can only be added to entries without value"@,
            },
        )
    } else {
        let top2 = BNode {
            kind: shape_kind(rec),
            expected_child_indentation: rec.indentation,
            ..top
        };
        Ok(
            BState {
                stack: st.stack.update(st.stack.len() - 1, top2).push(new_bnode(rec)),
                roots: st.roots,
            },
        )
    }
}

/// A record at the open node's own indentation closes that node into its
/// parent (or the roots) and takes its place.
pub open spec fn step_sibling(st: BState, rec: LineRec) -> Result<BState, CorruptSpec> {
    let prev = st.stack.last();
    let rest = st.stack.drop_last();
    if rest.len() == 0 {
        seed_root(BState { stack: rest, roots: st.roots.push(prev) }, rec)
    } else {
        let parent = rest.last();
        if parent.kind != shape_kind(rec) {
            Err(
                CorruptSpec {
                    row: rec.row,
                    description: "Cannot mix list and dict collection entries with the same parent"@,
                },
            )
        } else {
            let parent2 = BNode { children: parent.children.push(prev), ..parent };
            Ok(
                BState {
                    stack: rest.update(rest.len() - 1, parent2).push(new_bnode(rec)),
                    roots: st.roots,
                },
            )
        }
    }
}

/// A record indented less than the open node closes nodes until an ancestor
/// whose recorded child indentation matches exactly.
pub open spec fn pop_walk(st: BState, rec: LineRec) -> Result<BState, CorruptSpec>
    decreases st.stack.len(),
{
    if st.stack.len() == 0 {
        // Unreachable: the walk starts from a non-empty stack and stops when
        // one entry is left.
        Err(CorruptSpec { row: rec.row, description: Seq::empty() })
    } else {
        let prev = st.stack.last();
        let rest = st.stack.drop_last();
        if rest.len() == 0 {
            seed_root(BState { stack: rest, roots: st.roots.push(prev) }, rec)
        } else {
            let parent = rest.last();
            let parent2 = BNode { children: parent.children.push(prev), ..parent };
            let st2 = BState { stack: rest.update(rest.len() - 1, parent2), roots: st.roots };
            if rec.indentation > parent2.expected_child_indentation {
                Err(
                    CorruptSpec {
                        row: rec.row,
                        description: "Wrongly indented JECS entry! Expected indentation "@
                            + dec_rep(parent2.expected_child_indentation) + " but got "@ + dec_rep(
                            rec.indentation,
                        ),
                    },
                )
            } else if rec.indentation == parent2.expected_child_indentation {
                if parent2.kind != shape_kind(rec) {
                    Err(
                        CorruptSpec {
                            row: rec.row,
                            description:
                                "Cannot mix list and dict collection entries within the same parent"@,
                        },
                    )
                } else {
                    Ok(BState { stack: st2.stack.push(new_bnode(rec)), roots: st2.roots })
                }
            } else {
                pop_walk(st2, rec)
            }
        }
    }
}

/// One record appended to a non-empty builder state.
pub open spec fn build_step(st: BState, rec: LineRec) -> Result<BState, CorruptSpec> {
    let top = st.stack.last();
    if rec.indentation > top.rec.indentation {
        step_child(st, rec)
    } else if rec.indentation == top.rec.indentation {
        step_sibling(st, rec)
    } else {
        pop_walk(st, rec)
    }
}

/// At end of input, every open node closes into its parent or the roots.
pub open spec fn drain(st: BState) -> Seq<BNode>
    decreases st.stack.len(),
{
    if st.stack.len() == 0 {
        st.roots
    } else {
        let prev = st.stack.last();
        let rest = st.stack.drop_last();
        if rest.len() == 0 {
            drain(BState { stack: rest, roots: st.roots.push(prev) })
        } else {
            let parent = rest.last();
            let parent2 = BNode { children: parent.children.push(prev), ..parent };
            drain(BState { stack: rest.update(rest.len() - 1, parent2), roots: st.roots })
        }
    }
}

/// Runs the whole build from line `i` on: scans each record and feeds it to
/// the stack machine, then drains.
pub open spec fn build_all(lines: Seq<Seq<char>>, i: int, st: BState) -> Result<
    Seq<BNode>,
    CorruptSpec,
>
    decreases lines.len() - i when 0 <= i via build_all_decreases
{
    if i >= lines.len() {
        Ok(drain(st))
    } else {
        match scan_record(lines, i) {
            Err(e) => Err(e),
            Ok((orec, ni)) => {
                match orec {
                    None => build_all(lines, ni, st),
                    Some(rec) => {
                        let stepped = if st.stack.len() == 0 {
                            seed_root(st, rec)
                        } else {
                            build_step(st, rec)
                        };
                        match stepped {
                            Err(e) => Err(e),
                            Ok(st2) => build_all(lines, ni, st2),
                        }
                    },
                }
            },
        }
    }
}

#[via_fn]
proof fn build_all_decreases(lines: Seq<Seq<char>>, i: int, st: BState) {
    if 0 <= i < lines.len() {
        crate::scanner::lemma_scan_record_advances(lines, i);
    }
}

// ---------------------------------------------------------------------------
// Finalizing: built nodes become public values.
// ---------------------------------------------------------------------------

/// The public value a built node stands for.
pub open spec fn fin_node(n: BNode) -> JecsVal
    decreases n,
{
    match n.kind {
        JecsTypeInner::Any => JecsVal::Any,
        JecsTypeInner::Value => JecsVal::Value(n.rec.value.unwrap()),
        JecsTypeInner::Mapping => JecsVal::Mapping(pairs_to_map(fin_entries(n.children))),
        JecsTypeInner::List => JecsVal::List(fin_nodes(n.children)),
    }
}

pub open spec fn fin_nodes(s: Seq<BNode>) -> Seq<JecsVal>
    decreases s,
{
    if s.len() == 0 {
        Seq::empty()
    } else {
        seq![fin_node(s[0])] + fin_nodes(s.drop_first())
    }
}

pub open spec fn fin_entries(s: Seq<BNode>) -> Seq<(Seq<char>, JecsVal)>
    decreases s,
{
    if s.len() == 0 {
        Seq::empty()
    } else {
        seq![(s[0].rec.key.unwrap(), fin_node(s[0]))] + fin_entries(s.drop_first())
    }
}

/// What a whole parse of the given text yields: the roots become the entries
/// of one synthetic top-level mapping.
pub open spec fn parse_result(text: Seq<char>) -> Result<JecsVal, CorruptSpec> {
    match build_all(crate::text::line_seqs(text), 0, empty_bstate()) {
        Ok(roots) => Ok(JecsVal::Mapping(pairs_to_map(fin_entries(roots)))),
        Err(e) => Err(e),
    }
}

// ---------------------------------------------------------------------------
// Well-formedness: what the stack machine guarantees of what it builds.
// ---------------------------------------------------------------------------

/// A built node is sound: scalar nodes hold a value and no other node does,
/// and a mapping's children are keyed while a list's are not.
pub open spec fn wf_node(n: BNode) -> bool
    decreases n,
{
    &&& (n.kind == JecsTypeInner::Value <==> n.rec.value is Some)
    &&& (n.kind == JecsTypeInner::Any || n.kind == JecsTypeInner::Value ==> n.children.len()
        == 0)
    &&& (n.kind == JecsTypeInner::Mapping ==> forall|i: int|
        0 <= i < n.children.len() ==> (#[trigger] n.children[i]).rec.key is Some)
    &&& (n.kind == JecsTypeInner::List ==> forall|i: int|
        0 <= i < n.children.len() ==> (#[trigger] n.children[i]).rec.key is None)
    &&& (forall|i: int| 0 <= i < n.children.len() ==> wf_node(#[trigger] n.children[i]))
}

pub open spec fn stack_ok(stack: Seq<BNode>) -> bool {
    &&& (forall|i: int| 0 <= i < stack.len() ==> wf_node(#[trigger] stack[i]))
    &&& (forall|i: int|
        0 <= i < stack.len() - 1 ==> (#[trigger] stack[i]).kind == JecsTypeInner::Mapping
            || stack[i].kind == JecsTypeInner::List)
    &&& (forall|i: int|
        #![trigger stack[i], stack[i + 1]]
        0 <= i < stack.len() - 1 ==> (stack[i].kind == JecsTypeInner::Mapping <==> stack[
            i + 1
        ].rec.key is Some))
    &&& (stack.len() > 0 ==> stack[0].rec.key is Some)
}

pub open spec fn roots_ok(roots: Seq<BNode>) -> bool {
    forall|i: int|
        0 <= i < roots.len() ==> wf_node(#[trigger] roots[i]) && roots[i].rec.key is Some
}

pub open spec fn state_ok(st: BState) -> bool {
    stack_ok(st.stack) && roots_ok(st.roots)
}

/// Appending a well-formed, properly shaped child keeps a node well-formed.
proof fn lemma_wf_push_child(parent: BNode, child: BNode)
    requires
        wf_node(parent),
        wf_node(child),
        parent.kind == JecsTypeInner::Mapping || parent.kind == JecsTypeInner::List,
        parent.kind == JecsTypeInner::Mapping ==> child.rec.key is Some,
        parent.kind == JecsTypeInner::List ==> child.rec.key is None,
    ensures
        wf_node(BNode { children: parent.children.push(child), ..parent }),
{
    let p2 = BNode { children: parent.children.push(child), ..parent };
    assert(forall|i: int|
        0 <= i < parent.children.len() ==> p2.children[i] == #[trigger] parent.children[i]);
    assert(p2.children[p2.children.len() - 1] == child);
}

proof fn lemma_stack_ok_push(stack: Seq<BNode>, n: BNode)
    requires
        stack_ok(stack),
        wf_node(n),
        stack.len() > 0 ==> (stack.last().kind == JecsTypeInner::Mapping || stack.last().kind
            == JecsTypeInner::List),
        stack.len() > 0 ==> (stack.last().kind == JecsTypeInner::Mapping <==> n.rec.key is Some),
        stack.len() == 0 ==> n.rec.key is Some,
    ensures
        stack_ok(stack.push(n)),
{
    let s2 = stack.push(n);
    assert(forall|i: int| 0 <= i < stack.len() ==> s2[i] == #[trigger] stack[i]);
    assert(s2[s2.len() - 1] == n);
    assert(forall|i: int| 0 <= i < s2.len() ==> wf_node(#[trigger] s2[i]));
    assert forall|i: int| 0 <= i < s2.len() - 1 implies (#[trigger] s2[i]).kind
        == JecsTypeInner::Mapping || s2[i].kind == JecsTypeInner::List by {
        if i < stack.len() - 1 {
            assert(stack[i].kind == JecsTypeInner::Mapping || stack[i].kind
                == JecsTypeInner::List);
        } else {
            assert(s2[i] == stack.last());
        }
    }
    assert forall|i: int| 0 <= i < s2.len() - 1 implies ((#[trigger] s2[i]).kind
        == JecsTypeInner::Mapping <==> s2[i + 1].rec.key is Some) by {
        if i < stack.len() - 1 {
            assert(stack[i].kind == JecsTypeInner::Mapping <==> stack[i + 1].rec.key is Some);
        } else {
            assert(s2[i] == stack.last());
            assert(s2[i + 1] == n);
        }
    }
}

proof fn lemma_stack_ok_update_last(stack: Seq<BNode>, m: BNode)
    requires
        stack_ok(stack),
        stack.len() > 0,
        wf_node(m),
        m.rec.key == stack.last().rec.key,
    ensures
        stack_ok(stack.update(stack.len() - 1, m)),
{
    let s2 = stack.update(stack.len() - 1, m);
    assert(forall|i: int| 0 <= i < stack.len() - 1 ==> s2[i] == #[trigger] stack[i]);
    assert(s2[s2.len() - 1] == m);
    assert(forall|i: int| 0 <= i < s2.len() ==> wf_node(#[trigger] s2[i]));
}

proof fn lemma_stack_ok_prefix(stack: Seq<BNode>)
    requires
        stack_ok(stack),
        stack.len() > 0,
    ensures
        stack_ok(stack.drop_last()),
{
    let s2 = stack.drop_last();
    assert(forall|i: int| 0 <= i < s2.len() ==> s2[i] == #[trigger] stack[i]);
}

proof fn lemma_roots_ok_push(roots: Seq<BNode>, n: BNode)
    requires
        roots_ok(roots),
        wf_node(n),
        n.rec.key is Some,
    ensures
        roots_ok(roots.push(n)),
{
    let r2 = roots.push(n);
    assert(forall|i: int| 0 <= i < roots.len() ==> r2[i] == #[trigger] roots[i]);
    assert(r2[r2.len() - 1] == n);
}

proof fn lemma_seed_root_ok(st: BState, rec: LineRec)
    requires
        state_ok(st),
        st.stack.len() == 0,
    ensures
        seed_root(st, rec) matches Ok(st2) ==> state_ok(st2) && st2.stack.len() == 1,
{
    if rec.indentation == 0 && rec.key is Some {
        lemma_stack_ok_push(st.stack, new_bnode(rec));
    }
}

/// Closing the open node into its parent keeps the state sound; so does the
/// walk as a whole.
proof fn lemma_pop_once(st: BState) -> (st2: BState)
    requires
        state_ok(st),
        st.stack.len() >= 2,
    ensures
        st2.stack == st.stack.drop_last().update(st.stack.len() - 2, BNode {
            children: st.stack[st.stack.len() - 2].children.push(st.stack.last()),
            ..st.stack[st.stack.len() - 2]
        }),
        st2.roots == st.roots,
        state_ok(st2),
        st2.stack.len() == st.stack.len() - 1,
        st2.stack.last().kind == st.stack[st.stack.len() - 2].kind,
        st2.stack.last().rec == st.stack[st.stack.len() - 2].rec,
        st2.stack.last().expected_child_indentation == st.stack[st.stack.len()
            - 2].expected_child_indentation,
        st2.stack.last().kind == JecsTypeInner::Mapping || st2.stack.last().kind
            == JecsTypeInner::List,
{
    let prev = st.stack.last();
    let rest = st.stack.drop_last();
    let parent = rest.last();
    assert(parent == st.stack[st.stack.len() - 2]);
    assert(st.stack[st.stack.len() - 2 + 1] == prev);
    assert(parent.kind == JecsTypeInner::Mapping || parent.kind == JecsTypeInner::List);
    assert(parent.kind == JecsTypeInner::Mapping <==> prev.rec.key is Some);
    lemma_wf_push_child(parent, prev);
    let parent2 = BNode { children: parent.children.push(prev), ..parent };
    lemma_stack_ok_prefix(st.stack);
    lemma_stack_ok_update_last(rest, parent2);
    let st2 = BState { stack: rest.update(rest.len() - 1, parent2), roots: st.roots };
    st2
}

proof fn lemma_pop_walk_ok(st: BState, rec: LineRec)
    requires
        state_ok(st),
        st.stack.len() > 0,
    ensures
        pop_walk(st, rec) matches Ok(st2) ==> state_ok(st2) && st2.stack.len() > 0,
    decreases st.stack.len(),
{
    let prev = st.stack.last();
    let rest = st.stack.drop_last();
    if rest.len() == 0 {
        lemma_roots_ok_push(st.roots, prev);
        let st1 = BState { stack: rest, roots: st.roots.push(prev) };
        lemma_seed_root_ok(st1, rec);
    } else {
        let st2 = lemma_pop_once(st);
        let parent2 = st2.stack.last();
        if rec.indentation > parent2.expected_child_indentation {
        } else if rec.indentation == parent2.expected_child_indentation {
            if parent2.kind == shape_kind(rec) {
                lemma_stack_ok_push(st2.stack, new_bnode(rec));
            }
        } else {
            lemma_pop_walk_ok(st2, rec);
        }
    }
}

proof fn lemma_build_step_ok(st: BState, rec: LineRec)
    requires
        state_ok(st),
        st.stack.len() > 0,
    ensures
        build_step(st, rec) matches Ok(st2) ==> state_ok(st2) && st2.stack.len() > 0,
{
    let top = st.stack.last();
    if rec.indentation > top.rec.indentation {
        if top.kind == JecsTypeInner::Any {
            let top2 = BNode {
                kind: shape_kind(rec),
                expected_child_indentation: rec.indentation,
                ..top
            };
            assert(wf_node(top2)) by {
                assert(top2.children == top.children);
                assert(top2.rec == top.rec);
                assert(top2.kind != JecsTypeInner::Value && top.rec.value is None);
                assert(forall|i: int|
                    0 <= i < top.children.len() ==> wf_node(#[trigger] top.children[i]));
            }
            lemma_stack_ok_update_last(st.stack, top2);
            let s1 = st.stack.update(st.stack.len() - 1, top2);
            lemma_stack_ok_push(s1, new_bnode(rec));
            assert(s1.last() == top2);
        }
    } else if rec.indentation == top.rec.indentation {
        let prev = st.stack.last();
        let rest = st.stack.drop_last();
        if rest.len() == 0 {
            lemma_roots_ok_push(st.roots, prev);
            let st1 = BState { stack: rest, roots: st.roots.push(prev) };
            lemma_seed_root_ok(st1, rec);
        } else {
            let parent = rest.last();
            if parent.kind == shape_kind(rec) {
                let st2 = lemma_pop_once(st);
                lemma_stack_ok_push(st2.stack, new_bnode(rec));
            }
        }
    } else {
        lemma_pop_walk_ok(st, rec);
    }
}

proof fn lemma_drain_ok(st: BState)
    requires
        state_ok(st),
    ensures
        roots_ok(drain(st)),
    decreases st.stack.len(),
{
    if st.stack.len() > 0 {
        let prev = st.stack.last();
        let rest = st.stack.drop_last();
        if rest.len() == 0 {
            lemma_roots_ok_push(st.roots, prev);
            lemma_drain_ok(BState { stack: rest, roots: st.roots.push(prev) });
        } else {
            let st2 = lemma_pop_once(st);
            lemma_drain_ok(st2);
        }
    }
}

// ---------------------------------------------------------------------------
// The executable builder.
// ---------------------------------------------------------------------------

/// A node under construction, owned by the ancestor stack until it is merged
/// into its parent or the roots.
pub struct LineContext {
    pub meta: LineMeta,
    pub children: Vec<LineContext>,
    pub expected_child_indentation: usize,
    pub determined_type: JecsTypeInner,
}

pub open spec fn lc_view(lc: LineContext) -> BNode
    decreases lc,
{
    BNode {
        rec: lc.meta@,
        children: lc_views(lc.children@),
        expected_child_indentation: lc.expected_child_indentation as int,
        kind: lc.determined_type,
    }
}

pub open spec fn lc_views(s: Seq<LineContext>) -> Seq<BNode>
    decreases s,
{
    if s.len() == 0 {
        Seq::empty()
    } else {
        seq![lc_view(s[0])] + lc_views(s.drop_first())
    }
}

impl View for LineContext {
    type V = BNode;

    open spec fn view(&self) -> BNode {
        lc_view(*self)
    }
}

pub proof fn lemma_lc_views_props(s: Seq<LineContext>)
    ensures
        lc_views(s).len() == s.len(),
        forall|i: int| 0 <= i < s.len() ==> lc_views(s)[i] == lc_view(#[trigger] s[i]),
    decreases s,
{
    if s.len() > 0 {
        lemma_lc_views_props(s.drop_first());
        assert forall|i: int| 0 <= i < s.len() implies lc_views(s)[i] == lc_view(
            #[trigger] s[i],
        ) by {
            if i > 0 {
                assert(s.drop_first()[i - 1] == s[i]);
                assert(lc_views(s.drop_first())[i - 1] == lc_view(s.drop_first()[i - 1]));
            }
        }
    }
}

pub proof fn lemma_lc_views_push(s: Seq<LineContext>, x: LineContext)
    ensures
        lc_views(s.push(x)) == lc_views(s).push(lc_view(x)),
    decreases s,
{
    lemma_lc_views_props(s);
    lemma_lc_views_props(s.push(x));
    assert forall|i: int| 0 <= i < lc_views(s.push(x)).len() implies lc_views(s.push(x))[i]
        == lc_views(s).push(lc_view(x))[i] by {
        assert(lc_views(s.push(x))[i] == lc_view(s.push(x)[i]));
        if i < s.len() {
            assert(s.push(x)[i] == s[i]);
            assert(lc_views(s)[i] == lc_view(s[i]));
        } else {
            assert(s.push(x)[i] == x);
        }
    }
    assert(lc_views(s.push(x)) =~= lc_views(s).push(lc_view(x)));
}


/// Replacing the top of the stack, seen through the view.
pub proof fn lemma_lc_views_update_last(s: Seq<LineContext>, x: LineContext)
    requires
        s.len() > 0,
    ensures
        lc_views(s.drop_last().push(x)) == lc_views(s).update(s.len() - 1, lc_view(x)),
{
    lemma_lc_views_push(s.drop_last(), x);
    lemma_lc_views_props(s);
    lemma_lc_views_props(s.drop_last());
    let lhs = lc_views(s.drop_last().push(x));
    let rhs = lc_views(s).update(s.len() - 1, lc_view(x));
    assert forall|i: int| 0 <= i < lhs.len() implies lhs[i] == rhs[i] by {
        if i < s.len() - 1 {
            assert(lhs[i] == lc_views(s.drop_last())[i]);
            assert(s.drop_last()[i] == s[i]);
        }
    }
    assert(lhs =~= rhs);
}

/// Merging the popped top into its parent, seen through the view.
pub proof fn lemma_lc_views_merge_top(s: Seq<LineContext>, x: LineContext)
    requires
        s.len() >= 2,
    ensures
        lc_views(s.drop_last().drop_last().push(x)) == lc_views(s).drop_last().update(
            s.len() - 2,
            lc_view(x),
        ),
{
    lemma_lc_views_push(s.drop_last().drop_last(), x);
    lemma_lc_views_props(s);
    lemma_lc_views_props(s.drop_last());
    lemma_lc_views_props(s.drop_last().drop_last());
    let lhs = lc_views(s.drop_last().drop_last().push(x));
    let rhs = lc_views(s).drop_last().update(s.len() - 2, lc_view(x));
    assert forall|i: int| 0 <= i < lhs.len() implies lhs[i] == rhs[i] by {
        if i < s.len() - 2 {
            assert(lhs[i] == lc_views(s.drop_last().drop_last())[i]);
            assert(s.drop_last().drop_last()[i] == s[i]);
            assert(rhs[i] == lc_views(s)[i]);
        }
    }
    assert(lhs =~= rhs);
}


/// Dropping the last element commutes with taking views.
pub proof fn lemma_lc_views_drop_last(s: Seq<LineContext>)
    requires
        s.len() > 0,
    ensures
        lc_views(s.drop_last()) == lc_views(s).drop_last(),
{
    lemma_lc_views_props(s);
    lemma_lc_views_props(s.drop_last());
    assert forall|i: int| 0 <= i < s.len() - 1 implies lc_views(s.drop_last())[i] == lc_views(
        s,
    ).drop_last()[i] by {
        assert(s.drop_last()[i] == s[i]);
    }
    assert(lc_views(s.drop_last()) =~= lc_views(s).drop_last());
}

/// Dropping the first element commutes with taking views.
pub proof fn lemma_lc_views_drop_first(s: Seq<LineContext>)
    requires
        s.len() > 0,
    ensures
        lc_views(s.drop_first()) == lc_views(s).drop_first(),
{
    lemma_lc_views_props(s);
    lemma_lc_views_props(s.drop_first());
    assert forall|i: int| 0 <= i < s.len() - 1 implies lc_views(s.drop_first())[i] == lc_views(
        s,
    ).drop_first()[i] by {
        assert(s.drop_first()[i] == s[i + 1]);
        assert(lc_views(s).drop_first()[i] == lc_views(s)[i + 1]);
    }
    assert(lc_views(s.drop_first()) =~= lc_views(s).drop_first());
}

/// The stack machine: the live ancestor chain and the completed roots.
pub struct TreeParser {
    pub roots: Vec<LineContext>,
    pub stack: Vec<LineContext>,
}

impl View for TreeParser {
    type V = BState;

    open spec fn view(&self) -> BState {
        BState { stack: lc_views(self.stack@), roots: lc_views(self.roots@) }
    }
}

impl Default for TreeParser {
    fn default() -> (r: Self)
        ensures
            r@ == empty_bstate(),
    {
        Self { roots: Vec::new(), stack: Vec::new() }
    }
}

impl LineContext {
    /// A fresh node: carrying a value makes it a scalar, otherwise its kind
    /// awaits its first child.
    pub fn new(meta: LineMeta) -> (r: Self)
        ensures
            r@ == new_bnode(meta@),
    {
        let r = Self {
            determined_type: if meta.is_parent() {
                JecsTypeInner::Any
            } else {
                JecsTypeInner::Value
            },
            meta,
            children: Vec::new(),
            expected_child_indentation: 0,
        };
        proof {
            assert(lc_views(r.children@) =~= Seq::<BNode>::empty());
        }
        r
    }
}

impl TreeParser {
    /// Accepts a root entry: it must sit at indentation zero and carry a key.
    pub fn add_validate_root(&mut self, line_meta: LineMeta) -> (r: Result<
        (),
        JecsCorruptedDataError,
    >)
        ensures
            match seed_root(old(self)@, line_meta@) {
                Ok(st2) => r is Ok && final(self)@ == st2,
                Err(e) => r matches Err(er) && er@ == e && final(self)@ == old(self)@,
            },
    {
        if line_meta.indentation != 0 {
            let mut description = String::from_str(
                "Root level entries need indentation level 0, but got ",
            );
            description.append(chars_to_string(&fmt_usize(line_meta.indentation)).as_str());
            return Err(JecsCorruptedDataError { row: line_meta.row, description });
        }
        if line_meta.is_list() {
            return Err(
                JecsCorruptedDataError {
                    row: line_meta.row,
                    description: String::from_str(
                        "Root level entries need a key, they may not be list entries",
                    ),
                },
            );
        }
        let ghost s0 = self.stack@;
        self.stack.push(LineContext::new(line_meta));
        proof {
            lemma_lc_views_push(s0, self.stack@.last());
        }
        Ok(())
    }

    /// Feeds the next record to the machine, comparing its indentation with
    /// the open node's.
    pub fn append_next_line(&mut self, current_line_meta: LineMeta) -> (r: Result<
        (),
        JecsCorruptedDataError,
    >)
        requires
            old(self)@.stack.len() > 0,
        ensures
            match build_step(old(self)@, current_line_meta@) {
                Ok(st2) => r is Ok && final(self)@ == st2,
                Err(e) => r matches Err(er) && er@ == e,
            },
    {
        proof {
            lemma_lc_views_props(self.stack@);
        }
        let tidx = self.stack.len() - 1;
        let top_indentation = self.stack[tidx].meta.indentation;
        if current_line_meta.indentation > top_indentation {
            self.handle_new_child_line(current_line_meta)
        } else if current_line_meta.indentation == top_indentation {
            self.handle_new_sibling_line(current_line_meta)
        } else {
            self.handle_new_parents_sibling_line(current_line_meta)
        }
    }

    /// A deeper-indented record becomes the open node's first child and
    /// fixes that node's kind.
    pub fn handle_new_child_line(&mut self, current_line_meta: LineMeta) -> (r: Result<
        (),
        JecsCorruptedDataError,
    >)
        requires
            old(self)@.stack.len() > 0,
        ensures
            match step_child(old(self)@, current_line_meta@) {
                Ok(st2) => r is Ok && final(self)@ == st2,
                Err(e) => r matches Err(er) && er@ == e,
            },
    {
        proof {
            lemma_lc_views_props(self.stack@);
        }
        let tidx = self.stack.len() - 1;
        if !(self.stack[tidx].determined_type == JecsTypeInner::Any) {
            return Err(
                JecsCorruptedDataError {
                    row: current_line_meta.row,
                    description: String::from_str(
                        "Child entries can only be added to entries without value",
                    ),
                },
            );
        }
        let ghost s0 = self.stack@;
        let mut top = match self.stack.pop() {
            Some(t) => t,
            None => {
                proof {
                    assert(false);
                }
                return Ok(());
            },
        };
        top.determined_type = if current_line_meta.is_list() {
            JecsTypeInner::List
        } else {
            JecsTypeInner::Mapping
        };
        top.expected_child_indentation = current_line_meta.indentation;
        self.stack.push(top);
        let ghost s1 = self.stack@;
        self.stack.push(LineContext::new(current_line_meta));
        proof {
            lemma_lc_views_update_last(s0, s1.last());
            lemma_lc_views_push(s1, self.stack@.last());
            lemma_lc_views_props(s0);
        }
        Ok(())
    }

    /// A record at the open node's indentation closes that node into its
    /// parent (or the roots) and takes its place.
    pub fn handle_new_sibling_line(&mut self, current_line_meta: LineMeta) -> (r: Result<
        (),
        JecsCorruptedDataError,
    >)
        requires
            old(self)@.stack.len() > 0,
        ensures
            match step_sibling(old(self)@, current_line_meta@) {
                Ok(st2) => r is Ok && final(self)@ == st2,
                Err(e) => r matches Err(er) && er@ == e,
            },
    {
        proof {
            lemma_lc_views_props(self.stack@);
        }
        let ghost s0 = self.stack@;
        let previous_line = match self.stack.pop() {
            Some(t) => t,
            None => {
                proof {
                    assert(false);
                }
                return Ok(());
            },
        };
        proof {
            assert(lc_view(previous_line) == lc_views(s0).last());
        }
        if self.stack.len() == 0 {
            let ghost r0 = self.roots@;
            self.roots.push(previous_line);
            proof {
                lemma_lc_views_push(r0, self.roots@.last());
                lemma_lc_views_drop_last(s0);
                assert(lc_views(self.stack@) =~= Seq::<BNode>::empty());
                assert(lc_views(s0).drop_last() =~= Seq::<BNode>::empty());
            }
            self.add_validate_root(current_line_meta)
        } else {
            proof {
                lemma_lc_views_props(self.stack@);
                lemma_lc_views_drop_last(s0);
            }
            let pidx = self.stack.len() - 1;
            if !(self.stack[pidx].determined_type == current_line_meta.get_data_type()) {
                return Err(
                    JecsCorruptedDataError {
                        row: current_line_meta.row,
                        description: String::from_str(
                            "Cannot mix list and dict collection entries with the same parent",
                        ),
                    },
                );
            }
            let mut parent = match self.stack.pop() {
                Some(t) => t,
                None => {
                    proof {
                        assert(false);
                    }
                    return Ok(());
                },
            };
            let ghost c0 = parent.children@;
            parent.children.push(previous_line);
            proof {
                lemma_lc_views_push(c0, previous_line);
            }
            self.stack.push(parent);
            let ghost s1 = self.stack@;
            self.stack.push(LineContext::new(current_line_meta));
            proof {
                lemma_lc_views_merge_top(s0, s1.last());
                lemma_lc_views_push(s1, self.stack@.last());
                lemma_lc_views_props(s0);
            }
            Ok(())
        }
    }

    /// A record indented less than the open node: close nodes until an
    /// ancestor whose recorded child indentation matches exactly.
    pub fn handle_new_parents_sibling_line(&mut self, current_line_meta: LineMeta) -> (r: Result<
        (),
        JecsCorruptedDataError,
    >)
        requires
            old(self)@.stack.len() > 0,
        ensures
            match pop_walk(old(self)@, current_line_meta@) {
                Ok(st2) => r is Ok && final(self)@ == st2,
                Err(e) => r matches Err(er) && er@ == e,
            },
    {
        loop
            invariant
                self@.stack.len() > 0,
                pop_walk(self@, current_line_meta@) == pop_walk(old(self)@, current_line_meta@),
            decreases self@.stack.len(),
        {
            proof {
                lemma_lc_views_props(self.stack@);
            }
            let ghost s0 = self.stack@;
            let previous_entry = match self.stack.pop() {
                Some(t) => t,
                None => {
                    proof {
                        assert(false);
                    }
                    return Ok(());
                },
            };
            proof {
                assert(lc_view(previous_entry) == lc_views(s0).last());
            }
            if self.stack.len() == 0 {
                let ghost r0 = self.roots@;
                self.roots.push(previous_entry);
                proof {
                    lemma_lc_views_push(r0, self.roots@.last());
                    lemma_lc_views_drop_last(s0);
                    assert(lc_views(self.stack@) =~= Seq::<BNode>::empty());
                    assert(lc_views(s0).drop_last() =~= Seq::<BNode>::empty());
                }
                return self.add_validate_root(current_line_meta);
            }
            proof {
                lemma_lc_views_props(self.stack@);
                lemma_lc_views_drop_last(s0);
            }
            let mut potential_parent = match self.stack.pop() {
                Some(t) => t,
                None => {
                    proof {
                        assert(false);
                    }
                    return Ok(());
                },
            };
            let ghost c0 = potential_parent.children@;
            potential_parent.children.push(previous_entry);
            proof {
                lemma_lc_views_push(c0, previous_entry);
            }
            self.stack.push(potential_parent);
            let ghost s1 = self.stack@;
            proof {
                lemma_lc_views_merge_top(s0, s1.last());
                lemma_lc_views_props(s0);
                lemma_lc_views_props(s1);
            }
            let pidx = self.stack.len() - 1;
            let expected = self.stack[pidx].expected_child_indentation;
            if current_line_meta.indentation > expected {
                let mut description = String::from_str(
                    "Wrongly indented JECS entry! Expected indentation ",
                );
                description.append(chars_to_string(&fmt_usize(expected)).as_str());
                description.append(" but got ");
                description.append(
                    chars_to_string(&fmt_usize(current_line_meta.indentation)).as_str(),
                );
                return Err(JecsCorruptedDataError { row: current_line_meta.row, description });
            }
            if current_line_meta.indentation == expected {
                if !(self.stack[pidx].determined_type == current_line_meta.get_data_type()) {
                    return Err(
                        JecsCorruptedDataError {
                            row: current_line_meta.row,
                            description: String::from_str(
                                "Cannot mix list and dict collection entries within the same parent",
                            ),
                        },
                    );
                }
                let ghost s2 = self.stack@;
                self.stack.push(LineContext::new(current_line_meta));
                proof {
                    lemma_lc_views_push(s2, self.stack@.last());
                }
                return Ok(());
            }
        }
    }

    /// Closes every still-open node into its parent, the outermost into the
    /// roots.
    pub fn post_line_addition_cleanup(&mut self)
        ensures
            final(self)@.stack.len() == 0,
            final(self)@.roots == drain(old(self)@),
    {
        while self.stack.len() > 0
            invariant
                drain(self@) == drain(old(self)@),
            decreases self@.stack.len(),
        {
            proof {
                lemma_lc_views_props(self.stack@);
            }
            let ghost s0 = self.stack@;
            let entry = match self.stack.pop() {
                Some(t) => t,
                None => {
                    proof {
                        assert(false);
                    }
                    return ;
                },
            };
            proof {
                assert(lc_view(entry) == lc_views(s0).last());
            }
            if self.stack.len() > 0 {
                proof {
                    lemma_lc_views_props(self.stack@);
                    lemma_lc_views_drop_last(s0);
                }
                let mut parent = match self.stack.pop() {
                    Some(t) => t,
                    None => {
                        proof {
                            assert(false);
                        }
                        return ;
                    },
                };
                let ghost c0 = parent.children@;
                parent.children.push(entry);
                proof {
                    lemma_lc_views_push(c0, entry);
                }
                self.stack.push(parent);
                let ghost s1 = self.stack@;
                proof {
                    lemma_lc_views_merge_top(s0, s1.last());
                    lemma_lc_views_props(s0);
                    lemma_lc_views_props(s1);
                }
            } else {
                let ghost r0 = self.roots@;
                self.roots.push(entry);
                proof {
                    lemma_lc_views_push(r0, self.roots@.last());
                    lemma_lc_views_drop_last(s0);
                    assert(lc_views(self.stack@) =~= Seq::<BNode>::empty());
                    assert(lc_views(s0).drop_last() =~= Seq::<BNode>::empty());
                }
            }
        }
        proof {
            assert(lc_views(self.stack@) =~= Seq::<BNode>::empty());
        }
    }
}

// ---------------------------------------------------------------------------
// The finalizer: a work list turns built nodes into public values, so that
// arbitrarily deep nesting cannot exhaust the call stack.
// ---------------------------------------------------------------------------

/// Spec-level form of one conversion frame: a node's key and kind, the
/// children already converted, and the children still to convert.
pub struct FrameSpec {
    pub key: Option<Seq<char>>,
    pub is_map: bool,
    pub done_entries: Seq<(Seq<char>, JecsVal)>,
    pub done_items: Seq<JecsVal>,
    pub todo: Seq<BNode>,
}

/// The value this frame will have produced once its work list is empty.
pub open spec fn frame_val(f: FrameSpec) -> JecsVal {
    if f.is_map {
        JecsVal::Mapping(pairs_to_map(f.done_entries + fin_entries(f.todo)))
    } else {
        JecsVal::List(f.done_items + fin_nodes(f.todo))
    }
}

/// A completed child value handed to its parent frame.
pub open spec fn attach(parent: FrameSpec, key: Option<Seq<char>>, v: JecsVal) -> FrameSpec {
    if parent.is_map {
        FrameSpec { done_entries: parent.done_entries.push((key.unwrap(), v)), ..parent }
    } else {
        FrameSpec { done_items: parent.done_items.push(v), ..parent }
    }
}

/// The value the whole frame stack will produce.
pub open spec fn unwind(stack: Seq<FrameSpec>) -> JecsVal
    decreases stack.len(),
{
    if stack.len() <= 1 {
        frame_val(stack.last())
    } else {
        let child = stack.last();
        let parent = stack[stack.len() - 2];
        unwind(
            stack.drop_last().update(
                stack.len() - 2,
                attach(parent, child.key, frame_val(child)),
            ),
        )
    }
}

/// The number of nodes in a built tree, for termination of the work list.
pub open spec fn size_node(n: BNode) -> nat
    decreases n,
{
    1 + size_nodes(n.children)
}

pub open spec fn size_nodes(s: Seq<BNode>) -> nat
    decreases s,
{
    if s.len() == 0 {
        0
    } else {
        size_node(s[0]) + size_nodes(s.drop_first())
    }
}

pub open spec fn frames_size(s: Seq<FrameSpec>) -> nat
    decreases s.len(),
{
    if s.len() == 0 {
        0
    } else {
        frames_size(s.drop_last()) + size_nodes(s.last().todo)
    }
}

/// One conversion frame.
pub struct Frame {
    pub key: Option<Vec<char>>,
    pub is_map: bool,
    pub done_entries: Vec<(String, JecsType)>,
    pub done_items: Vec<JecsType>,
    pub todo: Vec<LineContext>,
}

pub open spec fn frame_view(f: Frame) -> FrameSpec {
    FrameSpec {
        key: match f.key {
            Some(k) => Some(k@),
            None => None,
        },
        is_map: f.is_map,
        done_entries: crate::types::entry_views(f.done_entries@),
        done_items: crate::types::node_views(f.done_items@),
        todo: lc_views(f.todo@),
    }
}

pub open spec fn frame_views(s: Seq<Frame>) -> Seq<FrameSpec> {
    Seq::new(s.len(), |i: int| frame_view(s[i]))
}

/// A frame whose remaining nodes are sound, and keyed where the frame is a
/// mapping.
pub open spec fn frame_wf(f: FrameSpec) -> bool {
    &&& (forall|i: int|
        0 <= i < f.todo.len() ==> wf_node(#[trigger] f.todo[i]) && (f.is_map ==> f.todo[
            i
        ].rec.key is Some))
    &&& (f.is_map ==> crate::types::unique_keys(f.done_entries))
}

/// Whatever the build machine accepts is well-formed: every root keyed,
/// scalars and collections sound all the way down.
pub proof fn lemma_build_all_ok(lines: Seq<Seq<char>>, i: int, st: BState)
    requires
        0 <= i,
        state_ok(st),
    ensures
        build_all(lines, i, st) matches Ok(roots) ==> roots_ok(roots),
    decreases lines.len() - i,
{
    if i >= lines.len() {
        lemma_drain_ok(st);
    } else {
        crate::scanner::lemma_scan_record_advances(lines, i);
        match scan_record(lines, i) {
            Err(_) => {},
            Ok((orec, ni)) => {
                match orec {
                    None => {
                        lemma_build_all_ok(lines, ni, st);
                    },
                    Some(rec) => {
                        if st.stack.len() == 0 {
                            lemma_seed_root_ok(st, rec);
                            match seed_root(st, rec) {
                                Ok(st2) => {
                                    lemma_build_all_ok(lines, ni, st2);
                                },
                                Err(_) => {},
                            }
                        } else {
                            lemma_build_step_ok(st, rec);
                            match build_step(st, rec) {
                                Ok(st2) => {
                                    lemma_build_all_ok(lines, ni, st2);
                                },
                                Err(_) => {},
                            }
                        }
                    },
                }
            },
        }
    }
}


// ---------------------------------------------------------------------------
// Finalizer lemmas and implementation.
// ---------------------------------------------------------------------------

pub open spec fn opt_chars_view(k: Option<Vec<char>>) -> Option<Seq<char>> {
    match k {
        Some(v) => Some(v@),
        None => None,
    }
}

/// Moving the first remaining node's finished value into the done side
/// leaves the frame's eventual value unchanged.
proof fn lemma_frame_take_child(f: FrameSpec)
    requires
        f.todo.len() > 0,
    ensures
        frame_val(
            attach(
                FrameSpec { todo: f.todo.drop_first(), ..f },
                f.todo[0].rec.key,
                fin_node(f.todo[0]),
            ),
        ) == frame_val(f),
{
    let c = f.todo[0];
    let f2 = FrameSpec { todo: f.todo.drop_first(), ..f };
    if f.is_map {
        assert(fin_entries(f.todo) == seq![(c.rec.key.unwrap(), fin_node(c))] + fin_entries(
            f.todo.drop_first(),
        ));
        assert(f.done_entries + fin_entries(f.todo) =~= f.done_entries.push(
            (c.rec.key.unwrap(), fin_node(c)),
        ) + fin_entries(f.todo.drop_first()));
    } else {
        assert(fin_nodes(f.todo) == seq![fin_node(c)] + fin_nodes(f.todo.drop_first()));
        assert(f.done_items + fin_nodes(f.todo) =~= f.done_items.push(fin_node(c)) + fin_nodes(
            f.todo.drop_first(),
        ));
    }
}

/// Replacing the top frame by one with the same key, kind and eventual value
/// does not change what the stack will produce.
proof fn lemma_unwind_swap_top(s: Seq<FrameSpec>, g: FrameSpec)
    requires
        s.len() >= 1,
        g.key == s.last().key,
        g.is_map == s.last().is_map,
        frame_val(g) == frame_val(s.last()),
    ensures
        unwind(s.update(s.len() - 1, g)) == unwind(s),
{
    let s2 = s.update(s.len() - 1, g);
    assert(s2.last() == g);
    if s.len() >= 2 {
        assert(s2[s.len() - 2] == s[s.len() - 2]);
        assert(s2.drop_last() =~= s.drop_last());
        assert(s2.drop_last().update(
            s2.len() - 2,
            attach(s2[s2.len() - 2], g.key, frame_val(g)),
        ) == s.drop_last().update(
            s.len() - 2,
            attach(s[s.len() - 2], s.last().key, frame_val(s.last())),
        ));
    }
}

proof fn lemma_frames_size_update_last(s: Seq<FrameSpec>, g: FrameSpec)
    requires
        s.len() >= 1,
    ensures
        frames_size(s.update(s.len() - 1, g)) == frames_size(s.drop_last()) + size_nodes(g.todo),
{
    let s2 = s.update(s.len() - 1, g);
    assert(s2.drop_last() =~= s.drop_last());
    assert(s2.last() == g);
}

proof fn lemma_frames_size_push(s: Seq<FrameSpec>, g: FrameSpec)
    ensures
        frames_size(s.push(g)) == frames_size(s) + size_nodes(g.todo),
{
    assert(s.push(g).drop_last() =~= s);
    assert(s.push(g).last() == g);
}

/// Hands a completed child value to its frame.
fn attach_value(parent: &mut Frame, key: Option<Vec<char>>, v: JecsType)
    requires
        old(parent).is_map ==> key is Some,
        old(parent).is_map ==> crate::types::unique_keys(
            crate::types::entry_views(old(parent).done_entries@),
        ),
    ensures
        frame_val(frame_view(*final(parent))) == frame_val(
            attach(frame_view(*old(parent)), opt_chars_view(key), v@),
        ),
        final(parent).key == old(parent).key,
        final(parent).is_map == old(parent).is_map,
        final(parent).todo == old(parent).todo,
        final(parent).is_map ==> crate::types::unique_keys(
            crate::types::entry_views(final(parent).done_entries@),
        ),
{
    if parent.is_map {
        let kv = match key {
            Some(k) => k,
            None => {
                proof {
                    assert(false);
                }
                Vec::new()
            },
        };
        let ghost d0 = parent.done_entries@;
        let text = chars_to_string(&kv);
        crate::types::map_entry_insert(&mut parent.done_entries, text, v);
        proof {
            let a = attach(frame_view(*old(parent)), opt_chars_view(key), v@);
            assert(a.done_entries == crate::types::entry_views(d0).push((kv@, v@)));
            crate::types::lemma_pairs_to_map_prefix_congruent(
                crate::types::entry_views(parent.done_entries@),
                a.done_entries,
                fin_entries(lc_views(parent.todo@)),
            );
        }
    } else {
        let ghost d0 = parent.done_items@;
        parent.done_items.push(v);
        proof {
            crate::types::lemma_node_views_push(d0, parent.done_items@.last());
        }
    }
}

impl TreeParser {
    /// Converts the built forest, depth-first over an explicit work list,
    /// into one public mapping whose entries are the roots keyed by their own
    /// keys.
    pub fn finalize_to_map(self) -> (r: Result<JecsType, JecsCorruptedDataError>)
        requires
            self@.stack.len() == 0,
            roots_ok(self@.roots),
        ensures
            r matches Ok(v) && v@ == JecsVal::Mapping(pairs_to_map(fin_entries(self@.roots))),
    {
        let ghost target = JecsVal::Mapping(pairs_to_map(fin_entries(lc_views(self.roots@))));
        let mut stack: Vec<Frame> = Vec::new();
        stack.push(
            Frame {
                key: None,
                is_map: true,
                done_entries: Vec::new(),
                done_items: Vec::new(),
                todo: self.roots,
            },
        );
        proof {
            let f0 = frame_views(stack@)[0];
            assert(f0.done_entries =~= Seq::<(Seq<char>, JecsVal)>::empty());
            assert(f0.done_entries + fin_entries(f0.todo) =~= fin_entries(f0.todo));
            assert(unwind(frame_views(stack@)) == target);
            lemma_lc_views_props(self.roots@);
            assert(frame_wf(f0));
        }
        loop
            invariant
                stack@.len() >= 1,
                target == JecsVal::Mapping(pairs_to_map(fin_entries(self@.roots))),
                unwind(frame_views(stack@)) == target,
                frame_views(stack@)[0].is_map,
                forall|i: int|
                    0 <= i < stack@.len() ==> frame_wf(#[trigger] frame_views(stack@)[i]),
                forall|i: int|
                    #![trigger frame_views(stack@)[i], frame_views(stack@)[i + 1]]
                    0 <= i < stack@.len() - 1 ==> (frame_views(stack@)[i].is_map ==> frame_views(
                        stack@,
                    )[i + 1].key is Some),
            decreases frames_size(frame_views(stack@)), stack@.len(),
        {
            let ghost sv = frame_views(stack@);
            let n = stack.len();
            let mut top = match stack.pop() {
                Some(t) => t,
                None => {
                    proof {
                        assert(false);
                    }
                    return Err(
                        JecsCorruptedDataError { row: 0, description: String::new() },
                    );
                },
            };
            let ghost f = frame_view(top);
            proof {
                assert(f == sv.last());
                assert(frame_wf(f));
            }
            if top.todo.len() > 0 {
                let ghost t0 = top.todo@;
                let child = top.todo.remove(0);
                proof {
                    assert(top.todo@ =~= t0.drop_first());
                    lemma_lc_views_props(t0);
                    lemma_lc_views_drop_first(t0);
                    assert(lc_view(child) == f.todo[0]);
                    assert(lc_views(top.todo@) == f.todo.drop_first());
                    assert(frame_view(top) == FrameSpec { todo: f.todo.drop_first(), ..f });
                    assert(wf_node(f.todo[0]));
                    assert(frames_size(sv) == frames_size(sv.drop_last()) + size_nodes(f.todo));
                    assert(size_nodes(f.todo) == size_node(f.todo[0]) + size_nodes(
                        f.todo.drop_first(),
                    ));
                    assert(size_node(f.todo[0]) >= 1);
                }
                let ghost c = lc_view(child);
                match child.determined_type {
                    JecsTypeInner::Any => {
                        proof {
                            assert(fin_node(c) == JecsVal::Any);
                        }
                        attach_value(&mut top, child.meta.key, JecsType::Any());
                        proof {
                            lemma_frame_take_child(f);
                            lemma_unwind_swap_top(sv, frame_view(top));
                            assert(frame_views(stack@.push(top)) =~= sv.update(
                                sv.len() - 1,
                                frame_view(top),
                            ));
                            lemma_frames_size_update_last(sv, frame_view(top));
                        }
                        stack.push(top);
                    },
                    JecsTypeInner::Value => {
                        let text = match child.meta.value {
                            Some(v) => chars_to_string(&v),
                            None => {
                                proof {
                                    assert(false);
                                }
                                String::new()
                            },
                        };
                        proof {
                            assert(fin_node(c) == JecsVal::Value(text@));
                        }
                        attach_value(&mut top, child.meta.key, JecsType::Value(text));
                        proof {
                            lemma_frame_take_child(f);
                            lemma_unwind_swap_top(sv, frame_view(top));
                            assert(frame_views(stack@.push(top)) =~= sv.update(
                                sv.len() - 1,
                                frame_view(top),
                            ));
                            lemma_frames_size_update_last(sv, frame_view(top));
                        }
                        stack.push(top);
                    },
                    JecsTypeInner::Mapping => {
                        let sub = Frame {
                            key: child.meta.key,
                            is_map: true,
                            done_entries: Vec::new(),
                            done_items: Vec::new(),
                            todo: child.children,
                        };
                        proof {
                            lemma_open_sub_frame(sv, frame_view(sub));
                        }
                        stack.push(top);
                        proof {
                            assert(frame_views(stack@) =~= sv.update(sv.len() - 1, frame_view(
                                stack@.last(),
                            )));
                        }
                        let ghost mid = frame_views(stack@);
                        stack.push(sub);
                        proof {
                            assert(frame_views(stack@) =~= mid.push(frame_view(stack@.last())));
                        }
                    },
                    JecsTypeInner::List => {
                        let sub = Frame {
                            key: child.meta.key,
                            is_map: false,
                            done_entries: Vec::new(),
                            done_items: Vec::new(),
                            todo: child.children,
                        };
                        proof {
                            lemma_open_sub_frame(sv, frame_view(sub));
                        }
                        stack.push(top);
                        proof {
                            assert(frame_views(stack@) =~= sv.update(sv.len() - 1, frame_view(
                                stack@.last(),
                            )));
                        }
                        let ghost mid = frame_views(stack@);
                        stack.push(sub);
                        proof {
                            assert(frame_views(stack@) =~= mid.push(frame_view(stack@.last())));
                        }
                    },
                }
            } else {
                let v = if top.is_map {
                    JecsType::Mapping(top.done_entries)
                } else {
                    JecsType::List(top.done_items)
                };
                proof {
                    assert(f.todo =~= Seq::<BNode>::empty());
                    if f.is_map {
                        assert(f.done_entries + fin_entries(f.todo) =~= f.done_entries);
                    } else {
                        assert(f.done_items + fin_nodes(f.todo) =~= f.done_items);
                    }
                    assert(v@ == frame_val(f));
                }
                if stack.len() == 0 {
                    proof {
                        assert(sv.len() == 1);
                        assert(unwind(sv) == frame_val(f));
                    }
                    return Ok(v);
                }
                let mut parent = match stack.pop() {
                    Some(t) => t,
                    None => {
                        proof {
                            assert(false);
                        }
                        return Err(
                            JecsCorruptedDataError { row: 0, description: String::new() },
                        );
                    },
                };
                let ghost pv = frame_view(parent);
                proof {
                    assert(pv == sv[sv.len() - 2]);
                    assert(sv[sv.len() - 2 + 1] == f);
                    assert(pv.is_map ==> f.key is Some);
                    assert(frame_wf(pv));
                }
                attach_value(&mut parent, top.key, v);
                proof {
                    let g = frame_view(parent);
                    let a = attach(pv, f.key, frame_val(f));
                    assert(frame_val(g) == frame_val(a));
                    assert(g.key == a.key && g.is_map == a.is_map);
                    assert(size_nodes(f.todo) == 0);
                    assert(frames_size(sv) == frames_size(sv.drop_last()));
                    assert(frames_size(sv.drop_last()) == frames_size(sv.drop_last().drop_last())
                        + size_nodes(pv.todo));
                    assert(g.todo == pv.todo);
                    let x = sv.drop_last().update(sv.len() - 2, a);
                    assert(unwind(sv) == unwind(x));
                    assert(x.last() == a);
                    assert(x.update(x.len() - 1, g) =~= sv.drop_last().update(sv.len() - 2, g));
                    lemma_unwind_swap_top(x, g);
                    assert(frame_views(stack@.push(parent)) =~= sv.drop_last().update(
                        sv.len() - 2,
                        g,
                    ));
                    lemma_frames_size_update_last(sv.drop_last(), g);
                    assert(sv.drop_last().drop_last() =~= frame_views(stack@));
                }
                stack.push(parent);
            }
        }
    }
}

/// The bookkeeping for opening a sub-frame: its eventual value is the
/// child's, and the stack's outcome and size behave as the step demands.
pub open spec fn push_frame_pre(sv: Seq<FrameSpec>, sub: FrameSpec) -> bool {
    let f = sv.last();
    let c = f.todo[0];
    &&& sv.len() >= 1
    &&& f.todo.len() > 0
    &&& sub.key == c.rec.key
    &&& sub.is_map == (c.kind == JecsTypeInner::Mapping)
    &&& (c.kind == JecsTypeInner::Mapping || c.kind == JecsTypeInner::List)
    &&& sub.done_entries.len() == 0
    &&& sub.done_items.len() == 0
    &&& sub.todo == c.children
}

pub open spec fn push_frame_post(sv: Seq<FrameSpec>, sub: FrameSpec) -> bool {
    let f = sv.last();
    let c = f.todo[0];
    let top2 = (FrameSpec { todo: f.todo.drop_first(), ..f });
    &&& frame_val(sub) == fin_node(c)
    &&& unwind(sv.update(sv.len() - 1, top2).push(sub)) == unwind(sv)
    &&& frames_size(sv.update(sv.len() - 1, top2).push(sub)) + 1 == frames_size(sv)
}

proof fn lemma_open_sub_frame(sv: Seq<FrameSpec>, sub: FrameSpec)
    requires
        push_frame_pre(sv, sub),
    ensures
        push_frame_post(sv, sub),
{
    let f = sv.last();
    let c = f.todo[0];
    let top2 = (FrameSpec { todo: f.todo.drop_first(), ..f });
    if sub.is_map {
        assert(sub.done_entries =~= Seq::<(Seq<char>, JecsVal)>::empty());
        assert(sub.done_entries + fin_entries(sub.todo) =~= fin_entries(c.children));
    } else {
        assert(sub.done_items =~= Seq::<JecsVal>::empty());
        assert(sub.done_items + fin_nodes(sub.todo) =~= fin_nodes(c.children));
    }
    assert(frame_val(sub) == fin_node(c));
    let x = sv.update(sv.len() - 1, top2);
    let s2 = x.push(sub);
    assert(s2.len() >= 2);
    assert(s2.last() == sub);
    assert(s2[s2.len() - 2] == top2);
    assert(s2.drop_last() =~= x);
    let merged = attach(top2, c.rec.key, fin_node(c));
    assert(unwind(s2) == unwind(x.update(x.len() - 1, merged)));
    assert(x.update(x.len() - 1, merged) =~= sv.update(sv.len() - 1, merged));
    lemma_frame_take_child(f);
    assert(frame_val(merged) == frame_val(f));
    lemma_unwind_swap_top(sv, merged);
    lemma_frames_size_push(x, sub);
    lemma_frames_size_update_last(sv, top2);
    assert(size_nodes(f.todo) == size_node(c) + size_nodes(f.todo.drop_first()));
}

} // verus!
