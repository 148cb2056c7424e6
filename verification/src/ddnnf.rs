//! Deterministic decomposable negation normal form (d-DNNF) and its textual rendering.

use vstd::prelude::*;
use std::rc::Rc;
use std::collections::HashMap;
use crate::text::{decimal, push_char, push_decimal};
use vstd::string::StringExecFns;
use crate::nnf_reading::{
    NnfLine, nnf_text, text_holds, unique_ids, well_kinded, declares, node_value, read_from, nothing_read,
    lemma_printed_text_means_node, lemma_printed_literal_conjunction,
};

verus! {

broadcast use vstd::std_specs::hash::group_hash_axioms;

/// A compiled formula: its root node and the number of variables it ranges over.
pub struct DDNNF {
    pub root_node: Rc<DDNNFNode>,
    pub number_variables: u32,
}

/// A node of a d-DNNF; inner nodes carry an identifier that marks shared nodes.
#[derive(Clone, PartialEq, Eq, Hash)]
pub enum DDNNFNode {
    TrueLeave,
    FalseLeave,
    LiteralLeave(Rc<DDNNFLiteral>),
    AndNode(Vec<Rc<DDNNFNode>>, u32),
    OrNode(Vec<Rc<DDNNFNode>>, u32),
}

/// Calls `Rc::clone`: another pointer to the same value, so the value is the same.
#[verifier::external_body]
pub(crate) fn rc_clone<T>(r: &Rc<T>) -> (c: Rc<T>)
    ensures
        c == *r,
{
    Rc::clone(r)
}

/// A literal leaf: variable `index` with polarity `positive`.
#[derive(Clone, PartialEq, Eq, Hash)]
pub struct DDNNFLiteral {
    pub index: u32,
    pub positive: bool,
}


/// Whether the node holds under the total assignment `a`: an and-node when all its children do,
/// an or-node when one of them does.
pub open spec fn eval(node: DDNNFNode, a: Seq<bool>) -> bool
    decreases node,
{
    match node {
        DDNNFNode::TrueLeave => true,
        DDNNFNode::FalseLeave => false,
        DDNNFNode::LiteralLeave(l) => a[l.index as int] == l.positive,
        DDNNFNode::AndNode(children, _) => forall|i: int| 0 <= i < children@.len() ==> eval(*#[trigger] children@[i], a),
        DDNNFNode::OrNode(children, _) => exists|i: int| 0 <= i < children@.len() && eval(*#[trigger] children@[i], a),
    }
}

/// An and-node with one more child holds where the old one and the new child both hold.
pub proof fn lemma_eval_and_push(old_node: DDNNFNode, new_node: DDNNFNode, x: Rc<DDNNFNode>, a: Seq<bool>)
    requires
        old_node is AndNode,
        new_node matches DDNNFNode::AndNode(nc, _) && nc@ == old_node->AndNode_0@.push(x),
    ensures
        eval(new_node, a) == (eval(old_node, a) && eval(*x, a)),
{
    reveal_with_fuel(eval, 2);
    let oc = old_node->AndNode_0@;
    let nc = new_node->AndNode_0@;
    assert(nc[oc.len() as int] == x);
    assert forall|i: int| 0 <= i < nc.len() && eval(old_node, a) && eval(*x, a) implies eval(*#[trigger] nc[i], a) by {
        if i < oc.len() {
            assert(nc[i] == oc[i]);
        }
    }
    if eval(new_node, a) {
        assert forall|i: int| 0 <= i < oc.len() implies eval(*#[trigger] oc[i], a) by {
            assert(nc[i] == oc[i]);
        }
        assert(eval(old_node, a));
        assert(eval(*x, a));
    }
}

/// An and-node of two children holds where both do.
pub proof fn lemma_eval_and_pair(node: DDNNFNode, p: Rc<DDNNFNode>, q: Rc<DDNNFNode>, a: Seq<bool>)
    requires
        node matches DDNNFNode::AndNode(c, _) && c@ == seq![p, q],
    ensures
        eval(node, a) == (eval(*p, a) && eval(*q, a)),
{
    reveal_with_fuel(eval, 2);
    let c = node->AndNode_0@;
    assert(c[0] == p && c[1] == q);
    assert forall|i: int| 0 <= i < c.len() && eval(*p, a) && eval(*q, a) implies #[trigger] eval(*c[i], a) by {
        assert(i == 0 || i == 1);
    }
}

/// An and-node of one child holds where the child does.
pub proof fn lemma_eval_and_single(node: DDNNFNode, p: Rc<DDNNFNode>, a: Seq<bool>)
    requires
        node matches DDNNFNode::AndNode(c, _) && c@ == seq![p],
    ensures
        eval(node, a) == eval(*p, a),
{
    reveal_with_fuel(eval, 2);
    let c = node->AndNode_0@;
    assert(c[0] == p);
}

/// An or-node of two children holds where one of them does.
pub proof fn lemma_eval_or_pair(node: DDNNFNode, p: Rc<DDNNFNode>, q: Rc<DDNNFNode>, a: Seq<bool>)
    requires
        node matches DDNNFNode::OrNode(c, _) && c@ == seq![p, q],
    ensures
        eval(node, a) == (eval(*p, a) || eval(*q, a)),
{
    reveal_with_fuel(eval, 2);
    let c = node->OrNode_0@;
    assert(c[0] == p && c[1] == q);
    assert(eval(node, a) ==> (eval(*p, a) || eval(*q, a))) by {
        assert forall|i: int| 0 <= i < c.len() && #[trigger] eval(*c[i], a) implies (eval(*p, a) || eval(*q, a)) by {
            assert(i == 0 || i == 1);
        }
    }
}

/// Whether variable `v` occurs in a literal below `node`.
pub open spec fn mentions(node: DDNNFNode, v: u32) -> bool
    decreases node,
{
    match node {
        DDNNFNode::LiteralLeave(l) => l.index == v,
        DDNNFNode::AndNode(children, _) => exists|i: int| 0 <= i < children@.len() && mentions(*#[trigger] children@[i], v),
        DDNNFNode::OrNode(children, _) => exists|i: int| 0 <= i < children@.len() && mentions(*#[trigger] children@[i], v),
        _ => false,
    }
}

/// Every and-node below `node`, itself included, has children over disjoint sets of variables.
pub open spec fn decomposable(node: DDNNFNode) -> bool
    decreases node,
{
    match node {
        DDNNFNode::AndNode(children, _) => {
            &&& forall|i: int| 0 <= i < children@.len() ==> decomposable(*#[trigger] children@[i])
            &&& forall|i: int, j: int, v: u32| #![trigger mentions(*children@[i], v), mentions(*children@[j], v)]
                0 <= i < children@.len() && 0 <= j < children@.len() && i != j && mentions(*children@[i], v)
                    ==> !mentions(*children@[j], v)
        },
        DDNNFNode::OrNode(children, _) => forall|i: int| 0 <= i < children@.len() ==> decomposable(*#[trigger] children@[i]),
        _ => true,
    }
}

/// Every or-node below `node`, itself included, has children that no assignment satisfies two of.
pub open spec fn deterministic(node: DDNNFNode) -> bool
    decreases node,
{
    match node {
        DDNNFNode::AndNode(children, _) => forall|i: int| 0 <= i < children@.len() ==> deterministic(*#[trigger] children@[i]),
        DDNNFNode::OrNode(children, _) => {
            &&& forall|i: int| 0 <= i < children@.len() ==> deterministic(*#[trigger] children@[i])
            &&& forall|i: int, j: int, a: Seq<bool>| #![trigger eval(*children@[i], a), eval(*children@[j], a)]
                0 <= i < children@.len() && 0 <= j < children@.len() && i != j && eval(*children@[i], a)
                    ==> !eval(*children@[j], a)
        },
        _ => true,
    }
}

/// `p` holds only where variable `v` is false and `q` only where it is true.
pub open spec fn splits_on(p: DDNNFNode, q: DDNNFNode, v: u32) -> bool {
    &&& forall|a: Seq<bool>| #[trigger] eval(p, a) ==> !a[v as int]
    &&& forall|a: Seq<bool>| #[trigger] eval(q, a) ==> a[v as int]
}

/// Every or-node below `node`, itself included, has two children: the branch where some variable
/// is false, then the branch where it is true.
pub open spec fn false_branch_first(node: DDNNFNode) -> bool
    decreases node,
{
    match node {
        DDNNFNode::AndNode(children, _) => forall|i: int| 0 <= i < children@.len() ==> false_branch_first(*#[trigger] children@[i]),
        DDNNFNode::OrNode(children, _) => {
            &&& forall|i: int| 0 <= i < children@.len() ==> false_branch_first(*#[trigger] children@[i])
            &&& children@.len() == 2
            &&& exists|v: u32| #[trigger] splits_on(*children@[0], *children@[1], v)
        },
        _ => true,
    }
}

/// `node` is in deterministic decomposable negation normal form.
pub open spec fn is_ddnnf(node: DDNNFNode) -> bool {
    decomposable(node) && deterministic(node)
}

/// Whether `p` and `q` share no variable.
pub open spec fn disjoint(p: DDNNFNode, q: DDNNFNode) -> bool {
    forall|v: u32| #[trigger] mentions(p, v) ==> !mentions(q, v)
}

/// The variables of an and-node with one more child are those of the old node and the new child;
/// the new node is a d-DNNF when the old node and the child are and share no variable.
pub proof fn lemma_shape_and_push(old_node: DDNNFNode, new_node: DDNNFNode, x: Rc<DDNNFNode>)
    requires
        old_node is AndNode,
        new_node matches DDNNFNode::AndNode(nc, _) && nc@ == old_node->AndNode_0@.push(x),
    ensures
        forall|v: u32| #[trigger] mentions(new_node, v) == (mentions(old_node, v) || mentions(*x, v)),
        deterministic(old_node) && deterministic(*x) ==> deterministic(new_node),
        decomposable(old_node) && decomposable(*x) && disjoint(old_node, *x) ==> decomposable(new_node),
        false_branch_first(old_node) && false_branch_first(*x) ==> false_branch_first(new_node),
{
    reveal_with_fuel(mentions, 2);
    reveal_with_fuel(decomposable, 2);
    reveal_with_fuel(deterministic, 2);
    reveal_with_fuel(false_branch_first, 2);
    let oc = old_node->AndNode_0@;
    assert forall|i: int| 0 <= i < new_node->AndNode_0@.len() && false_branch_first(old_node) && false_branch_first(*x)
        implies false_branch_first(*#[trigger] new_node->AndNode_0@[i]) by {
        if i < oc.len() {
            assert(new_node->AndNode_0@[i] == oc[i]);
        }
    }
    let nc = new_node->AndNode_0@;
    let last = oc.len() as int;
    assert(nc[last] == x);
    assert forall|v: u32| #[trigger] mentions(new_node, v) == (mentions(old_node, v) || mentions(*x, v)) by {
        if mentions(new_node, v) {
            let i = choose|i: int| 0 <= i < nc.len() && mentions(*#[trigger] nc[i], v);
            if i < last {
                assert(nc[i] == oc[i]);
            }
        }
        if mentions(old_node, v) {
            let i = choose|i: int| 0 <= i < oc.len() && mentions(*#[trigger] oc[i], v);
            assert(nc[i] == oc[i]);
        }
    }
    assert forall|i: int| 0 <= i < nc.len() && deterministic(old_node) && deterministic(*x)
        implies deterministic(*#[trigger] nc[i]) by {
        if i < last {
            assert(nc[i] == oc[i]);
        }
    }
    assert forall|i: int| 0 <= i < nc.len() && (decomposable(old_node) && decomposable(*x) && disjoint(old_node, *x)) implies decomposable(*#[trigger] nc[i]) by {
        if i < last {
            assert(nc[i] == oc[i]);
        }
    }
    {
        assert forall|i: int, j: int, v: u32|
            0 <= i < nc.len() && 0 <= j < nc.len() && i != j && #[trigger] mentions(*nc[i], v) && (decomposable(old_node) && decomposable(*x) && disjoint(old_node, *x))
                implies !#[trigger] mentions(*nc[j], v) by {
            if i < last && j < last {
                assert(nc[i] == oc[i] && nc[j] == oc[j]);
            } else if i < last {
                assert(nc[i] == oc[i]);
                assert(mentions(old_node, v));
            } else {
                assert(nc[j] == oc[j]);
                if mentions(*oc[j], v) {
                    assert(mentions(old_node, v));
                }
            }
        }
    }
}

/// The variables of an and-node of two children are theirs; it is a d-DNNF when both children
/// are and share no variable.
pub proof fn lemma_shape_and_pair(node: DDNNFNode, p: Rc<DDNNFNode>, q: Rc<DDNNFNode>)
    requires
        node matches DDNNFNode::AndNode(c, _) && c@ == seq![p, q],
    ensures
        forall|v: u32| #[trigger] mentions(node, v) == (mentions(*p, v) || mentions(*q, v)),
        deterministic(*p) && deterministic(*q) ==> deterministic(node),
        decomposable(*p) && decomposable(*q) && disjoint(*p, *q) ==> decomposable(node),
        false_branch_first(*p) && false_branch_first(*q) ==> false_branch_first(node),
{
    reveal_with_fuel(mentions, 2);
    reveal_with_fuel(decomposable, 2);
    reveal_with_fuel(deterministic, 2);
    reveal_with_fuel(false_branch_first, 2);
    let c = node->AndNode_0@;
    assert(c[0] == p && c[1] == q);
    assert forall|i: int| 0 <= i < c.len() && false_branch_first(*p) && false_branch_first(*q)
        implies false_branch_first(*#[trigger] c[i]) by {
        assert(i == 0 || i == 1);
    }
    assert forall|v: u32| #[trigger] mentions(node, v) == (mentions(*p, v) || mentions(*q, v)) by {
        if mentions(node, v) {
            let i = choose|i: int| 0 <= i < c.len() && mentions(*#[trigger] c[i], v);
            assert(i == 0 || i == 1);
        }
    }
    assert forall|i: int| 0 <= i < c.len() && deterministic(*p) && deterministic(*q)
        implies deterministic(*#[trigger] c[i]) by {
        assert(i == 0 || i == 1);
    }
    assert forall|i: int| 0 <= i < c.len() && (decomposable(*p) && decomposable(*q) && disjoint(*p, *q)) implies decomposable(*#[trigger] c[i]) by {
        assert(i == 0 || i == 1);
    }
    {
        assert forall|i: int, j: int, v: u32|
            0 <= i < c.len() && 0 <= j < c.len() && i != j && #[trigger] mentions(*c[i], v) && (decomposable(*p) && decomposable(*q) && disjoint(*p, *q))
                implies !#[trigger] mentions(*c[j], v) by {
            assert(i == 0 || i == 1);
            assert(j == 0 || j == 1);
        }
    }
}

/// An and-node of one child mentions what the child does and is a d-DNNF when the child is.
pub proof fn lemma_shape_and_single(node: DDNNFNode, p: Rc<DDNNFNode>)
    requires
        node matches DDNNFNode::AndNode(c, _) && c@ == seq![p],
    ensures
        forall|v: u32| #[trigger] mentions(node, v) == mentions(*p, v),
        deterministic(*p) ==> deterministic(node),
        decomposable(*p) ==> decomposable(node),
        false_branch_first(*p) ==> false_branch_first(node),
{
    reveal_with_fuel(mentions, 2);
    reveal_with_fuel(decomposable, 2);
    reveal_with_fuel(deterministic, 2);
    reveal_with_fuel(false_branch_first, 2);
    let c = node->AndNode_0@;
    assert(c[0] == p);
    assert forall|i: int| 0 <= i < c.len() && false_branch_first(*p) implies false_branch_first(*#[trigger] c[i]) by {
        assert(i == 0);
    }
    assert forall|v: u32| #[trigger] mentions(node, v) == mentions(*p, v) by {
        if mentions(node, v) {
            let i = choose|i: int| 0 <= i < c.len() && mentions(*#[trigger] c[i], v);
            assert(i == 0);
        }
    }
    assert forall|i: int| 0 <= i < c.len() && decomposable(*p) implies decomposable(*#[trigger] c[i]) by {
        assert(i == 0);
    }
    assert forall|i: int, j: int, v: u32|
        0 <= i < c.len() && 0 <= j < c.len() && i != j && mentions(*#[trigger] c[i], v)
            implies !#[trigger] mentions(*c[j], v) by {
        assert(i == 0 && j == 0);
    }
    assert forall|i: int| 0 <= i < c.len() && deterministic(*p) implies deterministic(*#[trigger] c[i]) by {
        assert(i == 0);
    }
}

/// The variables of an or-node of two children are theirs; it is a d-DNNF when both children are
/// and no assignment satisfies both.
pub proof fn lemma_shape_or_pair(node: DDNNFNode, p: Rc<DDNNFNode>, q: Rc<DDNNFNode>)
    requires
        node matches DDNNFNode::OrNode(c, _) && c@ == seq![p, q],
    ensures
        forall|v: u32| #[trigger] mentions(node, v) == (mentions(*p, v) || mentions(*q, v)),
        decomposable(*p) && decomposable(*q) ==> decomposable(node),
        deterministic(*p) && deterministic(*q) && (forall|a: Seq<bool>| #[trigger] eval(*p, a) ==> !eval(*q, a))
            ==> deterministic(node),
        false_branch_first(*p) && false_branch_first(*q) && (exists|v: u32| #[trigger] splits_on(*p, *q, v))
            ==> false_branch_first(node),
{
    reveal_with_fuel(mentions, 2);
    reveal_with_fuel(decomposable, 2);
    reveal_with_fuel(deterministic, 2);
    reveal_with_fuel(false_branch_first, 2);
    let c = node->OrNode_0@;
    assert(c[0] == p && c[1] == q);
    assert forall|i: int| 0 <= i < c.len() && false_branch_first(*p) && false_branch_first(*q)
        implies false_branch_first(*#[trigger] c[i]) by {
        assert(i == 0 || i == 1);
    }
    assert forall|v: u32| #[trigger] mentions(node, v) == (mentions(*p, v) || mentions(*q, v)) by {
        if mentions(node, v) {
            let i = choose|i: int| 0 <= i < c.len() && mentions(*#[trigger] c[i], v);
            assert(i == 0 || i == 1);
        }
    }
    assert forall|i: int| 0 <= i < c.len() && decomposable(*p) && decomposable(*q)
        implies decomposable(*#[trigger] c[i]) by {
        assert(i == 0 || i == 1);
    }
    assert forall|i: int| 0 <= i < c.len() && (deterministic(*p) && deterministic(*q) && (forall|b: Seq<bool>| #[trigger] eval(*p, b) ==> !eval(*q, b))) implies deterministic(*#[trigger] c[i]) by {
        assert(i == 0 || i == 1);
    }
    {
        assert forall|i: int, j: int, a: Seq<bool>|
            0 <= i < c.len() && 0 <= j < c.len() && i != j && #[trigger] eval(*c[i], a) && (deterministic(*p) && deterministic(*q) && (forall|b: Seq<bool>| #[trigger] eval(*p, b) ==> !eval(*q, b)))
                implies !#[trigger] eval(*c[j], a) by {
            assert(i == 0 || i == 1);
            assert(j == 0 || j == 1);
            assert(eval(*p, a) ==> !eval(*q, a));
        }
    }
}

// ---------------------------------------------------------------------------------------------
// Writing a d-DNNF as text: one line `o id 0`, `a id 0`, `t id 0` or `f id 0` per node, and one
// line `parent child lits 0` per edge, where `lits` are the literals the edge implies.

/// Writes a d-DNNF as text, numbering its nodes as it meets them.
pub struct DDNNFPrinter {
    pub ddnnf: DDNNF,
    pub true_sink_id: Option<u32>,
    pub false_sink_id: Option<u32>,
    pub current_node_id: u32,
    pub id_map: HashMap<u32, u32>,
    pub edge_counter: u32,
    pub node_counter: u32,
}

/// The numbering state of a printer: the true and false sinks, the last number handed out, the
/// numbers given to inner nodes (by their identifiers), and the edge and node counters.
pub type PrinterState = (Option<u32>, Option<u32>, u32, Map<u32, u32>, u32, u32);

/// The number of children of a node.
pub open spec fn width(node: DDNNFNode) -> nat {
    match node {
        DDNNFNode::AndNode(children, _) => children@.len(),
        DDNNFNode::OrNode(children, _) => children@.len(),
        _ => 0,
    }
}

/// The children of a node.
pub open spec fn children_of(node: DDNNFNode) -> Seq<Rc<DDNNFNode>> {
    match node {
        DDNNFNode::AndNode(children, _) => children@,
        DDNNFNode::OrNode(children, _) => children@,
        _ => Seq::empty(),
    }
}

/// The identifier of an inner node.
pub open spec fn node_id(node: DDNNFNode) -> u32 {
    match node {
        DDNNFNode::AndNode(_, id) => id,
        DDNNFNode::OrNode(_, id) => id,
        _ => 0,
    }
}

/// `x + 1`, when it fits in `u32`.
pub open spec fn next_u32(x: u32) -> Option<u32> {
    if x < u32::MAX {
        Some((x + 1) as u32)
    } else {
        None
    }
}

/// The line of a node: its kind, its number and `0`.
pub open spec fn node_line(kind: char, id: u32) -> Seq<char> {
    seq![kind, ' '] + decimal(id as nat) + seq![' ', '0', '\n']
}

/// A literal as text: its variable number, after a `-` when negative, then a space.
pub open spec fn literal_text(lit: (u32, bool)) -> Seq<char> {
    (if lit.1 { Seq::empty() } else { seq!['-'] }) + decimal(lit.0 as nat) + seq![' ']
}

/// Literals as text, in order.
pub open spec fn literals_text(lits: Seq<(u32, bool)>) -> Seq<char>
    decreases lits.len(),
{
    if lits.len() == 0 {
        Seq::empty()
    } else {
        literals_text(lits.drop_last()) + literal_text(lits.last())
    }
}

/// The start of an edge line: the two node numbers.
pub open spec fn edge_start(parent: u32, child: u32) -> Seq<char> {
    decimal(parent as nat) + seq![' '] + decimal(child as nat) + seq![' ']
}

/// An edge line with the literals it implies.
pub open spec fn edge_line(parent: u32, child: u32, lits: Seq<(u32, bool)>) -> Seq<char> {
    edge_start(parent, child) + literals_text(lits) + seq!['0', '\n']
}

/// The literal leaves among `children`, in order, each with its variable numbered from 1; nothing
/// when a number does not fit in `u32`.
pub open spec fn child_literals(children: Seq<Rc<DDNNFNode>>) -> Option<Seq<(u32, bool)>>
    decreases children.len(),
{
    if children.len() == 0 {
        Some(Seq::empty())
    } else {
        match child_literals(children.drop_last()) {
            None => None,
            Some(lits) => match *children.last() {
                DDNNFNode::LiteralLeave(l) => if l.index < u32::MAX {
                    Some(lits.push(((l.index + 1) as u32, l.positive)))
                } else {
                    None
                },
                _ => Some(lits),
            },
        }
    }
}

/// The number of children that are not literal leaves.
pub open spec fn inner_count(children: Seq<Rc<DDNNFNode>>) -> nat
    decreases children.len(),
{
    if children.len() == 0 {
        0
    } else {
        inner_count(children.drop_last()) + if (*children.last()) is LiteralLeave { 0nat } else { 1nat }
    }
}

/// Creates the true sink, with the next number, if there is none yet; it counts as a node when
/// `count` is set.
pub open spec fn ensure_true_sink(st: PrinterState, count: bool) -> Option<(Seq<char>, PrinterState)> {
    if st.0 is Some {
        Some((Seq::empty(), st))
    } else {
        match next_u32(st.2) {
            None => None,
            Some(id) => if count && st.5 >= u32::MAX {
                None
            } else {
                Some((node_line('t', id), (Some(id), st.1, id, st.3, st.4, if count { (st.5 + 1) as u32 } else { st.5 })))
            },
        }
    }
}

/// Creates the false sink, with the next number, if there is none yet; it counts as a node.
pub open spec fn ensure_false_sink(st: PrinterState) -> Option<(Seq<char>, PrinterState)> {
    if st.1 is Some {
        Some((Seq::empty(), st))
    } else {
        match next_u32(st.2) {
            None => None,
            Some(id) => if st.5 >= u32::MAX {
                None
            } else {
                Some((node_line('f', id), (st.0, Some(id), id, st.3, st.4, (st.5 + 1) as u32)))
            },
        }
    }
}

/// An edge to the node numbered `target`, counted as an edge.
pub open spec fn shared_edge(parent: u32, target: u32, lits: Seq<(u32, bool)>, st: PrinterState) -> Option<(Seq<char>, PrinterState)> {
    if st.4 >= u32::MAX {
        None
    } else {
        Some((edge_line(parent, target, lits), (st.0, st.1, st.2, st.3, (st.4 + 1) as u32, st.5)))
    }
}

/// Gives the inner node the next number.
pub open spec fn numbered(st: PrinterState, nid: u32, id: u32) -> PrinterState {
    (st.0, st.1, id, st.3.insert(nid, id), st.4, st.5)
}

/// The text of `node`, reached from the node numbered `parent` (0 for the root) along an edge
/// implying `implied`, and the state after it; nothing where a number overflows or a literal
/// leaf stands where a node is written.
pub open spec fn print_node_spec(node: DDNNFNode, parent: u32, implied: Seq<(u32, bool)>, st: PrinterState) -> Option<(Seq<char>, PrinterState)>
    decreases node, width(node) + 2,
{
    match node {
        DDNNFNode::TrueLeave => match ensure_true_sink(st, false) {
            None => None,
            Some((t, s)) => if parent == 0 {
                Some((t, s))
            } else if s.4 >= u32::MAX || s.5 >= u32::MAX {
                None
            } else {
                Some((t + edge_line(parent, s.0->0, implied), (s.0, s.1, s.2, s.3, (s.4 + 1) as u32, (s.5 + 1) as u32)))
            },
        },
        DDNNFNode::FalseLeave => match ensure_false_sink(st) {
            None => None,
            Some((t, s)) => if parent == 0 {
                Some((t, s))
            } else if s.4 >= u32::MAX || s.5 >= u32::MAX {
                None
            } else {
                Some((t + edge_line(parent, s.1->0, Seq::empty()), (s.0, s.1, s.2, s.3, (s.4 + 1) as u32, (s.5 + 1) as u32)))
            },
        },
        DDNNFNode::LiteralLeave(_) => None,
        DDNNFNode::AndNode(_, nid) => if st.3.contains_key(nid) {
            shared_edge(parent, st.3[nid], implied, st)
        } else {
            and_node_spec(node, parent, implied, st)
        },
        DDNNFNode::OrNode(_, nid) => if st.3.contains_key(nid) {
            shared_edge(parent, st.3[nid], implied, st)
        } else {
            or_node_spec(node, parent, implied, st)
        },
    }
}

/// The text of an and-node met for the first time. Its literal children are folded into the
/// edges: with no other child it becomes an edge to the true sink; with one other child that
/// child is written in its place; otherwise it gets a number and an `a` line.
pub open spec fn and_node_spec(node: DDNNFNode, parent: u32, implied: Seq<(u32, bool)>, st: PrinterState) -> Option<(Seq<char>, PrinterState)>
    decreases node, width(node) + 1,
{
    let nid = node_id(node);
    match child_literals(children_of(node)) {
        None => None,
        Some(local) => {
            let count = inner_count(children_of(node));
            if count == 0 {
                match ensure_true_sink(st, true) {
                    None => None,
                    Some((t, s)) => {
                        let sink = s.0->0;
                        let tail = literals_text(local) + literals_text(implied) + seq!['0', '\n'];
                        if parent == 0 {
                            match next_u32(s.2) {
                                None => None,
                                Some(id) => Some((t + node_line('a', id) + edge_start(id, sink) + tail, numbered(s, nid, id))),
                            }
                        } else {
                            Some((t + edge_start(parent, sink) + tail, s))
                        }
                    },
                }
            } else if count == 1 {
                if parent == 0 {
                    match next_u32(st.2) {
                        None => None,
                        Some(id) => match and_children_spec(node, 0, id, implied + local, numbered(st, nid, id)) {
                            None => None,
                            Some((t, s)) => Some((node_line('a', id) + t, s)),
                        },
                    }
                } else {
                    and_children_spec(node, 0, parent, implied + local, st)
                }
            } else {
                match next_u32(st.2) {
                    None => None,
                    Some(id) => {
                        let head = node_line('a', id) + if parent != 0 { edge_line(parent, id, implied) } else { Seq::empty() };
                        match and_children_spec(node, 0, id, local, numbered(st, nid, id)) {
                            None => None,
                            Some((t, s)) => Some((head + t, s)),
                        }
                    },
                }
            }
        },
    }
}

/// The texts of the children of an and-node from position `k` on, skipping literal leaves.
pub open spec fn and_children_spec(node: DDNNFNode, k: int, parent: u32, lits: Seq<(u32, bool)>, st: PrinterState) -> Option<(Seq<char>, PrinterState)>
    decreases node, width(node) - k,
{
    if 0 <= k < width(node) {
        let c = *children_of(node)[k];
        if c is LiteralLeave {
            and_children_spec(node, k + 1, parent, lits, st)
        } else {
            match print_node_spec(c, parent, lits, st) {
                None => None,
                Some((t, s)) => match and_children_spec(node, k + 1, parent, lits, s) {
                    None => None,
                    Some((t2, s2)) => Some((t + t2, s2)),
                },
            }
        }
    } else {
        Some((Seq::empty(), st))
    }
}

/// The text of an or-node met for the first time: an `o` line, the edge from its parent, then
/// its children, a literal leaf as an edge to the true sink.
pub open spec fn or_node_spec(node: DDNNFNode, parent: u32, implied: Seq<(u32, bool)>, st: PrinterState) -> Option<(Seq<char>, PrinterState)>
    decreases node, width(node) + 1,
{
    match next_u32(st.2) {
        None => None,
        Some(id) => {
            let head = node_line('o', id) + if parent != 0 { edge_line(parent, id, implied) } else { Seq::empty() };
            let local = if parent != 0 { Seq::empty() } else { implied };
            match or_children_spec(node, 0, id, local, numbered(st, node_id(node), id)) {
                None => None,
                Some((t, s)) => Some((head + t, s)),
            }
        },
    }
}

/// The texts of the children of the or-node numbered `id` from position `k` on.
pub open spec fn or_children_spec(node: DDNNFNode, k: int, id: u32, lits: Seq<(u32, bool)>, st: PrinterState) -> Option<(Seq<char>, PrinterState)>
    decreases node, width(node) - k,
{
    if 0 <= k < width(node) {
        let c = *children_of(node)[k];
        match c {
            DDNNFNode::LiteralLeave(l) => match ensure_true_sink(st, true) {
                None => None,
                Some((t, s)) => if l.index >= u32::MAX {
                    None
                } else {
                    let line = edge_start(id, s.0->0) + literal_text(((l.index + 1) as u32, l.positive)) + literals_text(lits)
                        + seq!['0', '\n'];
                    match or_children_spec(node, k + 1, id, lits, s) {
                        None => None,
                        Some((t2, s2)) => Some((t + line + t2, s2)),
                    }
                },
            },
            _ => match print_node_spec(c, id, lits, st) {
                None => None,
                Some((t, s)) => match or_children_spec(node, k + 1, id, lits, s) {
                    None => None,
                    Some((t2, s2)) => Some((t + t2, s2)),
                },
            },
        }
    } else {
        Some((Seq::empty(), st))
    }
}

/// The text of a whole d-DNNF with root `root`: a false root is written as an or-node with the
/// false sink as its only child; nothing where `print_node_spec` gives nothing.
pub open spec fn print_spec(root: DDNNFNode, st: PrinterState) -> Option<(Seq<char>, PrinterState)> {
    if root is FalseLeave {
        if st.5 > u32::MAX - 2 {
            None
        } else {
            Some(("o 1 0\n"@ + "f 2 0\n"@ + "1 2 1 0\n"@, (st.0, st.1, st.2, st.3, st.4, (st.5 + 2) as u32)))
        }
    } else {
        print_node_spec(root, 0, Seq::empty(), st)
    }
}

/// The state a successful step leaves.
pub open spec fn state_of(r: Option<(Seq<char>, PrinterState)>) -> PrinterState {
    match r {
        Some((_, s)) => s,
        None => (None, None, 0, Map::empty(), 0, 0),
    }
}

/// `later` keeps what `earlier` numbered: every numbered node keeps its number, every node
/// numbered since got a number above the last one `earlier` had handed out, the last number and
/// both counters only grow, and a sink once created stays.
pub open spec fn keeps_numbers(earlier: PrinterState, later: PrinterState) -> bool {
    &&& earlier.3.submap_of(later.3)
    &&& forall|k: u32| #[trigger] later.3.contains_key(k) && !earlier.3.contains_key(k)
        ==> earlier.2 < later.3[k] <= later.2
    &&& earlier.2 <= later.2
    &&& earlier.4 <= later.4
    &&& earlier.5 <= later.5
    &&& earlier.0 is Some ==> later.0 == earlier.0
    &&& earlier.1 is Some ==> later.1 == earlier.1
}

proof fn lemma_keeps_trans(a: PrinterState, b: PrinterState, c: PrinterState)
    requires
        keeps_numbers(a, b),
        keeps_numbers(b, c),
    ensures
        keeps_numbers(a, c),
{
    vstd::map_lib::lemma_submap_of_trans(a.3, b.3, c.3);
    assert forall|k: u32| #[trigger] c.3.contains_key(k) && !a.3.contains_key(k) implies a.2 < c.3[k] <= c.2 by {
        if b.3.contains_key(k) {
            assert(b.3.dom().contains(k) && c.3.dom().contains(k));
            assert(c.3[k] == b.3[k]);
        }
    }
}

pub(crate) proof fn lemma_and_children_keep(node: DDNNFNode, k: int, parent: u32, lits: Seq<(u32, bool)>, st: PrinterState)
    requires
        and_children_spec(node, k, parent, lits, st) is Some,
    ensures
        keeps_numbers(st, state_of(and_children_spec(node, k, parent, lits, st))),
    decreases node, width(node) - k,
{
    if 0 <= k < width(node) {
        let c = *children_of(node)[k];
        if c is LiteralLeave {
            lemma_and_children_keep(node, k + 1, parent, lits, st);
        } else {
            let mid = state_of(print_node_spec(c, parent, lits, st));
            lemma_print_keeps_numbers(c, parent, lits, st);
            lemma_and_children_keep(node, k + 1, parent, lits, mid);
            lemma_keeps_trans(st, mid, state_of(and_children_spec(node, k + 1, parent, lits, mid)));
        }
    }
}

pub(crate) proof fn lemma_or_children_keep(node: DDNNFNode, k: int, id: u32, lits: Seq<(u32, bool)>, st: PrinterState)
    requires
        or_children_spec(node, k, id, lits, st) is Some,
    ensures
        keeps_numbers(st, state_of(or_children_spec(node, k, id, lits, st))),
    decreases node, width(node) - k,
{
    if 0 <= k < width(node) {
        let c = *children_of(node)[k];
        match c {
            DDNNFNode::LiteralLeave(l) => {
                let mid = state_of(ensure_true_sink(st, true));
                lemma_or_children_keep(node, k + 1, id, lits, mid);
                lemma_keeps_trans(st, mid, state_of(or_children_spec(node, k + 1, id, lits, mid)));
            },
            _ => {
                let mid = state_of(print_node_spec(c, id, lits, st));
                lemma_print_keeps_numbers(c, id, lits, st);
                lemma_or_children_keep(node, k + 1, id, lits, mid);
                lemma_keeps_trans(st, mid, state_of(or_children_spec(node, k + 1, id, lits, mid)));
            },
        }
    }
}

proof fn lemma_and_node_keep(node: DDNNFNode, parent: u32, implied: Seq<(u32, bool)>, st: PrinterState)
    requires
        and_node_spec(node, parent, implied, st) is Some,
        !st.3.contains_key(node_id(node)),
    ensures
        keeps_numbers(st, state_of(and_node_spec(node, parent, implied, st))),
    decreases node, width(node) + 1,
{
    let nid = node_id(node);
    let local = child_literals(children_of(node))->0;
    let count = inner_count(children_of(node));
    if count == 0 {
        let s = state_of(ensure_true_sink(st, true));
        if parent == 0 {
            let id = next_u32(s.2)->0;
            lemma_keeps_trans(st, s, numbered(s, nid, id));
        }
    } else if count == 1 {
        if parent == 0 {
            let id = next_u32(st.2)->0;
            let s1 = numbered(st, nid, id);
            lemma_and_children_keep(node, 0, id, implied + local, s1);
            lemma_keeps_trans(st, s1, state_of(and_children_spec(node, 0, id, implied + local, s1)));
        } else {
            lemma_and_children_keep(node, 0, parent, implied + local, st);
        }
    } else {
        let id = next_u32(st.2)->0;
        let s1 = numbered(st, nid, id);
        lemma_and_children_keep(node, 0, id, local, s1);
        lemma_keeps_trans(st, s1, state_of(and_children_spec(node, 0, id, local, s1)));
    }
}

proof fn lemma_or_node_keep(node: DDNNFNode, parent: u32, implied: Seq<(u32, bool)>, st: PrinterState)
    requires
        or_node_spec(node, parent, implied, st) is Some,
        !st.3.contains_key(node_id(node)),
    ensures
        keeps_numbers(st, state_of(or_node_spec(node, parent, implied, st))),
    decreases node, width(node) + 1,
{
    let id = next_u32(st.2)->0;
    let local = if parent != 0 { Seq::<(u32, bool)>::empty() } else { implied };
    let s1 = numbered(st, node_id(node), id);
    lemma_or_children_keep(node, 0, id, local, s1);
    lemma_keeps_trans(st, s1, state_of(or_children_spec(node, 0, id, local, s1)));
}

/// Writing a node keeps every number given before: numbered nodes keep their numbers, nodes
/// numbered meanwhile get numbers above the last one handed out before, the counters only grow,
/// and created sinks stay.
/// A node already written is not written again: an and- or or-node whose identifier already has
/// a number is printed as one edge to that number, counted as an edge, and nothing else changes.
pub proof fn lemma_shared_node_is_an_edge(node: DDNNFNode, parent: u32, implied: Seq<(u32, bool)>, st: PrinterState)
    requires
        node is AndNode || node is OrNode,
        st.3.contains_key(node_id(node)),
        st.4 < u32::MAX,
    ensures
        print_node_spec(node, parent, implied, st) == Some((edge_line(parent, st.3[node_id(node)], implied),
            (st.0, st.1, st.2, st.3, (st.4 + 1) as u32, st.5))),
{
}

pub proof fn lemma_print_keeps_numbers(node: DDNNFNode, parent: u32, implied: Seq<(u32, bool)>, st: PrinterState)
    requires
        print_node_spec(node, parent, implied, st) is Some,
    ensures
        keeps_numbers(st, state_of(print_node_spec(node, parent, implied, st))),
    decreases node, width(node) + 2,
{
    match node {
        DDNNFNode::AndNode(_, nid) => {
            if !st.3.contains_key(nid) {
                lemma_and_node_keep(node, parent, implied, st);
            }
        },
        DDNNFNode::OrNode(_, nid) => {
            if !st.3.contains_key(nid) {
                lemma_or_node_keep(node, parent, implied, st);
            }
        },
        _ => {},
    }
}

/// Appends a node line.
fn push_node_line(m: &mut String, kind: char, id: u32)
    ensures
        final(m)@ == old(m)@ + node_line(kind, id),
{
    push_char(m, kind);
    push_char(m, ' ');
    push_decimal(m, id as u128);
    push_char(m, ' ');
    push_char(m, '0');
    push_char(m, '\n');
    proof {
        assert(m@ =~= old(m)@ + node_line(kind, id));
    }
}

/// Appends a literal.
fn push_literal(m: &mut String, lit: (u32, bool))
    ensures
        final(m)@ == old(m)@ + literal_text(lit),
{
    if !lit.1 {
        push_char(m, '-');
    }
    push_decimal(m, lit.0 as u128);
    push_char(m, ' ');
    proof {
        assert(m@ =~= old(m)@ + literal_text(lit));
    }
}

/// Appends literals, in order.
fn push_literals(m: &mut String, lits: &Vec<(u32, bool)>)
    ensures
        final(m)@ == old(m)@ + literals_text(lits@),
{
    let mut i: usize = 0;
    while i < lits.len()
        invariant
            0 <= i <= lits@.len(),
            m@ == old(m)@ + literals_text(lits@.take(i as int)),
        decreases lits@.len() - i,
    {
        push_literal(m, lits[i]);
        proof {
            let taken = lits@.take(i + 1);
            assert(taken.drop_last() =~= lits@.take(i as int));
            assert(m@ =~= old(m)@ + literals_text(taken));
        }
        i = i + 1;
    }
    proof {
        assert(lits@.take(lits@.len() as int) =~= lits@);
    }
}

/// Appends the start of an edge line.
fn push_edge_start(m: &mut String, parent: u32, child: u32)
    ensures
        final(m)@ == old(m)@ + edge_start(parent, child),
{
    push_decimal(m, parent as u128);
    push_char(m, ' ');
    push_decimal(m, child as u128);
    push_char(m, ' ');
    proof {
        assert(m@ =~= old(m)@ + edge_start(parent, child));
    }
}

/// Appends the end of an edge line.
fn push_edge_end(m: &mut String)
    ensures
        final(m)@ == old(m)@ + seq!['0', '\n'],
{
    push_char(m, '0');
    push_char(m, '\n');
    proof {
        assert(m@ =~= old(m)@ + seq!['0', '\n']);
    }
}

/// Appends an edge line.
fn push_edge_line(m: &mut String, parent: u32, child: u32, lits: &Vec<(u32, bool)>)
    ensures
        final(m)@ == old(m)@ + edge_line(parent, child, lits@),
{
    push_edge_start(m, parent, child);
    push_literals(m, lits);
    push_edge_end(m);
    proof {
        assert(m@ =~= old(m)@ + edge_line(parent, child, lits@));
    }
}

/// The literals of `a` followed by those of `b`.
fn concat_literals(a: &Vec<(u32, bool)>, b: &Vec<(u32, bool)>) -> (r: Vec<(u32, bool)>)
    ensures
        r@ == a@ + b@,
{
    let mut r: Vec<(u32, bool)> = Vec::new();
    let mut i: usize = 0;
    while i < a.len()
        invariant
            0 <= i <= a@.len(),
            r@ == a@.take(i as int),
        decreases a@.len() - i,
    {
        r.push(a[i]);
        i = i + 1;
        proof {
            assert(r@ =~= a@.take(i as int));
        }
    }
    let mut j: usize = 0;
    while j < b.len()
        invariant
            0 <= j <= b@.len(),
            r@ == a@ + b@.take(j as int),
        decreases b@.len() - j,
    {
        r.push(b[j]);
        j = j + 1;
        proof {
            assert(r@ =~= a@ + b@.take(j as int));
        }
    }
    proof {
        assert(a@.take(a@.len() as int) =~= a@);
        assert(b@.take(b@.len() as int) =~= b@);
    }
    r
}

/// The literal leaves among `children` and the number of the other children.
fn child_literals_exec(children: &Vec<Rc<DDNNFNode>>) -> (r: Option<(Vec<(u32, bool)>, usize)>)
    ensures
        match r {
            None => child_literals(children@) is None,
            Some((lits, count)) => child_literals(children@) == Some(lits@) && count == inner_count(children@),
        },
{
    let mut lits: Vec<(u32, bool)> = Vec::new();
    let mut count: usize = 0;
    let mut i: usize = 0;
    proof {
        assert(children@.take(0) =~= Seq::<Rc<DDNNFNode>>::empty());
    }
    while i < children.len()
        invariant
            0 <= i <= children@.len(),
            count <= i,
            child_literals(children@.take(i as int)) == Some(lits@),
            inner_count(children@.take(i as int)) == count,
        decreases children@.len() - i,
    {
        let ghost before = children@.take(i as int);
        let ghost after = children@.take(i + 1);
        proof {
            assert(after.drop_last() =~= before);
        }
        match &*children[i] {
            DDNNFNode::LiteralLeave(l) => {
                if l.index == 4294967295u32 {
                    proof {
                        assert(child_literals(after) is None);
                        lemma_child_literals_none(children@, i + 1);
                    }
                    return None;
                }
                lits.push((l.index + 1, l.positive));
            },
            _ => {
                count = count + 1;
            },
        }
        i = i + 1;
    }
    proof {
        assert(children@.take(children@.len() as int) =~= children@);
    }
    Some((lits, count))
}

/// Once a prefix of the children gives no literals, neither do all of them.
proof fn lemma_child_literals_none(children: Seq<Rc<DDNNFNode>>, i: int)
    requires
        0 <= i <= children.len(),
        child_literals(children.take(i)) is None,
    ensures
        child_literals(children) is None,
    decreases children.len() - i,
{
    if i < children.len() {
        assert(children.take(i + 1).drop_last() =~= children.take(i));
        lemma_child_literals_none(children, i + 1);
    } else {
        assert(children.take(i) =~= children);
    }
}

impl DDNNFPrinter {
    /// The numbering state as plain values.
    pub open spec fn state(&self) -> PrinterState {
        (self.true_sink_id, self.false_sink_id, self.current_node_id, self.id_map@, self.edge_counter, self.node_counter)
    }

    fn ensure_true_sink_exec(&mut self, count: bool) -> (r: Option<String>)
        ensures
            final(self).ddnnf == old(self).ddnnf,
            match r {
                None => ensure_true_sink(old(self).state(), count) is None,
                Some(t) => ensure_true_sink(old(self).state(), count) == Some((t@, final(self).state())),
            },
    {
        let mut t = String::new();
        if self.true_sink_id.is_none() {
            if self.current_node_id == 4294967295u32 {
                return None;
            }
            if count && self.node_counter == 4294967295u32 {
                return None;
            }
            let id = self.current_node_id + 1;
            self.current_node_id = id;
            self.true_sink_id = Some(id);
            push_node_line(&mut t, 't', id);
            if count {
                self.node_counter = self.node_counter + 1;
            }
        }
        Some(t)
    }

    fn ensure_false_sink_exec(&mut self) -> (r: Option<String>)
        ensures
            final(self).ddnnf == old(self).ddnnf,
            match r {
                None => ensure_false_sink(old(self).state()) is None,
                Some(t) => ensure_false_sink(old(self).state()) == Some((t@, final(self).state())),
            },
    {
        let mut t = String::new();
        if self.false_sink_id.is_none() {
            if self.current_node_id == 4294967295u32 {
                return None;
            }
            if self.node_counter == 4294967295u32 {
                return None;
            }
            let id = self.current_node_id + 1;
            self.current_node_id = id;
            self.false_sink_id = Some(id);
            push_node_line(&mut t, 'f', id);
            self.node_counter = self.node_counter + 1;
        }
        Some(t)
    }

    fn shared_edge_exec(&mut self, parent: u32, target: u32, lits: &Vec<(u32, bool)>) -> (r: Option<String>)
        ensures
            final(self).ddnnf == old(self).ddnnf,
            match r {
                None => shared_edge(parent, target, lits@, old(self).state()) is None,
                Some(t) => shared_edge(parent, target, lits@, old(self).state()) == Some((t@, final(self).state())),
            },
    {
        if self.edge_counter == 4294967295u32 {
            return None;
        }
        let mut t = String::new();
        push_edge_line(&mut t, parent, target, lits);
        self.edge_counter = self.edge_counter + 1;
        proof {
            assert(t@ =~= edge_line(parent, target, lits@));
        }
        Some(t)
    }

    /// Writes `node`, reached from the node numbered `parent_id` (0 for the root) along an edge
    /// implying `implied_literals`.
    fn print_node(&mut self, node: &DDNNFNode, parent_id: u32, implied_literals: &Vec<(u32, bool)>) -> (r: Option<String>)
        requires
            !(*node is LiteralLeave),
        ensures
            final(self).ddnnf == old(self).ddnnf,
            match r {
                None => print_node_spec(*node, parent_id, implied_literals@, old(self).state()) is None,
                Some(t) => print_node_spec(*node, parent_id, implied_literals@, old(self).state()) == Some((t@, final(self).state())),
            },
        decreases *node, width(*node) + 2,
    {
        match node {
            DDNNFNode::TrueLeave => {
                let mut t = match self.ensure_true_sink_exec(false) {
                    None => {
                        return None;
                    },
                    Some(t) => t,
                };
                if parent_id > 0 {
                    if self.edge_counter == 4294967295u32 || self.node_counter == 4294967295u32 {
                        return None;
                    }
                    let sink = self.true_sink_id.unwrap();
                    push_edge_line(&mut t, parent_id, sink, implied_literals);
                    self.edge_counter = self.edge_counter + 1;
                    self.node_counter = self.node_counter + 1;
                }
                Some(t)
            },
            DDNNFNode::FalseLeave => {
                let mut t = match self.ensure_false_sink_exec() {
                    None => {
                        return None;
                    },
                    Some(t) => t,
                };
                if parent_id > 0 {
                    if self.edge_counter == 4294967295u32 || self.node_counter == 4294967295u32 {
                        return None;
                    }
                    let sink = self.false_sink_id.unwrap();
                    let none: Vec<(u32, bool)> = Vec::new();
                    push_edge_line(&mut t, parent_id, sink, &none);
                    self.edge_counter = self.edge_counter + 1;
                    self.node_counter = self.node_counter + 1;
                }
                Some(t)
            },
            DDNNFNode::LiteralLeave(_) => None,
            DDNNFNode::AndNode(_, nid) => {
                match self.id_map.get(nid) {
                    Some(existing) => {
                        let target = *existing;
                        self.shared_edge_exec(parent_id, target, implied_literals)
                    },
                    None => self.and_node(node, parent_id, implied_literals),
                }
            },
            DDNNFNode::OrNode(_, nid) => {
                match self.id_map.get(nid) {
                    Some(existing) => {
                        let target = *existing;
                        self.shared_edge_exec(parent_id, target, implied_literals)
                    },
                    None => self.or_node(node, parent_id, implied_literals),
                }
            },
        }
    }

    /// Writes an and-node met for the first time.
    fn and_node(&mut self, node: &DDNNFNode, parent_id: u32, implied_literals: &Vec<(u32, bool)>) -> (r: Option<String>)
        requires
            *node is AndNode,
        ensures
            final(self).ddnnf == old(self).ddnnf,
            match r {
                None => and_node_spec(*node, parent_id, implied_literals@, old(self).state()) is None,
                Some(t) => and_node_spec(*node, parent_id, implied_literals@, old(self).state()) == Some((t@, final(self).state())),
            },
        decreases *node, width(*node) + 1,
    {
        let (children, nid) = match node {
            DDNNFNode::AndNode(children, nid) => (children, *nid),
            _ => {
                return None;
            },
        };
        let (local, count) = match child_literals_exec(children) {
            None => {
                return None;
            },
            Some(x) => x,
        };
        if count == 0 {
            let mut t = match self.ensure_true_sink_exec(true) {
                None => {
                    return None;
                },
                Some(t) => t,
            };
            let sink = self.true_sink_id.unwrap();
            if parent_id == 0 {
                if self.current_node_id == 4294967295u32 {
                    return None;
                }
                let id = self.current_node_id + 1;
                self.current_node_id = id;
                self.id_map.insert(nid, id);
                push_node_line(&mut t, 'a', id);
                push_edge_start(&mut t, id, sink);
            } else {
                push_edge_start(&mut t, parent_id, sink);
            }
            push_literals(&mut t, &local);
            push_literals(&mut t, implied_literals);
            push_edge_end(&mut t);
            proof {
                let tail = literals_text(local@) + literals_text(implied_literals@) + seq!['0', '\n'];
                let created = ensure_true_sink(old(self).state(), true)->0;
                if parent_id == 0 {
                    let id = self.current_node_id;
                    assert(t@ =~= created.0 + node_line('a', id) + edge_start(id, sink) + tail);
                    assert(self.state() == numbered(created.1, nid, id));
                } else {
                    assert(t@ =~= created.0 + edge_start(parent_id, sink) + tail);
                }
            }
            Some(t)
        } else if count == 1 {
            let combined = concat_literals(implied_literals, &local);
            if parent_id == 0 {
                if self.current_node_id == 4294967295u32 {
                    return None;
                }
                let id = self.current_node_id + 1;
                self.current_node_id = id;
                self.id_map.insert(nid, id);
                let mut t = String::new();
                push_node_line(&mut t, 'a', id);
                match self.and_children(node, id, &combined) {
                    None => None,
                    Some(rest) => {
                        t.append(rest.as_str());
                        Some(t)
                    },
                }
            } else {
                self.and_children(node, parent_id, &combined)
            }
        } else {
            if self.current_node_id == 4294967295u32 {
                return None;
            }
            let id = self.current_node_id + 1;
            self.current_node_id = id;
            self.id_map.insert(nid, id);
            let mut t = String::new();
            push_node_line(&mut t, 'a', id);
            if parent_id != 0 {
                push_edge_line(&mut t, parent_id, id, implied_literals);
            }
            let ghost head = t@;
            match self.and_children(node, id, &local) {
                None => None,
                Some(rest) => {
                    t.append(rest.as_str());
                    Some(t)
                },
            }
        }
    }

    /// Writes the children of an and-node other than its literal leaves.
    fn and_children(&mut self, node: &DDNNFNode, parent_id: u32, lits: &Vec<(u32, bool)>) -> (r: Option<String>)
        requires
            *node is AndNode,
        ensures
            final(self).ddnnf == old(self).ddnnf,
            match r {
                None => and_children_spec(*node, 0, parent_id, lits@, old(self).state()) is None,
                Some(t) => and_children_spec(*node, 0, parent_id, lits@, old(self).state()) == Some((t@, final(self).state())),
            },
        decreases *node, width(*node),
    {
        let children = match node {
            DDNNFNode::AndNode(children, _) => children,
            _ => {
                return None;
            },
        };
        let ghost st0 = self.state();
        let mut acc = String::new();
        let mut k: usize = 0;
        proof {
            match and_children_spec(*node, 0, parent_id, lits@, st0) {
                Some((t2, s2)) => {
                    assert(acc@ + t2 =~= t2);
                },
                None => {},
            }
        }
        while k < children.len()
            invariant
                0 <= k <= children@.len(),
                *node is AndNode,
                children@ == children_of(*node),
                self.ddnnf == old(self).ddnnf,
                st0 == old(self).state(),
                match and_children_spec(*node, k as int, parent_id, lits@, self.state()) {
                    None => and_children_spec(*node, 0, parent_id, lits@, st0) is None,
                    Some((t2, s2)) => and_children_spec(*node, 0, parent_id, lits@, st0) == Some((acc@ + t2, s2)),
                },
            decreases children@.len() - k,
        {
            let child: &DDNNFNode = &*children[k];
            if !matches!(child, DDNNFNode::LiteralLeave(_)) {
                let ghost before = acc@;
                match self.print_node(child, parent_id, lits) {
                    None => {
                        return None;
                    },
                    Some(t) => {
                        acc.append(t.as_str());
                        proof {
                            match and_children_spec(*node, k + 1, parent_id, lits@, self.state()) {
                                Some((t2, s2)) => {
                                    assert(before + (t@ + t2) =~= acc@ + t2);
                                },
                                None => {},
                            }
                        }
                    },
                }
            }
            k = k + 1;
        }
        proof {
            assert(acc@ + Seq::<char>::empty() =~= acc@);
        }
        Some(acc)
    }

    /// Writes an or-node met for the first time.
    fn or_node(&mut self, node: &DDNNFNode, parent_id: u32, implied_literals: &Vec<(u32, bool)>) -> (r: Option<String>)
        requires
            *node is OrNode,
        ensures
            final(self).ddnnf == old(self).ddnnf,
            match r {
                None => or_node_spec(*node, parent_id, implied_literals@, old(self).state()) is None,
                Some(t) => or_node_spec(*node, parent_id, implied_literals@, old(self).state()) == Some((t@, final(self).state())),
            },
        decreases *node, width(*node) + 1,
    {
        let nid = match node {
            DDNNFNode::OrNode(_, nid) => *nid,
            _ => {
                return None;
            },
        };
        if self.current_node_id == 4294967295u32 {
            return None;
        }
        let id = self.current_node_id + 1;
        self.current_node_id = id;
        self.id_map.insert(nid, id);
        let mut t = String::new();
        push_node_line(&mut t, 'o', id);
        let local: Vec<(u32, bool)>;
        if parent_id != 0 {
            push_edge_line(&mut t, parent_id, id, implied_literals);
            local = Vec::new();
        } else {
            local = concat_literals(implied_literals, &Vec::new());
        }
        proof {
            assert(local@ =~= if parent_id != 0 { Seq::<(u32, bool)>::empty() } else { implied_literals@ });
        }
        match self.or_children(node, id, &local) {
            None => None,
            Some(rest) => {
                t.append(rest.as_str());
                Some(t)
            },
        }
    }

    /// Writes the children of the or-node numbered `id`.
    #[verifier::rlimit(40)]
    fn or_children(&mut self, node: &DDNNFNode, id: u32, lits: &Vec<(u32, bool)>) -> (r: Option<String>)
        requires
            *node is OrNode,
        ensures
            final(self).ddnnf == old(self).ddnnf,
            match r {
                None => or_children_spec(*node, 0, id, lits@, old(self).state()) is None,
                Some(t) => or_children_spec(*node, 0, id, lits@, old(self).state()) == Some((t@, final(self).state())),
            },
        decreases *node, width(*node),
    {
        let children = match node {
            DDNNFNode::OrNode(children, _) => children,
            _ => {
                return None;
            },
        };
        let ghost st0 = self.state();
        let mut acc = String::new();
        let mut k: usize = 0;
        proof {
            match or_children_spec(*node, 0, id, lits@, st0) {
                Some((t2, s2)) => {
                    assert(acc@ + t2 =~= t2);
                },
                None => {},
            }
        }
        while k < children.len()
            invariant
                0 <= k <= children@.len(),
                *node is OrNode,
                children@ == children_of(*node),
                self.ddnnf == old(self).ddnnf,
                st0 == old(self).state(),
                match or_children_spec(*node, k as int, id, lits@, self.state()) {
                    None => or_children_spec(*node, 0, id, lits@, st0) is None,
                    Some((t2, s2)) => or_children_spec(*node, 0, id, lits@, st0) == Some((acc@ + t2, s2)),
                },
            decreases children@.len() - k,
        {
            let child: &DDNNFNode = &*children[k];
            let ghost before = acc@;
            match child {
                DDNNFNode::LiteralLeave(l) => {
                    let t = match self.ensure_true_sink_exec(true) {
                        None => {
                            return None;
                        },
                        Some(t) => t,
                    };
                    if l.index == 4294967295u32 {
                        return None;
                    }
                    let sink = self.true_sink_id.unwrap();
                    acc.append(t.as_str());
                    push_edge_start(&mut acc, id, sink);
                    push_literal(&mut acc, (l.index + 1, l.positive));
                    push_literals(&mut acc, lits);
                    push_edge_end(&mut acc);
                    proof {
                        let line = edge_start(id, sink) + literal_text(((l.index + 1) as u32, l.positive)) + literals_text(lits@)
                            + seq!['0', '\n'];
                        match or_children_spec(*node, k + 1, id, lits@, self.state()) {
                            Some((t2, s2)) => {
                                assert(before + (t@ + line + t2) =~= acc@ + t2);
                            },
                            None => {},
                        }
                    }
                },
                _ => {
                    match self.print_node(child, id, lits) {
                        None => {
                            return None;
                        },
                        Some(t) => {
                            acc.append(t.as_str());
                            proof {
                                match or_children_spec(*node, k + 1, id, lits@, self.state()) {
                                    Some((t2, s2)) => {
                                        assert(before + (t@ + t2) =~= acc@ + t2);
                                    },
                                    None => {},
                                }
                            }
                        },
                    }
                },
            }
            k = k + 1;
        }
        proof {
            assert(acc@ + Seq::<char>::empty() =~= acc@);
        }
        Some(acc)
    }

    /// Writes the whole d-DNNF, or nothing where a number overflows or the root is a literal leaf.
    pub fn try_print(&mut self) -> (r: Option<String>)
        ensures
            final(self).ddnnf == old(self).ddnnf,
            match r {
                None => print_spec(*old(self).ddnnf.root_node, old(self).state()) is None,
                Some(t) => print_spec(*old(self).ddnnf.root_node, old(self).state()) == Some((t@, final(self).state())),
            },
    {
        let root = rc_clone(&self.ddnnf.root_node);
        if let DDNNFNode::FalseLeave = &*root {
            if self.node_counter > 4294967293u32 {
                return None;
            }
            self.node_counter = self.node_counter + 2;
            let mut r = String::new();
            r.append("o 1 0\n");
            r.append("f 2 0\n");
            r.append("1 2 1 0\n");
            proof {
                assert(r@ =~= "o 1 0\n"@ + "f 2 0\n"@ + "1 2 1 0\n"@);
            }
            Some(r)
        } else if let DDNNFNode::LiteralLeave(_) = &*root {
            None
        } else {
            let empty: Vec<(u32, bool)> = Vec::new();
            self.print_node(&*root, 0, &empty)
        }
    }

    /// Writes the whole d-DNNF: a line per node (`o`, `a`, `t` or `f`, its number, `0`) and a
    /// line per edge (the two numbers, the literals it implies, `0`).
    pub fn print(&mut self) -> (r: String)
        requires
            print_spec(*old(self).ddnnf.root_node, old(self).state()) is Some,
        ensures
            final(self).ddnnf == old(self).ddnnf,
            print_spec(*old(self).ddnnf.root_node, old(self).state()) == Some((r@, final(self).state())),
            old(self).true_sink_id is None && old(self).false_sink_id is None && old(self).current_node_id == 0
                && old(self).id_map@ == Map::<u32, u32>::empty() && unique_ids(*old(self).ddnnf.root_node)
                && !(*old(self).ddnnf.root_node is AndNode && inner_count(children_of(*old(self).ddnnf.root_node)) == 0)
                ==> (exists|ls: Seq<NnfLine>| #[trigger] nnf_text(ls) == r@ && well_kinded(ls))
                    && forall|ls: Seq<NnfLine>, a: Seq<bool>| well_kinded(ls) && nnf_text(ls) == r@
                        ==> #[trigger] text_holds(ls, a) == eval(*old(self).ddnnf.root_node, a),
            old(self).true_sink_id is None && old(self).false_sink_id is None && old(self).current_node_id == 0
                && old(self).id_map@ == Map::<u32, u32>::empty()
                && *old(self).ddnnf.root_node is AndNode && inner_count(children_of(*old(self).ddnnf.root_node)) == 0
                ==> (exists|ls: Seq<NnfLine>| #[trigger] nnf_text(ls) == r@ && well_kinded(ls))
                    && (forall|ls: Seq<NnfLine>| well_kinded(ls) && nnf_text(ls) == r@ ==> #[trigger] declares(ls, 'a', 2))
                    && forall|ls: Seq<NnfLine>, a: Seq<bool>| well_kinded(ls) && nnf_text(ls) == r@
                        ==> #[trigger] node_value(ls, 2, read_from(ls, ls, a, nothing_read()))
                            == eval(*old(self).ddnnf.root_node, a),
    {
        proof {
            let root = *self.ddnnf.root_node;
            let st = self.state();
            if st.0 is None && st.1 is None && st.2 == 0 && st.3 == Map::<u32, u32>::empty() && unique_ids(root)
                && !(root is AndNode && inner_count(children_of(root)) == 0) {
                lemma_printed_text_means_node(root, st);
            }
            if st.0 is None && st.1 is None && st.2 == 0 && st.3 == Map::<u32, u32>::empty()
                && root is AndNode && inner_count(children_of(root)) == 0 {
                lemma_printed_literal_conjunction(root, st);
            }
        }
        match self.try_print() {
            Some(r) => r,
            None => {
                assert(false);
                String::new()
            },
        }
    }
}

} // verus!
