//! Reading the text of a d-DNNF back. The text has a line `t id 0`, `f id 0`, `a id 0` or
//! `o id 0` per node and a line `parent child lits 0` per edge, the literals numbering variables
//! from 1. It lists every node before the edges out of it, so reading it from its last line back,
//! each edge meets a child whose own edges are all read already.

use vstd::prelude::*;
use crate::text::decimal;
use crate::ddnnf::{
    DDNNFNode, eval, width, children_of, node_id, child_literals, inner_count, print_node_spec,
    and_node_spec, or_node_spec, and_children_spec, or_children_spec, print_spec, ensure_true_sink,
    ensure_false_sink, numbered, state_of, next_u32, node_line, edge_line, literals_text, literal_text,
    edge_start, PrinterState, keeps_numbers, lemma_print_keeps_numbers, lemma_and_children_keep,
    lemma_or_children_keep,
};

verus! {

/// One line of the text: a node (its kind `t`, `f`, `a` or `o`, and its number) or an edge (the
/// numbers of its two ends and the literals it carries).
pub enum NnfLine {
    Node(char, u32),
    Edge(u32, u32, Seq<(u32, bool)>),
}

/// Literals as text: each variable number, after `-` when negative, then a space.
pub open spec fn lits_text(lits: Seq<(u32, bool)>) -> Seq<char>
    decreases lits.len(),
{
    if lits.len() == 0 {
        Seq::empty()
    } else {
        lits_text(lits.drop_last()) + (if lits.last().1 { Seq::empty() } else { seq!['-'] })
            + decimal(lits.last().0 as nat) + seq![' ']
    }
}

/// The text of one line.
pub open spec fn line_text(l: NnfLine) -> Seq<char> {
    match l {
        NnfLine::Node(k, id) => seq![k, ' '] + decimal(id as nat) + seq![' ', '0', '\n'],
        NnfLine::Edge(p, c, lits) => decimal(p as nat) + seq![' '] + decimal(c as nat) + seq![' '] + lits_text(lits)
            + seq!['0', '\n'],
    }
}

/// The text of lines, one after the other.
pub open spec fn nnf_text(ls: Seq<NnfLine>) -> Seq<char>
    decreases ls.len(),
{
    if ls.len() == 0 {
        Seq::empty()
    } else {
        nnf_text(ls.drop_last()) + line_text(ls.last())
    }
}

/// The text `g` declares node `x` of kind `k`.
pub open spec fn declares(g: Seq<NnfLine>, k: char, x: u32) -> bool {
    exists|j: int| 0 <= j < g.len() && g[j] == NnfLine::Node(k, x)
}

/// Every literal holds under `a` (variable `v` is `a[v - 1]`).
pub open spec fn lits_hold(lits: Seq<(u32, bool)>, a: Seq<bool>) -> bool {
    forall|i: int| 0 <= i < lits.len() ==> a[lits[i].0 - 1] == #[trigger] lits[i].1
}

/// What the edges read so far give each node: whether all of its edges hold, whether one does.
pub type Reading = (spec_fn(u32) -> bool, spec_fn(u32) -> bool);

/// The value of node `x` of the text `g`, given what its edges gave: a true sink holds, a false
/// sink does not, an and-node holds when all its edges do and an or-node when one does.
pub open spec fn node_value(g: Seq<NnfLine>, x: u32, r: Reading) -> bool {
    if declares(g, 't', x) {
        true
    } else if declares(g, 'f', x) {
        false
    } else if declares(g, 'a', x) {
        (r.0)(x)
    } else if declares(g, 'o', x) {
        (r.1)(x)
    } else {
        false
    }
}

/// Reads the lines `ls` of the text `g` from the last one back, starting from `r`: an edge holds
/// when its literals and its child do, and counts for its parent.
pub open spec fn read_from(g: Seq<NnfLine>, ls: Seq<NnfLine>, a: Seq<bool>, r: Reading) -> Reading
    decreases ls.len(),
{
    if ls.len() == 0 {
        r
    } else {
        let rest = read_from(g, ls.drop_first(), a, r);
        match ls[0] {
            NnfLine::Edge(q, c, lits) => {
                let t = lits_hold(lits, a) && node_value(g, c, rest);
                (|x: u32| if x == q { (rest.0)(x) && t } else { (rest.0)(x) },
                 |x: u32| if x == q { (rest.1)(x) || t } else { (rest.1)(x) })
            },
            _ => rest,
        }
    }
}

/// Whether the text `g` holds under `a`: the value of its node 1 once all lines are read.
pub open spec fn text_holds(g: Seq<NnfLine>, a: Seq<bool>) -> bool {
    node_value(g, 1, read_from(g, g, a, nothing_read()))
}


/// The line of a true sink the state does not have yet.
pub open spec fn true_sink_lines(st: PrinterState) -> Seq<NnfLine> {
    if st.0 is Some { Seq::empty() } else { seq![NnfLine::Node('t', (st.2 + 1) as u32)] }
}

/// The line of a false sink the state does not have yet.
pub open spec fn false_sink_lines(st: PrinterState) -> Seq<NnfLine> {
    if st.1 is Some { Seq::empty() } else { seq![NnfLine::Node('f', (st.2 + 1) as u32)] }
}

/// The lines the printer writes for `node` (see `print_node_spec`).
pub open spec fn node_lines(node: DDNNFNode, parent: u32, implied: Seq<(u32, bool)>, st: PrinterState) -> Seq<NnfLine>
    decreases node, width(node) + 2,
{
    match node {
        DDNNFNode::TrueLeave => {
            let s = state_of(ensure_true_sink(st, false));
            true_sink_lines(st) + if parent == 0 { Seq::empty() } else { seq![NnfLine::Edge(parent, s.0->0, implied)] }
        },
        DDNNFNode::FalseLeave => {
            let s = state_of(ensure_false_sink(st));
            false_sink_lines(st) + if parent == 0 { Seq::empty() } else { seq![NnfLine::Edge(parent, s.1->0, Seq::empty())] }
        },
        DDNNFNode::LiteralLeave(_) => Seq::empty(),
        DDNNFNode::AndNode(_, nid) => if st.3.contains_key(nid) {
            seq![NnfLine::Edge(parent, st.3[nid], implied)]
        } else {
            and_lines(node, parent, implied, st)
        },
        DDNNFNode::OrNode(_, nid) => if st.3.contains_key(nid) {
            seq![NnfLine::Edge(parent, st.3[nid], implied)]
        } else {
            or_lines(node, parent, implied, st)
        },
    }
}

/// The lines of an and-node met for the first time (see `and_node_spec`).
pub open spec fn and_lines(node: DDNNFNode, parent: u32, implied: Seq<(u32, bool)>, st: PrinterState) -> Seq<NnfLine>
    decreases node, width(node) + 1,
{
    let nid = node_id(node);
    match child_literals(children_of(node)) {
        None => Seq::empty(),
        Some(local) => {
            let count = inner_count(children_of(node));
            if count == 0 {
                let s = state_of(ensure_true_sink(st, true));
                let sink = s.0->0;
                if parent == 0 {
                    let id = (s.2 + 1) as u32;
                    true_sink_lines(st) + seq![NnfLine::Node('a', id), NnfLine::Edge(id, sink, local + implied)]
                } else {
                    true_sink_lines(st) + seq![NnfLine::Edge(parent, sink, local + implied)]
                }
            } else if count == 1 {
                if parent == 0 {
                    let id = (st.2 + 1) as u32;
                    seq![NnfLine::Node('a', id)] + and_child_lines(node, 0, id, implied + local, numbered(st, nid, id))
                } else {
                    and_child_lines(node, 0, parent, implied + local, st)
                }
            } else {
                let id = (st.2 + 1) as u32;
                seq![NnfLine::Node('a', id)] + (if parent != 0 { seq![NnfLine::Edge(parent, id, implied)] } else { Seq::empty() })
                    + and_child_lines(node, 0, id, local, numbered(st, nid, id))
            }
        },
    }
}

/// The lines of the children of an and-node from position `k` on (see `and_children_spec`).
pub open spec fn and_child_lines(node: DDNNFNode, k: int, parent: u32, lits: Seq<(u32, bool)>, st: PrinterState) -> Seq<NnfLine>
    decreases node, width(node) - k,
{
    if 0 <= k < width(node) {
        let c = *children_of(node)[k];
        if c is LiteralLeave {
            and_child_lines(node, k + 1, parent, lits, st)
        } else {
            node_lines(c, parent, lits, st)
                + and_child_lines(node, k + 1, parent, lits, state_of(print_node_spec(c, parent, lits, st)))
        }
    } else {
        Seq::empty()
    }
}

/// The lines of an or-node met for the first time (see `or_node_spec`).
pub open spec fn or_lines(node: DDNNFNode, parent: u32, implied: Seq<(u32, bool)>, st: PrinterState) -> Seq<NnfLine>
    decreases node, width(node) + 1,
{
    let id = (st.2 + 1) as u32;
    let local = if parent != 0 { Seq::empty() } else { implied };
    seq![NnfLine::Node('o', id)] + (if parent != 0 { seq![NnfLine::Edge(parent, id, implied)] } else { Seq::empty() })
        + or_child_lines(node, 0, id, local, numbered(st, node_id(node), id))
}

/// The lines of the children of the or-node numbered `id` from position `k` on (see
/// `or_children_spec`).
pub open spec fn or_child_lines(node: DDNNFNode, k: int, id: u32, lits: Seq<(u32, bool)>, st: PrinterState) -> Seq<NnfLine>
    decreases node, width(node) - k,
{
    if 0 <= k < width(node) {
        let c = *children_of(node)[k];
        match c {
            DDNNFNode::LiteralLeave(l) => {
                let s = state_of(ensure_true_sink(st, true));
                true_sink_lines(st) + seq![NnfLine::Edge(id, s.0->0, seq![((l.index + 1) as u32, l.positive)] + lits)]
                    + or_child_lines(node, k + 1, id, lits, s)
            },
            _ => node_lines(c, id, lits, st)
                + or_child_lines(node, k + 1, id, lits, state_of(print_node_spec(c, id, lits, st))),
        }
    } else {
        Seq::empty()
    }
}


/// The text of a printing step.
pub open spec fn text_of(r: Option<(Seq<char>, PrinterState)>) -> Seq<char> {
    match r {
        Some((t, _)) => t,
        None => Seq::empty(),
    }
}

proof fn lemma_nnf_text_concat(x: Seq<NnfLine>, y: Seq<NnfLine>)
    ensures
        nnf_text(x + y) == nnf_text(x) + nnf_text(y),
    decreases y.len(),
{
    if y.len() == 0 {
        assert(x + y =~= x);
    } else {
        lemma_nnf_text_concat(x, y.drop_last());
        assert((x + y).drop_last() =~= x + y.drop_last());
        assert((x + y).last() == y.last());
    }
}

proof fn lemma_literals_text_concat(x: Seq<(u32, bool)>, y: Seq<(u32, bool)>)
    ensures
        literals_text(x + y) == literals_text(x) + literals_text(y),
    decreases y.len(),
{
    if y.len() == 0 {
        assert(x + y =~= x);
    } else {
        lemma_literals_text_concat(x, y.drop_last());
        assert((x + y).drop_last() =~= x + y.drop_last());
        assert((x + y).last() == y.last());
    }
}

proof fn lemma_lits_text(lits: Seq<(u32, bool)>)
    ensures
        lits_text(lits) == literals_text(lits),
    decreases lits.len(),
{
    if lits.len() > 0 {
        lemma_lits_text(lits.drop_last());
    }
}

/// A node line and an edge line read as the printer writes them.
proof fn lemma_line_texts(k: char, id: u32, p: u32, c: u32, lits: Seq<(u32, bool)>)
    ensures
        line_text(NnfLine::Node(k, id)) == node_line(k, id),
        line_text(NnfLine::Edge(p, c, lits)) == edge_line(p, c, lits),
        nnf_text(seq![NnfLine::Node(k, id)]) == node_line(k, id),
        nnf_text(seq![NnfLine::Edge(p, c, lits)]) == edge_line(p, c, lits),
{
    reveal_with_fuel(nnf_text, 2);
    lemma_lits_text(lits);
    assert(seq![NnfLine::Node(k, id)].drop_last() =~= Seq::<NnfLine>::empty());
    assert(seq![NnfLine::Edge(p, c, lits)].drop_last() =~= Seq::<NnfLine>::empty());
    assert(line_text(NnfLine::Edge(p, c, lits)) =~= edge_line(p, c, lits));
    assert(line_text(NnfLine::Node(k, id)) =~= node_line(k, id));
    assert(nnf_text(seq![NnfLine::Node(k, id)]) =~= Seq::<char>::empty() + line_text(NnfLine::Node(k, id)));
    assert(nnf_text(seq![NnfLine::Edge(p, c, lits)]) =~= Seq::<char>::empty() + line_text(NnfLine::Edge(p, c, lits)));
    assert(Seq::<char>::empty() + line_text(NnfLine::Node(k, id)) =~= line_text(NnfLine::Node(k, id)));
    assert(Seq::<char>::empty() + line_text(NnfLine::Edge(p, c, lits)) =~= line_text(NnfLine::Edge(p, c, lits)));
}

proof fn lemma_true_sink_text(st: PrinterState, count: bool)
    requires
        ensure_true_sink(st, count) is Some,
    ensures
        text_of(ensure_true_sink(st, count)) == nnf_text(true_sink_lines(st)),
{
    if st.0 is None {
        lemma_line_texts('t', (st.2 + 1) as u32, 0, 0, Seq::empty());
    }
}

proof fn lemma_false_sink_text(st: PrinterState)
    requires
        ensure_false_sink(st) is Some,
    ensures
        text_of(ensure_false_sink(st)) == nnf_text(false_sink_lines(st)),
{
    if st.1 is None {
        lemma_line_texts('f', (st.2 + 1) as u32, 0, 0, Seq::empty());
    }
}

/// The printer's text for `node` is the text of `node_lines`.
#[verifier::rlimit(60)]
pub proof fn lemma_node_text(node: DDNNFNode, parent: u32, implied: Seq<(u32, bool)>, st: PrinterState)
    requires
        print_node_spec(node, parent, implied, st) is Some,
    ensures
        text_of(print_node_spec(node, parent, implied, st)) == nnf_text(node_lines(node, parent, implied, st)),
    decreases node, width(node) + 2,
{
    match node {
        DDNNFNode::TrueLeave => {
            let s = state_of(ensure_true_sink(st, false));
            lemma_true_sink_text(st, false);
            lemma_line_texts('t', 0, parent, s.0->0, implied);
            lemma_nnf_text_concat(true_sink_lines(st), if parent == 0 { Seq::empty() } else { seq![NnfLine::Edge(parent, s.0->0, implied)] });
            if parent == 0 {
                assert(nnf_text(Seq::<NnfLine>::empty()) == Seq::<char>::empty());
                assert(nnf_text(true_sink_lines(st)) + Seq::<char>::empty() =~= nnf_text(true_sink_lines(st)));
            }
        },
        DDNNFNode::FalseLeave => {
            let s = state_of(ensure_false_sink(st));
            lemma_false_sink_text(st);
            lemma_line_texts('f', 0, parent, s.1->0, Seq::empty());
            lemma_nnf_text_concat(false_sink_lines(st), if parent == 0 { Seq::empty() } else { seq![NnfLine::Edge(parent, s.1->0, Seq::empty())] });
            if parent == 0 {
                assert(nnf_text(false_sink_lines(st)) + Seq::<char>::empty() =~= nnf_text(false_sink_lines(st)));
            }
        },
        DDNNFNode::LiteralLeave(_) => {},
        DDNNFNode::AndNode(_, nid) => {
            if st.3.contains_key(nid) {
                lemma_line_texts('t', 0, parent, st.3[nid], implied);
            } else {
                lemma_and_text(node, parent, implied, st);
            }
        },
        DDNNFNode::OrNode(_, nid) => {
            if st.3.contains_key(nid) {
                lemma_line_texts('t', 0, parent, st.3[nid], implied);
            } else {
                lemma_or_text(node, parent, implied, st);
            }
        },
    }
}

#[verifier::rlimit(80)]
proof fn lemma_and_text(node: DDNNFNode, parent: u32, implied: Seq<(u32, bool)>, st: PrinterState)
    requires
        node is AndNode,
        and_node_spec(node, parent, implied, st) is Some,
    ensures
        text_of(and_node_spec(node, parent, implied, st)) == nnf_text(and_lines(node, parent, implied, st)),
    decreases node, width(node) + 1,
{
    let nid = node_id(node);
    let local = child_literals(children_of(node))->0;
    let count = inner_count(children_of(node));
    if count == 0 {
        let s = state_of(ensure_true_sink(st, true));
        let sink = s.0->0;
        lemma_true_sink_text(st, true);
        lemma_literals_text_concat(local, implied);
        if parent == 0 {
            let id = (s.2 + 1) as u32;
            lemma_line_texts('a', id, id, sink, local + implied);
            let l2 = seq![NnfLine::Node('a', id), NnfLine::Edge(id, sink, local + implied)];
            assert(l2 =~= seq![NnfLine::Node('a', id)] + seq![NnfLine::Edge(id, sink, local + implied)]);
            lemma_nnf_text_concat(seq![NnfLine::Node('a', id)], seq![NnfLine::Edge(id, sink, local + implied)]);
            lemma_nnf_text_concat(true_sink_lines(st), l2);
            assert(text_of(and_node_spec(node, parent, implied, st)) =~= nnf_text(and_lines(node, parent, implied, st)));
        } else {
            lemma_line_texts('a', 0, parent, sink, local + implied);
            lemma_nnf_text_concat(true_sink_lines(st), seq![NnfLine::Edge(parent, sink, local + implied)]);
            assert(text_of(and_node_spec(node, parent, implied, st)) =~= nnf_text(and_lines(node, parent, implied, st)));
        }
    } else if count == 1 {
        if parent == 0 {
            let id = (st.2 + 1) as u32;
            lemma_and_children_text(node, 0, id, implied + local, numbered(st, nid, id));
            lemma_line_texts('a', id, 0, 0, Seq::empty());
            lemma_nnf_text_concat(seq![NnfLine::Node('a', id)], and_child_lines(node, 0, id, implied + local, numbered(st, nid, id)));
        } else {
            lemma_and_children_text(node, 0, parent, implied + local, st);
        }
    } else {
        let id = (st.2 + 1) as u32;
        let st1 = numbered(st, nid, id);
        lemma_and_children_text(node, 0, id, local, st1);
        lemma_line_texts('a', id, parent, id, implied);
        let e: Seq<NnfLine> = if parent != 0 { seq![NnfLine::Edge(parent, id, implied)] } else { Seq::empty() };
        lemma_nnf_text_concat(seq![NnfLine::Node('a', id)], e);
        lemma_nnf_text_concat(seq![NnfLine::Node('a', id)] + e, and_child_lines(node, 0, id, local, st1));
        if parent == 0 {
            assert(node_line('a', id) + Seq::<char>::empty() =~= node_line('a', id));
        }
    }
}

#[verifier::rlimit(40)]
proof fn lemma_and_children_text(node: DDNNFNode, k: int, parent: u32, lits: Seq<(u32, bool)>, st: PrinterState)
    requires
        and_children_spec(node, k, parent, lits, st) is Some,
    ensures
        text_of(and_children_spec(node, k, parent, lits, st)) == nnf_text(and_child_lines(node, k, parent, lits, st)),
    decreases node, width(node) - k,
{
    if 0 <= k < width(node) {
        let c = *children_of(node)[k];
        if c is LiteralLeave {
            lemma_and_children_text(node, k + 1, parent, lits, st);
        } else {
            lemma_node_text(c, parent, lits, st);
            let s = state_of(print_node_spec(c, parent, lits, st));
            lemma_and_children_text(node, k + 1, parent, lits, s);
            lemma_nnf_text_concat(node_lines(c, parent, lits, st), and_child_lines(node, k + 1, parent, lits, s));
        }
    }
}

#[verifier::rlimit(40)]
proof fn lemma_or_text(node: DDNNFNode, parent: u32, implied: Seq<(u32, bool)>, st: PrinterState)
    requires
        node is OrNode,
        or_node_spec(node, parent, implied, st) is Some,
    ensures
        text_of(or_node_spec(node, parent, implied, st)) == nnf_text(or_lines(node, parent, implied, st)),
    decreases node, width(node) + 1,
{
    let id = (st.2 + 1) as u32;
    let local: Seq<(u32, bool)> = if parent != 0 { Seq::empty() } else { implied };
    let st1 = numbered(st, node_id(node), id);
    lemma_or_children_text(node, 0, id, local, st1);
    lemma_line_texts('o', id, parent, id, implied);
    let e: Seq<NnfLine> = if parent != 0 { seq![NnfLine::Edge(parent, id, implied)] } else { Seq::empty() };
    lemma_nnf_text_concat(seq![NnfLine::Node('o', id)], e);
    lemma_nnf_text_concat(seq![NnfLine::Node('o', id)] + e, or_child_lines(node, 0, id, local, st1));
    if parent == 0 {
        assert(node_line('o', id) + Seq::<char>::empty() =~= node_line('o', id));
    }
}

#[verifier::rlimit(60)]
proof fn lemma_or_children_text(node: DDNNFNode, k: int, id: u32, lits: Seq<(u32, bool)>, st: PrinterState)
    requires
        or_children_spec(node, k, id, lits, st) is Some,
    ensures
        text_of(or_children_spec(node, k, id, lits, st)) == nnf_text(or_child_lines(node, k, id, lits, st)),
    decreases node, width(node) - k,
{
    if 0 <= k < width(node) {
        let c = *children_of(node)[k];
        match c {
            DDNNFNode::LiteralLeave(l) => {
                let s = state_of(ensure_true_sink(st, true));
                let lit = ((l.index + 1) as u32, l.positive);
                lemma_true_sink_text(st, true);
                lemma_or_children_text(node, k + 1, id, lits, s);
                lemma_line_texts('t', 0, id, s.0->0, seq![lit] + lits);
                lemma_literals_text_concat(seq![lit], lits);
                assert(seq![lit].drop_last() =~= Seq::<(u32, bool)>::empty());
                assert(literals_text(seq![lit]) =~= literal_text(lit));
                let e = seq![NnfLine::Edge(id, s.0->0, seq![lit] + lits)];
                lemma_nnf_text_concat(true_sink_lines(st), e);
                lemma_nnf_text_concat(true_sink_lines(st) + e, or_child_lines(node, k + 1, id, lits, s));
                assert(edge_line(id, s.0->0, seq![lit] + lits) =~= edge_start(id, s.0->0) + literal_text(lit)
                    + literals_text(lits) + seq!['0', '\n']);
            },
            _ => {
                lemma_node_text(c, id, lits, st);
                let s = state_of(print_node_spec(c, id, lits, st));
                lemma_or_children_text(node, k + 1, id, lits, s);
                lemma_nnf_text_concat(node_lines(c, id, lits, st), or_child_lines(node, k + 1, id, lits, s));
            },
        }
    }
}


/// The inner node identifier `x` occurs in `node`.
pub open spec fn has_id(node: DDNNFNode, x: u32) -> bool
    decreases node,
{
    match node {
        DDNNFNode::AndNode(children, id) => id == x || exists|i: int| 0 <= i < children@.len() && has_id(*#[trigger] children@[i], x),
        DDNNFNode::OrNode(children, id) => id == x || exists|i: int| 0 <= i < children@.len() && has_id(*#[trigger] children@[i], x),
        _ => false,
    }
}

/// Every inner node of `node` has an identifier of its own: no identifier occurs twice.
pub open spec fn unique_ids(node: DDNNFNode) -> bool
    decreases node,
{
    match node {
        DDNNFNode::AndNode(children, id) => {
            &&& forall|i: int| 0 <= i < children@.len() ==> !has_id(*#[trigger] children@[i], id)
            &&& forall|i: int, j: int, x: u32| #![trigger has_id(*children@[i], x), has_id(*children@[j], x)]
                0 <= i < children@.len() && 0 <= j < children@.len() && i != j
                && has_id(*children@[i], x) ==> !has_id(*children@[j], x)
            &&& forall|i: int| 0 <= i < children@.len() ==> unique_ids(*#[trigger] children@[i])
        },
        DDNNFNode::OrNode(children, id) => {
            &&& forall|i: int| 0 <= i < children@.len() ==> !has_id(*#[trigger] children@[i], id)
            &&& forall|i: int, j: int, x: u32| #![trigger has_id(*children@[i], x), has_id(*children@[j], x)]
                0 <= i < children@.len() && 0 <= j < children@.len() && i != j
                && has_id(*children@[i], x) ==> !has_id(*children@[j], x)
            &&& forall|i: int| 0 <= i < children@.len() ==> unique_ids(*#[trigger] children@[i])
        },
        _ => true,
    }
}

/// Every node line of `ls` has one of the kinds `t`, `f`, `a` and `o`.
pub open spec fn well_kinded(ls: Seq<NnfLine>) -> bool {
    forall|j: int| 0 <= j < ls.len() && (#[trigger] ls[j]) is Node ==> {
        let k = ls[j]->Node_0;
        k == 't' || k == 'f' || k == 'a' || k == 'o'
    }
}

/// The node lines of `ls` number nodes in `(lo, hi]`, each number once, and the sinks `st2` has
/// and `st` had not are declared in `ls`.
pub open spec fn seg_ok(ls: Seq<NnfLine>, st: PrinterState, st2: PrinterState) -> bool {
    &&& forall|j: int| 0 <= j < ls.len() && (#[trigger] ls[j]) is Node ==> st.2 < ls[j]->Node_1 <= st2.2
    &&& well_kinded(ls)
    &&& forall|i: int, j: int| 0 <= i < ls.len() && 0 <= j < ls.len() && i != j && (#[trigger] ls[i]) is Node
        && (#[trigger] ls[j]) is Node ==> ls[i]->Node_1 != ls[j]->Node_1
    &&& (st.0 is None && st2.0 is Some ==> exists|j: int| 0 <= j < ls.len() && ls[j] == NnfLine::Node('t', st2.0->0))
    &&& (st.1 is None && st2.1 is Some ==> exists|j: int| 0 <= j < ls.len() && ls[j] == NnfLine::Node('f', st2.1->0))
}

#[verifier::rlimit(40)]
proof fn lemma_seg_concat(x: Seq<NnfLine>, y: Seq<NnfLine>, st: PrinterState, st1: PrinterState, st2: PrinterState)
    requires
        seg_ok(x, st, st1),
        seg_ok(y, st1, st2),
        keeps_numbers(st, st1),
        keeps_numbers(st1, st2),
    ensures
        seg_ok(x + y, st, st2),
{
    let z = x + y;
    assert forall|j: int| 0 <= j < z.len() && (#[trigger] z[j]) is Node implies st.2 < z[j]->Node_1 <= st2.2 by {
        if j < x.len() {
            assert(z[j] == x[j]);
        } else {
            assert(z[j] == y[j - x.len()]);
        }
    }
    assert forall|i: int, j: int| 0 <= i < z.len() && 0 <= j < z.len() && i != j && (#[trigger] z[i]) is Node
        && (#[trigger] z[j]) is Node implies z[i]->Node_1 != z[j]->Node_1 by {
        if i < x.len() {
            assert(z[i] == x[i]);
        } else {
            assert(z[i] == y[i - x.len()]);
        }
        if j < x.len() {
            assert(z[j] == x[j]);
        } else {
            assert(z[j] == y[j - x.len()]);
        }
    }
    if st.0 is None && st2.0 is Some {
        if st1.0 is Some {
            let j = choose|j: int| 0 <= j < x.len() && x[j] == NnfLine::Node('t', st1.0->0);
            assert(z[j] == x[j]);
        } else {
            let j = choose|j: int| 0 <= j < y.len() && y[j] == NnfLine::Node('t', st2.0->0);
            assert(z[j + x.len()] == y[j]);
        }
    }
    if st.1 is None && st2.1 is Some {
        if st1.1 is Some {
            let j = choose|j: int| 0 <= j < x.len() && x[j] == NnfLine::Node('f', st1.1->0);
            assert(z[j] == x[j]);
        } else {
            let j = choose|j: int| 0 <= j < y.len() && y[j] == NnfLine::Node('f', st2.1->0);
            assert(z[j + x.len()] == y[j]);
        }
    }
}


proof fn lemma_keeps_numbered(st: PrinterState, nid: u32, id: u32)
    requires
        !st.3.contains_key(nid),
        id == st.2 + 1,
    ensures
        keeps_numbers(st, numbered(st, nid, id)),
        keeps_numbers(numbered(st, nid, id), numbered(st, nid, id)),
        keeps_numbers(st, st),
{
    assert(st.3.submap_of(st.3.insert(nid, id)));
}

proof fn lemma_sink_seg(st: PrinterState, count: bool)
    requires
        ensure_true_sink(st, count) is Some,
    ensures
        seg_ok(true_sink_lines(st), st, state_of(ensure_true_sink(st, count))),
        keeps_numbers(st, state_of(ensure_true_sink(st, count))),
        state_of(ensure_true_sink(st, count)).0 is Some,
        state_of(ensure_true_sink(st, count)).3 == st.3,
{
    if st.0 is None {
        let ls = true_sink_lines(st);
        assert(ls[0] == NnfLine::Node('t', state_of(ensure_true_sink(st, count)).0->0));
    }
}

proof fn lemma_false_sink_seg(st: PrinterState)
    requires
        ensure_false_sink(st) is Some,
    ensures
        seg_ok(false_sink_lines(st), st, state_of(ensure_false_sink(st))),
        keeps_numbers(st, state_of(ensure_false_sink(st))),
        state_of(ensure_false_sink(st)).1 is Some,
        state_of(ensure_false_sink(st)).3 == st.3,
{
    if st.1 is None {
        let ls = false_sink_lines(st);
        assert(ls[0] == NnfLine::Node('f', state_of(ensure_false_sink(st)).1->0));
    }
}

/// Lines holding no node line fit any numbering range.
proof fn lemma_seg_edges(ls: Seq<NnfLine>, st: PrinterState, st2: PrinterState)
    requires
        forall|j: int| 0 <= j < ls.len() ==> (#[trigger] ls[j]) is Edge,
        st.0 is None ==> st2.0 is None,
        st.1 is None ==> st2.1 is None,
    ensures
        seg_ok(ls, st, st2),
{
}

/// The printer numbers the nodes it writes with fresh numbers, each once, declares the sinks it
/// creates, and numbers only inner nodes of `node`.
#[verifier::rlimit(60)]
pub proof fn lemma_node_seg(node: DDNNFNode, parent: u32, implied: Seq<(u32, bool)>, st: PrinterState)
    requires
        print_node_spec(node, parent, implied, st) is Some,
    ensures
        seg_ok(node_lines(node, parent, implied, st), st, state_of(print_node_spec(node, parent, implied, st))),
        forall|x: u32| #[trigger] state_of(print_node_spec(node, parent, implied, st)).3.contains_key(x)
            ==> st.3.contains_key(x) || has_id(node, x),
    decreases node, width(node) + 2,
{
    lemma_print_keeps_numbers(node, parent, implied, st);
    let st2 = state_of(print_node_spec(node, parent, implied, st));
    match node {
        DDNNFNode::TrueLeave => {
            lemma_sink_seg(st, false);
            let s = state_of(ensure_true_sink(st, false));
            let e: Seq<NnfLine> = if parent == 0 { Seq::empty() } else { seq![NnfLine::Edge(parent, s.0->0, implied)] };
            lemma_seg_edges(e, s, st2);
            lemma_seg_concat(true_sink_lines(st), e, st, s, st2);
        },
        DDNNFNode::FalseLeave => {
            lemma_false_sink_seg(st);
            let s = state_of(ensure_false_sink(st));
            let e: Seq<NnfLine> = if parent == 0 { Seq::empty() } else { seq![NnfLine::Edge(parent, s.1->0, Seq::empty())] };
            lemma_seg_edges(e, s, st2);
            lemma_seg_concat(false_sink_lines(st), e, st, s, st2);
        },
        DDNNFNode::LiteralLeave(_) => {},
        DDNNFNode::AndNode(_, nid) => {
            if st.3.contains_key(nid) {
                lemma_seg_edges(seq![NnfLine::Edge(parent, st.3[nid], implied)], st, st2);
            } else {
                lemma_and_seg(node, parent, implied, st);
            }
        },
        DDNNFNode::OrNode(_, nid) => {
            if st.3.contains_key(nid) {
                lemma_seg_edges(seq![NnfLine::Edge(parent, st.3[nid], implied)], st, st2);
            } else {
                lemma_or_seg(node, parent, implied, st);
            }
        },
    }
}

/// One node line numbered `id`.
proof fn lemma_seg_node(k: char, id: u32, st: PrinterState, st2: PrinterState)
    requires
        k == 'a' || k == 'o',
        st.2 < id <= st2.2,
        st.0 is None ==> st2.0 is None,
        st.1 is None ==> st2.1 is None,
    ensures
        seg_ok(seq![NnfLine::Node(k, id)], st, st2),
{
}

#[verifier::rlimit(80)]
proof fn lemma_and_seg(node: DDNNFNode, parent: u32, implied: Seq<(u32, bool)>, st: PrinterState)
    requires
        node is AndNode,
        and_node_spec(node, parent, implied, st) is Some,
        !st.3.contains_key(node_id(node)),
    ensures
        seg_ok(and_lines(node, parent, implied, st), st, state_of(and_node_spec(node, parent, implied, st))),
        forall|x: u32| #[trigger] state_of(and_node_spec(node, parent, implied, st)).3.contains_key(x)
            ==> st.3.contains_key(x) || has_id(node, x),
    decreases node, width(node) + 1,
{
    let nid = node_id(node);
    let local = child_literals(children_of(node))->0;
    let count = inner_count(children_of(node));
    let st2 = state_of(and_node_spec(node, parent, implied, st));
    if count == 0 {
        lemma_sink_seg(st, true);
        let s = state_of(ensure_true_sink(st, true));
        let sink = s.0->0;
        if parent == 0 {
            let id = (s.2 + 1) as u32;
            lemma_keeps_numbered(s, nid, id);
            lemma_seg_node('a', id, s, st2);
            lemma_seg_edges(seq![NnfLine::Edge(id, sink, local + implied)], st2, st2);
            lemma_seg_concat(seq![NnfLine::Node('a', id)], seq![NnfLine::Edge(id, sink, local + implied)], s, st2, st2);
            assert(seq![NnfLine::Node('a', id), NnfLine::Edge(id, sink, local + implied)]
                =~= seq![NnfLine::Node('a', id)] + seq![NnfLine::Edge(id, sink, local + implied)]);
            lemma_seg_concat(true_sink_lines(st), seq![NnfLine::Node('a', id), NnfLine::Edge(id, sink, local + implied)], st, s, st2);
        } else {
            lemma_seg_edges(seq![NnfLine::Edge(parent, sink, local + implied)], s, st2);
            lemma_seg_concat(true_sink_lines(st), seq![NnfLine::Edge(parent, sink, local + implied)], st, s, st2);
        }
    } else if count == 1 {
        if parent == 0 {
            let id = (st.2 + 1) as u32;
            let st1 = numbered(st, nid, id);
            lemma_keeps_numbered(st, nid, id);
            lemma_and_children_seg(node, 0, id, implied + local, st1);
            lemma_and_children_keep(node, 0, id, implied + local, st1);
            lemma_seg_node('a', id, st, st1);
            lemma_seg_concat(seq![NnfLine::Node('a', id)], and_child_lines(node, 0, id, implied + local, st1), st, st1, st2);
            assert forall|x: u32| #[trigger] st2.3.contains_key(x) implies st.3.contains_key(x) || has_id(node, x) by {
                if !st1.3.contains_key(x) {
                    let i = choose|i: int| 0 <= i < width(node) && has_id(*#[trigger] children_of(node)[i], x);
                }
            }
        } else {
            lemma_and_children_seg(node, 0, parent, implied + local, st);
            assert forall|x: u32| #[trigger] st2.3.contains_key(x) implies st.3.contains_key(x) || has_id(node, x) by {
                if !st.3.contains_key(x) {
                    let i = choose|i: int| 0 <= i < width(node) && has_id(*#[trigger] children_of(node)[i], x);
                }
            }
        }
    } else {
        let id = (st.2 + 1) as u32;
        let st1 = numbered(st, nid, id);
        lemma_keeps_numbered(st, nid, id);
        lemma_and_children_seg(node, 0, id, local, st1);
        lemma_and_children_keep(node, 0, id, local, st1);
        let e: Seq<NnfLine> = if parent != 0 { seq![NnfLine::Edge(parent, id, implied)] } else { Seq::empty() };
        lemma_seg_node('a', id, st, st1);
        lemma_seg_edges(e, st1, st1);
        lemma_seg_concat(seq![NnfLine::Node('a', id)], e, st, st1, st1);
        lemma_seg_concat(seq![NnfLine::Node('a', id)] + e, and_child_lines(node, 0, id, local, st1), st, st1, st2);
        assert forall|x: u32| #[trigger] st2.3.contains_key(x) implies st.3.contains_key(x) || has_id(node, x) by {
            if !st1.3.contains_key(x) {
                let i = choose|i: int| 0 <= i < width(node) && has_id(*#[trigger] children_of(node)[i], x);
            }
        }
    }
}

#[verifier::rlimit(60)]
proof fn lemma_and_children_seg(node: DDNNFNode, k: int, parent: u32, lits: Seq<(u32, bool)>, st: PrinterState)
    requires
        and_children_spec(node, k, parent, lits, st) is Some,
    ensures
        seg_ok(and_child_lines(node, k, parent, lits, st), st, state_of(and_children_spec(node, k, parent, lits, st))),
        forall|x: u32| #[trigger] state_of(and_children_spec(node, k, parent, lits, st)).3.contains_key(x)
            ==> st.3.contains_key(x) || exists|i: int| k <= i < width(node) && has_id(*#[trigger] children_of(node)[i], x),
    decreases node, width(node) - k,
{
    let st2 = state_of(and_children_spec(node, k, parent, lits, st));
    if 0 <= k < width(node) {
        let c = *children_of(node)[k];
        if c is LiteralLeave {
            lemma_and_children_seg(node, k + 1, parent, lits, st);
        } else {
            lemma_node_seg(c, parent, lits, st);
            lemma_print_keeps_numbers(c, parent, lits, st);
            let s = state_of(print_node_spec(c, parent, lits, st));
            lemma_and_children_seg(node, k + 1, parent, lits, s);
            lemma_and_children_keep(node, k + 1, parent, lits, s);
            lemma_seg_concat(node_lines(c, parent, lits, st), and_child_lines(node, k + 1, parent, lits, s), st, s, st2);
            assert forall|x: u32| #[trigger] st2.3.contains_key(x) implies st.3.contains_key(x)
                || exists|i: int| k <= i < width(node) && has_id(*#[trigger] children_of(node)[i], x) by {
                if !s.3.contains_key(x) {
                    let i = choose|i: int| k + 1 <= i < width(node) && has_id(*#[trigger] children_of(node)[i], x);
                } else if !st.3.contains_key(x) {
                    assert(has_id(*children_of(node)[k], x));
                }
            }
        }
    } else {
        assert(seg_ok(Seq::empty(), st, st2));
    }
}

#[verifier::rlimit(40)]
proof fn lemma_or_seg(node: DDNNFNode, parent: u32, implied: Seq<(u32, bool)>, st: PrinterState)
    requires
        node is OrNode,
        or_node_spec(node, parent, implied, st) is Some,
        !st.3.contains_key(node_id(node)),
    ensures
        seg_ok(or_lines(node, parent, implied, st), st, state_of(or_node_spec(node, parent, implied, st))),
        forall|x: u32| #[trigger] state_of(or_node_spec(node, parent, implied, st)).3.contains_key(x)
            ==> st.3.contains_key(x) || has_id(node, x),
    decreases node, width(node) + 1,
{
    let id = (st.2 + 1) as u32;
    let local: Seq<(u32, bool)> = if parent != 0 { Seq::empty() } else { implied };
    let st1 = numbered(st, node_id(node), id);
    let st2 = state_of(or_node_spec(node, parent, implied, st));
    lemma_keeps_numbered(st, node_id(node), id);
    lemma_or_children_seg(node, 0, id, local, st1);
    lemma_or_children_keep(node, 0, id, local, st1);
    let e: Seq<NnfLine> = if parent != 0 { seq![NnfLine::Edge(parent, id, implied)] } else { Seq::empty() };
    lemma_seg_node('o', id, st, st1);
    lemma_seg_edges(e, st1, st1);
    lemma_seg_concat(seq![NnfLine::Node('o', id)], e, st, st1, st1);
    lemma_seg_concat(seq![NnfLine::Node('o', id)] + e, or_child_lines(node, 0, id, local, st1), st, st1, st2);
    assert forall|x: u32| #[trigger] st2.3.contains_key(x) implies st.3.contains_key(x) || has_id(node, x) by {
        if !st1.3.contains_key(x) {
            let i = choose|i: int| 0 <= i < width(node) && has_id(*#[trigger] children_of(node)[i], x);
        }
    }
}

#[verifier::rlimit(60)]
proof fn lemma_or_children_seg(node: DDNNFNode, k: int, id: u32, lits: Seq<(u32, bool)>, st: PrinterState)
    requires
        or_children_spec(node, k, id, lits, st) is Some,
    ensures
        seg_ok(or_child_lines(node, k, id, lits, st), st, state_of(or_children_spec(node, k, id, lits, st))),
        forall|x: u32| #[trigger] state_of(or_children_spec(node, k, id, lits, st)).3.contains_key(x)
            ==> st.3.contains_key(x) || exists|i: int| k <= i < width(node) && has_id(*#[trigger] children_of(node)[i], x),
    decreases node, width(node) - k,
{
    let st2 = state_of(or_children_spec(node, k, id, lits, st));
    if 0 <= k < width(node) {
        let c = *children_of(node)[k];
        match c {
            DDNNFNode::LiteralLeave(l) => {
                lemma_sink_seg(st, true);
                let s = state_of(ensure_true_sink(st, true));
                let e = seq![NnfLine::Edge(id, s.0->0, seq![((l.index + 1) as u32, l.positive)] + lits)];
                lemma_or_children_seg(node, k + 1, id, lits, s);
                lemma_or_children_keep(node, k + 1, id, lits, s);
                lemma_seg_edges(e, s, s);
                lemma_seg_concat(true_sink_lines(st), e, st, s, s);
                lemma_seg_concat(true_sink_lines(st) + e, or_child_lines(node, k + 1, id, lits, s), st, s, st2);
                assert forall|x: u32| #[trigger] st2.3.contains_key(x) implies st.3.contains_key(x)
                    || exists|i: int| k <= i < width(node) && has_id(*#[trigger] children_of(node)[i], x) by {
                    if !s.3.contains_key(x) {
                        let i = choose|i: int| k + 1 <= i < width(node) && has_id(*#[trigger] children_of(node)[i], x);
                    }
                }
            },
            _ => {
                lemma_node_seg(c, id, lits, st);
                lemma_print_keeps_numbers(c, id, lits, st);
                let s = state_of(print_node_spec(c, id, lits, st));
                lemma_or_children_seg(node, k + 1, id, lits, s);
                lemma_or_children_keep(node, k + 1, id, lits, s);
                lemma_seg_concat(node_lines(c, id, lits, st), or_child_lines(node, k + 1, id, lits, s), st, s, st2);
                assert forall|x: u32| #[trigger] st2.3.contains_key(x) implies st.3.contains_key(x)
                    || exists|i: int| k <= i < width(node) && has_id(*#[trigger] children_of(node)[i], x) by {
                    if !s.3.contains_key(x) {
                        let i = choose|i: int| k + 1 <= i < width(node) && has_id(*#[trigger] children_of(node)[i], x);
                    } else if !st.3.contains_key(x) {
                        assert(has_id(*children_of(node)[k], x));
                    }
                }
            },
        }
    } else {
        assert(seg_ok(Seq::empty(), st, st2));
    }
}


/// Every node line of `ls` is declared in `g` with that kind and no other.
pub open spec fn kinds_fit(g: Seq<NnfLine>, ls: Seq<NnfLine>) -> bool {
    forall|j: int| 0 <= j < ls.len() && (#[trigger] ls[j]) is Node ==> {
        let k = ls[j]->Node_0;
        let x = ls[j]->Node_1;
        &&& declares(g, k, x)
        &&& (k != 't' ==> !declares(g, 't', x))
        &&& (k != 'f' ==> !declares(g, 'f', x))
        &&& (k != 'a' ==> !declares(g, 'a', x))
    }
}

/// The sinks of `st` are declared in `g` as sinks of their kind.
pub open spec fn sinks_fit(g: Seq<NnfLine>, st: PrinterState) -> bool {
    &&& st.0 is Some ==> declares(g, 't', st.0->0)
    &&& st.1 is Some ==> declares(g, 'f', st.1->0) && !declares(g, 't', st.1->0)
}

/// Reading a step turned `r` into `r2`: node `q` gained `tand` among the edges that must all hold
/// and `tor` among those of which one must; nodes other than `q` and those the step numbered
/// are as they were.
pub open spec fn step_ok(r: Reading, r2: Reading, q: u32, tand: bool, tor: bool, st: PrinterState, st2: PrinterState) -> bool {
    &&& (r2.0)(q) == ((r.0)(q) && tand)
    &&& (r2.1)(q) == ((r.1)(q) || tor)
    &&& forall|x: u32| #![trigger (r2.0)(x)] #![trigger (r2.1)(x)]
        x != q && !(st.2 < x <= st2.2) ==> (r2.0)(x) == (r.0)(x) && (r2.1)(x) == (r.1)(x)
}

/// Nothing has been read yet for the numbers a step hands out.
pub open spec fn untouched(r: Reading, st: PrinterState, st2: PrinterState) -> bool {
    forall|x: u32| #![trigger (r.0)(x)] #![trigger (r.1)(x)] st.2 < x <= st2.2 ==> (r.0)(x) && !(r.1)(x)
}

/// Every non-literal child of the and-node from position `k` on holds, with the literals `lits`.
pub open spec fn and_all(node: DDNNFNode, k: int, lits: Seq<(u32, bool)>, a: Seq<bool>) -> bool {
    forall|i: int| k <= i < width(node) && !((*children_of(node)[i]) is LiteralLeave)
        ==> lits_hold(lits, a) && eval(*#[trigger] children_of(node)[i], a)
}

/// Some non-literal child of the and-node from position `k` on holds, with the literals `lits`.
pub open spec fn and_any(node: DDNNFNode, k: int, lits: Seq<(u32, bool)>, a: Seq<bool>) -> bool {
    exists|i: int| k <= i < width(node) && !((*children_of(node)[i]) is LiteralLeave)
        && lits_hold(lits, a) && eval(*#[trigger] children_of(node)[i], a)
}

/// Every child of the node from position `k` on holds, with the literals `lits`.
pub open spec fn all_from(node: DDNNFNode, k: int, lits: Seq<(u32, bool)>, a: Seq<bool>) -> bool {
    forall|i: int| k <= i < width(node) ==> lits_hold(lits, a) && eval(*#[trigger] children_of(node)[i], a)
}

/// Some child of the node from position `k` on holds, with the literals `lits`.
pub open spec fn any_from(node: DDNNFNode, k: int, lits: Seq<(u32, bool)>, a: Seq<bool>) -> bool {
    exists|i: int| k <= i < width(node) && lits_hold(lits, a) && eval(*#[trigger] children_of(node)[i], a)
}

proof fn lemma_read_concat(g: Seq<NnfLine>, x: Seq<NnfLine>, y: Seq<NnfLine>, a: Seq<bool>, r: Reading)
    ensures
        read_from(g, x + y, a, r) == read_from(g, x, a, read_from(g, y, a, r)),
    decreases x.len(),
{
    if x.len() == 0 {
        assert(x + y =~= y);
    } else {
        assert((x + y).drop_first() =~= x.drop_first() + y);
        assert((x + y)[0] == x[0]);
        lemma_read_concat(g, x.drop_first(), y, a, r);
    }
}

proof fn lemma_read_nodes(g: Seq<NnfLine>, ls: Seq<NnfLine>, a: Seq<bool>, r: Reading)
    requires
        forall|j: int| 0 <= j < ls.len() ==> (#[trigger] ls[j]) is Node,
    ensures
        read_from(g, ls, a, r) == r,
    decreases ls.len(),
{
    if ls.len() > 0 {
        assert forall|j: int| 0 <= j < ls.drop_first().len() implies (#[trigger] ls.drop_first()[j]) is Node by {
            assert(ls.drop_first()[j] == ls[j + 1]);
        }
        lemma_read_nodes(g, ls.drop_first(), a, r);
        assert(ls[0] is Node);
    }
}

proof fn lemma_read_edge(g: Seq<NnfLine>, q: u32, c: u32, lits: Seq<(u32, bool)>, a: Seq<bool>, r: Reading)
    ensures
        ({
            let r2 = read_from(g, seq![NnfLine::Edge(q, c, lits)], a, r);
            let t = lits_hold(lits, a) && node_value(g, c, r);
            &&& (r2.0)(q) == ((r.0)(q) && t)
            &&& (r2.1)(q) == ((r.1)(q) || t)
            &&& forall|x: u32| #![trigger (r2.0)(x)] #![trigger (r2.1)(x)] x != q ==> (r2.0)(x) == (r.0)(x) && (r2.1)(x) == (r.1)(x)
        }),
{
    let ls = seq![NnfLine::Edge(q, c, lits)];
    assert(ls.drop_first() =~= Seq::<NnfLine>::empty());
    assert(read_from(g, ls.drop_first(), a, r) == r);
}

proof fn lemma_kinds_split(g: Seq<NnfLine>, x: Seq<NnfLine>, y: Seq<NnfLine>)
    requires
        kinds_fit(g, x + y),
    ensures
        kinds_fit(g, x),
        kinds_fit(g, y),
{
    assert forall|j: int| 0 <= j < x.len() && (#[trigger] x[j]) is Node implies {
        let k = x[j]->Node_0;
        let v = x[j]->Node_1;
        &&& declares(g, k, v)
        &&& (k != 't' ==> !declares(g, 't', v))
        &&& (k != 'f' ==> !declares(g, 'f', v))
        &&& (k != 'a' ==> !declares(g, 'a', v))
    } by {
        assert((x + y)[j] == x[j]);
    }
    assert forall|j: int| 0 <= j < y.len() && (#[trigger] y[j]) is Node implies {
        let k = y[j]->Node_0;
        let v = y[j]->Node_1;
        &&& declares(g, k, v)
        &&& (k != 't' ==> !declares(g, 't', v))
        &&& (k != 'f' ==> !declares(g, 'f', v))
        &&& (k != 'a' ==> !declares(g, 'a', v))
    } by {
        assert((x + y)[j + x.len()] == y[j]);
    }
}

proof fn lemma_lits_hold_concat(x: Seq<(u32, bool)>, y: Seq<(u32, bool)>, a: Seq<bool>)
    ensures
        lits_hold(x + y, a) == (lits_hold(x, a) && lits_hold(y, a)),
{
    if lits_hold(x, a) && lits_hold(y, a) {
        assert forall|i: int| 0 <= i < (x + y).len() implies a[(x + y)[i].0 - 1] == #[trigger] (x + y)[i].1 by {
            if i < x.len() {
                assert((x + y)[i] == x[i]);
            } else {
                assert((x + y)[i] == y[i - x.len()]);
            }
        }
    }
    if lits_hold(x + y, a) {
        assert forall|i: int| 0 <= i < x.len() implies a[x[i].0 - 1] == #[trigger] x[i].1 by {
            assert((x + y)[i] == x[i]);
        }
        assert forall|i: int| 0 <= i < y.len() implies a[y[i].0 - 1] == #[trigger] y[i].1 by {
            assert((x + y)[i + x.len()] == y[i]);
        }
    }
}

/// The literal leaves of `children` hold exactly where `child_literals` does.
#[verifier::rlimit(60)]
proof fn lemma_child_literals(children: Seq<std::rc::Rc<DDNNFNode>>, a: Seq<bool>)
    requires
        child_literals(children) is Some,
    ensures
        lits_hold(child_literals(children)->0, a) == forall|i: int| 0 <= i < children.len()
            && (*children[i]) is LiteralLeave ==> eval(*#[trigger] children[i], a),
        inner_count(children) == 0 <==> forall|i: int| 0 <= i < children.len() ==> (*#[trigger] children[i]) is LiteralLeave,
        inner_count(children) == 1 ==> forall|i: int, j: int| 0 <= i < children.len() && 0 <= j < children.len()
            && !((*#[trigger] children[i]) is LiteralLeave) && !((*#[trigger] children[j]) is LiteralLeave) ==> i == j,
        inner_count(children) >= 1 ==> exists|i: int| 0 <= i < children.len() && !((*#[trigger] children[i]) is LiteralLeave),
    decreases children.len(),
{
    if children.len() > 0 {
        let l = children.drop_last();
        lemma_child_literals(l, a);
        let lits = child_literals(l)->0;
        let c = *children.last();
        assert(children.last() == children[children.len() - 1]);
        assert forall|i: int| 0 <= i < l.len() implies #[trigger] l[i] == children[i] by {}
        match c {
            DDNNFNode::LiteralLeave(lit) => {
                let lits2 = lits.push(((lit.index + 1) as u32, lit.positive));
                assert(lits2 =~= lits + seq![((lit.index + 1) as u32, lit.positive)]);
                lemma_lits_hold_concat(lits, seq![((lit.index + 1) as u32, lit.positive)], a);
                assert(lit.index < u32::MAX);
                let one = seq![((lit.index + 1) as u32, lit.positive)];
                assert(one[0] == ((lit.index + 1) as u32, lit.positive));
                assert(one[0].0 - 1 == lit.index);
                if a[lit.index as int] == lit.positive {
                    assert forall|i: int| 0 <= i < one.len() implies a[one[i].0 - 1] == #[trigger] one[i].1 by {
                        assert(i == 0);
                    }
                }
                if lits_hold(one, a) {
                    assert(a[one[0].0 - 1] == one[0].1);
                }
                assert(lits_hold(one, a) == (a[lit.index as int] == lit.positive));
            },
            _ => {},
        }
        assert(lits_hold(child_literals(children)->0, a) == forall|i: int| 0 <= i < children.len()
            && (*children[i]) is LiteralLeave ==> eval(*#[trigger] children[i], a)) by {
            if lits_hold(child_literals(children)->0, a) {
                assert forall|i: int| 0 <= i < children.len() && (*children[i]) is LiteralLeave implies eval(*#[trigger] children[i], a) by {
                    if i < l.len() {
                        assert(l[i] == children[i]);
                    }
                }
            }
        }
        if inner_count(children) == 1 {
            assert forall|i: int, j: int| 0 <= i < children.len() && 0 <= j < children.len()
                && !((*#[trigger] children[i]) is LiteralLeave) && !((*#[trigger] children[j]) is LiteralLeave) implies i == j by {
                if i < l.len() && j < l.len() {
                    assert(l[i] == children[i] && l[j] == children[j]);
                } else if i < l.len() {
                    assert(l[i] == children[i]);
                } else if j < l.len() {
                    assert(l[j] == children[j]);
                }
            }
        }
        if inner_count(children) == 0 {
            assert forall|i: int| 0 <= i < children.len() implies (*#[trigger] children[i]) is LiteralLeave by {
                if i < l.len() {
                    assert(l[i] == children[i]);
                }
            }
        }
        if inner_count(children) >= 1 {
            if inner_count(l) >= 1 {
                let i = choose|i: int| 0 <= i < l.len() && !((*#[trigger] l[i]) is LiteralLeave);
                assert(l[i] == children[i]);
            } else {
                assert(!((*children[children.len() - 1]) is LiteralLeave));
            }
        }
        if forall|i: int| 0 <= i < children.len() ==> (*#[trigger] children[i]) is LiteralLeave {
            assert forall|i: int| 0 <= i < l.len() implies (*#[trigger] l[i]) is LiteralLeave by {
                assert(l[i] == children[i]);
            }
            assert((*children[children.len() - 1]) is LiteralLeave);
        }
    }
}


proof fn lemma_one_lit(index: u32, positive: bool, a: Seq<bool>)
    requires
        index < u32::MAX,
    ensures
        lits_hold(seq![((index + 1) as u32, positive)], a) == (a[index as int] == positive),
{
    let one = seq![((index + 1) as u32, positive)];
    assert(one[0] == ((index + 1) as u32, positive));
    if a[index as int] == positive {
        assert forall|i: int| 0 <= i < one.len() implies a[one[i].0 - 1] == #[trigger] one[i].1 by {
            assert(i == 0);
        }
    }
    if lits_hold(one, a) {
        assert(a[one[0].0 - 1] == one[0].1);
    }
}

/// Reading the lines the printer writes for `node` below the node numbered `parent`, along an
/// edge implying `implied`, adds to `parent` exactly what `implied` and `node` give: the edge it
/// writes holds where `implied` holds and `node` holds.
#[verifier::rlimit(60)]
pub proof fn lemma_node_reads(g: Seq<NnfLine>, node: DDNNFNode, parent: u32, implied: Seq<(u32, bool)>,
    st: PrinterState, a: Seq<bool>, r: Reading)
    requires
        print_node_spec(node, parent, implied, st) is Some,
        parent != 0,
        parent <= st.2,
        unique_ids(node),
        forall|x: u32| #[trigger] has_id(node, x) ==> !st.3.contains_key(x),
        kinds_fit(g, node_lines(node, parent, implied, st)),
        sinks_fit(g, state_of(print_node_spec(node, parent, implied, st))),
        untouched(r, st, state_of(print_node_spec(node, parent, implied, st))),
    ensures
        step_ok(r, read_from(g, node_lines(node, parent, implied, st), a, r), parent,
            lits_hold(implied, a) && eval(node, a), lits_hold(implied, a) && eval(node, a),
            st, state_of(print_node_spec(node, parent, implied, st))),
    decreases node, width(node) + 2,
{
    let st2 = state_of(print_node_spec(node, parent, implied, st));
    match node {
        DDNNFNode::TrueLeave => {
            lemma_sink_seg(st, false);
            let s = state_of(ensure_true_sink(st, false));
            let e = seq![NnfLine::Edge(parent, s.0->0, implied)];
            lemma_read_concat(g, true_sink_lines(st), e, a, r);
            lemma_read_nodes(g, true_sink_lines(st), a, read_from(g, e, a, r));
            lemma_read_edge(g, parent, s.0->0, implied, a, r);
            assert(node_value(g, s.0->0, r));
        },
        DDNNFNode::FalseLeave => {
            lemma_false_sink_seg(st);
            let s = state_of(ensure_false_sink(st));
            let e = seq![NnfLine::Edge(parent, s.1->0, Seq::<(u32, bool)>::empty())];
            lemma_read_concat(g, false_sink_lines(st), e, a, r);
            lemma_read_nodes(g, false_sink_lines(st), a, read_from(g, e, a, r));
            lemma_read_edge(g, parent, s.1->0, Seq::empty(), a, r);
            assert(!node_value(g, s.1->0, r));
        },
        DDNNFNode::LiteralLeave(_) => {},
        DDNNFNode::AndNode(_, nid) => {
            assert(has_id(node, nid));
            lemma_and_reads(g, node, parent, implied, st, a, r);
        },
        DDNNFNode::OrNode(_, nid) => {
            assert(has_id(node, nid));
            lemma_or_reads(g, node, parent, implied, st, a, r);
        },
    }
}

#[verifier::rlimit(100)]
#[verifier::spinoff_prover]
proof fn lemma_and_reads(g: Seq<NnfLine>, node: DDNNFNode, parent: u32, implied: Seq<(u32, bool)>,
    st: PrinterState, a: Seq<bool>, r: Reading)
    requires
        node is AndNode,
        !st.3.contains_key(node_id(node)),
        and_node_spec(node, parent, implied, st) is Some,
        parent != 0,
        parent <= st.2,
        unique_ids(node),
        forall|x: u32| #[trigger] has_id(node, x) ==> !st.3.contains_key(x),
        kinds_fit(g, and_lines(node, parent, implied, st)),
        sinks_fit(g, state_of(and_node_spec(node, parent, implied, st))),
        untouched(r, st, state_of(and_node_spec(node, parent, implied, st))),
    ensures
        step_ok(r, read_from(g, and_lines(node, parent, implied, st), a, r), parent,
            lits_hold(implied, a) && eval(node, a), lits_hold(implied, a) && eval(node, a),
            st, state_of(and_node_spec(node, parent, implied, st))),
    decreases node, width(node) + 1,
{
    let nid = node_id(node);
    let children = children_of(node);
    let local = child_literals(children)->0;
    let count = inner_count(children);
    let st2 = state_of(and_node_spec(node, parent, implied, st));
    lemma_child_literals(children, a);
    lemma_lits_hold_concat(local, implied, a);
    lemma_lits_hold_concat(implied, local, a);
    assert(eval(node, a) == forall|i: int| 0 <= i < children.len() ==> eval(*#[trigger] children[i], a));
    if count == 0 {
        lemma_sink_seg(st, true);
        let s = state_of(ensure_true_sink(st, true));
        let sink = s.0->0;
        let e = seq![NnfLine::Edge(parent, sink, local + implied)];
        lemma_read_concat(g, true_sink_lines(st), e, a, r);
        lemma_read_nodes(g, true_sink_lines(st), a, read_from(g, e, a, r));
        lemma_read_edge(g, parent, sink, local + implied, a, r);
        assert(node_value(g, sink, r));
        assert(eval(node, a) == lits_hold(local, a));
    } else if count == 1 {
        let ch = and_child_lines(node, 0, parent, implied + local, st);
        assert forall|i: int, x: u32| 0 <= i < width(node) && #[trigger] has_id(*children_of(node)[i], x)
            implies !st.3.contains_key(x) by {
            assert(has_id(node, x));
        }
        lemma_and_children_reads(g, node, 0, parent, implied + local, st, a, r);
        let i0 = choose|i: int| 0 <= i < children.len() && !((*#[trigger] children[i]) is LiteralLeave);
        assert(and_all(node, 0, implied + local, a) == (lits_hold(implied + local, a) && eval(*children[i0], a))) by {
            if lits_hold(implied + local, a) && eval(*children[i0], a) {
                assert forall|i: int| 0 <= i < width(node) && !((*children_of(node)[i]) is LiteralLeave)
                    implies lits_hold(implied + local, a) && eval(*#[trigger] children_of(node)[i], a) by {
                    assert(i == i0);
                }
            }
        }
        assert(and_any(node, 0, implied + local, a) == (lits_hold(implied + local, a) && eval(*children[i0], a)));
        assert(eval(node, a) == (lits_hold(local, a) && eval(*children[i0], a))) by {
            if lits_hold(local, a) && eval(*children[i0], a) {
                assert forall|i: int| 0 <= i < children.len() implies eval(*#[trigger] children[i], a) by {
                    if !((*children[i]) is LiteralLeave) {
                        assert(i == i0);
                    }
                }
            }
        }
    } else {
        let id = (st.2 + 1) as u32;
        let st1 = numbered(st, nid, id);
        let ch = and_child_lines(node, 0, id, local, st1);
        let hd = seq![NnfLine::Node('a', id)];
        let e = seq![NnfLine::Edge(parent, id, implied)];
        assert(and_lines(node, parent, implied, st) == hd + e + ch);
        lemma_and_children_keep(node, 0, id, local, st1);
        assert(st2 == state_of(and_children_spec(node, 0, id, local, st1)));
        assert forall|i: int, x: u32| 0 <= i < width(node) && #[trigger] has_id(*children_of(node)[i], x)
            implies !st1.3.contains_key(x) by {
            assert(has_id(node, x));
            assert(!has_id(*children_of(node)[i], nid));
        }
        lemma_kinds_split(g, hd + e, ch);
        lemma_kinds_split(g, hd, e);
        let rc = read_from(g, ch, a, r);
        lemma_and_children_reads(g, node, 0, id, local, st1, a, r);
        lemma_read_concat(g, hd + e, ch, a, r);
        lemma_read_concat(g, hd, e, a, rc);
        lemma_read_nodes(g, hd, a, read_from(g, e, a, rc));
        lemma_read_edge(g, parent, id, implied, a, rc);
        assert(hd[0] is Node);
        assert(node_value(g, id, rc) == (rc.0)(id));
        assert((r.0)(id));
        let i1 = choose|i: int| 0 <= i < children.len() && !((*#[trigger] children[i]) is LiteralLeave);
        assert(and_all(node, 0, local, a) == eval(node, a)) by {
            if and_all(node, 0, local, a) {
                assert(lits_hold(local, a) && eval(*children_of(node)[i1], a));
                assert forall|i: int| 0 <= i < children.len() implies eval(*#[trigger] children[i], a) by {
                    if !((*children[i]) is LiteralLeave) {
                        assert(lits_hold(local, a) && eval(*children_of(node)[i], a));
                    }
                }
            }
            if eval(node, a) {
                assert(eval(*children[i1], a));
                assert(lits_hold(local, a));
                assert forall|i: int| 0 <= i < width(node) && !((*children_of(node)[i]) is LiteralLeave)
                    implies lits_hold(local, a) && eval(*#[trigger] children_of(node)[i], a) by {
                    assert(eval(*children[i], a));
                }
            }
        }
    }
}

#[verifier::rlimit(100)]
#[verifier::spinoff_prover]
proof fn lemma_and_children_reads(g: Seq<NnfLine>, node: DDNNFNode, k: int, q: u32, lits: Seq<(u32, bool)>,
    st: PrinterState, a: Seq<bool>, r: Reading)
    requires
        and_children_spec(node, k, q, lits, st) is Some,
        0 <= k,
        q != 0,
        q <= st.2,
        unique_ids(node),
        forall|i: int, x: u32| k <= i < width(node) && #[trigger] has_id(*children_of(node)[i], x) ==> !st.3.contains_key(x),
        kinds_fit(g, and_child_lines(node, k, q, lits, st)),
        sinks_fit(g, state_of(and_children_spec(node, k, q, lits, st))),
        untouched(r, st, state_of(and_children_spec(node, k, q, lits, st))),
    ensures
        step_ok(r, read_from(g, and_child_lines(node, k, q, lits, st), a, r), q,
            and_all(node, k, lits, a), and_any(node, k, lits, a), st, state_of(and_children_spec(node, k, q, lits, st))),
    decreases node, width(node) - k,
{
    let end = state_of(and_children_spec(node, k, q, lits, st));
    if 0 <= k < width(node) {
        let c = *children_of(node)[k];
        assert(unique_ids(c));
        if c is LiteralLeave {
            lemma_and_children_reads(g, node, k + 1, q, lits, st, a, r);
            assert(and_all(node, k, lits, a) == and_all(node, k + 1, lits, a)) by {
                if and_all(node, k + 1, lits, a) {
                    assert forall|i: int| k <= i < width(node) && !((*children_of(node)[i]) is LiteralLeave)
                        implies lits_hold(lits, a) && eval(*#[trigger] children_of(node)[i], a) by {
                        assert(i != k);
                    }
                }
            }
            assert(and_any(node, k, lits, a) == and_any(node, k + 1, lits, a));
        } else {
            let s = state_of(print_node_spec(c, q, lits, st));
            let seg = node_lines(c, q, lits, st);
            let rest = and_child_lines(node, k + 1, q, lits, s);
            lemma_print_keeps_numbers(c, q, lits, st);
            lemma_node_seg(c, q, lits, st);
            lemma_and_children_keep(node, k + 1, q, lits, s);
            lemma_kinds_split(g, seg, rest);
            assert forall|i: int, x: u32| k + 1 <= i < width(node) && #[trigger] has_id(*children_of(node)[i], x)
                implies !s.3.contains_key(x) by {
                assert(!st.3.contains_key(x));
                assert(!has_id(*children_of(node)[k], x));
            }
            assert(end == state_of(and_children_spec(node, k + 1, q, lits, s)));
            lemma_and_children_reads(g, node, k + 1, q, lits, s, a, r);
            let rr = read_from(g, rest, a, r);
            assert forall|x: u32| #[trigger] has_id(c, x) implies !st.3.contains_key(x) by {
                assert(has_id(*children_of(node)[k], x));
            }
            assert(untouched(rr, st, s)) by {
                assert forall|x: u32| #![trigger (rr.0)(x)] #![trigger (rr.1)(x)] st.2 < x <= s.2 implies (rr.0)(x) && !(rr.1)(x) by {
                    assert((r.0)(x) && !(r.1)(x));
                }
            }
            lemma_node_reads(g, c, q, lits, st, a, rr);
            lemma_read_concat(g, seg, rest, a, r);
            let tc = lits_hold(lits, a) && eval(c, a);
            assert(and_all(node, k, lits, a) == (tc && and_all(node, k + 1, lits, a))) by {
                if tc && and_all(node, k + 1, lits, a) {
                    assert forall|i: int| k <= i < width(node) && !((*children_of(node)[i]) is LiteralLeave)
                        implies lits_hold(lits, a) && eval(*#[trigger] children_of(node)[i], a) by {
                        if i == k {
                        }
                    }
                }
            }
            assert(and_any(node, k, lits, a) == (tc || and_any(node, k + 1, lits, a))) by {
                if and_any(node, k, lits, a) && !tc {
                    let i = choose|i: int| k <= i < width(node) && !((*children_of(node)[i]) is LiteralLeave)
                        && lits_hold(lits, a) && eval(*#[trigger] children_of(node)[i], a);
                    assert(i != k);
                }
            }
        }
    } else {
        assert(and_all(node, k, lits, a));
        assert(!and_any(node, k, lits, a));
        assert(and_child_lines(node, k, q, lits, st) =~= Seq::<NnfLine>::empty());
    }
}

#[verifier::rlimit(80)]
#[verifier::spinoff_prover]
proof fn lemma_or_reads(g: Seq<NnfLine>, node: DDNNFNode, parent: u32, implied: Seq<(u32, bool)>,
    st: PrinterState, a: Seq<bool>, r: Reading)
    requires
        node is OrNode,
        !st.3.contains_key(node_id(node)),
        or_node_spec(node, parent, implied, st) is Some,
        parent != 0,
        parent <= st.2,
        unique_ids(node),
        forall|x: u32| #[trigger] has_id(node, x) ==> !st.3.contains_key(x),
        kinds_fit(g, or_lines(node, parent, implied, st)),
        sinks_fit(g, state_of(or_node_spec(node, parent, implied, st))),
        untouched(r, st, state_of(or_node_spec(node, parent, implied, st))),
    ensures
        step_ok(r, read_from(g, or_lines(node, parent, implied, st), a, r), parent,
            lits_hold(implied, a) && eval(node, a), lits_hold(implied, a) && eval(node, a),
            st, state_of(or_node_spec(node, parent, implied, st))),
    decreases node, width(node) + 1,
{
    let nid = node_id(node);
    let children = children_of(node);
    let id = (st.2 + 1) as u32;
    let st1 = numbered(st, nid, id);
    let none: Seq<(u32, bool)> = Seq::empty();
    let ch = or_child_lines(node, 0, id, none, st1);
    let hd = seq![NnfLine::Node('o', id)];
    let e = seq![NnfLine::Edge(parent, id, implied)];
    assert(or_lines(node, parent, implied, st) == hd + e + ch);
    lemma_or_children_keep(node, 0, id, none, st1);
    assert(state_of(or_node_spec(node, parent, implied, st)) == state_of(or_children_spec(node, 0, id, none, st1)));
    assert forall|i: int, x: u32| 0 <= i < width(node) && #[trigger] has_id(*children_of(node)[i], x)
        implies !st1.3.contains_key(x) by {
        assert(has_id(node, x));
        assert(!has_id(*children_of(node)[i], nid));
    }
    lemma_kinds_split(g, hd + e, ch);
    lemma_kinds_split(g, hd, e);
    let rc = read_from(g, ch, a, r);
    lemma_or_children_reads(g, node, 0, id, none, st1, a, r);
    lemma_read_concat(g, hd + e, ch, a, r);
    lemma_read_concat(g, hd, e, a, rc);
    lemma_read_nodes(g, hd, a, read_from(g, e, a, rc));
    lemma_read_edge(g, parent, id, implied, a, rc);
    assert(hd[0] is Node);
    assert(node_value(g, id, rc) == (rc.1)(id));
    assert(!(r.1)(id));
    assert(lits_hold(none, a));
    assert(any_from(node, 0, none, a) == eval(node, a));
}

#[verifier::rlimit(100)]
#[verifier::spinoff_prover]
proof fn lemma_or_children_reads(g: Seq<NnfLine>, node: DDNNFNode, k: int, id: u32, lits: Seq<(u32, bool)>,
    st: PrinterState, a: Seq<bool>, r: Reading)
    requires
        or_children_spec(node, k, id, lits, st) is Some,
        0 <= k,
        id != 0,
        id <= st.2,
        unique_ids(node),
        forall|i: int, x: u32| k <= i < width(node) && #[trigger] has_id(*children_of(node)[i], x) ==> !st.3.contains_key(x),
        kinds_fit(g, or_child_lines(node, k, id, lits, st)),
        sinks_fit(g, state_of(or_children_spec(node, k, id, lits, st))),
        untouched(r, st, state_of(or_children_spec(node, k, id, lits, st))),
    ensures
        step_ok(r, read_from(g, or_child_lines(node, k, id, lits, st), a, r), id,
            all_from(node, k, lits, a), any_from(node, k, lits, a), st, state_of(or_children_spec(node, k, id, lits, st))),
    decreases node, width(node) - k,
{
    let end = state_of(or_children_spec(node, k, id, lits, st));
    if 0 <= k < width(node) {
        let c = *children_of(node)[k];
        assert(unique_ids(c));
        let tc = lits_hold(lits, a) && eval(c, a);
        assert(all_from(node, k, lits, a) == (tc && all_from(node, k + 1, lits, a))) by {
            if tc && all_from(node, k + 1, lits, a) {
                assert forall|i: int| k <= i < width(node)
                    implies lits_hold(lits, a) && eval(*#[trigger] children_of(node)[i], a) by {
                    if i == k {
                    }
                }
            }
        }
        assert(any_from(node, k, lits, a) == (tc || any_from(node, k + 1, lits, a))) by {
            if any_from(node, k, lits, a) && !tc {
                let i = choose|i: int| k <= i < width(node) && lits_hold(lits, a) && eval(*#[trigger] children_of(node)[i], a);
                assert(i != k);
            }
        }
        match c {
            DDNNFNode::LiteralLeave(l) => {
                lemma_sink_seg(st, true);
                let s = state_of(ensure_true_sink(st, true));
                let lit = ((l.index + 1) as u32, l.positive);
                let e = seq![NnfLine::Edge(id, s.0->0, seq![lit] + lits)];
                let rest = or_child_lines(node, k + 1, id, lits, s);
                lemma_or_children_keep(node, k + 1, id, lits, s);
                lemma_kinds_split(g, true_sink_lines(st) + e, rest);
                assert forall|i: int, x: u32| k + 1 <= i < width(node) && #[trigger] has_id(*children_of(node)[i], x)
                    implies !s.3.contains_key(x) by {
                    assert(!st.3.contains_key(x));
                }
                assert(end == state_of(or_children_spec(node, k + 1, id, lits, s)));
                lemma_or_children_reads(g, node, k + 1, id, lits, s, a, r);
                let rr = read_from(g, rest, a, r);
                lemma_read_concat(g, true_sink_lines(st) + e, rest, a, r);
                lemma_read_concat(g, true_sink_lines(st), e, a, rr);
                lemma_read_nodes(g, true_sink_lines(st), a, read_from(g, e, a, rr));
                lemma_read_edge(g, id, s.0->0, seq![lit] + lits, a, rr);
                assert(node_value(g, s.0->0, rr));
                lemma_one_lit(l.index, l.positive, a);
                lemma_lits_hold_concat(seq![lit], lits, a);
            },
            _ => {
                let s = state_of(print_node_spec(c, id, lits, st));
                let seg = node_lines(c, id, lits, st);
                let rest = or_child_lines(node, k + 1, id, lits, s);
                lemma_print_keeps_numbers(c, id, lits, st);
                lemma_node_seg(c, id, lits, st);
                lemma_or_children_keep(node, k + 1, id, lits, s);
                lemma_kinds_split(g, seg, rest);
                assert forall|i: int, x: u32| k + 1 <= i < width(node) && #[trigger] has_id(*children_of(node)[i], x)
                    implies !s.3.contains_key(x) by {
                    assert(!st.3.contains_key(x));
                    assert(!has_id(*children_of(node)[k], x));
                }
                assert(end == state_of(or_children_spec(node, k + 1, id, lits, s)));
                lemma_or_children_reads(g, node, k + 1, id, lits, s, a, r);
                let rr = read_from(g, rest, a, r);
                assert forall|x: u32| #[trigger] has_id(c, x) implies !st.3.contains_key(x) by {
                    assert(has_id(*children_of(node)[k], x));
                }
                assert(untouched(rr, st, s)) by {
                    assert forall|x: u32| #![trigger (rr.0)(x)] #![trigger (rr.1)(x)] st.2 < x <= s.2 implies (rr.0)(x) && !(rr.1)(x) by {
                        assert((r.0)(x) && !(r.1)(x));
                    }
                }
                lemma_node_reads(g, c, id, lits, st, a, rr);
                lemma_read_concat(g, seg, rest, a, r);
            },
        }
    } else {
        assert(all_from(node, k, lits, a));
        assert(!any_from(node, k, lits, a));
        assert(or_child_lines(node, k, id, lits, st) =~= Seq::<NnfLine>::empty());
    }
}


/// An and-node with a non-literal child holds exactly where its literal leaves hold together
/// with each of its other children.
#[verifier::rlimit(40)]
proof fn lemma_and_all_eval(node: DDNNFNode, a: Seq<bool>)
    requires
        node is AndNode,
        child_literals(children_of(node)) is Some,
        inner_count(children_of(node)) >= 1,
    ensures
        and_all(node, 0, child_literals(children_of(node))->0, a) == eval(node, a),
{
    let children = children_of(node);
    let local = child_literals(children)->0;
    lemma_child_literals(children, a);
    assert(eval(node, a) == forall|i: int| 0 <= i < children.len() ==> eval(*#[trigger] children[i], a));
    let i1 = choose|i: int| 0 <= i < children.len() && !((*#[trigger] children[i]) is LiteralLeave);
    if and_all(node, 0, local, a) {
        assert(lits_hold(local, a) && eval(*children_of(node)[i1], a));
        assert forall|i: int| 0 <= i < children.len() implies eval(*#[trigger] children[i], a) by {
            if !((*children[i]) is LiteralLeave) {
                assert(lits_hold(local, a) && eval(*children_of(node)[i], a));
            }
        }
    }
    if eval(node, a) {
        assert(eval(*children[i1], a));
        assert(lits_hold(local, a));
        assert forall|i: int| 0 <= i < width(node) && !((*children_of(node)[i]) is LiteralLeave)
            implies lits_hold(local, a) && eval(*#[trigger] children_of(node)[i], a) by {
            assert(eval(*children[i], a));
        }
    }
}

/// A text whose node lines number nodes once, made from a state with no sink, declares every
/// node and every sink with its own kind alone.
#[verifier::rlimit(40)]
proof fn lemma_kinds_of_whole(ls: Seq<NnfLine>, st: PrinterState, st2: PrinterState)
    requires
        seg_ok(ls, st, st2),
        st.0 is None,
        st.1 is None,
    ensures
        kinds_fit(ls, ls),
        sinks_fit(ls, st2),
{
    assert forall|j: int| 0 <= j < ls.len() && (#[trigger] ls[j]) is Node implies {
        let k = ls[j]->Node_0;
        let x = ls[j]->Node_1;
        &&& declares(ls, k, x)
        &&& (k != 't' ==> !declares(ls, 't', x))
        &&& (k != 'f' ==> !declares(ls, 'f', x))
        &&& (k != 'a' ==> !declares(ls, 'a', x))
    } by {
        let k = ls[j]->Node_0;
        let x = ls[j]->Node_1;
        assert(ls[j] == NnfLine::Node(k, x));
        if k != 't' && declares(ls, 't', x) {
            let j2 = choose|j2: int| 0 <= j2 < ls.len() && ls[j2] == NnfLine::Node('t', x);
            assert(ls[j2] is Node);
        }
        if k != 'f' && declares(ls, 'f', x) {
            let j2 = choose|j2: int| 0 <= j2 < ls.len() && ls[j2] == NnfLine::Node('f', x);
            assert(ls[j2] is Node);
        }
        if k != 'a' && declares(ls, 'a', x) {
            let j2 = choose|j2: int| 0 <= j2 < ls.len() && ls[j2] == NnfLine::Node('a', x);
            assert(ls[j2] is Node);
        }
    }
    if st2.1 is Some {
        let y = st2.1->0;
        let j = choose|j: int| 0 <= j < ls.len() && ls[j] == NnfLine::Node('f', y);
        if declares(ls, 't', y) {
            let j2 = choose|j2: int| 0 <= j2 < ls.len() && ls[j2] == NnfLine::Node('t', y);
            assert(ls[j2] is Node && ls[j] is Node);
        }
    }
}

/// What reading gives before any edge is read: for every node, all of its edges (none) hold and
/// none of them does.
pub open spec fn nothing_read() -> Reading {
    (|x: u32| true, |x: u32| false)
}

#[verifier::rlimit(80)]
proof fn lemma_root_reads(root: DDNNFNode, st: PrinterState, a: Seq<bool>)
    requires
        st.0 is None,
        st.1 is None,
        st.2 == 0,
        st.3 == Map::<u32, u32>::empty(),
        unique_ids(root),
        !(root is FalseLeave),
        print_node_spec(root, 0, Seq::empty(), st) is Some,
        !(root is AndNode && inner_count(children_of(root)) == 0),
    ensures
        text_holds(node_lines(root, 0, Seq::empty(), st), a) == eval(root, a),
{
    let none: Seq<(u32, bool)> = Seq::empty();
    let ls = node_lines(root, 0, none, st);
    let st2 = state_of(print_node_spec(root, 0, none, st));
    lemma_node_seg(root, 0, none, st);
    lemma_kinds_of_whole(ls, st, st2);
    let init = nothing_read();
    assert(init == (|x: u32| true, |x: u32| false));
    match root {
        DDNNFNode::TrueLeave => {
            assert(ls[0] == NnfLine::Node('t', 1));
        },
        DDNNFNode::FalseLeave => {},
        DDNNFNode::LiteralLeave(_) => {},
        DDNNFNode::AndNode(_, nid) => {
            let children = children_of(root);
            let local = child_literals(children)->0;
            let count = inner_count(children);
            let st1 = numbered(st, nid, 1);
            let lits: Seq<(u32, bool)> = if count == 1 { none + local } else { local };
            assert(none + local =~= local);
            let hd = seq![NnfLine::Node('a', 1)];
            let ch = and_child_lines(root, 0, 1, lits, st1);
            if count == 1 {
                assert(ls == hd + ch);
            } else {
                assert(hd + Seq::<NnfLine>::empty() =~= hd);
                assert(ls == hd + ch);
            }
            assert(ls[0] == NnfLine::Node('a', 1));
            lemma_kinds_split(ls, hd, ch);
            lemma_and_children_keep(root, 0, 1, lits, st1);
            assert(st2 == state_of(and_children_spec(root, 0, 1, lits, st1)));
            assert forall|i: int, x: u32| 0 <= i < width(root) && #[trigger] has_id(*children_of(root)[i], x)
                implies !st1.3.contains_key(x) by {
                assert(!has_id(*children_of(root)[i], nid));
            }
            lemma_and_children_reads(ls, root, 0, 1, lits, st1, a, init);
            lemma_read_concat(ls, hd, ch, a, init);
            lemma_read_nodes(ls, hd, a, read_from(ls, ch, a, init));
            lemma_and_all_eval(root, a);
        },
        DDNNFNode::OrNode(_, nid) => {
            let st1 = numbered(st, nid, 1);
            let hd = seq![NnfLine::Node('o', 1)];
            let ch = or_child_lines(root, 0, 1, none, st1);
            assert(hd + Seq::<NnfLine>::empty() =~= hd);
            assert(ls == hd + ch);
            assert(ls[0] == NnfLine::Node('o', 1));
            lemma_kinds_split(ls, hd, ch);
            lemma_or_children_keep(root, 0, 1, none, st1);
            assert(st2 == state_of(or_children_spec(root, 0, 1, none, st1)));
            assert forall|i: int, x: u32| 0 <= i < width(root) && #[trigger] has_id(*children_of(root)[i], x)
                implies !st1.3.contains_key(x) by {
                assert(!has_id(*children_of(root)[i], nid));
            }
            lemma_or_children_reads(ls, root, 0, 1, none, st1, a, init);
            lemma_read_concat(ls, hd, ch, a, init);
            lemma_read_nodes(ls, hd, a, read_from(ls, ch, a, init));
            assert(lits_hold(none, a));
        },
    }
}


/// The text a false root is printed as: an or-node whose only edge, to the false sink, carries
/// the literal `x1`.
#[verifier::rlimit(80)]
proof fn lemma_false_root(st: PrinterState, a: Seq<bool>)
    requires
        print_spec(DDNNFNode::FalseLeave, st) is Some,
    ensures
        ({
            let ls = seq![NnfLine::Node('o', 1), NnfLine::Node('f', 2), NnfLine::Edge(1, 2, seq![(1u32, true)])];
            &&& nnf_text(ls) == text_of(print_spec(DDNNFNode::FalseLeave, st))
            &&& !text_holds(ls, a)
        }),
{
    let ls = seq![NnfLine::Node('o', 1), NnfLine::Node('f', 2), NnfLine::Edge(1, 2, seq![(1u32, true)])];
    reveal_strlit("o 1 0\n");
    reveal_strlit("f 2 0\n");
    reveal_strlit("1 2 1 0\n");
    reveal_with_fuel(nnf_text, 4);
    reveal_with_fuel(lits_text, 2);
    assert(decimal(1) =~= seq!['1']);
    assert(decimal(2) =~= seq!['2']);
    assert(ls.drop_last().drop_last().drop_last() =~= Seq::<NnfLine>::empty());
    assert(ls.drop_last().drop_last() =~= seq![NnfLine::Node('o', 1)]);
    assert(ls.drop_last() =~= seq![NnfLine::Node('o', 1), NnfLine::Node('f', 2)]);
    assert(seq![(1u32, true)].drop_last() =~= Seq::<(u32, bool)>::empty());
    assert(nnf_text(ls) =~= "o 1 0\n"@ + "f 2 0\n"@ + "1 2 1 0\n"@);
    let init = nothing_read();
    let e = seq![NnfLine::Edge(1, 2, seq![(1u32, true)])];
    let hd = seq![NnfLine::Node('o', 1), NnfLine::Node('f', 2)];
    assert(ls == hd + e);
    lemma_read_concat(ls, hd, e, a, init);
    assert forall|j: int| 0 <= j < hd.len() implies (#[trigger] hd[j]) is Node by {}
    lemma_read_nodes(ls, hd, a, read_from(ls, e, a, init));
    lemma_read_edge(ls, 1, 2, seq![(1u32, true)], a, init);
    assert(ls[1] == NnfLine::Node('f', 2));
    assert(ls[0] == NnfLine::Node('o', 1));
    assert(!declares(ls, 't', 2));
    assert(!node_value(ls, 2, init));
    assert(!declares(ls, 't', 1));
    assert(!declares(ls, 'f', 1));
    assert(!declares(ls, 'a', 1));
}

/// Printing a d-DNNF with a fresh printer writes a text that, read back, means what the d-DNNF
/// means. The text is made of lines, and every list of lines (with node kinds `t`, `f`, `a` and
/// `o`) whose text it is holds under exactly the assignments under which the d-DNNF holds: node 1
/// is the root, an edge holds where its literals and its child hold, an and-node holds where all
/// its edges do and an or-node where one does. Every inner node must have an identifier of its
/// own (the printer writes a node met again as an edge to its first copy), and a root and-node
/// needs a child that is not a literal leaf (for one of literal leaves alone the printer numbers
/// the true sink first).
#[verifier::rlimit(60)]
pub proof fn lemma_printed_text_means_node(root: DDNNFNode, st: PrinterState)
    requires
        st.0 is None,
        st.1 is None,
        st.2 == 0,
        st.3 == Map::<u32, u32>::empty(),
        unique_ids(root),
        print_spec(root, st) is Some,
        !(root is AndNode && inner_count(children_of(root)) == 0),
    ensures
        exists|ls: Seq<NnfLine>| #[trigger] nnf_text(ls) == text_of(print_spec(root, st)) && well_kinded(ls),
        forall|ls: Seq<NnfLine>, a: Seq<bool>| well_kinded(ls) && nnf_text(ls) == text_of(print_spec(root, st))
            ==> #[trigger] text_holds(ls, a) == eval(root, a),
{
    let ls0 = if root is FalseLeave {
        seq![NnfLine::Node('o', 1), NnfLine::Node('f', 2), NnfLine::Edge(1, 2, seq![(1u32, true)])]
    } else {
        node_lines(root, 0, Seq::empty(), st)
    };
    if root is FalseLeave {
        assert forall|a: Seq<bool>| #[trigger] text_holds(ls0, a) == eval(root, a) by {
            lemma_false_root(st, a);
        }
        lemma_false_root(st, Seq::empty());
        assert(well_kinded(ls0));
    } else {
        let none: Seq<(u32, bool)> = Seq::empty();
        lemma_node_text(root, 0, none, st);
        lemma_node_seg(root, 0, none, st);
        assert forall|a: Seq<bool>| #[trigger] text_holds(ls0, a) == eval(root, a) by {
            lemma_root_reads(root, st, a);
        }
    }
    assert(nnf_text(ls0) == text_of(print_spec(root, st)) && well_kinded(ls0));
    assert forall|ls: Seq<NnfLine>, a: Seq<bool>| well_kinded(ls) && nnf_text(ls) == text_of(print_spec(root, st))
        implies #[trigger] text_holds(ls, a) == eval(root, a) by {
        lemma_nnf_text_inj(ls, ls0);
        assert(text_holds(ls0, a) == eval(root, a));
    }
}

/// A fresh printer writes a root and-node whose children are all literal leaves as the true sink,
/// numbered 1, then the and-node, numbered 2, with one edge to the sink labelled by the literals.
/// Read back, the text declares node 2 an and-node, and node 2 holds under exactly the
/// assignments under which the root holds.
#[verifier::rlimit(40)]
pub proof fn lemma_printed_literal_conjunction(root: DDNNFNode, st: PrinterState)
    requires
        st.0 is None,
        st.1 is None,
        st.2 == 0,
        st.3 == Map::<u32, u32>::empty(),
        print_spec(root, st) is Some,
        root is AndNode,
        inner_count(children_of(root)) == 0,
    ensures
        exists|ls: Seq<NnfLine>| #[trigger] nnf_text(ls) == text_of(print_spec(root, st)) && well_kinded(ls),
        forall|ls: Seq<NnfLine>| well_kinded(ls) && nnf_text(ls) == text_of(print_spec(root, st))
            ==> #[trigger] declares(ls, 'a', 2),
        forall|ls: Seq<NnfLine>, a: Seq<bool>| well_kinded(ls) && nnf_text(ls) == text_of(print_spec(root, st))
            ==> #[trigger] node_value(ls, 2, read_from(ls, ls, a, nothing_read())) == eval(root, a),
{
    let none: Seq<(u32, bool)> = Seq::empty();
    let children = children_of(root);
    let local = child_literals(children)->0;
    lemma_node_text(root, 0, none, st);
    let ls0 = node_lines(root, 0, none, st);
    let nodes = seq![NnfLine::Node('t', 1), NnfLine::Node('a', 2)];
    let e = seq![NnfLine::Edge(2, 1, local + none)];
    assert(ls0 =~= nodes + e);
    assert(local + none =~= local);
    assert(well_kinded(ls0));
    assert(nnf_text(ls0) == text_of(print_spec(root, st)));
    assert(declares(ls0, 'a', 2)) by {
        assert(ls0[1] == NnfLine::Node('a', 2));
    }
    assert(declares(ls0, 't', 1)) by {
        assert(ls0[0] == NnfLine::Node('t', 1));
    }
    assert(!declares(ls0, 't', 2) && !declares(ls0, 'f', 2)) by {
        assert forall|j: int| 0 <= j < ls0.len() implies ls0[j] != NnfLine::Node('t', 2) && ls0[j] != NnfLine::Node('f', 2) by {
            if j == 0 {
            } else if j == 1 {
            } else {
                assert(ls0[j] is Edge);
            }
        }
    }
    assert forall|a: Seq<bool>| #[trigger] node_value(ls0, 2, read_from(ls0, ls0, a, nothing_read())) == eval(root, a) by {
        let r = nothing_read();
        lemma_read_concat(ls0, nodes, e, a, r);
        assert forall|j: int| 0 <= j < nodes.len() implies (#[trigger] nodes[j]) is Node by {}
        lemma_read_nodes(ls0, nodes, a, read_from(ls0, e, a, r));
        lemma_read_edge(ls0, 2, 1, local, a, r);
        assert(node_value(ls0, 1, r));
        lemma_child_literals(children, a);
        assert(eval(root, a) == forall|i: int| 0 <= i < children.len() ==> eval(*#[trigger] children[i], a));
        assert(eval(root, a) == lits_hold(local, a));
    }
    assert forall|ls: Seq<NnfLine>| well_kinded(ls) && nnf_text(ls) == text_of(print_spec(root, st))
        implies #[trigger] declares(ls, 'a', 2) by {
        lemma_nnf_text_inj(ls, ls0);
    }
    assert forall|ls: Seq<NnfLine>, a: Seq<bool>| well_kinded(ls) && nnf_text(ls) == text_of(print_spec(root, st))
        implies #[trigger] node_value(ls, 2, read_from(ls, ls, a, nothing_read())) == eval(root, a) by {
        lemma_nnf_text_inj(ls, ls0);
        assert(node_value(ls0, 2, read_from(ls0, ls0, a, nothing_read())) == eval(root, a));
    }
}

/// A decimal digit character.
pub open spec fn is_digit(ch: char) -> bool {
    ch == '0' || ch == '1' || ch == '2' || ch == '3' || ch == '4' || ch == '5' || ch == '6' || ch == '7'
        || ch == '8' || ch == '9'
}

/// No character of `s` but perhaps its last one is `c`.
pub open spec fn sep_last(s: Seq<char>, c: char) -> bool {
    forall|i: int| 0 <= i < s.len() - 1 ==> s[i] != c
}

/// No character of `s` is `c`.
pub open spec fn no_char(s: Seq<char>, c: char) -> bool {
    forall|i: int| 0 <= i < s.len() ==> s[i] != c
}

#[verifier::rlimit(40)]
proof fn lemma_split_last(x: Seq<char>, s1: Seq<char>, y: Seq<char>, s2: Seq<char>, c: char)
    requires
        x + s1 == y + s2,
        s1.len() > 0,
        s2.len() > 0,
        sep_last(s1, c),
        sep_last(s2, c),
        x.len() > 0 ==> x.last() == c,
        y.len() > 0 ==> y.last() == c,
    ensures
        s1 == s2,
        x == y,
{
    let t = x + s1;
    assert(t.len() == (y + s2).len());
    if s1.len() < s2.len() {
        if x.len() == 0 {
            assert(t.len() == s1.len());
            assert((y + s2).len() >= s2.len());
            assert(false);
        } else {
            let idx = x.len() - 1;
            assert(t[idx] == x[idx]);
            assert(idx >= y.len());
            assert((y + s2)[idx] == s2[idx - y.len()]);
            assert(idx - y.len() < s2.len() - 1);
            assert(x[idx] == x.last());
            assert(false);
        }
    } else if s2.len() < s1.len() {
        if y.len() == 0 {
            assert((y + s2).len() == s2.len());
            assert(false);
        } else {
            let idx = y.len() - 1;
            assert((y + s2)[idx] == y[idx]);
            assert(idx >= x.len());
            assert(t[idx] == s1[idx - x.len()]);
            assert(idx - x.len() < s1.len() - 1);
            assert(y[idx] == y.last());
            assert(false);
        }
    }
    assert(s1.len() == s2.len());
    assert(x.len() == y.len());
    assert(s1 =~= t.subrange(x.len() as int, t.len() as int));
    assert(s2 =~= (y + s2).subrange(y.len() as int, t.len() as int));
    assert(x =~= t.subrange(0, x.len() as int));
    assert(y =~= (y + s2).subrange(0, y.len() as int));
}

#[verifier::rlimit(40)]
proof fn lemma_split_first(a1: Seq<char>, r1: Seq<char>, a2: Seq<char>, r2: Seq<char>, c: char)
    requires
        a1 + seq![c] + r1 == a2 + seq![c] + r2,
        no_char(a1, c),
        no_char(a2, c),
    ensures
        a1 == a2,
        r1 == r2,
{
    let t = a1 + seq![c] + r1;
    let u = a2 + seq![c] + r2;
    if a1.len() < a2.len() {
        assert(t[a1.len() as int] == c);
        assert(u[a1.len() as int] == a2[a1.len() as int]);
    } else if a2.len() < a1.len() {
        assert(u[a2.len() as int] == c);
        assert(t[a2.len() as int] == a1[a2.len() as int]);
    }
    assert(a1 =~= t.subrange(0, a1.len() as int));
    assert(a2 =~= u.subrange(0, a2.len() as int));
    assert(r1 =~= t.subrange(a1.len() as int + 1, t.len() as int));
    assert(r2 =~= u.subrange(a2.len() as int + 1, u.len() as int));
}

proof fn lemma_decimal_digits(n: nat)
    ensures
        decimal(n).len() >= 1,
        n >= 10 ==> decimal(n).len() >= 2,
        forall|i: int| 0 <= i < decimal(n).len() ==> is_digit(#[trigger] decimal(n)[i]),
    decreases n,
{
    if n >= 10 {
        lemma_decimal_digits(n / 10);
        let p = decimal(n / 10);
        assert forall|i: int| 0 <= i < decimal(n).len() implies is_digit(#[trigger] decimal(n)[i]) by {
            if i < p.len() {
                assert(decimal(n)[i] == p[i]);
            }
        }
    }
}

#[verifier::rlimit(40)]
proof fn lemma_decimal_inj(n: nat, m: nat)
    requires
        decimal(n) == decimal(m),
    ensures
        n == m,
    decreases n,
{
    lemma_decimal_digits(n);
    lemma_decimal_digits(m);
    if n >= 10 && m >= 10 {
        let dn = decimal(n);
        assert(dn.last() == crate::text::digit_char(n % 10));
        assert(decimal(m).last() == crate::text::digit_char(m % 10));
        lemma_digit_inj(n % 10, m % 10);
        assert(decimal(n / 10) =~= dn.drop_last());
        assert(decimal(m / 10) =~= decimal(m).drop_last());
        lemma_decimal_inj(n / 10, m / 10);
        assert(n == 10 * (n / 10) + n % 10);
        assert(m == 10 * (m / 10) + m % 10);
    } else if n < 10 && m < 10 {
        assert(decimal(n)[0] == crate::text::digit_char(n));
        assert(decimal(m)[0] == crate::text::digit_char(m));
        lemma_digit_inj(n, m);
    }
}

proof fn lemma_digit_inj(d1: nat, d2: nat)
    requires
        d1 < 10,
        d2 < 10,
        crate::text::digit_char(d1) == crate::text::digit_char(d2),
    ensures
        d1 == d2,
{
}

/// The characters of literals as text: digits, `-` and spaces, the last one a space.
#[verifier::rlimit(40)]
proof fn lemma_lits_text_chars(lits: Seq<(u32, bool)>)
    ensures
        lits.len() == 0 <==> lits_text(lits).len() == 0,
        lits.len() > 0 ==> lits_text(lits).last() == ' ',
        forall|i: int| 0 <= i < lits_text(lits).len() ==> {
            let ch = #[trigger] lits_text(lits)[i];
            is_digit(ch) || ch == '-' || ch == ' '
        },
    decreases lits.len(),
{
    if lits.len() > 0 {
        lemma_lits_text_chars(lits.drop_last());
        lemma_decimal_digits(lits.last().0 as nat);
        let p = lits_text(lits.drop_last());
        let sg: Seq<char> = if lits.last().1 { Seq::empty() } else { seq!['-'] };
        let d = decimal(lits.last().0 as nat);
        let t = lits_text(lits);
        assert(t == p + sg + d + seq![' ']);
        assert forall|i: int| 0 <= i < t.len() implies {
            let ch = #[trigger] t[i];
            is_digit(ch) || ch == '-' || ch == ' '
        } by {
            if i < p.len() {
                assert(t[i] == p[i]);
            } else if i < p.len() + sg.len() {
                assert(t[i] == sg[i - p.len()]);
            } else if i < p.len() + sg.len() + d.len() {
                assert(t[i] == d[i - p.len() - sg.len()]);
            }
        }
    }
}

#[verifier::rlimit(100)]
#[verifier::spinoff_prover]
proof fn lemma_lits_text_inj(l1: Seq<(u32, bool)>, l2: Seq<(u32, bool)>)
    requires
        lits_text(l1) == lits_text(l2),
    ensures
        l1 == l2,
    decreases l1.len(),
{
    lemma_lits_text_chars(l1);
    lemma_lits_text_chars(l2);
    if l1.len() > 0 {
        let p1 = l1.drop_last();
        let p2 = l2.drop_last();
        lemma_lits_text_chars(p1);
        lemma_lits_text_chars(p2);
        let sg1: Seq<char> = if l1.last().1 { Seq::empty() } else { seq!['-'] };
        let sg2: Seq<char> = if l2.last().1 { Seq::empty() } else { seq!['-'] };
        let d1 = decimal(l1.last().0 as nat);
        let d2 = decimal(l2.last().0 as nat);
        lemma_decimal_digits(l1.last().0 as nat);
        lemma_decimal_digits(l2.last().0 as nat);
        let t1 = sg1 + d1 + seq![' '];
        let t2 = sg2 + d2 + seq![' '];
        assert(lits_text(l1) == lits_text(p1) + t1);
        assert(lits_text(l2) == lits_text(p2) + t2);
        assert forall|i: int| 0 <= i < t1.len() - 1 implies t1[i] != ' ' by {
            if i < sg1.len() { assert(t1[i] == sg1[i]); } else { assert(t1[i] == d1[i - sg1.len()]); }
        }
        assert forall|i: int| 0 <= i < t2.len() - 1 implies t2[i] != ' ' by {
            if i < sg2.len() { assert(t2[i] == sg2[i]); } else { assert(t2[i] == d2[i - sg2.len()]); }
        }
        lemma_split_last(lits_text(p1), t1, lits_text(p2), t2, ' ');
        if l1.last().1 != l2.last().1 {
            if l1.last().1 {
                assert(t1[0] == d1[0]);
                assert(t2[0] == '-');
            } else {
                assert(t2[0] == d2[0]);
                assert(t1[0] == '-');
            }
        }
        assert(d1 =~= t1.subrange(sg1.len() as int, t1.len() - 1));
        assert(d2 =~= t2.subrange(sg2.len() as int, t2.len() - 1));
        lemma_decimal_inj(l1.last().0 as nat, l2.last().0 as nat);
        lemma_lits_text_inj(p1, p2);
        assert(l1 =~= p1.push(l1.last()));
        assert(l2 =~= p2.push(l2.last()));
    }
}

/// The characters of a line: it ends with its only line break.
#[verifier::rlimit(40)]
proof fn lemma_line_chars(l: NnfLine)
    requires
        l is Node ==> l->Node_0 != '\n',
    ensures
        line_text(l).len() > 0,
        line_text(l).last() == '\n',
        sep_last(line_text(l), '\n'),
{
    let t = line_text(l);
    match l {
        NnfLine::Node(k, id) => {
            lemma_decimal_digits(id as nat);
            let d = decimal(id as nat);
            assert forall|i: int| 0 <= i < t.len() - 1 implies t[i] != '\n' by {
                if 2 <= i < 2 + d.len() {
                    assert(t[i] == d[i - 2]);
                }
            }
        },
        NnfLine::Edge(p, c, lits) => {
            lemma_decimal_digits(p as nat);
            lemma_decimal_digits(c as nat);
            lemma_lits_text_chars(lits);
            let dp = decimal(p as nat);
            let dc = decimal(c as nat);
            let lt = lits_text(lits);
            assert(t == dp + seq![' '] + dc + seq![' '] + lt + seq!['0', '\n']);
            assert forall|i: int| 0 <= i < t.len() - 1 implies t[i] != '\n' by {
                if i < dp.len() {
                    assert(t[i] == dp[i]);
                } else if dp.len() < i < dp.len() + 1 + dc.len() {
                    assert(t[i] == dc[i - dp.len() - 1]);
                } else if dp.len() + 2 + dc.len() <= i < dp.len() + 2 + dc.len() + lt.len() {
                    assert(t[i] == lt[i - dp.len() - 2 - dc.len()]);
                }
            }
        },
    }
}

#[verifier::rlimit(80)]
#[verifier::spinoff_prover]
proof fn lemma_line_text_inj(l1: NnfLine, l2: NnfLine)
    requires
        line_text(l1) == line_text(l2),
        l1 is Node ==> l1->Node_0 == 't' || l1->Node_0 == 'f' || l1->Node_0 == 'a' || l1->Node_0 == 'o',
        l2 is Node ==> l2->Node_0 == 't' || l2->Node_0 == 'f' || l2->Node_0 == 'a' || l2->Node_0 == 'o',
    ensures
        l1 == l2,
{
    let t = line_text(l1);
    match l1 {
        NnfLine::Node(k1, id1) => {
            lemma_decimal_digits(id1 as nat);
            match l2 {
                NnfLine::Node(k2, id2) => {
                    assert(t[0] == k1);
                    assert(line_text(l2)[0] == k2);
                    let d1 = decimal(id1 as nat);
                    let d2 = decimal(id2 as nat);
                    assert(d1 =~= t.subrange(2, t.len() - 3));
                    assert(d2 =~= line_text(l2).subrange(2, t.len() - 3));
                    lemma_decimal_inj(id1 as nat, id2 as nat);
                },
                NnfLine::Edge(p2, c2, lits2) => {
                    lemma_decimal_digits(p2 as nat);
                    assert(t[0] == k1);
                    assert(line_text(l2)[0] == decimal(p2 as nat)[0]);
                },
            }
        },
        NnfLine::Edge(p1, c1, lits1) => {
            lemma_decimal_digits(p1 as nat);
            match l2 {
                NnfLine::Node(k2, id2) => {
                    assert(t[0] == decimal(p1 as nat)[0]);
                    assert(line_text(l2)[0] == k2);
                },
                NnfLine::Edge(p2, c2, lits2) => {
                    lemma_decimal_digits(p2 as nat);
                    lemma_decimal_digits(c1 as nat);
                    lemma_decimal_digits(c2 as nat);
                    let dp1 = decimal(p1 as nat);
                    let dp2 = decimal(p2 as nat);
                    let dc1 = decimal(c1 as nat);
                    let dc2 = decimal(c2 as nat);
                    let r1 = dc1 + seq![' '] + lits_text(lits1) + seq!['0', '\n'];
                    let r2 = dc2 + seq![' '] + lits_text(lits2) + seq!['0', '\n'];
                    assert(line_text(l1) =~= dp1 + seq![' '] + r1);
                    assert(line_text(l2) =~= dp2 + seq![' '] + r2);
                    assert(no_char(dp1, ' '));
                    assert(no_char(dp2, ' '));
                    lemma_split_first(dp1, r1, dp2, r2, ' ');
                    lemma_decimal_inj(p1 as nat, p2 as nat);
                    let q1 = lits_text(lits1) + seq!['0', '\n'];
                    let q2 = lits_text(lits2) + seq!['0', '\n'];
                    assert(r1 =~= dc1 + seq![' '] + q1);
                    assert(r2 =~= dc2 + seq![' '] + q2);
                    assert(no_char(dc1, ' '));
                    assert(no_char(dc2, ' '));
                    lemma_split_first(dc1, q1, dc2, q2, ' ');
                    lemma_decimal_inj(c1 as nat, c2 as nat);
                    assert(lits_text(lits1) =~= q1.subrange(0, q1.len() - 2));
                    assert(lits_text(lits2) =~= q2.subrange(0, q2.len() - 2));
                    lemma_lits_text_inj(lits1, lits2);
                },
            }
        },
    }
}

/// Lines are read back from their text alone: two lists of lines whose nodes have the kinds
/// `t`, `f`, `a` and `o` and that have the same text are the same.
#[verifier::rlimit(60)]
pub proof fn lemma_nnf_text_inj(ls1: Seq<NnfLine>, ls2: Seq<NnfLine>)
    requires
        well_kinded(ls1),
        well_kinded(ls2),
        nnf_text(ls1) == nnf_text(ls2),
    ensures
        ls1 == ls2,
    decreases ls1.len(),
{
    if ls1.len() == 0 {
        if ls2.len() > 0 {
            assert(ls2[ls2.len() - 1] == ls2.last());
            lemma_line_chars(ls2.last());
        }
        assert(ls1 =~= ls2);
    } else if ls2.len() == 0 {
        assert(ls1[ls1.len() - 1] == ls1.last());
        lemma_line_chars(ls1.last());
    } else {
        let p1 = ls1.drop_last();
        let p2 = ls2.drop_last();
        assert(ls1[ls1.len() - 1] == ls1.last());
        assert(ls2[ls2.len() - 1] == ls2.last());
        lemma_line_chars(ls1.last());
        lemma_line_chars(ls2.last());
        assert forall|j: int| 0 <= j < p1.len() && (#[trigger] p1[j]) is Node implies {
            let k = p1[j]->Node_0;
            k == 't' || k == 'f' || k == 'a' || k == 'o'
        } by {
            assert(p1[j] == ls1[j]);
        }
        assert forall|j: int| 0 <= j < p2.len() && (#[trigger] p2[j]) is Node implies {
            let k = p2[j]->Node_0;
            k == 't' || k == 'f' || k == 'a' || k == 'o'
        } by {
            assert(p2[j] == ls2[j]);
        }
        if p1.len() > 0 {
            assert(p1[p1.len() - 1] == p1.last());
            lemma_line_chars(p1.last());
        }
        if p2.len() > 0 {
            assert(p2[p2.len() - 1] == p2.last());
            lemma_line_chars(p2.last());
        }
        lemma_split_last(nnf_text(p1), line_text(ls1.last()), nnf_text(p2), line_text(ls2.last()), '\n');
        lemma_line_text_inj(ls1.last(), ls2.last());
        lemma_nnf_text_inj(p1, p2);
        assert(ls1 =~= p1.push(ls1.last()));
        assert(ls2 =~= p2.push(ls2.last()));
    }
}

} // verus!
