//! The hypergraph of a solver state: one vertex per open constraint and one net per free
//! variable, joining the open constraints the variable occurs in. Its connected parts are the
//! independent components of the formula.

use vstd::prelude::*;
use vstd::std_specs::iter::IteratorSpec;
use std::collections::{BTreeMap, BTreeSet};
use crate::pseudo_boolean_datastructure::{Constraint, ConstraintIndex, Literal, PseudoBooleanFormula};
use crate::components::{Component, ComponentBasedFormula};
use crate::solver::Solver;

verus! {

broadcast use vstd::std_specs::btree::group_btree_axioms;

/// The hypergraph in the compressed form partitioners take: the pins of net `h` are
/// `pins[x_pins[h]..x_pins[h + 1]]`. Nets are numbered in `variable_index_map` order and vertices
/// in `constraint_index_map` order; the reverse maps give the numbers back.
pub struct Hypergraph {
    pub pins: Vec<u32>,
    pub x_pins: Vec<u32>,
    pub variable_index_map: Vec<usize>,
    pub variable_index_map_reverse: BTreeMap<usize, u32>,
    pub current_variable_index: u32,
    pub constraint_index_map: Vec<usize>,
    pub constraint_index_map_reverse: BTreeMap<usize, u32>,
    pub current_constraint_index: u32,
    pub single_variables: BTreeSet<usize>,
}

/// The open constraints among the constraint positions `list`, by their numbers, in order.
pub open spec fn open_constraints(cs: Seq<Constraint>, list: Seq<usize>) -> Seq<usize>
    decreases list.len(),
{
    if list.len() == 0 {
        Seq::empty()
    } else {
        let rest = open_constraints(cs, list.drop_last());
        let c = cs[list.last() as int];
        if c.satisfied_by_rec() {
            rest
        } else {
            match c.index {
                ConstraintIndex::NormalConstraintIndex(i) => rest.push(i),
                _ => rest,
            }
        }
    }
}

/// The open constraints variable `v` occurs in.
pub open spec fn var_open_constraints(s: Solver, v: usize) -> Seq<usize> {
    open_constraints(s.held_formula().constraints@, s.held_formula().constraints_by_variable@[v as int]@)
}

/// Variable `v` is in scope and has no value.
pub open spec fn free_in_scope(s: Solver, v: usize) -> bool {
    s.scope().contains(v) && s.values()[v as int] is None
}

/// The free variables in scope below `k` that occur in an open constraint, in increasing order.
pub open spec fn graph_vars(s: Solver, k: nat) -> Seq<usize>
    decreases k,
{
    if k == 0 {
        Seq::empty()
    } else {
        let rest = graph_vars(s, (k - 1) as nat);
        let v = (k - 1) as usize;
        if free_in_scope(s, v) && var_open_constraints(s, v).len() > 0 {
            rest.push(v)
        } else {
            rest
        }
    }
}

/// The free variables in scope below `k` that occur in no open constraint.
pub open spec fn lone_vars(s: Solver, k: nat) -> Set<usize> {
    Set::new(|v: usize| v < k && free_in_scope(s, v) && var_open_constraints(s, v).len() == 0)
}

/// The open constraints of the variables `vs`, one list after the other.
pub open spec fn pin_list(s: Solver, vs: Seq<usize>) -> Seq<usize>
    decreases vs.len(),
{
    if vs.len() == 0 {
        Seq::empty()
    } else {
        pin_list(s, vs.drop_last()) + var_open_constraints(s, vs.last())
    }
}

/// The distinct values of `list`, in the order they first occur.
pub open spec fn first_seen(list: Seq<usize>) -> Seq<usize>
    decreases list.len(),
{
    if list.len() == 0 {
        Seq::empty()
    } else {
        let rest = first_seen(list.drop_last());
        if rest.contains(list.last()) {
            rest
        } else {
            rest.push(list.last())
        }
    }
}

/// The solver's state can be read as a hypergraph: its per-variable lists name existing
/// constraints, the variables in scope are variables of the formula, and there are few enough
/// pins to number them in `u32`.
pub open spec fn graph_input_ok(s: Solver) -> bool {
    let n = s.held_formula().constraints_by_variable@.len();
    &&& s.held_formula().wf()
    &&& s.values().len() == n
    &&& forall|v: usize| #[trigger] s.scope().contains(v) ==> v < n
    &&& pin_list(s, graph_vars(s, n)).len() <= u32::MAX
}

/// `h` is built from the solver's state: its nets are the free variables in scope with an open
/// constraint, in increasing order; its vertices are their open constraints in the order they
/// are first met; the pins of each net are its variable's open constraints; the other free
/// variables in scope are kept apart.
pub open spec fn built_from(h: Hypergraph, s: Solver) -> bool {
    let vs = graph_vars(s, s.held_formula().constraints_by_variable@.len());
    let pins = pin_list(s, vs);
    let cons = first_seen(pins);
    &&& h.variable_index_map@ == vs
    &&& h.current_variable_index == vs.len()
    &&& forall|v: usize| #[trigger] h.variable_index_map_reverse@.contains_key(v) <==> vs.contains(v)
    &&& forall|k: int| 0 <= k < vs.len() ==> h.variable_index_map_reverse@[#[trigger] vs[k]] == k
    &&& h.constraint_index_map@ == cons
    &&& h.current_constraint_index == cons.len()
    &&& forall|c: usize| #[trigger] h.constraint_index_map_reverse@.contains_key(c) <==> cons.contains(c)
    &&& forall|k: int| 0 <= k < cons.len() ==> h.constraint_index_map_reverse@[#[trigger] cons[k]] == k
    &&& h.pins@.len() == pins.len()
    &&& forall|k: int| 0 <= k < pins.len() ==> h.pins@[k] == h.constraint_index_map_reverse@[#[trigger] pins[k]]
    &&& h.x_pins@.len() == vs.len() + 1
    &&& forall|k: int| 0 <= k <= vs.len() ==> #[trigger] h.x_pins@[k] == pin_list(s, vs.take(k)).len()
    &&& h.single_variables@ == lone_vars(s, s.held_formula().constraints_by_variable@.len())
}

/// The variables below `k1` form a prefix of those below `k2`, and all lie below `k1`.
pub(crate) proof fn lemma_graph_vars_prefix(s: Solver, k1: nat, k2: nat)
    requires
        k1 <= k2,
    ensures
        graph_vars(s, k1).len() <= graph_vars(s, k2).len(),
        graph_vars(s, k2).take(graph_vars(s, k1).len() as int) == graph_vars(s, k1),
        forall|i: int| 0 <= i < graph_vars(s, k1).len() ==> (#[trigger] graph_vars(s, k1)[i]) < k1,
        graph_vars(s, k1).len() <= k1,
    decreases k2,
{
    if k1 < k2 {
        lemma_graph_vars_prefix(s, k1, (k2 - 1) as nat);
        let a = graph_vars(s, (k2 - 1) as nat);
        let b = graph_vars(s, k2);
        assert(b.take(a.len() as int) =~= a);
        assert(b.take(graph_vars(s, k1).len() as int) =~= a.take(graph_vars(s, k1).len() as int));
    } else {
        assert(graph_vars(s, k2).take(graph_vars(s, k2).len() as int) =~= graph_vars(s, k2));
        if k1 > 0 {
            lemma_graph_vars_prefix(s, (k1 - 1) as nat, (k1 - 1) as nat);
            let a = graph_vars(s, (k1 - 1) as nat);
            assert forall|i: int| 0 <= i < graph_vars(s, k1).len() implies (#[trigger] graph_vars(s, k1)[i]) < k1 by {
                if i < a.len() {
                    assert(graph_vars(s, k1)[i] == a[i]);
                }
            }
        }
    }
}

/// The pins of a prefix of the variables are a prefix of their pins.
pub(crate) proof fn lemma_pin_list_prefix(s: Solver, vs: Seq<usize>, m: int)
    requires
        0 <= m <= vs.len(),
    ensures
        pin_list(s, vs.take(m)).len() <= pin_list(s, vs).len(),
        pin_list(s, vs).take(pin_list(s, vs.take(m)).len() as int) == pin_list(s, vs.take(m)),
    decreases vs.len(),
{
    if m < vs.len() {
        let l = vs.drop_last();
        assert(l.take(m) =~= vs.take(m));
        lemma_pin_list_prefix(s, l, m);
        let p = pin_list(s, vs);
        let q = pin_list(s, l);
        assert(p.take(q.len() as int) =~= q);
        assert(p.take(pin_list(s, vs.take(m)).len() as int) =~= q.take(pin_list(s, vs.take(m)).len() as int));
    } else {
        assert(vs.take(m) =~= vs);
        assert(pin_list(s, vs).take(pin_list(s, vs).len() as int) =~= pin_list(s, vs));
    }
}

/// `first_seen` keeps exactly the values of the list, each once.
pub(crate) proof fn lemma_first_seen(list: Seq<usize>)
    ensures
        forall|c: usize| #[trigger] first_seen(list).contains(c) <==> list.contains(c),
        forall|i: int, j: int| 0 <= i < j < first_seen(list).len() ==> first_seen(list)[i] != first_seen(list)[j],
        first_seen(list).len() <= list.len(),
    decreases list.len(),
{
    if list.len() > 0 {
        let l = list.drop_last();
        let x = list.last();
        let rest = first_seen(l);
        lemma_first_seen(l);
        assert(list =~= l.push(x));
        assert forall|c: usize| #[trigger] first_seen(list).contains(c) <==> list.contains(c) by {
            assert(list.contains(c) <==> (l.contains(c) || c == x)) by {
                if list.contains(c) {
                    let i = choose|i: int| 0 <= i < list.len() && list[i] == c;
                    if i < l.len() {
                        assert(l[i] == c);
                    }
                }
                if l.contains(c) {
                    let i = choose|i: int| 0 <= i < l.len() && l[i] == c;
                    assert(list[i] == c);
                }
                if c == x {
                    assert(list[list.len() - 1] == c);
                }
            }
            if !rest.contains(x) {
                assert(rest.push(x).contains(c) <==> (rest.contains(c) || c == x)) by {
                    if rest.push(x).contains(c) {
                        let i = choose|i: int| 0 <= i < rest.push(x).len() && rest.push(x)[i] == c;
                        if i < rest.len() {
                            assert(rest[i] == c);
                        }
                    }
                    if rest.contains(c) {
                        let i = choose|i: int| 0 <= i < rest.len() && rest[i] == c;
                        assert(rest.push(x)[i] == c);
                    }
                    if c == x {
                        assert(rest.push(x)[rest.len() as int] == c);
                    }
                }
            }
        }
        if !rest.contains(x) {
            assert forall|i: int, j: int| 0 <= i < j < first_seen(list).len() implies first_seen(list)[i] != first_seen(list)[j] by {
                if j == rest.len() {
                    assert(first_seen(list)[i] == rest[i]);
                } else {
                    assert(first_seen(list)[i] == rest[i]);
                    assert(first_seen(list)[j] == rest[j]);
                }
            }
        }
    }
}

/// The open constraints of a list of positions exist, are open, and are at most as many as the
/// list; every open constraint the list names is among them.
pub(crate) proof fn lemma_open_constraints(cs: Seq<Constraint>, list: Seq<usize>)
    requires
        forall|i: int| 0 <= i < cs.len() ==> (#[trigger] cs[i]).index == ConstraintIndex::NormalConstraintIndex(i as usize),
        forall|j: int| 0 <= j < list.len() ==> (#[trigger] list[j]) < cs.len(),
    ensures
        open_constraints(cs, list).len() <= list.len(),
        forall|x: usize| #[trigger] open_constraints(cs, list).contains(x)
            ==> x < cs.len() && !cs[x as int].satisfied_by_rec() && list.contains(x),
        forall|j: int| 0 <= j < list.len() && !cs[list[j] as int].satisfied_by_rec()
            ==> open_constraints(cs, list).contains(#[trigger] list[j]),
    decreases list.len(),
{
    if list.len() > 0 {
        let l = list.drop_last();
        lemma_open_constraints(cs, l);
        let rest = open_constraints(cs, l);
        let y = list.last();
        assert(list[list.len() - 1] == y);
        assert(cs[y as int].index == ConstraintIndex::NormalConstraintIndex(y));
        assert(open_constraints(cs, list) == if cs[y as int].satisfied_by_rec() { rest } else { rest.push(y) });
        assert forall|x: usize| #[trigger] open_constraints(cs, list).contains(x)
            implies x < cs.len() && !cs[x as int].satisfied_by_rec() && list.contains(x) by {
            if cs[y as int].satisfied_by_rec() || rest.contains(x) {
                assert(rest.contains(x));
                let k = choose|k: int| 0 <= k < l.len() && l[k] == x;
                assert(list[k] == x);
            } else {
                let k = choose|k: int| 0 <= k < rest.push(y).len() && rest.push(y)[k] == x;
                if k < rest.len() {
                    assert(rest[k] == x);
                    assert(rest.contains(x));
                } else {
                    assert(x == y);
                }
            }
        }
        assert forall|j: int| 0 <= j < list.len() && !cs[list[j] as int].satisfied_by_rec()
            implies open_constraints(cs, list).contains(#[trigger] list[j]) by {
            if j < l.len() {
                assert(l[j] == list[j]);
                let k = choose|k: int| 0 <= k < rest.len() && rest[k] == list[j];
                if !cs[y as int].satisfied_by_rec() {
                    assert(rest.push(y)[k] == list[j]);
                }
            } else {
                assert(rest.push(y)[rest.len() as int] == y);
            }
        }
    }
}

/// The pins of the nets of variables of the formula are open constraints of it.
pub(crate) proof fn lemma_pins_open(s: Solver, vs: Seq<usize>)
    requires
        s.held_formula().wf(),
        forall|j: int| 0 <= j < vs.len() ==> (#[trigger] vs[j]) < s.held_formula().number_variables,
    ensures
        forall|x: usize| #[trigger] pin_list(s, vs).contains(x)
            ==> x < s.held_formula().constraints@.len() && !s.held_formula().constraints@[x as int].satisfied_by_rec(),
    decreases vs.len(),
{
    if vs.len() > 0 {
        let l = vs.drop_last();
        let f = s.held_formula();
        let v = vs.last();
        assert(vs[vs.len() - 1] == v);
        assert forall|j: int| 0 <= j < l.len() implies (#[trigger] l[j]) < f.number_variables by {
            assert(l[j] == vs[j]);
        }
        lemma_pins_open(s, l);
        let list = f.constraints_by_variable@[v as int]@;
        assert forall|j: int| 0 <= j < list.len() implies (#[trigger] list[j]) < f.constraints@.len() by {
            assert(f.constraints_by_variable@[v as int]@[j] == list[j]);
        }
        lemma_open_constraints(f.constraints@, list);
        let a = pin_list(s, l);
        let b = var_open_constraints(s, v);
        assert(pin_list(s, vs) == a + b);
        assert forall|x: usize| #[trigger] pin_list(s, vs).contains(x)
            implies x < f.constraints@.len() && !f.constraints@[x as int].satisfied_by_rec() by {
            let k = choose|k: int| 0 <= k < (a + b).len() && (a + b)[k] == x;
            if k < a.len() {
                assert(a[k] == x);
                assert(a.contains(x));
            } else {
                assert(b[k - a.len()] == x);
                assert(b.contains(x));
            }
        }
    }
}

/// The number of entries in the per-variable lists of the variables below `k`.
pub open spec fn listed_pins(f: PseudoBooleanFormula, k: nat) -> nat
    decreases k,
{
    if k == 0 {
        0
    } else {
        listed_pins(f, (k - 1) as nat) + f.constraints_by_variable@[k - 1]@.len()
    }
}

/// `listed_pins` grows with `k`.
pub(crate) proof fn lemma_listed_pins_mono(f: PseudoBooleanFormula, k1: nat, k2: nat)
    requires
        k1 <= k2,
    ensures
        listed_pins(f, k1) <= listed_pins(f, k2),
    decreases k2,
{
    if k1 < k2 {
        lemma_listed_pins_mono(f, k1, (k2 - 1) as nat);
    }
}

/// The hypergraph has at most as many pins as the per-variable lists have entries.
pub(crate) proof fn lemma_pins_bound(s: Solver, k: nat)
    requires
        s.held_formula().wf(),
        k <= s.held_formula().number_variables,
    ensures
        pin_list(s, graph_vars(s, k)).len() <= listed_pins(s.held_formula(), k),
    decreases k,
{
    if k > 0 {
        lemma_pins_bound(s, (k - 1) as nat);
        let rest = graph_vars(s, (k - 1) as nat);
        let v = (k - 1) as usize;
        let f = s.held_formula();
        let list = f.constraints_by_variable@[v as int]@;
        assert forall|j: int| 0 <= j < list.len() implies (#[trigger] list[j]) < f.constraints@.len() by {
            assert(f.constraints_by_variable@[v as int]@[j] == list[j]);
        }
        lemma_open_constraints(f.constraints@, list);
        if free_in_scope(s, v) && var_open_constraints(s, v).len() > 0 {
            assert(rest.push(v).drop_last() =~= rest);
            assert(pin_list(s, rest.push(v)) == pin_list(s, rest) + var_open_constraints(s, v));
        }
    }
}

/// A variable has a net exactly when it lies below `k`, is free and in scope, and occurs in an
/// open constraint.
pub(crate) proof fn lemma_graph_vars_contains(s: Solver, k: nat, v: usize)
    ensures
        graph_vars(s, k).contains(v) <==> (v < k && free_in_scope(s, v) && var_open_constraints(s, v).len() > 0),
    decreases k,
{
    if k > 0 {
        lemma_graph_vars_contains(s, (k - 1) as nat, v);
        let rest = graph_vars(s, (k - 1) as nat);
        let w = (k - 1) as usize;
        if free_in_scope(s, w) && var_open_constraints(s, w).len() > 0 {
            let g = rest.push(w);
            if g.contains(v) {
                let i = choose|i: int| 0 <= i < g.len() && g[i] == v;
                if i < rest.len() {
                    assert(rest[i] == v);
                }
            }
            if rest.contains(v) {
                let i = choose|i: int| 0 <= i < rest.len() && rest[i] == v;
                assert(g[i] == v);
            }
            if v == w {
                assert(g[rest.len() as int] == v);
            }
        }
    }
}

/// The parts of a labelling are numbered below the number of vertices.
pub(crate) proof fn lemma_labels_below(h: Hypergraph, s: Solver, pv: Seq<u32>, starts: Seq<int>)
    requires
        component_labels(h, s, pv, starts),
    ensures
        forall|v: int| 0 <= v < pv.len() ==> (#[trigger] pv[v]) < h.current_constraint_index,
{
    assert forall|v: int| 0 <= v < pv.len() implies (#[trigger] pv[v]) < h.current_constraint_index by {
        lemma_starts_grow(starts, pv[v] as int);
    }
}

/// Strictly increasing starts from zero are at least their positions.
proof fn lemma_starts_grow(starts: Seq<int>, l: int)
    requires
        0 <= l < starts.len(),
        starts[0] == 0,
        forall|l1: int, l2: int| 0 <= l1 < l2 < starts.len() ==> #[trigger] starts[l1] < #[trigger] starts[l2],
    ensures
        starts[l] >= l,
    decreases l,
{
    if l > 0 {
        lemma_starts_grow(starts, l - 1);
        assert(starts[l - 1] < starts[l]);
    }
}

/// When every part number lies below `b`, so does the largest.
pub(crate) proof fn lemma_max_part_below(partvec: Seq<u32>, b: u32)
    requires
        b > 0,
        forall|i: int| 0 <= i < partvec.len() ==> (#[trigger] partvec[i]) < b,
    ensures
        max_part(partvec) < b,
    decreases partvec.len(),
{
    if partvec.len() > 0 {
        let l = partvec.drop_last();
        assert forall|i: int| 0 <= i < l.len() implies (#[trigger] l[i]) < b by {
            assert(l[i] == partvec[i]);
        }
        lemma_max_part_below(l, b);
        assert(partvec[partvec.len() - 1] < b);
    }
}

impl Hypergraph {
    /// The hypergraph of the solver's state (see `built_from`).
    #[verifier::rlimit(60)]
    pub fn new(solver: &Solver) -> (h: Hypergraph)
        requires
            graph_input_ok(*solver),
        ensures
            built_from(h, *solver),
    {
        let formula = solver.formula_ref();
        let scope = solver.scope_ref();
        let values = solver.values_ref();
        let ghost s = *solver;
        let ghost cs = formula.constraints@;
        let n = formula.constraints_by_variable.len();
        let ghost total = pin_list(s, graph_vars(s, n as nat)).len();
        let mut h = Hypergraph {
            pins: Vec::new(),
            x_pins: Vec::new(),
            variable_index_map: Vec::new(),
            variable_index_map_reverse: BTreeMap::new(),
            current_variable_index: 0,
            constraint_index_map: Vec::new(),
            constraint_index_map_reverse: BTreeMap::new(),
            current_constraint_index: 0,
            single_variables: BTreeSet::new(),
        };
        h.x_pins.push(0);
        proof {
            assert(h.single_variables@ =~= lone_vars(s, 0));
            assert(graph_vars(s, 0).take(0) =~= Seq::<usize>::empty());
        }
        let mut v: usize = 0;
        while v < n
            invariant
                0 <= v <= n,
                n == formula.constraints_by_variable@.len(),
                *formula == s.held_formula(),
                scope@ == s.scope(),
                values@ == s.values(),
                cs == formula.constraints@,
                graph_input_ok(s),
                total == pin_list(s, graph_vars(s, n as nat)).len(),
                h.variable_index_map@ == graph_vars(s, v as nat),
                h.current_variable_index == graph_vars(s, v as nat).len(),
                forall|u: usize| #[trigger] h.variable_index_map_reverse@.contains_key(u) <==> graph_vars(s, v as nat).contains(u),
                forall|k: int| 0 <= k < graph_vars(s, v as nat).len()
                    ==> h.variable_index_map_reverse@[#[trigger] graph_vars(s, v as nat)[k]] == k,
                h.constraint_index_map@ == first_seen(pin_list(s, graph_vars(s, v as nat))),
                h.current_constraint_index == first_seen(pin_list(s, graph_vars(s, v as nat))).len(),
                forall|c: usize| #[trigger] h.constraint_index_map_reverse@.contains_key(c)
                    <==> first_seen(pin_list(s, graph_vars(s, v as nat))).contains(c),
                forall|k: int| 0 <= k < first_seen(pin_list(s, graph_vars(s, v as nat))).len()
                    ==> h.constraint_index_map_reverse@[#[trigger] first_seen(pin_list(s, graph_vars(s, v as nat)))[k]] == k,
                h.pins@.len() == pin_list(s, graph_vars(s, v as nat)).len(),
                forall|k: int| 0 <= k < pin_list(s, graph_vars(s, v as nat)).len()
                    ==> h.pins@[k] == h.constraint_index_map_reverse@[#[trigger] pin_list(s, graph_vars(s, v as nat))[k]],
                h.x_pins@.len() == graph_vars(s, v as nat).len() + 1,
                forall|k: int| 0 <= k <= graph_vars(s, v as nat).len()
                    ==> #[trigger] h.x_pins@[k] == pin_list(s, graph_vars(s, v as nat).take(k)).len(),
                h.single_variables@ == lone_vars(s, v as nat),
            decreases n - v,
        {
            let ghost vs = graph_vars(s, v as nat);
            let ghost pins0 = pin_list(s, vs);
            proof {
                lemma_graph_vars_prefix(s, v as nat, n as nat);
                lemma_graph_vars_prefix(s, (v + 1) as nat, n as nat);
                lemma_graph_vars_prefix(s, v as nat, v as nat);
                lemma_pin_list_prefix(s, graph_vars(s, n as nat), graph_vars(s, (v + 1) as nat).len() as int);
                lemma_first_seen(pins0);
            }
            if scope.contains(&v) && values[v].is_none() {
                let list = &formula.constraints_by_variable[v];
                let mut tmp: Vec<usize> = Vec::new();
                let mut j: usize = 0;
                proof {
                    assert(list@.take(0) =~= Seq::<usize>::empty());
                }
                while j < list.len()
                    invariant
                        0 <= j <= list@.len(),
                        v < n,
                        n == formula.constraints_by_variable@.len(),
                        *list == formula.constraints_by_variable@[v as int],
                        cs == formula.constraints@,
                        formula.wf(),
                        tmp@ == open_constraints(cs, list@.take(j as int)),
                    decreases list@.len() - j,
                {
                    let ci = list[j];
                    proof {
                        assert(formula.constraints_by_variable@[v as int]@[j as int] < cs.len());
                        assert(cs[ci as int].wf());
                    }
                    let constraint = &formula.constraints[ci];
                    let ghost taken = list@.take(j + 1);
                    proof {
                        assert(taken.drop_last() =~= list@.take(j as int));
                        assert(taken.last() == ci);
                    }
                    if constraint.is_unsatisfied() {
                        match constraint.index {
                            ConstraintIndex::NormalConstraintIndex(index) => {
                                tmp.push(index);
                            },
                            _ => {},
                        }
                    }
                    j = j + 1;
                }
                proof {
                    assert(list@.take(list@.len() as int) =~= list@);
                    assert(tmp@ == var_open_constraints(s, v));
                }
                if tmp.len() > 0 {
                    let ghost vs1 = vs.push(v);
                    proof {
                        assert(graph_vars(s, (v + 1) as nat) == vs1);
                        assert(vs1.drop_last() =~= vs);
                        assert(pin_list(s, vs1) == pins0 + tmp@);
                        assert(!vs.contains(v)) by {
                            if vs.contains(v) {
                                let i = choose|i: int| 0 <= i < vs.len() && vs[i] == v;
                                assert(vs[i] < v);
                            }
                        }
                    }
                    h.variable_index_map.push(v);
                    h.variable_index_map_reverse.insert(v, h.current_variable_index);
                    h.current_variable_index = h.current_variable_index + 1;
                    let mut t: usize = 0;
                    proof {
                        assert(tmp@.take(0) =~= Seq::<usize>::empty());
                        assert(pins0 + tmp@.take(0) =~= pins0);
                    }
                    let ghost vmap0 = h.variable_index_map@;
                    let ghost vrev0 = h.variable_index_map_reverse@;
                    let ghost cvar0 = h.current_variable_index;
                    let ghost xp0 = h.x_pins@;
                    let ghost sv0 = h.single_variables@;
                    while t < tmp.len()
                        invariant
                            0 <= t <= tmp@.len(),
                            h.variable_index_map@ == vmap0,
                            h.variable_index_map_reverse@ == vrev0,
                            h.current_variable_index == cvar0,
                            h.x_pins@ == xp0,
                            h.single_variables@ == sv0,
                            pins0 + tmp@ == pin_list(s, vs1),
                            pin_list(s, vs1).len() <= total,
                            total <= u32::MAX,
                            h.constraint_index_map@ == first_seen(pins0 + tmp@.take(t as int)),
                            h.current_constraint_index == first_seen(pins0 + tmp@.take(t as int)).len(),
                            forall|c: usize| #[trigger] h.constraint_index_map_reverse@.contains_key(c)
                                <==> first_seen(pins0 + tmp@.take(t as int)).contains(c),
                            forall|k: int| 0 <= k < first_seen(pins0 + tmp@.take(t as int)).len()
                                ==> h.constraint_index_map_reverse@[#[trigger] first_seen(pins0 + tmp@.take(t as int))[k]] == k,
                            h.pins@.len() == (pins0 + tmp@.take(t as int)).len(),
                            forall|k: int| 0 <= k < (pins0 + tmp@.take(t as int)).len()
                                ==> h.pins@[k] == h.constraint_index_map_reverse@[#[trigger] (pins0 + tmp@.take(t as int))[k]],
                        decreases tmp@.len() - t,
                    {
                        let ci = tmp[t];
                        let ghost before = pins0 + tmp@.take(t as int);
                        let ghost after = pins0 + tmp@.take(t + 1);
                        proof {
                            assert(after.drop_last() =~= before);
                            assert(after.last() == ci);
                            lemma_first_seen(before);
                            lemma_first_seen(after);
                            assert(after.len() <= pin_list(s, vs1).len()) by {
                                assert(tmp@.take(t + 1).len() <= tmp@.len());
                            }
                        }
                        let ghost map0 = h.constraint_index_map_reverse@;
                        let index: u32 = match h.constraint_index_map_reverse.get(&ci) {
                            Some(x) => *x,
                            None => {
                                h.constraint_index_map.push(ci);
                                h.constraint_index_map_reverse.insert(ci, h.current_constraint_index);
                                h.current_constraint_index = h.current_constraint_index + 1;
                                h.current_constraint_index - 1
                            },
                        };
                        h.pins.push(index);
                        t = t + 1;
                        proof {
                            let fs = first_seen(after);
                            assert forall|k: int| 0 <= k < fs.len()
                                implies h.constraint_index_map_reverse@[#[trigger] fs[k]] == k by {
                                if k < first_seen(before).len() {
                                    assert(fs[k] == first_seen(before)[k]);
                                }
                            }
                            assert forall|k: int| 0 <= k < after.len()
                                implies h.pins@[k] == h.constraint_index_map_reverse@[#[trigger] after[k]] by {
                                if k < before.len() {
                                    assert(after[k] == before[k]);
                                    assert(first_seen(before).contains(before[k]));
                                }
                            }
                        }
                    }
                    h.x_pins.push(h.pins.len() as u32);
                    proof {
                        assert(tmp@.take(tmp@.len() as int) =~= tmp@);
                        assert forall|k: int| 0 <= k < vs1.len()
                            implies h.variable_index_map_reverse@[#[trigger] vs1[k]] == k by {
                            if k < vs.len() {
                                assert(vs1[k] == vs[k]);
                            }
                        }
                        assert forall|k: int| 0 <= k <= vs1.len()
                            implies #[trigger] h.x_pins@[k] == pin_list(s, vs1.take(k)).len() by {
                            if k < vs1.len() {
                                assert(vs1.take(k) =~= vs.take(k));
                            } else {
                                assert(vs1.take(k) =~= vs1);
                            }
                        }
                        assert(h.single_variables@ =~= lone_vars(s, (v + 1) as nat));
                    }
                } else {
                    h.single_variables.insert(v);
                    proof {
                        assert(graph_vars(s, (v + 1) as nat) == vs);
                        assert(h.single_variables@ =~= lone_vars(s, (v + 1) as nat));
                    }
                }
            } else {
                proof {
                    assert(graph_vars(s, (v + 1) as nat) == vs);
                    assert(h.single_variables@ =~= lone_vars(s, (v + 1) as nat));
                }
            }
            v = v + 1;
        }
        h
    }
}

/// The variables below `n`.
pub open spec fn below(n: nat) -> Set<usize> {
    Set::new(|v: usize| v < n)
}

/// There are `n` variables below `n`.
proof fn lemma_below(n: nat)
    requires
        n <= usize::MAX,
    ensures
        below(n).finite(),
        below(n).len() == n,
    decreases n,
{
    if n > 0 {
        lemma_below((n - 1) as nat);
        assert(below(n) =~= below((n - 1) as nat).insert((n - 1) as usize));
    } else {
        assert(below(0) =~= Set::<usize>::empty());
    }
}

/// The largest part number of `partvec` (0 when it is empty).
pub open spec fn max_part(partvec: Seq<u32>) -> u32
    decreases partvec.len(),
{
    if partvec.len() == 0 {
        0
    } else {
        let m = max_part(partvec.drop_last());
        if partvec.last() > m { partvec.last() } else { m }
    }
}

/// Position `i` of `partvec` belongs to part `p` and its vertex is an open constraint.
pub open spec fn open_in_part(h: Hypergraph, s: Solver, partvec: Seq<u32>, p: u32, i: int) -> bool {
    &&& partvec[i] == p
    &&& !s.held_formula().constraints@[h.constraint_index_map@[i] as int].satisfied_by_rec()
}

/// The open constraints among the first `k` positions of part `p`.
pub open spec fn part_constraints(h: Hypergraph, s: Solver, partvec: Seq<u32>, p: u32, k: int) -> Set<usize> {
    Set::new(|c: usize| exists|i: int| 0 <= i < k && #[trigger] open_in_part(h, s, partvec, p, i) && h.constraint_index_map@[i] == c)
}

/// The number of the first `k` positions of part `p` whose constraint is open.
pub open spec fn part_count(h: Hypergraph, s: Solver, partvec: Seq<u32>, p: u32, k: int) -> nat
    decreases k,
{
    if k <= 0 {
        0
    } else {
        part_count(h, s, partvec, p, k - 1) + if open_in_part(h, s, partvec, p, k - 1) { 1nat } else { 0nat }
    }
}

/// The open variables of the open constraints among the first `k` positions of part `p`.
pub open spec fn part_variables(h: Hypergraph, s: Solver, partvec: Seq<u32>, p: u32, k: int) -> Set<usize> {
    Set::new(|v: usize| exists|i: int| 0 <= i < k && #[trigger] open_in_part(h, s, partvec, p, i)
        && s.held_formula().constraints@[h.constraint_index_map@[i] as int].unassigned_literals@.contains_key(v))
}

/// Component `c` holds part `p` of the first `k` positions.
pub open spec fn holds_part(c: Component, h: Hypergraph, s: Solver, partvec: Seq<u32>, p: u32, k: int) -> bool {
    &&& c.constraint_indexes_in_scope@ == part_constraints(h, s, partvec, p, k)
    &&& c.variables@ == part_variables(h, s, partvec, p, k)
    &&& c.number_unsat_constraints == part_count(h, s, partvec, p, k)
    &&& c.number_unassigned_variables == part_variables(h, s, partvec, p, k).len()
}

/// Adds an open constraint and its open variables to a component.
fn add_constraint(comp: &mut Component, ci: usize, lits: &BTreeMap<usize, Literal>)
    requires
        old(comp).number_unsat_constraints < u32::MAX,
        old(comp).variables@.finite(),
        old(comp).number_unassigned_variables == old(comp).variables@.len(),
        old(comp).variables@.union(lits@.dom()).len() <= u32::MAX,
        old(comp).variables@.union(lits@.dom()).finite(),
    ensures
        final(comp).constraint_indexes_in_scope@ == old(comp).constraint_indexes_in_scope@.insert(ci),
        final(comp).variables@ == old(comp).variables@.union(lits@.dom()),
        final(comp).number_unsat_constraints == old(comp).number_unsat_constraints + 1,
        final(comp).number_unassigned_variables == final(comp).variables@.len(),
{
    comp.number_unsat_constraints = comp.number_unsat_constraints + 1;
    comp.constraint_indexes_in_scope.insert(ci);
    let ghost vars0 = comp.variables@;
    let ghost target = vars0.union(lits@.dom());
    let ghost g_seq = lits.iter().remaining();
    let ghost mut g_i: int = 0;
    for (index, _) in it: lits.iter()
        invariant
            g_seq == it.seq(),
            g_i == it.index(),
            g_seq.len() == lits@.dom().len(),
            forall|j: int| 0 <= j < g_seq.len() ==> lits@.contains_key(*(#[trigger] g_seq[j]).0),
            forall|k: usize| #[trigger] lits@.contains_key(k) ==> g_seq.contains((&k, &lits@[k])),
            target == vars0.union(lits@.dom()),
            target.finite(),
            target.len() <= u32::MAX,
            vars0.finite(),
            comp.variables@ == vars0.union(Set::new(|k: usize| exists|j: int| 0 <= j < g_i && *(#[trigger] g_seq[j]).0 == k)),
            comp.variables@.finite(),
            comp.number_unassigned_variables == comp.variables@.len(),
            comp.variables@.subset_of(target),
            comp.constraint_indexes_in_scope@ == old(comp).constraint_indexes_in_scope@.insert(ci),
            comp.number_unsat_constraints == old(comp).number_unsat_constraints + 1,
    {
        proof {
            assert(lits@.contains_key(*g_seq[g_i].0));
            vstd::set_lib::lemma_len_subset(comp.variables@.insert(*index), target);
        }
        if !comp.variables.contains(index) {
            comp.number_unassigned_variables = comp.number_unassigned_variables + 1;
            comp.variables.insert(*index);
        }
        proof {
            g_i = g_i + 1;
            assert(comp.variables@ =~= vars0.union(Set::new(|k: usize| exists|j: int| 0 <= j < g_i && *(#[trigger] g_seq[j]).0 == k)));
        }
    }
    proof {
        assert forall|k: usize| #[trigger] lits@.contains_key(k) implies comp.variables@.contains(k) by {
            assert(g_seq.contains((&k, &lits@[k])));
            let j = choose|j: int| 0 <= j < g_seq.len() && g_seq[j] == (&k, &lits@[k]);
            assert(*g_seq[j].0 == k);
        }
        assert(comp.variables@ =~= target);
    }
}

/// The hypergraph can be split along `partvec`: every position names a vertex whose constraint
/// exists, the part numbers and positions can be counted in `u32`, and the variables kept apart
/// are variables of the formula.
pub open spec fn partition_input_ok(h: Hypergraph, s: Solver, partvec: Seq<u32>) -> bool {
    let f = s.held_formula();
    &&& f.wf()
    &&& partvec.len() <= h.constraint_index_map@.len()
    &&& partvec.len() < u32::MAX
    &&& forall|i: int| 0 <= i < partvec.len() ==> (#[trigger] h.constraint_index_map@[i]) < f.constraints@.len()
    &&& max_part(partvec) < u32::MAX
    &&& forall|v: usize| #[trigger] h.single_variables@.contains(v) ==> v < f.number_variables
}

/// One more position: part `q` gains the position's constraint and its open variables when the
/// position belongs to `q` and its constraint is open, and stays as it was otherwise.
proof fn lemma_part_step(h: Hypergraph, s: Solver, partvec: Seq<u32>, q: u32, i: int)
    requires
        0 <= i,
    ensures
        open_in_part(h, s, partvec, q, i) ==> {
            &&& part_constraints(h, s, partvec, q, i + 1) == part_constraints(h, s, partvec, q, i).insert(h.constraint_index_map@[i])
            &&& part_variables(h, s, partvec, q, i + 1) == part_variables(h, s, partvec, q, i).union(
                s.held_formula().constraints@[h.constraint_index_map@[i] as int].unassigned_literals@.dom())
            &&& part_count(h, s, partvec, q, i + 1) == part_count(h, s, partvec, q, i) + 1
        },
        !open_in_part(h, s, partvec, q, i) ==> {
            &&& part_constraints(h, s, partvec, q, i + 1) == part_constraints(h, s, partvec, q, i)
            &&& part_variables(h, s, partvec, q, i + 1) == part_variables(h, s, partvec, q, i)
            &&& part_count(h, s, partvec, q, i + 1) == part_count(h, s, partvec, q, i)
        },
{
    let cs = s.held_formula().constraints@;
    if open_in_part(h, s, partvec, q, i) {
        assert(part_constraints(h, s, partvec, q, i + 1) =~= part_constraints(h, s, partvec, q, i).insert(h.constraint_index_map@[i]));
        assert(part_variables(h, s, partvec, q, i + 1) =~= part_variables(h, s, partvec, q, i).union(
            cs[h.constraint_index_map@[i] as int].unassigned_literals@.dom()));
    } else {
        assert(part_constraints(h, s, partvec, q, i + 1) =~= part_constraints(h, s, partvec, q, i));
        assert(part_variables(h, s, partvec, q, i + 1) =~= part_variables(h, s, partvec, q, i));
    }
}

/// A part's open variables are variables of the formula, and its count stays below the number
/// of positions.
proof fn lemma_part_bounds(h: Hypergraph, s: Solver, partvec: Seq<u32>, q: u32, k: int)
    requires
        s.held_formula().wf(),
        0 <= k <= partvec.len(),
        forall|i: int| 0 <= i < partvec.len() ==> (#[trigger] h.constraint_index_map@[i]) < s.held_formula().constraints@.len(),
    ensures
        part_variables(h, s, partvec, q, k).subset_of(below(s.held_formula().number_variables as nat)),
        part_count(h, s, partvec, q, k) <= k,
    decreases k,
{
    let f = s.held_formula();
    if k > 0 {
        lemma_part_bounds(h, s, partvec, q, k - 1);
    }
    assert forall|v: usize| #[trigger] part_variables(h, s, partvec, q, k).contains(v)
        implies below(f.number_variables as nat).contains(v) by {
        let i = choose|i: int| 0 <= i < k && #[trigger] open_in_part(h, s, partvec, q, i)
            && f.constraints@[h.constraint_index_map@[i] as int].unassigned_literals@.contains_key(v);
        let c = f.constraints@[h.constraint_index_map@[i] as int];
        assert(c.wf());
        assert(c.unassigned_literals@ == c.literals@.remove_keys(c.rec()));
        assert(c.vars().contains(v));
    }
}

/// The cut nets below `k` are nets below `k`.
proof fn lemma_cut_nets_below_bound(nets: Seq<u32>, x_pins: Seq<u32>, partvec: Seq<u32>, k: int)
    requires
        0 <= k <= u32::MAX,
    ensures
        forall|t: int| 0 <= t < cut_nets_below(nets, x_pins, partvec, k).len()
            ==> (#[trigger] cut_nets_below(nets, x_pins, partvec, k)[t]) < k,
    decreases k,
{
    if k > 0 {
        lemma_cut_nets_below_bound(nets, x_pins, partvec, k - 1);
        let prev = cut_nets_below(nets, x_pins, partvec, k - 1);
        let cur = cut_nets_below(nets, x_pins, partvec, k);
        assert forall|t: int| 0 <= t < cur.len() implies (#[trigger] cur[t]) < k by {
            if t < prev.len() {
                assert(cur[t] == prev[t]);
            }
        }
    }
}

/// Net `i` has pins in more than one part of `partvec`: the pins of net `i` are
/// `nets[x_pins[i]..x_pins[i + 1]]`.
pub open spec fn net_is_cut(nets: Seq<u32>, x_pins: Seq<u32>, partvec: Seq<u32>, i: int) -> bool {
    exists|j1: int, j2: int| #![trigger nets[j1], nets[j2]]
        x_pins[i] <= j1 < x_pins[i + 1] && x_pins[i] <= j2 < x_pins[i + 1]
            && partvec[nets[j1] as int] != partvec[nets[j2] as int]
}

/// The nets below `k` that `partvec` cuts, in increasing order.
pub open spec fn cut_nets_below(nets: Seq<u32>, x_pins: Seq<u32>, partvec: Seq<u32>, k: int) -> Seq<u32>
    decreases k,
{
    if k <= 0 {
        Seq::empty()
    } else {
        cut_nets_below(nets, x_pins, partvec, k - 1) + if net_is_cut(nets, x_pins, partvec, k - 1) {
            seq![(k - 1) as u32]
        } else {
            Seq::empty()
        }
    }
}

/// The nets of a hypergraph in compressed form (`number_nets` nets over the pin list `nets`,
/// delimited by `x_pins`) whose pins lie in more than one part of the partition `partvec`.
pub fn cut_nets(number_nets: u32, nets: &Vec<u32>, x_pins: &Vec<u32>, partvec: &Vec<u32>) -> (r: Vec<u32>)
    requires
        x_pins@.len() > number_nets,
        forall|g: int| 0 <= g < x_pins@.len() ==> #[trigger] x_pins@[g] <= nets@.len(),
        forall|j: int| 0 <= j < nets@.len() ==> #[trigger] nets@[j] < partvec@.len(),
    ensures
        r@ == cut_nets_below(nets@, x_pins@, partvec@, number_nets as int),
{
    let mut edges_to_remove: Vec<u32> = Vec::new();
    let mut i: u32 = 0;
    while i < number_nets
        invariant
            i <= number_nets,
            x_pins@.len() > number_nets,
            forall|g: int| 0 <= g < x_pins@.len() ==> #[trigger] x_pins@[g] <= nets@.len(),
            forall|j: int| 0 <= j < nets@.len() ==> #[trigger] nets@[j] < partvec@.len(),
            edges_to_remove@ == cut_nets_below(nets@, x_pins@, partvec@, i as int),
        decreases number_nets - i,
    {
        let start = x_pins[i as usize];
        let end = x_pins[(i + 1) as usize];
        let mut cut = false;
        if start < end {
            let first = partvec[nets[start as usize] as usize];
            let mut j = start + 1;
            while j < end
                invariant
                    start < j <= end,
                    end <= nets@.len(),
                    forall|jj: int| 0 <= jj < nets@.len() ==> #[trigger] nets@[jj] < partvec@.len(),
                    first == partvec@[nets@[start as int] as int],
                    cut <==> exists|j2: int| start <= j2 < j && #[trigger] partvec@[nets@[j2] as int] != first,
                decreases end - j,
            {
                if partvec[nets[j as usize] as usize] != first {
                    cut = true;
                }
                j = j + 1;
            }
            proof {
                let ghost ns = nets@;
                let ghost pv = partvec@;
                if cut {
                    let j2 = choose|j2: int| start <= j2 < end && #[trigger] pv[ns[j2] as int] != first;
                    assert(net_is_cut(ns, x_pins@, pv, i as int)) by {
                        assert(pv[ns[start as int] as int] != pv[ns[j2] as int]);
                    }
                } else {
                    assert forall|j1: int, j2: int| #![trigger ns[j1], ns[j2]]
                        start <= j1 < end && start <= j2 < end implies pv[ns[j1] as int] == pv[ns[j2] as int] by {
                        assert(pv[ns[j1] as int] == first);
                        assert(pv[ns[j2] as int] == first);
                    }
                }
            }
        }
        if cut {
            edges_to_remove.push(i);
        }
        i = i + 1;
    }
    edges_to_remove
}

impl Hypergraph {
    /// The variables whose nets the partition `partvec` of the vertices cuts, so that the
    /// hypergraph falls apart without them; none when the hypergraph has at most one vertex or net.
    pub fn get_variables_for_cut(&self, partvec: &Vec<u32>) -> (r: Vec<u32>)
        requires
            self.x_pins@.len() > self.current_variable_index,
            forall|g: int| 0 <= g < self.x_pins@.len() ==> #[trigger] self.x_pins@[g] <= self.pins@.len(),
            forall|j: int| 0 <= j < self.pins@.len() ==> #[trigger] self.pins@[j] < partvec@.len(),
            self.variable_index_map@.len() >= self.current_variable_index,
        ensures
            self.current_constraint_index <= 1 || self.current_variable_index <= 1 ==> r@.len() == 0,
            !(self.current_constraint_index <= 1 || self.current_variable_index <= 1) ==> {
                let cut = cut_nets_below(self.pins@, self.x_pins@, partvec@, self.current_variable_index as int);
                &&& r@.len() == cut.len()
                &&& forall|k: int| 0 <= k < r@.len()
                    ==> #[trigger] r@[k] == self.variable_index_map@[cut[k] as int] as u32
            },
    {
        if self.current_constraint_index <= 1 || self.current_variable_index <= 1 {
            return Vec::new();
        }
        let edges_to_remove = cut_nets(self.current_variable_index, &self.pins, &self.x_pins, partvec);
        proof {
            lemma_cut_nets_below_bound(self.pins@, self.x_pins@, partvec@, self.current_variable_index as int);
        }
        let mut next_variables: Vec<u32> = Vec::new();
        let mut k: usize = 0;
        while k < edges_to_remove.len()
            invariant
                0 <= k <= edges_to_remove@.len(),
                forall|k2: int| 0 <= k2 < edges_to_remove@.len() ==> (#[trigger] edges_to_remove@[k2]) < self.current_variable_index,
                self.variable_index_map@.len() >= self.current_variable_index,
                next_variables@.len() == k,
                forall|k2: int| 0 <= k2 < k
                    ==> #[trigger] next_variables@[k2] == self.variable_index_map@[edges_to_remove@[k2] as int] as u32,
            decreases edges_to_remove@.len() - k,
        {
            let e = edges_to_remove[k];
            next_variables.push(self.variable_index_map[e as usize] as u32);
            k = k + 1;
        }
        next_variables
    }

    /// Splits the open constraints into components by the part numbers `partvec` gives the
    /// vertices: component `p` holds the open constraints of the vertices of part `p` and their
    /// open variables; the variables kept apart form one more component, when there are any.
    #[verifier::rlimit(60)]
    pub fn create_partition(&self, solver: &Solver, partvec: Vec<u32>) -> (r: ComponentBasedFormula)
        requires
            partition_input_ok(*self, *solver, partvec@),
        ensures
            r.current_component == 0,
            r.previous_number_unsat_constraints == solver.unsat_count(),
            r.previous_number_unassigned_variables == solver.unassigned_count(),
            r.previous_variables_in_scope@ == solver.scope(),
            r.previous_constraint_indexes_in_scope@ == solver.constraints_in_scope(),
            r.components@.len() == max_part(partvec@) + 1 + if self.single_variables@.is_empty() { 0int } else { 1int },
            forall|p: int| 0 <= p <= max_part(partvec@)
                ==> holds_part(#[trigger] r.components@[p], *self, *solver, partvec@, p as u32, partvec@.len() as int),
            !self.single_variables@.is_empty() ==> {
                let c = r.components@[max_part(partvec@) + 1];
                &&& c.variables@ == self.single_variables@
                &&& c.number_unassigned_variables == self.single_variables@.len()
                &&& c.constraint_indexes_in_scope@.is_empty()
                &&& c.number_unsat_constraints == 0
            },
    {
        let formula = solver.formula_ref();
        let ghost s = *solver;
        let ghost pv = partvec@;
        let mut component_based_formula = ComponentBasedFormula::new(
            solver.unsat_count_value(),
            solver.unassigned_count_value(),
            solver.scope_ref().clone(),
            solver.constraints_in_scope_ref().clone(),
        );
        let mut number_partitions: u32 = 0;
        let mut i: usize = 0;
        proof {
            assert(pv.take(0) =~= Seq::<u32>::empty());
        }
        while i < partvec.len()
            invariant
                0 <= i <= pv.len(),
                pv == partvec@,
                number_partitions == max_part(pv.take(i as int)),
            decreases pv.len() - i,
        {
            proof {
                assert(pv.take(i + 1).drop_last() =~= pv.take(i as int));
            }
            if partvec[i] > number_partitions {
                number_partitions = partvec[i];
            }
            i = i + 1;
        }
        proof {
            assert(pv.take(pv.len() as int) =~= pv);
        }
        number_partitions = number_partitions + 1;
        let mut p: u32 = 0;
        while p < number_partitions
            invariant
                0 <= p <= number_partitions,
                number_partitions == max_part(pv) + 1,
                component_based_formula.components@.len() == p,
                forall|q: int| 0 <= q < p ==> holds_part(#[trigger] component_based_formula.components@[q], *self, s, pv, q as u32, 0),
                component_based_formula.current_component == 0,
                component_based_formula.previous_number_unsat_constraints == s.unsat_count(),
                component_based_formula.previous_number_unassigned_variables == s.unassigned_count(),
                component_based_formula.previous_variables_in_scope@ == s.scope(),
                component_based_formula.previous_constraint_indexes_in_scope@ == s.constraints_in_scope(),
            decreases number_partitions - p,
        {
            let ghost before = component_based_formula.components@;
            component_based_formula.components.push(Component {
                variables: BTreeSet::new(),
                number_unassigned_variables: 0,
                number_unsat_constraints: 0,
                constraint_indexes_in_scope: BTreeSet::new(),
            });
            proof {
                let c = component_based_formula.components@[p as int];
                assert(part_constraints(*self, s, pv, p, 0) =~= Set::<usize>::empty());
                assert(part_variables(*self, s, pv, p, 0) =~= Set::<usize>::empty());
                assert(holds_part(c, *self, s, pv, p, 0));
                assert forall|q: int| 0 <= q < p + 1 implies holds_part(#[trigger] component_based_formula.components@[q], *self, s, pv, q as u32, 0) by {
                    if q < p {
                        assert(component_based_formula.components@[q] == before[q]);
                    }
                }
            }
            p = p + 1;
        }
        let n = formula.number_variables;
        proof {
            lemma_below(n as nat);
        }
        let mut i: usize = 0;
        while i < partvec.len()
            invariant
                0 <= i <= pv.len(),
                pv == partvec@,
                *formula == s.held_formula(),
                n == formula.number_variables,
                below(n as nat).finite(),
                below(n as nat).len() == n,
                partition_input_ok(*self, s, pv),
                component_based_formula.components@.len() == max_part(pv) + 1,
                forall|q: int| 0 <= q <= max_part(pv)
                    ==> holds_part(#[trigger] component_based_formula.components@[q], *self, s, pv, q as u32, i as int),
                component_based_formula.current_component == 0,
                component_based_formula.previous_number_unsat_constraints == s.unsat_count(),
                component_based_formula.previous_number_unassigned_variables == s.unassigned_count(),
                component_based_formula.previous_variables_in_scope@ == s.scope(),
                component_based_formula.previous_constraint_indexes_in_scope@ == s.constraints_in_scope(),
            decreases pv.len() - i,
        {
            let ci = self.constraint_index_map[i];
            let part = partvec[i];
            proof {
                assert(part <= max_part(pv)) by {
                    lemma_max_part(pv);
                }
                assert(ci < formula.constraints@.len());
                assert(formula.constraints@[ci as int].wf());
            }
            let constraint = &formula.constraints[ci];
            let ghost comps0 = component_based_formula.components@;
            if constraint.is_unsatisfied() {
                proof {
                    let c0 = comps0[part as int];
                    let lits = constraint.unassigned_literals@;
                    assert(holds_part(c0, *self, s, pv, part, i as int));
                    lemma_part_bounds(*self, s, pv, part, i as int);
                    lemma_part_bounds(*self, s, pv, part, i + 1);
                    lemma_part_step(*self, s, pv, part, i as int);
                    assert(open_in_part(*self, s, pv, part, i as int));
                    vstd::set_lib::lemma_len_subset(c0.variables@, below(n as nat));
                    vstd::set_lib::lemma_len_subset(c0.variables@.union(lits.dom()), below(n as nat));
                }
                add_constraint(&mut component_based_formula.components[part as usize], ci, &constraint.unassigned_literals);
            }
            proof {
                assert forall|q: int| 0 <= q <= max_part(pv)
                    implies holds_part(#[trigger] component_based_formula.components@[q], *self, s, pv, q as u32, i + 1) by {
                    lemma_part_step(*self, s, pv, q as u32, i as int);
                    if q != part {
                        assert(component_based_formula.components@[q] == comps0[q]);
                        assert(!open_in_part(*self, s, pv, q as u32, i as int));
                    } else if !constraint.satisfied_by_rec() {
                        assert(open_in_part(*self, s, pv, q as u32, i as int));
                    } else {
                        assert(!open_in_part(*self, s, pv, q as u32, i as int));
                    }
                }
            }
            i = i + 1;
        }
        if !self.single_variables.is_empty() {
            proof {
                lemma_below(n as nat);
                vstd::set_lib::lemma_len_subset(self.single_variables@, below(n as nat));
            }
            let count = self.single_variables.len() as u32;
            let ghost before = component_based_formula.components@;
            component_based_formula.components.push(Component {
                variables: self.single_variables.clone(),
                number_unsat_constraints: 0,
                number_unassigned_variables: count,
                constraint_indexes_in_scope: BTreeSet::new(),
            });
            proof {
                assert forall|q: int| 0 <= q <= max_part(pv)
                    implies holds_part(#[trigger] component_based_formula.components@[q], *self, s, pv, q as u32, pv.len() as int) by {
                    assert(component_based_formula.components@[q] == before[q]);
                }
            }
        }
        component_based_formula
    }
}

/// Every part number is at most the largest.
pub(crate) proof fn lemma_max_part(partvec: Seq<u32>)
    ensures
        forall|i: int| 0 <= i < partvec.len() ==> #[trigger] partvec[i] <= max_part(partvec),
    decreases partvec.len(),
{
    if partvec.len() > 0 {
        let l = partvec.drop_last();
        lemma_max_part(l);
        assert forall|i: int| 0 <= i < partvec.len() implies #[trigger] partvec[i] <= max_part(partvec) by {
            if i < l.len() {
                assert(partvec[i] == l[i]);
            }
        }
    }
}

// ---------------------------------------------------------------------------------------------
// Connected parts of the hypergraph.

/// Position `i` of `pins` lies in the net of variable `k`, an open variable of the constraint of
/// vertex `u`.
pub open spec fn net_pin(h: Hypergraph, s: Solver, u: int, k: usize, i: int) -> bool {
    let g = h.variable_index_map_reverse@[k] as int;
    &&& s.held_formula().constraints@[h.constraint_index_map@[u] as int].unassigned_literals@.contains_key(k)
    &&& h.x_pins@[g] <= i < h.x_pins@[g + 1]
}

/// Vertex `w` is a pin of a net of vertex `u`: the two constraints share an open variable.
pub open spec fn edge(h: Hypergraph, s: Solver, u: int, w: int) -> bool {
    exists|k: usize, i: int| #[trigger] net_pin(h, s, u, k, i) && h.pins@[i] == w
}

/// Step `t` of `p` follows an edge.
pub open spec fn step(h: Hypergraph, s: Solver, p: Seq<int>, t: int) -> bool {
    edge(h, s, p[t], p[t + 1])
}

/// `p` is a walk along edges.
pub open spec fn is_path(h: Hypergraph, s: Solver, p: Seq<int>) -> bool {
    &&& p.len() >= 1
    &&& forall|t: int| 0 <= t < p.len() - 1 ==> #[trigger] step(h, s, p, t)
}

/// Vertex `v` can be reached from vertex `u` along edges.
pub open spec fn reaches(h: Hypergraph, s: Solver, u: int, v: int) -> bool {
    exists|p: Seq<int>| #[trigger] is_path(h, s, p) && p[0] == u && p.last() == v
}

/// The labels `pv` number the vertices by connected part: `starts[l]` is the first vertex of part
/// `l` (vertex 0 for part 0, then each time the smallest vertex not reached yet), and each vertex
/// carries the first part whose start reaches it.
pub open spec fn component_labels(h: Hypergraph, s: Solver, pv: Seq<u32>, starts: Seq<int>) -> bool {
    let m = h.current_constraint_index as int;
    &&& pv.len() == m
    &&& starts.len() >= 1
    &&& starts[0] == 0
    &&& forall|l: int| 0 <= l < starts.len() ==> 0 <= #[trigger] starts[l] < m && pv[starts[l]] == l
    &&& forall|l: int, l2: int| 0 <= l < l2 < starts.len() ==> #[trigger] starts[l] < #[trigger] starts[l2]
    &&& forall|v: int| 0 <= v < m ==> {
        &&& (#[trigger] pv[v]) < starts.len()
        &&& starts[pv[v] as int] <= v
        &&& reaches(h, s, starts[pv[v] as int], v)
        &&& forall|l: int| 0 <= l < pv[v] ==> !reaches(h, s, #[trigger] starts[l], v)
    }
}

/// `pv` labels the vertices by connected part, and there is more than one part or some variable
/// kept apart.
pub open spec fn split_into_parts(h: Hypergraph, s: Solver, pv: Seq<u32>) -> bool {
    exists|starts: Seq<int>| #[trigger] component_labels(h, s, pv, starts)
        && (starts.len() > 1 || !h.single_variables@.is_empty())
}

/// Every vertex is reached from vertex 0, and no variable is kept apart.
pub open spec fn one_part(h: Hypergraph, s: Solver) -> bool {
    &&& h.single_variables@.is_empty()
    &&& forall|v: int| 0 <= v < h.current_constraint_index ==> #[trigger] reaches(h, s, 0, v)
}

/// The hypergraph fits the solver's state: its vertices name constraints, the open variables of
/// those constraints have nets, and the nets' pins are vertices.
pub open spec fn graph_shape_ok(h: Hypergraph, s: Solver) -> bool {
    let m = h.current_constraint_index as int;
    let cs = s.held_formula().constraints@;
    &&& h.constraint_index_map@.len() >= m
    &&& forall|u: int| 0 <= u < m ==> (#[trigger] h.constraint_index_map@[u]) < cs.len()
    &&& forall|u: int, k: usize| 0 <= u < m && #[trigger] cs[h.constraint_index_map@[u] as int].unassigned_literals@.contains_key(k)
        ==> h.variable_index_map_reverse@.contains_key(k) && h.variable_index_map_reverse@[k] + 1 < h.x_pins@.len()
    &&& forall|g: int| 0 <= g < h.x_pins@.len() ==> #[trigger] h.x_pins@[g] <= h.pins@.len()
    &&& forall|i: int| 0 <= i < h.pins@.len() ==> (#[trigger] h.pins@[i]) < m
}

proof fn lemma_reaches_refl(h: Hypergraph, s: Solver, u: int)
    ensures
        reaches(h, s, u, u),
{
    let p = seq![u];
    assert(is_path(h, s, p));
}

pub(crate) proof fn lemma_reaches_step(h: Hypergraph, s: Solver, u: int, v: int, w: int)
    requires
        reaches(h, s, u, v),
        edge(h, s, v, w),
    ensures
        reaches(h, s, u, w),
{
    let p = choose|p: Seq<int>| #[trigger] is_path(h, s, p) && p[0] == u && p.last() == v;
    let q = p.push(w);
    assert forall|t: int| 0 <= t < q.len() - 1 implies #[trigger] step(h, s, q, t) by {
        if t < p.len() - 1 {
            assert(step(h, s, p, t));
            assert(q[t] == p[t] && q[t + 1] == p[t + 1]);
        } else {
            assert(q[t] == v && q[t + 1] == w);
        }
    }
    assert(is_path(h, s, q));
    assert(q[0] == u && q.last() == w);
}

/// A set of vertices closed under edges holds every vertex reached from one of its members.
proof fn lemma_closed(h: Hypergraph, s: Solver, set: Set<int>, p: Seq<int>)
    requires
        is_path(h, s, p),
        set.contains(p[0]),
        forall|x: int, w: int| #![trigger edge(h, s, x, w)] set.contains(x) && edge(h, s, x, w) ==> set.contains(w),
    ensures
        set.contains(p.last()),
    decreases p.len(),
{
    if p.len() > 1 {
        let q = p.drop_last();
        assert forall|t: int| 0 <= t < q.len() - 1 implies #[trigger] step(h, s, q, t) by {
            assert(step(h, s, p, t));
        }
        lemma_closed(h, s, set, q);
        assert(step(h, s, p, p.len() - 2));
    }
}

/// The vertices labeled below `j`.
pub open spec fn done_set(pv: Seq<Option<u32>>, j: int) -> Set<int> {
    Set::new(|v: int| 0 <= v < pv.len() && pv[v] is Some && pv[v]->0 < j)
}

/// The labeled vertices.
pub open spec fn labeled_set(pv: Seq<Option<u32>>) -> Set<int> {
    Set::new(|v: int| 0 <= v < pv.len() && pv[v] is Some)
}

/// Pushing keeps what a sequence holds.
proof fn lemma_push_contains(s: Seq<u32>, x: u32)
    ensures
        forall|y: u32| s.contains(y) ==> #[trigger] s.push(x).contains(y),
        s.push(x).contains(x),
{
    assert forall|y: u32| s.contains(y) implies #[trigger] s.push(x).contains(y) by {
        let i = choose|i: int| 0 <= i < s.len() && s[i] == y;
        assert(s.push(x)[i] == y);
    }
    assert(s.push(x)[s.len() as int] == x);
}

/// Popping keeps what a sequence holds, but for the popped value.
proof fn lemma_pop_contains(s: Seq<u32>)
    requires
        s.len() > 0,
    ensures
        forall|y: u32| s.contains(y) && y != s.last() ==> #[trigger] s.drop_last().contains(y),
{
    assert forall|y: u32| s.contains(y) && y != s.last() implies #[trigger] s.drop_last().contains(y) by {
        let i = choose|i: int| 0 <= i < s.len() && s[i] == y;
        assert(i < s.len() - 1);
        assert(s.drop_last()[i] == y);
    }
}

impl Hypergraph {
    /// Pushes the pins of the nets of the open variables of vertex `x`: every vertex `x` has an
    /// edge to, and only such vertices.
    fn visit_neighbours(&self, solver: &Solver, x: u32, to_visit: &mut Vec<u32>)
        requires
            graph_shape_ok(*self, *solver),
            (x as int) < self.current_constraint_index,
        ensures
            old(to_visit)@.len() <= final(to_visit)@.len(),
            final(to_visit)@.take(old(to_visit)@.len() as int) == old(to_visit)@,
            forall|i: int| old(to_visit)@.len() <= i < final(to_visit)@.len()
                ==> edge(*self, *solver, x as int, #[trigger] final(to_visit)@[i] as int),
            forall|w: int| #[trigger] edge(*self, *solver, x as int, w) ==> final(to_visit)@.contains(w as u32),
    {
        let formula = solver.formula_ref();
        let ghost s = *solver;
        let ghost h = *self;
        let ci = self.constraint_index_map[x as usize];
        let lits = &formula.constraints[ci].unassigned_literals;
        let ghost old_tv = to_visit@;
        let ghost g_seq = lits.iter().remaining();
        let ghost mut g_i: int = 0;
        proof {
            assert(to_visit@.take(old_tv.len() as int) =~= old_tv);
        }
        for (index, _) in it: lits.iter()
            invariant
                g_seq == it.seq(),
                g_i == it.index(),
                g_seq.len() == lits@.dom().len(),
                forall|j: int| 0 <= j < g_seq.len() ==> lits@.contains_key(*(#[trigger] g_seq[j]).0),
                forall|k: usize| #[trigger] lits@.contains_key(k) ==> g_seq.contains((&k, &lits@[k])),
                *formula == s.held_formula(),
                s == *solver,
                h == *self,
                graph_shape_ok(h, s),
                (x as int) < h.current_constraint_index,
                ci == h.constraint_index_map@[x as int],
                *lits == s.held_formula().constraints@[ci as int].unassigned_literals,
                old_tv == old(to_visit)@,
                old_tv.len() <= to_visit@.len(),
                to_visit@.take(old_tv.len() as int) == old_tv,
                forall|i: int| old_tv.len() <= i < to_visit@.len() ==> edge(h, s, x as int, #[trigger] to_visit@[i] as int),
                forall|j: int, i: int| 0 <= j < g_i && #[trigger] net_pin(h, s, x as int, *g_seq[j].0, i)
                    ==> to_visit@.contains(h.pins@[i]),
        {
            proof {
                assert(lits@.contains_key(*g_seq[g_i].0));
                assert(s.held_formula().constraints@[h.constraint_index_map@[x as int] as int].unassigned_literals@.contains_key(*index));
            }
            let g: usize = match self.variable_index_map_reverse.get(index) {
                Some(v) => *v as usize,
                None => 0,
            };
            assert(g == h.variable_index_map_reverse@[*index]);
            assert(h.variable_index_map_reverse@[*index] + 1 < h.x_pins@.len());
            let x_len = self.x_pins.len();
            assert(g + 1 < x_len);
            let lo = self.x_pins[g];
            let hi = self.x_pins[g + 1];
            let mut i = lo;
            let ghost tv_key = to_visit@;
            while i < hi
                invariant
                    lo <= i,
                    *index == *g_seq[g_i].0,
                    0 <= g_i < g_seq.len(),
                    lits@.contains_key(*index),
                    g == h.variable_index_map_reverse@[*index],
                    lo == h.x_pins@[g as int],
                    hi == h.x_pins@[g + 1],
                    (hi as int) <= h.pins@.len(),
                    s == *solver,
                    h == *self,
                    graph_shape_ok(h, s),
                    (x as int) < h.current_constraint_index,
                    ci == h.constraint_index_map@[x as int],
                    *lits == s.held_formula().constraints@[ci as int].unassigned_literals,
                    old_tv.len() <= tv_key.len(),
                    tv_key.len() <= to_visit@.len(),
                    to_visit@.take(tv_key.len() as int) == tv_key,
                    tv_key.take(old_tv.len() as int) == old_tv,
                    forall|i2: int| old_tv.len() <= i2 < to_visit@.len() ==> edge(h, s, x as int, #[trigger] to_visit@[i2] as int),
                    forall|i2: int| lo <= i2 < i ==> to_visit@.contains(#[trigger] h.pins@[i2]),
                    forall|y: u32| tv_key.contains(y) ==> #[trigger] to_visit@.contains(y),
                decreases hi - i,
            {
                let pin = self.pins[i as usize];
                let ghost before = to_visit@;
                to_visit.push(pin);
                proof {
                    lemma_push_contains(before, pin);
                    assert(net_pin(h, s, x as int, *index, i as int));
                    assert(edge(h, s, x as int, pin as int));
                    assert(to_visit@.take(tv_key.len() as int) =~= tv_key);
                    assert forall|i2: int| lo <= i2 < i + 1 implies to_visit@.contains(#[trigger] h.pins@[i2]) by {
                        if i2 < i {
                            assert(before.contains(h.pins@[i2]));
                        }
                    }
                }
                i = i + 1;
            }
            proof {
                assert(to_visit@.take(old_tv.len() as int) =~= tv_key.take(old_tv.len() as int));
                assert forall|j: int, i2: int| 0 <= j < g_i + 1 && #[trigger] net_pin(h, s, x as int, *g_seq[j].0, i2)
                    implies to_visit@.contains(h.pins@[i2]) by {
                    if j < g_i {
                        assert(tv_key.contains(h.pins@[i2]));
                    }
                }
                g_i = g_i + 1;
            }
        }
        proof {
            assert forall|w: int| #[trigger] edge(h, s, x as int, w) implies to_visit@.contains(w as u32) by {
                let (k, i2) = choose|k: usize, i2: int| #[trigger] net_pin(h, s, x as int, k, i2) && h.pins@[i2] == w;
                assert(g_seq.contains((&k, &lits@[k])));
                let j = choose|j: int| 0 <= j < g_seq.len() && g_seq[j] == (&k, &lits@[k]);
                assert(*g_seq[j].0 == k);
                assert(net_pin(h, s, x as int, *g_seq[j].0, i2));
            }
        }
    }
}

/// An edge leads to a vertex.
proof fn lemma_edge_target(h: Hypergraph, s: Solver, u: int, w: int)
    requires
        graph_shape_ok(h, s),
        0 <= u < h.current_constraint_index,
        edge(h, s, u, w),
    ensures
        0 <= w < h.current_constraint_index,
{
    let (k, i) = choose|k: usize, i: int| #[trigger] net_pin(h, s, u, k, i) && h.pins@[i] == w;
    let cs = s.held_formula().constraints@;
    assert(cs[h.constraint_index_map@[u] as int].unassigned_literals@.contains_key(k));
    let g = h.variable_index_map_reverse@[k] as int;
    assert(h.x_pins@[g + 1] <= h.pins@.len());
}

/// A labeled vertex carries the first part whose start reaches it, and was not labeled before
/// its part's start was chosen.
pub open spec fn labeled_ok(h: Hypergraph, s: Solver, pv: Seq<Option<u32>>, starts: Seq<int>, j: int, v: int) -> bool {
    let l = pv[v]->0 as int;
    &&& l <= j
    &&& starts[l] <= v
    &&& reaches(h, s, starts[l], v)
    &&& forall|l2: int| 0 <= l2 < l ==> !reaches(h, s, #[trigger] starts[l2], v)
}

/// The state of the search while part `j` is explored: the parts before `j` are complete (their
/// edges stay inside labeled vertices), every edge out of part `j` leads to a labeled vertex or
/// to one still to visit, and every vertex still to visit is reached from the start of part `j`.
pub open spec fn search_ok(h: Hypergraph, s: Solver, pv: Seq<Option<u32>>, starts: Seq<int>, j: int, to_visit: Seq<u32>) -> bool {
    let m = h.current_constraint_index as int;
    &&& pv.len() == m
    &&& starts.len() == j + 1
    &&& starts[0] == 0
    &&& forall|l: int| 0 <= l <= j ==> l <= #[trigger] starts[l] < m
    &&& forall|l: int, l2: int| 0 <= l < l2 <= j ==> #[trigger] starts[l] < #[trigger] starts[l2]
    &&& forall|l: int| 0 <= l < j ==> pv[#[trigger] starts[l]] == Some(l as u32)
    &&& (pv[starts[j]] is Some ==> pv[starts[j]] == Some(j as u32))
    &&& (pv[starts[j]] is None ==> to_visit.contains(starts[j] as u32))
    &&& forall|v: int| 0 <= v < m && (#[trigger] pv[v]) is Some ==> labeled_ok(h, s, pv, starts, j, v)
    &&& forall|v: int, w: int| #![trigger edge(h, s, v, w)] 0 <= v < m && pv[v] is Some && pv[v]->0 < j && edge(h, s, v, w)
        ==> 0 <= w < m && pv[w] is Some && pv[w]->0 <= pv[v]->0
    &&& forall|v: int, w: int| #![trigger edge(h, s, v, w)] 0 <= v < m && pv[v] == Some(j as u32) && edge(h, s, v, w)
        ==> (0 <= w < m && pv[w] is Some) || to_visit.contains(w as u32)
    &&& forall|i: int| 0 <= i < to_visit.len() ==> (#[trigger] to_visit[i]) < m && reaches(h, s, starts[j], to_visit[i] as int)
    &&& forall|v: int| 0 <= v < starts[j] ==> (#[trigger] pv[v]) is Some
}

/// No vertex labeled before part `j` is reached from an unlabeled one's part: an unlabeled
/// vertex is not reached from the start of an earlier part.
proof fn lemma_unlabeled_unreached(h: Hypergraph, s: Solver, pv: Seq<Option<u32>>, starts: Seq<int>, j: int, to_visit: Seq<u32>, x: int, l2: int)
    requires
        graph_shape_ok(h, s),
        search_ok(h, s, pv, starts, j, to_visit),
        0 <= x < h.current_constraint_index,
        pv[x] is None,
        0 <= l2 < j,
    ensures
        !reaches(h, s, starts[l2], x),
{
    let done = done_set(pv, j);
    assert forall|v: int, w: int| #![trigger edge(h, s, v, w)] done.contains(v) && edge(h, s, v, w) implies done.contains(w) by {
        assert(0 <= w < h.current_constraint_index && pv[w] is Some && pv[w]->0 <= pv[v]->0);
    }
    assert(pv[starts[l2]] == Some(l2 as u32));
    assert(done.contains(starts[l2]));
    if reaches(h, s, starts[l2], x) {
        let p = choose|p: Seq<int>| #[trigger] is_path(h, s, p) && p[0] == starts[l2] && p.last() == x;
        lemma_closed(h, s, done, p);
    }
}

impl Hypergraph {
    /// Labels the vertices by connected part (see `component_labels`), searching from vertex 0
    /// and then from the smallest vertex not reached yet. Gives nothing when there are at most
    /// one vertex, or one part and no variable kept apart.
    #[verifier::rlimit(100)]
    #[verifier::spinoff_prover]
    pub fn find_disconnected_components(&self, solver: &Solver) -> (r: Option<Vec<u32>>)
        requires
            graph_shape_ok(*self, *solver),
        ensures
            self.current_constraint_index <= 1 ==> r is None,
            self.current_constraint_index > 1 && r is Some ==> split_into_parts(*self, *solver, r->0@),
            self.current_constraint_index > 1 && r is None ==> one_part(*self, *solver),
    {
        let ghost s = *solver;
        let ghost h = *self;
        let m = self.current_constraint_index;
        if m <= 1 {
            return None;
        }
        let mut current_partition_label: u32 = 0;
        let mut partvec: Vec<Option<u32>> = Vec::new();
        let mut number_visited: usize = 0;
        let mut last_visited: usize = 0;
        let mut k: u32 = 0;
        while k < m
            invariant
                0 <= k <= m,
                partvec@.len() == k,
                forall|i: int| 0 <= i < k ==> (#[trigger] partvec@[i]) is None,
            decreases m - k,
        {
            partvec.push(None);
            k = k + 1;
        }
        let mut to_visit: Vec<u32> = Vec::new();
        to_visit.push(0);
        let ghost mut starts: Seq<int> = seq![0int];
        proof {
            lemma_reaches_refl(h, s, 0);
            assert(labeled_set(partvec@) =~= Set::<int>::empty());
            vstd::set_lib::lemma_int_range(0, m as int);
            assert(to_visit@ =~= seq![0u32]);
            assert(to_visit@[0] == 0u32);
            assert(search_ok(h, s, partvec@, starts, 0, to_visit@));
        }
        loop
            invariant_except_break
                to_visit@ == seq![starts[current_partition_label as int] as u32],
                partvec@[starts[current_partition_label as int]] is None,
            invariant
                s == *solver,
                h == *self,
                graph_shape_ok(h, s),
                m == h.current_constraint_index,
                m > 1,
                vstd::set_lib::set_int_range(0, m as int).finite(),
                vstd::set_lib::set_int_range(0, m as int).len() == m,
                search_ok(h, s, partvec@, starts, current_partition_label as int, to_visit@),
                number_visited == labeled_set(partvec@).len(),
                labeled_set(partvec@).subset_of(vstd::set_lib::set_int_range(0, m as int)),
                last_visited == starts[current_partition_label as int],
            ensures
                search_ok(h, s, partvec@, starts, current_partition_label as int, to_visit@),
                to_visit@.len() == 0,
                labeled_set(partvec@) == vstd::set_lib::set_int_range(0, m as int),
            decreases m - number_visited,
        {
            let ghost lab0 = labeled_set(partvec@);
            let ghost nv0 = number_visited;
            let ghost j = current_partition_label as int;
            let ghost start = starts[j];
            proof {
                vstd::set_lib::lemma_len_subset(lab0, vstd::set_lib::set_int_range(0, m as int));
            }
            while to_visit.len() > 0
                invariant
                    s == *solver,
                    h == *self,
                    graph_shape_ok(h, s),
                    m == h.current_constraint_index,
                    m > 1,
                    j == current_partition_label as int,
                    start == starts[j],
                    vstd::set_lib::set_int_range(0, m as int).finite(),
                    vstd::set_lib::set_int_range(0, m as int).len() == m,
                    search_ok(h, s, partvec@, starts, j, to_visit@),
                    number_visited == labeled_set(partvec@).len(),
                    labeled_set(partvec@).subset_of(vstd::set_lib::set_int_range(0, m as int)),
                    lab0.subset_of(labeled_set(partvec@)),
                    !lab0.contains(start),
                    lab0.finite(),
                    last_visited == start,
                decreases m - number_visited, to_visit@.len(),
            {
                let ghost tv = to_visit@;
                let ghost pv = partvec@;
                let x = match to_visit.pop() {
                    Some(x) => x,
                    None => 0,
                };
                proof {
                    assert(x == tv.last());
                    assert(to_visit@ == tv.drop_last());
                    lemma_pop_contains(tv);
                    assert(tv[tv.len() - 1] == x);
                    vstd::set_lib::lemma_len_subset(labeled_set(pv), vstd::set_lib::set_int_range(0, m as int));
                }
                if partvec[x as usize].is_none() {
                    proof {
                        assert(!labeled_set(pv).contains(x as int));
                        assert(labeled_set(pv).insert(x as int).subset_of(vstd::set_lib::set_int_range(0, m as int)));
                        vstd::set_lib::lemma_len_subset(labeled_set(pv).insert(x as int), vstd::set_lib::set_int_range(0, m as int));
                    }
                    number_visited = number_visited + 1;
                    partvec.set(x as usize, Some(current_partition_label));
                    let ghost tv1 = to_visit@;
                    self.visit_neighbours(solver, x, &mut to_visit);
                    proof {
                        let pv1 = partvec@;
                        let tv2 = to_visit@;
                        assert(pv1 == pv.update(x as int, Some(j as u32)));
                        assert(labeled_set(pv1) =~= labeled_set(pv).insert(x as int));
                        assert(forall|y: u32| tv1.contains(y) ==> #[trigger] tv2.contains(y)) by {
                            assert forall|y: u32| tv1.contains(y) implies #[trigger] tv2.contains(y) by {
                                let i = choose|i: int| 0 <= i < tv1.len() && tv1[i] == y;
                                assert(tv2.take(tv1.len() as int)[i] == y);
                            }
                        }
                        assert(reaches(h, s, start, x as int));
                        assert forall|l2: int| 0 <= l2 < j implies !reaches(h, s, #[trigger] starts[l2], x as int) by {
                            lemma_unlabeled_unreached(h, s, pv, starts, j, tv, x as int, l2);
                        }
                        assert(start <= x) by {
                            if (x as int) < start {
                                assert(pv[x as int] is Some);
                            }
                        }
                        assert(labeled_ok(h, s, pv1, starts, j, x as int));
                        assert forall|v: int| 0 <= v < m && (#[trigger] pv1[v]) is Some implies labeled_ok(h, s, pv1, starts, j, v) by {
                            if v != x as int {
                                assert(pv1[v] == pv[v]);
                                assert(labeled_ok(h, s, pv, starts, j, v));
                            }
                        }
                        assert forall|v: int, w: int| #![trigger edge(h, s, v, w)]
                            0 <= v < m && pv1[v] is Some && pv1[v]->0 < j && edge(h, s, v, w)
                            implies 0 <= w < m && pv1[w] is Some && pv1[w]->0 <= pv1[v]->0 by {
                            assert(v != x as int);
                            assert(pv1[v] == pv[v]);
                            assert(0 <= w < m && pv[w] is Some && pv[w]->0 <= pv[v]->0);
                            assert(w != x as int);
                        }
                        assert forall|v: int, w: int| #![trigger edge(h, s, v, w)]
                            0 <= v < m && pv1[v] == Some(j as u32) && edge(h, s, v, w)
                            implies (0 <= w < m && pv1[w] is Some) || tv2.contains(w as u32) by {
                            if v == x as int {
                            } else {
                                assert(pv1[v] == pv[v]);
                                lemma_edge_target(h, s, v, w);
                                if !(pv[w] is Some) {
                                    assert(tv.contains(w as u32));
                                    if w as u32 == x {
                                        assert(w == x as int);
                                    } else {
                                        assert(tv1.contains(w as u32));
                                    }
                                }
                            }
                        }
                        assert forall|i: int| 0 <= i < tv2.len() implies (#[trigger] tv2[i]) < m && reaches(h, s, start, tv2[i] as int) by {
                            if i < tv1.len() {
                                assert(tv2.take(tv1.len() as int)[i] == tv1[i]);
                                assert(tv1[i] == tv[i]);
                            } else {
                                assert(edge(h, s, x as int, tv2[i] as int));
                                lemma_edge_target(h, s, x as int, tv2[i] as int);
                                lemma_reaches_step(h, s, start, x as int, tv2[i] as int);
                            }
                        }
                        if pv1[start] is None {
                            assert(start != x as int);
                            assert(tv.contains(start as u32));
                            assert(start as u32 != x);
                            assert(tv1.contains(start as u32));
                        }
                        assert forall|l: int| 0 <= l < j implies pv1[#[trigger] starts[l]] == Some(l as u32) by {
                            assert(pv[starts[l]] == Some(l as u32));
                        }
                        assert forall|v: int| 0 <= v < start implies (#[trigger] pv1[v]) is Some by {
                            assert(pv[v] is Some);
                        }
                        assert(search_ok(h, s, pv1, starts, j, tv2));
                    }
                } else {
                    proof {
                        let tv1 = to_visit@;
                        assert forall|v: int, w: int| #![trigger edge(h, s, v, w)]
                            0 <= v < m && pv[v] == Some(j as u32) && edge(h, s, v, w)
                            implies (0 <= w < m && pv[w] is Some) || tv1.contains(w as u32) by {
                            lemma_edge_target(h, s, v, w);
                            if !(pv[w] is Some) {
                                assert(tv.contains(w as u32));
                                assert(w as u32 != x);
                            }
                        }
                        assert forall|i: int| 0 <= i < tv1.len() implies (#[trigger] tv1[i]) < m && reaches(h, s, start, tv1[i] as int) by {
                            assert(tv1[i] == tv[i]);
                        }
                        if pv[start] is None {
                            assert(tv.contains(start as u32));
                            assert(start as u32 != x);
                        }
                        assert(search_ok(h, s, pv, starts, j, tv1));
                    }
                }
            }
            proof {
                let pv = partvec@;
                assert(pv[start] is Some);
                assert(labeled_set(pv).contains(start));
                assert(lab0.insert(start).subset_of(labeled_set(pv)));
                vstd::set_lib::lemma_len_subset(labeled_set(pv), vstd::set_lib::set_int_range(0, m as int));
                vstd::set_lib::lemma_len_subset(lab0.insert(start), labeled_set(pv));
                assert(lab0.insert(start).len() == lab0.len() + 1);
                assert(number_visited > nv0);
            }
            if number_visited == partvec.len() {
                proof {
                    vstd::set_lib::lemma_subset_equality(labeled_set(partvec@), vstd::set_lib::set_int_range(0, m as int));
                }
                break;
            }
            let mut i = last_visited;
            while i < partvec.len() && partvec[i].is_some()
                invariant
                    last_visited <= i <= m,
                    partvec@.len() == m,
                    last_visited == start,
                    0 <= start < m,
                    forall|v: int| 0 <= v < start ==> (#[trigger] partvec@[v]) is Some,
                    forall|v: int| start <= v < i ==> (#[trigger] partvec@[v]) is Some,
                decreases m - i,
            {
                i = i + 1;
            }
            proof {
                let pv = partvec@;
                if i == m {
                    assert(vstd::set_lib::set_int_range(0, m as int) =~= labeled_set(pv)) by {
                        assert forall|v: int| vstd::set_lib::set_int_range(0, m as int).contains(v) implies labeled_set(pv).contains(v) by {
                            if v < start {
                                assert(pv[v] is Some);
                            } else {
                                assert(pv[v] is Some);
                            }
                        }
                    }
                    assert(false);
                }
                assert(pv[start] is Some);
                assert(i > start);
                assert(starts[j] >= j);
            }
            let ghost pv = partvec@;
            let ghost old_starts = starts;
            current_partition_label = current_partition_label + 1;
            to_visit.push(i as u32);
            last_visited = i;
            proof {
                starts = starts.push(i as int);
                let j1 = j + 1;
                lemma_reaches_refl(h, s, i as int);
                assert(to_visit@ =~= seq![i as u32]);
                assert(to_visit@[0] == i as u32);
                assert forall|l: int| 0 <= l <= j1 implies l <= #[trigger] starts[l] < m by {
                    if l <= j {
                        assert(starts[l] == old_starts[l]);
                    }
                }
                assert forall|l: int, l2: int| 0 <= l < l2 <= j1 implies #[trigger] starts[l] < #[trigger] starts[l2] by {
                    assert(starts[l] == old_starts[l]);
                    if l2 <= j {
                        assert(starts[l2] == old_starts[l2]);
                    } else {
                        if l < j {
                            assert(old_starts[l] < old_starts[j]);
                        }
                    }
                }
                assert forall|l: int| 0 <= l < j1 implies pv[#[trigger] starts[l]] == Some(l as u32) by {
                    assert(starts[l] == old_starts[l]);
                    if l < j {
                        assert(pv[old_starts[l]] == Some(l as u32));
                    }
                }
                assert forall|v: int| 0 <= v < m && (#[trigger] pv[v]) is Some implies labeled_ok(h, s, pv, starts, j1, v) by {
                    assert(labeled_ok(h, s, pv, old_starts, j, v));
                    let l = pv[v]->0 as int;
                    assert(starts[l] == old_starts[l]);
                    assert forall|l2: int| 0 <= l2 < l implies !reaches(h, s, #[trigger] starts[l2], v) by {
                        assert(starts[l2] == old_starts[l2]);
                        assert(!reaches(h, s, old_starts[l2], v));
                    }
                }
                assert forall|v: int, w: int| #![trigger edge(h, s, v, w)]
                    0 <= v < m && pv[v] is Some && pv[v]->0 < j1 && edge(h, s, v, w)
                    implies 0 <= w < m && pv[w] is Some && pv[w]->0 <= pv[v]->0 by {
                    lemma_edge_target(h, s, v, w);
                    if pv[v]->0 == j {
                        assert(pv[w] is Some);
                        assert(labeled_ok(h, s, pv, old_starts, j, w));
                    }
                }
                assert forall|v: int, w: int| #![trigger edge(h, s, v, w)]
                    0 <= v < m && pv[v] == Some(j1 as u32) && edge(h, s, v, w)
                    implies (0 <= w < m && pv[w] is Some) || to_visit@.contains(w as u32) by {
                    assert(labeled_ok(h, s, pv, old_starts, j, v));
                }
                assert forall|v: int| 0 <= v < starts[j1] implies (#[trigger] pv[v]) is Some by {
                    if v < start {
                        assert(pv[v] is Some);
                    }
                }
                assert(search_ok(h, s, pv, starts, j1, to_visit@));
            }
        }
        let ghost pv = partvec@;
        let ghost j = current_partition_label as int;
        let mut result: Vec<u32> = Vec::new();
        let mut i: usize = 0;
        while i < partvec.len()
            invariant
                0 <= i <= pv.len(),
                pv == partvec@,
                pv.len() == m,
                labeled_set(pv) == vstd::set_lib::set_int_range(0, m as int),
                result@.len() == i,
                forall|v: int| 0 <= v < i ==> #[trigger] result@[v] == pv[v]->0,
            decreases pv.len() - i,
        {
            assert(labeled_set(pv).contains(i as int));
            let label = match partvec[i] {
                Some(l) => l,
                None => 0,
            };
            result.push(label);
            i = i + 1;
        }
        proof {
            let rv = result@;
            assert forall|v: int| 0 <= v < m implies (#[trigger] pv[v]) is Some by {
                assert(labeled_set(pv).contains(v));
            }
            assert(pv[starts[j]] is Some);
            assert(component_labels(h, s, rv, starts)) by {
                assert forall|l: int| 0 <= l < starts.len() implies 0 <= #[trigger] starts[l] < m && rv[starts[l]] == l by {
                    if l < j {
                        assert(pv[starts[l]] == Some(l as u32));
                    }
                }
                assert forall|v: int| 0 <= v < m implies {
                    &&& (#[trigger] rv[v]) < starts.len()
                    &&& starts[rv[v] as int] <= v
                    &&& reaches(h, s, starts[rv[v] as int], v)
                    &&& forall|l: int| 0 <= l < rv[v] ==> !reaches(h, s, #[trigger] starts[l], v)
                } by {
                    assert(pv[v] is Some);
                    assert(labeled_ok(h, s, pv, starts, j, v));
                }
            }
            if j == 0 {
                assert forall|v: int| 0 <= v < m implies #[trigger] reaches(h, s, 0, v) by {
                    assert(pv[v] is Some);
                    assert(labeled_ok(h, s, pv, starts, j, v));
                }
            }
        }
        if current_partition_label == 0 && self.single_variables.is_empty() {
            proof {
                assert forall|v: int| 0 <= v < self.current_constraint_index implies #[trigger] reaches(*self, *solver, 0, v) by {
                    assert(pv[v] is Some);
                    assert(labeled_ok(h, s, pv, starts, j, v));
                    assert(starts[0] == 0);
                }
                assert(one_part(*self, *solver));
            }
            None
        } else {
            proof {
                assert(starts.len() > 1 || !self.single_variables@.is_empty());
                assert(component_labels(*self, *solver, result@, starts));
                assert(split_into_parts(*self, *solver, result@));
            }
            Some(result)
        }
    }
}

} // verus!
