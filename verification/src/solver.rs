//! The model counter: a search over variable assignments with unit propagation on
//! pseudo-Boolean constraints, which counts models and builds a d-DNNF as it backtracks.

use vstd::prelude::*;
use vstd::std_specs::iter::IteratorSpec;
use std::collections::{BTreeSet, VecDeque};
use std::rc::Rc;
use num_bigint::BigUint;
use vstd::arithmetic::power2::pow2;
use crate::pseudo_boolean_datastructure::{
    Constraint, ConstraintIndex, ConstraintType, Literal, PropagationResult, PseudoBooleanFormula, AssignmentKind,
    sorted_values_of, lit_holds,
};
use crate::ddnnf::{
    DDNNF, DDNNFNode, DDNNFLiteral, rc_clone, eval, lemma_eval_and_push, lemma_eval_and_pair,
    lemma_eval_and_single, lemma_eval_or_pair, mentions, decomposable, deterministic, is_ddnnf, disjoint,
    lemma_shape_and_push, lemma_shape_and_pair, lemma_shape_and_single, lemma_shape_or_pair, false_branch_first,
    splits_on,
};
use crate::big_count::{big_value, big_zero, big_from_u32, big_pow, big_add};
use crate::components::ComponentBasedFormula;
use crate::hypergraph::{
    Hypergraph, built_from, graph_shape_ok, graph_vars, pin_list, first_seen, free_in_scope, var_open_constraints,
    split_into_parts, one_part, component_labels, holds_part, max_part, open_in_part, listed_pins, lemma_first_seen,
    lemma_graph_vars_prefix, lemma_pin_list_prefix, lemma_pins_open, lemma_open_constraints, lemma_pins_bound,
    lemma_graph_vars_contains, lemma_labels_below, lemma_max_part_below, lemma_listed_pins_mono,
    lemma_reaches_step, edge, net_pin, lemma_max_part,
};
use crate::model_count::{
    ext, holds_all, mc, all_free, model_count, free_count, implied, lemma_mc_split, lemma_mc_implied,
    lemma_mc_zero, lemma_mc_all, lemma_mc_zero_no_model,
};

verus! {

/// One entry of the assignment stack.
#[derive(Clone, Copy)]
struct VariableAssignment {
    decision_level: u32,
    variable_index: u32,
    variable_sign: bool,
    assignment_kind: AssignmentKind,
}

/// Counters the solver keeps about its run.
#[derive(Debug)]
pub struct Statistics {
    cache_hits: u32,
    time_to_compute: u128,
    cache_entries: usize,
    learned_clauses: usize,
    propagations_from_learned_clauses: u32,
}

impl Statistics {
    /// The same counters with the computing time set to `milliseconds`.
    pub closed spec fn with_time(self, milliseconds: u128) -> Statistics {
        Statistics { time_to_compute: milliseconds, ..self }
    }
}

/// The number of models and the d-DNNF that describes them.
pub struct SolverResult {
    pub model_count: BigUint,
    pub ddnnf: DDNNF,
}

/// The state of a model-counting run over one formula.
pub struct Solver {
    pub pseudo_boolean_formula: PseudoBooleanFormula,
    assignment_stack: Vec<VariableAssignment>,
    pub(crate) assignments: Vec<Option<(u32, bool)>>,
    decision_level: u32,
    result_stack: Vec<BigUint>,
    ddnnf_stack: Vec<Rc<DDNNFNode>>,
    pub(crate) number_unsat_constraints: usize,
    pub(crate) number_unassigned_variables: u32,
    pub statistics: Statistics,
    pub(crate) variable_in_scope: BTreeSet<usize>,
    pub(crate) constraint_indexes_in_scope: BTreeSet<usize>,
    pub(crate) next_variables: Vec<u32>,
    unique_id: u32,
    statics: Ghost<Seq<Constraint>>,
}

// ---------------------------------------------------------------------------------------------
// The meaning of the solver's state.

/// The partial assignment made by the first `k` entries of the stack.
spec fn pa(s: Seq<VariableAssignment>, n: nat, k: int) -> Seq<Option<bool>>
    decreases k,
{
    if k <= 0 {
        all_free(n)
    } else {
        pa(s, n, k - 1).update(s[k - 1].variable_index as int, Some(s[k - 1].variable_sign))
    }
}

spec fn is_decision(e: VariableAssignment) -> bool {
    !(e.assignment_kind is Propagated)
}

/// The number of decisions among the first `k` entries.
spec fn decisions(s: Seq<VariableAssignment>, k: int) -> nat
    decreases k,
{
    if k <= 0 {
        0
    } else {
        decisions(s, k - 1) + if is_decision(s[k - 1]) { 1nat } else { 0nat }
    }
}

/// The number of second decisions among the first `k` entries.
spec fn seconds(s: Seq<VariableAssignment>, k: int) -> nat
    decreases k,
{
    if k <= 0 {
        0
    } else {
        seconds(s, k - 1) + if s[k - 1].assignment_kind is SecondDecision { 1nat } else { 0nat }
    }
}

/// The number of first decisions among the first `k` entries.
spec fn firsts(s: Seq<VariableAssignment>, k: int) -> nat
    decreases k,
{
    if k <= 0 {
        0
    } else {
        firsts(s, k - 1) + if s[k - 1].assignment_kind is FirstDecision { 1nat } else { 0nat }
    }
}

/// For each second decision among the first `k` entries, the count of the branch that was
/// explored first (the variable with the opposite value).
spec fn expected(cs: Seq<Constraint>, s: Seq<VariableAssignment>, n: nat, k: int) -> Seq<nat>
    decreases k,
{
    if k <= 0 {
        Seq::empty()
    } else {
        expected(cs, s, n, k - 1) + if s[k - 1].assignment_kind is SecondDecision {
            seq![mc(cs, pa(s, n, k - 1).update(s[k - 1].variable_index as int, Some(!s[k - 1].variable_sign)))]
        } else {
            Seq::empty()
        }
    }
}

/// For each second decision among the first `k` entries, the partial assignment of the branch
/// explored first (the variable with the opposite value).
spec fn expected_pa(s: Seq<VariableAssignment>, n: nat, k: int) -> Seq<Seq<Option<bool>>>
    decreases k,
{
    if k <= 0 {
        Seq::empty()
    } else {
        expected_pa(s, n, k - 1) + if s[k - 1].assignment_kind is SecondDecision {
            seq![pa(s, n, k - 1).update(s[k - 1].variable_index as int, Some(!s[k - 1].variable_sign))]
        } else {
            Seq::empty()
        }
    }
}

/// The partial assignment whose models the `i`-th node of the d-DNNF stack describes: that of a
/// branch explored first, or the current one for the node on top of them.
spec fn slot_pa(s: Seq<VariableAssignment>, n: nat, i: int) -> Seq<Option<bool>> {
    let e = expected_pa(s, n, s.len() as int);
    if i < e.len() {
        e[i]
    } else {
        pa(s, n, s.len() as int)
    }
}

/// Over the total assignments extending `p`, `node` holds exactly where every constraint does.
pub open spec fn denotes(node: DDNNFNode, cs: Seq<Constraint>, p: Seq<Option<bool>>) -> bool {
    forall|a: Seq<bool>| #[trigger] ext(p, a) ==> (eval(node, a) == holds_all(cs, a))
}

/// Each entry assigns a variable that was free before it, at the level of its decisions.
spec fn stack_ok(s: Seq<VariableAssignment>, n: nat) -> bool {
    forall|k: int| #![trigger s[k]] 0 <= k < s.len() ==> {
        &&& s[k].variable_index < n
        &&& pa(s, n, k)[s[k].variable_index as int] is None
        &&& s[k].decision_level == decisions(s, k + 1)
    }
}

/// Every propagated entry is forced by the entries below it.
spec fn implied_entries(cs: Seq<Constraint>, s: Seq<VariableAssignment>, n: nat) -> bool {
    forall|k: int| #![trigger s[k]] 0 <= k < s.len() && s[k].assignment_kind is Propagated
        ==> implied(cs, pa(s, n, k), s[k].variable_index as int, s[k].variable_sign)
}

/// Every literal of every constraint has a positive factor.
pub open spec fn exact(cs: Seq<Constraint>) -> bool {
    forall|i: int, k: usize| 0 <= i < cs.len() && #[trigger] cs[i].vars().contains(k)
        ==> cs[i].literals@[k].factor > 0
}

/// A constraint's recorded values are values of the assignment `p` (made by the stack `s`); the
/// variables it has not recorded come after those it has; and it leaves a variable of `p`
/// unrecorded only when its recorded values already satisfy it, or (`pend`) when that variable
/// is the last one assigned and not yet passed to every constraint.
spec fn cons_ok(c: Constraint, s: Seq<VariableAssignment>, p: Seq<Option<bool>>, pend: bool) -> bool {
    &&& c.wf()
    &&& forall|v: usize| #[trigger] c.rec().contains(v) ==> v < p.len() && p[v as int] == Some(c.assignments@[v].0)
    &&& forall|i: int, j: int| #![trigger s[i], s[j]]
        0 <= i < s.len() && 0 <= j < s.len() && c.rec().contains(s[i].variable_index as usize)
            && c.vars().contains(s[j].variable_index as usize) && !c.rec().contains(s[j].variable_index as usize)
            ==> i < j
    &&& forall|j: int| #![trigger s[j]]
        0 <= j < s.len() && c.vars().contains(s[j].variable_index as usize) && !c.rec().contains(s[j].variable_index as usize)
            ==> c.satisfied_by_rec() || (pend && j == s.len() - 1)
}

/// The number of constraints that are still open (not satisfied by their recorded values).
spec fn num_open(cs: Seq<Constraint>) -> nat
    decreases cs.len(),
{
    if cs.len() == 0 {
        0
    } else {
        num_open(cs.drop_last()) + if cs.last().satisfied_by_rec() { 0nat } else { 1nat }
    }
}

/// The positions of the open constraints.
spec fn open_set(cs: Seq<Constraint>) -> Set<usize> {
    Set::new(|i: usize| i < cs.len() && !cs[i as int].satisfied_by_rec())
}

/// The set of variables that `p` leaves free.
spec fn free_set(p: Seq<Option<bool>>) -> Set<usize> {
    Set::new(|v: usize| v < p.len() && p[v as int] is None)
}

/// Whether an `AndNode` has no `FalseLeave` child.
spec fn no_false_child(node: DDNNFNode) -> bool {
    node matches DDNNFNode::AndNode(children, _) ==> forall|i: int| 0 <= i < children@.len()
        ==> !(*children@[i] is FalseLeave)
}

/// A bound on the work left below position `i` of the stack.
spec fn tpot(n: nat, i: int) -> nat
    decreases n - i,
{
    if i >= n {
        0
    } else {
        2 * tpot(n, i + 1) + 2
    }
}

/// The work left for the search from the stack `s`, counted from position `i`.
spec fn phi_from(s: Seq<VariableAssignment>, n: nat, i: int) -> nat
    decreases s.len() - i,
{
    if i >= s.len() || i < 0 {
        tpot(n, i)
    } else {
        (if s[i].assignment_kind is FirstDecision { tpot(n, i + 1) + 1 } else { 0nat }) + phi_from(s, n, i + 1)
    }
}

/// What inspecting the constraint `c` before any decision forces: a `>=` constraint that is not
/// yet met and can only be met with all its open literals of positive factor forces each of them;
/// one that would fail without its largest open literal forces that literal.
spec fn forced_by_simplify(c: Constraint, k: usize, b: bool) -> bool {
    &&& c.constraint_type == ConstraintType::GreaterEqual
    &&& c.sum_true < c.degree
    &&& {
        ||| c.sum_true + c.sum_unassigned == c.degree && c.unassigned_literals@.contains_key(k)
            && c.unassigned_literals@[k].factor > 0 && c.unassigned_literals@[k].positive == b
        ||| c.degree < c.sum_true + c.sum_unassigned < c.degree + c.max_literal.factor
            && k == c.max_literal.index && b == c.max_literal.positive
    }
}

/// A value the stack has fixed at position `k` stays fixed at every later position.
proof fn lemma_keeps_value(s: Seq<VariableAssignment>, n: nat, k: int, m: int, v: int)
    requires
        stack_ok(s, n),
        0 <= k <= m <= s.len(),
        0 <= v < n,
        pa(s, n, k)[v] is Some,
    ensures
        pa(s, n, m)[v] == pa(s, n, k)[v],
{
    lemma_pa_some(s, n, k, v);
    let j = choose|j: int| 0 <= j < k && (#[trigger] s[j]).variable_index == v && pa(s, n, k)[v] == Some(s[j].variable_sign);
    lemma_pa_assigned(s, n, j, m);
}

/// The other branch of the decision at position `i` of `s` has no model: giving its variable the
/// opposite value, on top of the entries below it, satisfies no assignment.
spec fn flip_refuted(cs: Seq<Constraint>, s: Seq<VariableAssignment>, n: nat, i: int) -> bool {
    mc(cs, pa(s, n, i).update(s[i].variable_index as int, Some(!s[i].variable_sign))) == 0
}

/// Stacks `a` and `b` agree below position `p`, where `a` has a first decision and `b` the second
/// decision on the same variable with the other value.
spec fn flipped_at(a: Seq<VariableAssignment>, b: Seq<VariableAssignment>, p: int) -> bool {
    &&& 0 <= p < a.len()
    &&& p < b.len()
    &&& a.take(p) == b.take(p)
    &&& a[p].assignment_kind is FirstDecision
    &&& b[p].assignment_kind is SecondDecision
    &&& b[p].variable_index == a[p].variable_index
    &&& b[p].variable_sign == !a[p].variable_sign
}

// ---------------------------------------------------------------------------------------------
// Facts about the meaning of the state.

proof fn lemma_pa_len(s: Seq<VariableAssignment>, n: nat, k: int)
    requires
        0 <= k <= s.len(),
        forall|i: int| 0 <= i < k ==> (#[trigger] s[i]).variable_index < n,
    ensures
        pa(s, n, k).len() == n,
    decreases k,
{
    if k > 0 {
        lemma_pa_len(s, n, k - 1);
    }
}

/// Stacks that agree on their first `k` entries mean the same up to `k`.
proof fn lemma_agree(cs: Seq<Constraint>, a: Seq<VariableAssignment>, b: Seq<VariableAssignment>, n: nat, k: int)
    requires
        0 <= k <= a.len(),
        k <= b.len(),
        forall|i: int| 0 <= i < k ==> a[i] == b[i],
    ensures
        pa(a, n, k) == pa(b, n, k),
        decisions(a, k) == decisions(b, k),
        seconds(a, k) == seconds(b, k),
        firsts(a, k) == firsts(b, k),
        expected(cs, a, n, k) == expected(cs, b, n, k),
        expected_pa(a, n, k) == expected_pa(b, n, k),
    decreases k,
{
    if k > 0 {
        lemma_agree(cs, a, b, n, k - 1);
        assert(a[k - 1] == b[k - 1]);
    }
}

proof fn lemma_expected_len(cs: Seq<Constraint>, s: Seq<VariableAssignment>, n: nat, k: int)
    requires
        0 <= k <= s.len(),
    ensures
        expected(cs, s, n, k).len() == seconds(s, k),
        expected_pa(s, n, k).len() == seconds(s, k),
    decreases k,
{
    if k > 0 {
        lemma_expected_len(cs, s, n, k - 1);
    }
}

proof fn lemma_counts_bounded(s: Seq<VariableAssignment>, k: int)
    requires
        0 <= k <= s.len(),
    ensures
        seconds(s, k) <= k,
        firsts(s, k) <= k,
        decisions(s, k) <= k,
        decisions(s, k) == firsts(s, k) + seconds(s, k),
    decreases k,
{
    if k > 0 {
        lemma_counts_bounded(s, k - 1);
    }
}

proof fn lemma_no_decisions(s: Seq<VariableAssignment>, k: int)
    requires
        0 <= k <= s.len(),
        decisions(s, k) == 0,
    ensures
        forall|i: int| 0 <= i < k ==> (#[trigger] s[i]).assignment_kind is Propagated,
        seconds(s, k) == 0,
    decreases k,
{
    if k > 0 {
        lemma_no_decisions(s, k - 1);
        lemma_counts_bounded(s, k - 1);
    }
}

proof fn lemma_free_count_all(n: nat)
    ensures
        free_count(all_free(n)) == n,
    decreases n,
{
    if n > 0 {
        lemma_free_count_all((n - 1) as nat);
        assert(all_free(n).drop_last() =~= all_free((n - 1) as nat));
    }
}

proof fn lemma_free_count_update(p: Seq<Option<bool>>, v: int, b: bool)
    requires
        0 <= v < p.len(),
        p[v] is None,
    ensures
        free_count(p.update(v, Some(b))) + 1 == free_count(p),
    decreases p.len(),
{
    let q = p.update(v, Some(b));
    if v == p.len() - 1 {
        assert(q.drop_last() =~= p.drop_last());
    } else {
        lemma_free_count_update(p.drop_last(), v, b);
        assert(q.drop_last() =~= p.drop_last().update(v, Some(b)));
    }
}

/// The stack assigns distinct variables, so `free_count` drops by one per entry.
proof fn lemma_free_count_stack(s: Seq<VariableAssignment>, n: nat, k: int)
    requires
        stack_ok(s, n),
        0 <= k <= s.len(),
    ensures
        pa(s, n, k).len() == n,
        free_count(pa(s, n, k)) + k == n,
    decreases k,
{
    if k == 0 {
        lemma_free_count_all(n);
    } else {
        lemma_free_count_stack(s, n, k - 1);
        let e = s[k - 1];
        lemma_free_count_update(pa(s, n, k - 1), e.variable_index as int, e.variable_sign);
    }
}

/// Later partial assignments of the stack extend earlier ones.
proof fn lemma_pa_mono(s: Seq<VariableAssignment>, n: nat, k: int, m: int, a: Seq<bool>)
    requires
        stack_ok(s, n),
        0 <= k <= m <= s.len(),
        ext(pa(s, n, m), a),
    ensures
        ext(pa(s, n, k), a),
    decreases m - k,
{
    if k < m {
        lemma_free_count_stack(s, n, m - 1);
        let p = pa(s, n, m - 1);
        let e = s[m - 1];
        assert forall|v: int| 0 <= v < p.len() && (#[trigger] p[v]) is Some implies a[v] == p[v]->0 by {
            if v != e.variable_index {
                assert(pa(s, n, m)[v] == p[v]);
            }
        }
        lemma_pa_mono(s, n, k, m - 1, a);
    }
}

/// A value forced by an earlier partial assignment of the stack is forced by every later one.
proof fn lemma_implied_mono(cs: Seq<Constraint>, s: Seq<VariableAssignment>, n: nat, k: int, m: int, v: int, b: bool)
    requires
        stack_ok(s, n),
        0 <= k <= m <= s.len(),
        implied(cs, pa(s, n, k), v, b),
    ensures
        implied(cs, pa(s, n, m), v, b),
{
    assert forall|a: Seq<bool>| ext(pa(s, n, m), a) && holds_all(cs, a) implies #[trigger] a[v] == b by {
        lemma_pa_mono(s, n, k, m, a);
    }
}

/// When the entries of the stack below `k` are all forced, they do not change the count.
proof fn lemma_mc_chain(cs: Seq<Constraint>, s: Seq<VariableAssignment>, n: nat, k: int)
    requires
        stack_ok(s, n),
        implied_entries(cs, s, n),
        0 <= k <= s.len(),
        forall|i: int| 0 <= i < k ==> (#[trigger] s[i]).assignment_kind is Propagated,
    ensures
        mc(cs, pa(s, n, 0)) == mc(cs, pa(s, n, k)),
    decreases k,
{
    if k > 0 {
        lemma_mc_chain(cs, s, n, k - 1);
        let e = s[k - 1];
        lemma_free_count_stack(s, n, k - 1);
        lemma_mc_implied(cs, pa(s, n, k - 1), e.variable_index as int, e.variable_sign);
    }
}

/// Propagated entries between positions `j` and `k` keep the number of models.
proof fn lemma_mc_chain_from(cs: Seq<Constraint>, s: Seq<VariableAssignment>, n: nat, j: int, k: int)
    requires
        stack_ok(s, n),
        implied_entries(cs, s, n),
        0 <= j <= k <= s.len(),
        forall|i: int| j <= i < k ==> (#[trigger] s[i]).assignment_kind is Propagated,
    ensures
        mc(cs, pa(s, n, j)) == mc(cs, pa(s, n, k)),
    decreases k - j,
{
    if k > j {
        lemma_mc_chain_from(cs, s, n, j, k - 1);
        let e = s[k - 1];
        lemma_free_count_stack(s, n, k - 1);
        lemma_mc_implied(cs, pa(s, n, k - 1), e.variable_index as int, e.variable_sign);
    }
}

proof fn lemma_num_open_update(cs: Seq<Constraint>, i: int, c: Constraint)
    requires
        0 <= i < cs.len(),
    ensures
        num_open(cs.update(i, c)) + (if cs[i].satisfied_by_rec() { 0int } else { 1int })
            == num_open(cs) + (if c.satisfied_by_rec() { 0int } else { 1int }),
    decreases cs.len(),
{
    let u = cs.update(i, c);
    if i == cs.len() - 1 {
        assert(u.drop_last() =~= cs.drop_last());
    } else {
        lemma_num_open_update(cs.drop_last(), i, c);
        assert(u.drop_last() =~= cs.drop_last().update(i, c));
    }
}

proof fn lemma_num_open_bounds(cs: Seq<Constraint>)
    ensures
        num_open(cs) <= cs.len(),
        num_open(cs) == 0 ==> forall|i: int| 0 <= i < cs.len() ==> (#[trigger] cs[i]).satisfied_by_rec(),
        num_open(cs) > 0 ==> exists|i: int| 0 <= i < cs.len() && !(#[trigger] cs[i]).satisfied_by_rec(),
    decreases cs.len(),
{
    if cs.len() > 0 {
        lemma_num_open_bounds(cs.drop_last());
        if num_open(cs) == 0 {
            assert forall|i: int| 0 <= i < cs.len() implies (#[trigger] cs[i]).satisfied_by_rec() by {
                if i < cs.len() - 1 {
                    assert(cs.drop_last()[i] == cs[i]);
                }
            }
        }
        if num_open(cs) > 0 {
            if cs.last().satisfied_by_rec() {
                let i = choose|i: int| 0 <= i < cs.drop_last().len() && !(#[trigger] cs.drop_last()[i]).satisfied_by_rec();
                assert(cs[i] == cs.drop_last()[i]);
            } else {
                assert(!cs[cs.len() - 1].satisfied_by_rec());
            }
        }
    }
}

/// Every constraint is satisfied by the values it has recorded.
pub open spec fn all_satisfied(cs: Seq<Constraint>) -> bool {
    forall|i: int| 0 <= i < cs.len() ==> (#[trigger] cs[i]).satisfied_by_rec()
}

/// When every constraint is satisfied none is open.
proof fn lemma_num_open_none(cs: Seq<Constraint>)
    requires
        forall|i: int| 0 <= i < cs.len() ==> (#[trigger] cs[i]).satisfied_by_rec(),
    ensures
        num_open(cs) == 0,
    decreases cs.len(),
{
    if cs.len() > 0 {
        assert forall|i: int| 0 <= i < cs.drop_last().len() implies (#[trigger] cs.drop_last()[i]).satisfied_by_rec() by {
            assert(cs.drop_last()[i] == cs[i]);
        }
        lemma_num_open_none(cs.drop_last());
        assert(cs.last() == cs[cs.len() - 1]);
    }
}

proof fn lemma_num_open_all(cs: Seq<Constraint>)
    requires
        forall|i: int| 0 <= i < cs.len() ==> !(#[trigger] cs[i]).satisfied_by_rec(),
    ensures
        num_open(cs) == cs.len(),
    decreases cs.len(),
{
    if cs.len() > 0 {
        assert forall|i: int| 0 <= i < cs.drop_last().len() implies !(#[trigger] cs.drop_last()[i]).satisfied_by_rec() by {
            assert(cs.drop_last()[i] == cs[i]);
        }
        lemma_num_open_all(cs.drop_last());
    }
}

proof fn lemma_tpot_step(n: nat, i: int)
    requires
        i < n,
    ensures
        tpot(n, i) == 2 * tpot(n, i + 1) + 2,
{
}

proof fn lemma_phi_bound(s: Seq<VariableAssignment>, n: nat, i: int)
    requires
        s.len() <= n,
        0 <= i <= s.len(),
    ensures
        phi_from(s, n, i) <= tpot(n, i),
    decreases s.len() - i,
{
    if i < s.len() {
        lemma_phi_bound(s, n, i + 1);
        lemma_tpot_step(n, i);
    }
}

proof fn lemma_phi_push(s: Seq<VariableAssignment>, x: VariableAssignment, n: nat, i: int)
    requires
        s.len() < n,
        0 <= i <= s.len(),
    ensures
        phi_from(s.push(x), n, i) < phi_from(s, n, i),
    decreases s.len() - i,
{
    let t = s.push(x);
    if i < s.len() {
        lemma_phi_push(s, x, n, i + 1);
        assert(t[i] == s[i]);
    } else {
        lemma_tpot_step(n, i);
        assert(t[i] == x);
        assert(phi_from(t, n, i + 1) == tpot(n, i + 1));
    }
}

proof fn lemma_phi_flip(a: Seq<VariableAssignment>, b: Seq<VariableAssignment>, n: nat, p: int, i: int)
    requires
        a.len() <= n,
        b.len() <= n,
        flipped_at(a, b, p),
        0 <= i <= p,
    ensures
        phi_from(b, n, i) < phi_from(a, n, i),
    decreases p - i,
{
    if i < p {
        lemma_phi_flip(a, b, n, p, i + 1);
        assert(a.take(p)[i] == b.take(p)[i]);
    } else {
        lemma_phi_bound(b, n, p + 1);
    }
}

#[verifier::rlimit(30)]
proof fn lemma_pa_assigned(s: Seq<VariableAssignment>, n: nat, j: int, k: int)
    requires
        stack_ok(s, n),
        0 <= j < k <= s.len(),
    ensures
        pa(s, n, k)[s[j].variable_index as int] == Some(s[j].variable_sign),
    decreases k,
{
    lemma_free_count_stack(s, n, k - 1);
    if j < k - 1 {
        lemma_pa_assigned(s, n, j, k - 1);
        let e = s[k - 1];
        assert(pa(s, n, k - 1)[e.variable_index as int] is None);
    }
}

/// Two entries of the stack never assign the same variable.
proof fn lemma_stack_distinct(s: Seq<VariableAssignment>, n: nat, j: int, k: int)
    requires
        stack_ok(s, n),
        0 <= j < k < s.len(),
    ensures
        s[j].variable_index != s[k].variable_index,
{
    lemma_pa_assigned(s, n, j, k);
}

/// What the stack assigns is exactly what its partial assignment fixes.
proof fn lemma_pa_some(s: Seq<VariableAssignment>, n: nat, k: int, v: int)
    requires
        stack_ok(s, n),
        0 <= k <= s.len(),
        0 <= v < n,
        pa(s, n, k)[v] is Some,
    ensures
        exists|j: int| 0 <= j < k && (#[trigger] s[j]).variable_index == v && pa(s, n, k)[v] == Some(s[j].variable_sign),
    decreases k,
{
    if k > 0 {
        lemma_free_count_stack(s, n, k - 1);
        let e = s[k - 1];
        if e.variable_index as int == v {
            assert(s[k - 1].variable_index == v);
        } else {
            assert(pa(s, n, k)[v] == pa(s, n, k - 1)[v]);
            lemma_pa_some(s, n, k - 1, v);
        }
    }
}

/// Undoing the top entry leaves every constraint consistent with the shorter stack, once the
/// constraint has forgotten the value of that entry.
proof fn lemma_cons_after_undo(c_old: Constraint, c_new: Constraint, s: Seq<VariableAssignment>, n: nat, pend: bool)
    requires
        stack_ok(s, n),
        s.len() > 0,
        cons_ok(c_old, s, pa(s, n, s.len() as int), pend),
        !c_old.rec().contains(s.last().variable_index as usize) ==> c_new == c_old,
        c_old.rec().contains(s.last().variable_index as usize) ==> {
            &&& c_new.wf()
            &&& c_new.same_statics(c_old)
            &&& c_new.assignments@ == c_old.assignments@.remove(s.last().variable_index as usize)
        },
    ensures
        cons_ok(c_new, s.drop_last(), pa(s.drop_last(), n, s.len() - 1), false),
{
    let l = s.len() - 1;
    let t = s.drop_last();
    let v = s.last().variable_index as usize;
    lemma_agree(Seq::empty(), s, t, n, l);
    lemma_free_count_stack(s, n, l);
    let p = pa(s, n, s.len() as int);
    let q = pa(t, n, l);
    assert forall|u: usize| #[trigger] c_new.rec().contains(u) implies u < q.len() && q[u as int] == Some(c_new.assignments@[u].0) by {
        assert(c_old.rec().contains(u));
        assert(u != v);
        assert(p[u as int] == q[u as int]);
    }
    assert forall|i: int, j: int| #![trigger t[i], t[j]]
        0 <= i < t.len() && 0 <= j < t.len() && c_new.rec().contains(t[i].variable_index as usize)
            && c_new.vars().contains(t[j].variable_index as usize) && !c_new.rec().contains(t[j].variable_index as usize)
            implies i < j by {
        assert(s[i] == t[i] && s[j] == t[j]);
        lemma_stack_distinct(s, n, j, l);
        assert(c_old.rec().contains(s[i].variable_index as usize));
        assert(!c_old.rec().contains(s[j].variable_index as usize));
    }
    assert forall|j: int| #![trigger t[j]]
        0 <= j < t.len() && c_new.vars().contains(t[j].variable_index as usize) && !c_new.rec().contains(t[j].variable_index as usize)
            implies c_new.satisfied_by_rec() by {
        assert(s[j] == t[j]);
        lemma_stack_distinct(s, n, j, l);
        assert(!c_old.rec().contains(s[j].variable_index as usize));
        if c_old.rec().contains(v) {
            assert(s[l] == s.last());
            assert(l < j);
        }
    }
}

/// Dropping the top entry keeps the stack well formed and its propagated entries forced.
proof fn lemma_stack_pop(cs: Seq<Constraint>, s: Seq<VariableAssignment>, n: nat)
    requires
        stack_ok(s, n),
        s.len() > 0,
    ensures
        stack_ok(s.drop_last(), n),
        implied_entries(cs, s, n) ==> implied_entries(cs, s.drop_last(), n),
{
    let t = s.drop_last();
    assert forall|k: int| #![trigger t[k]] 0 <= k < t.len() implies {
        &&& t[k].variable_index < n
        &&& pa(t, n, k)[t[k].variable_index as int] is None
        &&& t[k].decision_level == decisions(t, k + 1)
    } by {
        assert(s[k] == t[k]);
        lemma_agree(cs, s, t, n, k);
        lemma_agree(cs, s, t, n, k + 1);
    }
    if implied_entries(cs, s, n) {
        assert forall|k: int| #![trigger t[k]] 0 <= k < t.len() && t[k].assignment_kind is Propagated implies
            implied(cs, pa(t, n, k), t[k].variable_index as int, t[k].variable_sign) by {
            assert(s[k] == t[k]);
            lemma_agree(cs, s, t, n, k);
        }
    }
}

/// Whether position `i` occurs in `list`.
spec fn listed(list: Seq<usize>, i: int) -> bool {
    exists|j: int| 0 <= j < list.len() && list[j] == i
}

/// What undoing variable `v` does to the constraints that `list` names.
spec fn undone(old_c: Constraint, new_c: Constraint, v: usize, in_list: bool) -> bool {
    if in_list && old_c.rec().contains(v) {
        &&& new_c.wf()
        &&& new_c.same_statics(old_c)
        &&& new_c.assignments@ == old_c.assignments@.remove(v)
    } else {
        new_c == old_c
    }
}

/// Undoes the value of `v` in every constraint that `list` names, keeping the count and the set
/// of open constraints up to date.
fn undo_in_constraints(
    constraints: &mut Vec<Constraint>,
    list: &Vec<usize>,
    v: u32,
    sign: bool,
    counter: &mut usize,
    open: &mut BTreeSet<usize>,
)
    requires
        forall|i: int| 0 <= i < old(constraints)@.len() ==> (#[trigger] old(constraints)@[i]).wf(),
        forall|i: int| 0 <= i < old(constraints)@.len() && (#[trigger] old(constraints)@[i]).rec().contains(v as usize)
            ==> old(constraints)@[i].assignments@[v as usize].0 == sign,
        forall|j: int| 0 <= j < list@.len() ==> #[trigger] list@[j] < old(constraints)@.len(),
        *old(counter) == num_open(old(constraints)@),
        old(open)@ == open_set(old(constraints)@),
    ensures
        final(constraints)@.len() == old(constraints)@.len(),
        forall|i: int| 0 <= i < old(constraints)@.len() ==> undone(#[trigger] old(constraints)@[i], final(constraints)@[i], v as usize, listed(list@, i)),
        *final(counter) == num_open(final(constraints)@),
        final(open)@ == open_set(final(constraints)@),
{
    let m = list.len();
    let total = constraints.len();
    let mut j: usize = 0;
    while j < m
        invariant
            0 <= j <= m,
            total == constraints@.len(),
            m == list@.len(),
            constraints@.len() == old(constraints)@.len(),
            forall|jj: int| 0 <= jj < list@.len() ==> #[trigger] list@[jj] < old(constraints)@.len(),
            forall|i: int| 0 <= i < old(constraints)@.len() ==> {
                &&& (#[trigger] constraints@[i]).wf()
                &&& if old(constraints)@[i].rec().contains(v as usize) && listed(list@.take(j as int), i) {
                        undone(old(constraints)@[i], constraints@[i], v as usize, true)
                    } else {
                        constraints@[i] == old(constraints)@[i]
                    }
            },
            forall|i: int| 0 <= i < old(constraints)@.len() && (#[trigger] old(constraints)@[i]).rec().contains(v as usize)
                ==> old(constraints)@[i].assignments@[v as usize].0 == sign,
            *counter == num_open(constraints@),
            open@ == open_set(constraints@),
        decreases m - j,
    {
        let ci = list[j];
        let ghost before = constraints@;
        let undone_now = constraints[ci].undo(v, sign);
        proof {
            lemma_num_open_update(before, ci as int, constraints@[ci as int]);
            lemma_num_open_bounds(constraints@);
        }
        if undone_now {
            *counter = *counter + 1;
            open.insert(ci);
        }
        proof {
            assert(open@ =~= open_set(constraints@));
            assert forall|i: int| 0 <= i < old(constraints)@.len() implies {
                &&& (#[trigger] constraints@[i]).wf()
                &&& if old(constraints)@[i].rec().contains(v as usize) && listed(list@.take(j + 1), i) {
                        undone(old(constraints)@[i], constraints@[i], v as usize, true)
                    } else {
                        constraints@[i] == old(constraints)@[i]
                    }
            } by {
                let l1 = list@.take(j + 1);
                let l0 = list@.take(j as int);
                if listed(l1, i) && !listed(l0, i) {
                    let w = choose|w: int| 0 <= w < l1.len() && l1[w] == i;
                    if w < j {
                        assert(l0[w] == i);
                    }
                }
                if listed(l0, i) {
                    let w = choose|w: int| 0 <= w < l0.len() && l0[w] == i;
                    assert(l1[w] == i);
                }
                if i == ci {
                    assert(l1[j as int] == i);
                }
            }
        }
        j = j + 1;
    }
    proof {
        assert(list@.take(m as int) =~= list@);
    }
}

/// After undoing the top variable in the constraints that mention it, every constraint is
/// consistent with the shorter stack.
proof fn lemma_undo_consistent(
    old_cs: Seq<Constraint>,
    new_cs: Seq<Constraint>,
    s: Seq<VariableAssignment>,
    n: nat,
    pend: bool,
    list: Seq<usize>,
)
    requires
        stack_ok(s, n),
        s.len() > 0,
        new_cs.len() == old_cs.len(),
        forall|i: int| 0 <= i < old_cs.len() ==> cons_ok(#[trigger] old_cs[i], s, pa(s, n, s.len() as int), pend),
        forall|i: int| 0 <= i < old_cs.len() && (#[trigger] old_cs[i]).vars().contains(s.last().variable_index as usize)
            ==> listed(list, i),
        forall|i: int| 0 <= i < old_cs.len() ==> undone(#[trigger] old_cs[i], new_cs[i], s.last().variable_index as usize, listed(list, i)),
    ensures
        forall|i: int| 0 <= i < new_cs.len() ==> cons_ok(#[trigger] new_cs[i], s.drop_last(), pa(s.drop_last(), n, s.len() - 1), false),
        forall|i: int| 0 <= i < new_cs.len() ==> (#[trigger] new_cs[i]).same_statics(old_cs[i]),
{
    assert forall|i: int| 0 <= i < new_cs.len() implies cons_ok(#[trigger] new_cs[i], s.drop_last(), pa(s.drop_last(), n, s.len() - 1), false)
        && new_cs[i].same_statics(old_cs[i]) by {
        let v = s.last().variable_index as usize;
        if old_cs[i].rec().contains(v) {
            assert(old_cs[i].vars().contains(v));
        }
        lemma_cons_after_undo(old_cs[i], new_cs[i], s, n, pend);
    }
}

/// Every total assignment that agrees with the values `c` has recorded and satisfies `c` gives
/// variable `v` the value `b`.
spec fn forces(c: Constraint, v: int, b: bool) -> bool {
    forall|a: Seq<bool>| c.agrees(a) && c.holds(a) ==> #[trigger] a[v] == b
}

/// No total assignment that agrees with the values `c` has recorded satisfies `c`.
spec fn refutes(c: Constraint) -> bool {
    forall|a: Seq<bool>| #[trigger] c.agrees(a) ==> !c.holds(a)
}

/// A queued implication: constraint `i` mentions the variable and forces the queued value.
spec fn queued_ok(cs: Seq<Constraint>, k: usize, e: (u32, bool, AssignmentKind)) -> bool {
    &&& e.2 matches AssignmentKind::Propagated(ConstraintIndex::NormalConstraintIndex(i))
    &&& i < cs.len()
    &&& cs[i as int].rec().contains(k)
    &&& cs[i as int].vars().contains(e.0 as usize)
    &&& forces(cs[i as int], e.0 as int, e.1)
}

/// What passing variable `k` with value `val` to a constraint may do to it: nothing, or record
/// the value in an open constraint that had not recorded `k`.
spec fn recorded(old_c: Constraint, new_c: Constraint, k: usize, val: (bool, AssignmentKind, u32)) -> bool {
    ||| new_c == old_c
    ||| {
        &&& !old_c.rec().contains(k)
        &&& !old_c.satisfied_by_rec()
        &&& new_c.wf()
        &&& new_c.same_statics(old_c)
        &&& new_c.assignments@ == old_c.assignments@.insert(k, val)
    }
}

/// Passes the value of variable `index` to every constraint that `list` names, keeping the count
/// and the set of open constraints up to date and queueing what the constraints imply. Stops at
/// the first constraint the value violates and returns its position.
fn propagate_in_constraints(
    constraints: &mut Vec<Constraint>,
    list: &Vec<usize>,
    index: u32,
    sign: bool,
    kind: AssignmentKind,
    decision_level: u32,
    counter: &mut usize,
    open: &mut BTreeSet<usize>,
    queue: &mut VecDeque<(u32, bool, AssignmentKind)>,
) -> (r: Option<usize>)
    requires
        forall|i: int| 0 <= i < old(constraints)@.len() ==> (#[trigger] old(constraints)@[i]).wf(),
        forall|i: int| 0 <= i < old(constraints)@.len() ==> !(#[trigger] old(constraints)@[i]).rec().contains(index as usize),
        forall|j: int| 0 <= j < list@.len() ==> {
            &&& #[trigger] list@[j] < old(constraints)@.len()
            &&& old(constraints)@[list@[j] as int].vars().contains(index as usize)
        },
        *old(counter) == num_open(old(constraints)@),
        old(open)@ == open_set(old(constraints)@),
    ensures
        final(constraints)@.len() == old(constraints)@.len(),
        forall|i: int| 0 <= i < old(constraints)@.len() ==> recorded(#[trigger] old(constraints)@[i],
            final(constraints)@[i], index as usize, (sign, kind, decision_level)),
        *final(counter) == num_open(final(constraints)@),
        final(open)@ == open_set(final(constraints)@),
        final(queue)@.len() >= old(queue)@.len(),
        final(queue)@.take(old(queue)@.len() as int) == old(queue)@,
        forall|j: int| old(queue)@.len() <= j < final(queue)@.len() ==> queued_ok(final(constraints)@, index as usize, #[trigger] final(queue)@[j]),
        match r {
            None => forall|j: int| 0 <= j < list@.len() ==> {
                ||| final(constraints)@[#[trigger] list@[j] as int].rec().contains(index as usize)
                ||| final(constraints)@[list@[j] as int].satisfied_by_rec()
            },
            Some(ci) => ci < final(constraints)@.len() && refutes(final(constraints)@[ci as int])
                && final(constraints)@[ci as int].outcome_is(PropagationResult::Unsatisfied),
        },
        r is None ==> forall|i: int| 0 <= i < old(constraints)@.len() && final(constraints)@[i] != old(constraints)@[i]
            ==> !(#[trigger] final(constraints)@[i]).outcome_is(PropagationResult::Unsatisfied),
{
    let ghost k = index as usize;
    let ghost val = (sign, kind, decision_level);
    let ghost q0 = queue@;
    let m = list.len();
    let mut j: usize = 0;
    while j < m
        invariant
            0 <= j <= m,
            m == list@.len(),
            constraints@.len() == old(constraints)@.len(),
            k == index as usize,
            val == (sign, kind, decision_level),
            forall|jj: int| 0 <= jj < list@.len() ==> {
                &&& #[trigger] list@[jj] < old(constraints)@.len()
                &&& old(constraints)@[list@[jj] as int].vars().contains(k)
            },
            forall|i: int| 0 <= i < old(constraints)@.len() ==> (#[trigger] old(constraints)@[i]).wf(),
            forall|i: int| 0 <= i < old(constraints)@.len() ==> !(#[trigger] old(constraints)@[i]).rec().contains(k),
            forall|i: int| 0 <= i < old(constraints)@.len() ==> recorded(#[trigger] old(constraints)@[i], constraints@[i], k, val),
            *counter == num_open(constraints@),
            open@ == open_set(constraints@),
            q0 == old(queue)@,
            queue@.len() >= q0.len(),
            queue@.take(q0.len() as int) == q0,
            forall|jq: int| q0.len() <= jq < queue@.len() ==> queued_ok(constraints@, k, #[trigger] queue@[jq]),
            forall|jj: int| 0 <= jj < j ==> {
                ||| constraints@[#[trigger] list@[jj] as int].rec().contains(k)
                ||| constraints@[list@[jj] as int].satisfied_by_rec()
            },
            forall|i: int| 0 <= i < old(constraints)@.len() && constraints@[i] != old(constraints)@[i]
                ==> !(#[trigger] constraints@[i]).outcome_is(PropagationResult::Unsatisfied),
        decreases m - j,
    {
        let ci = list[j];
        let ghost before = constraints@;
        let ghost q_before = queue@;
        proof {
            assert(recorded(old(constraints)@[ci as int], before[ci as int], k, val));
            assert(before[ci as int].vars().contains(k));
        }
        let result = constraints[ci].propagate(Literal { index: index, positive: sign, factor: 0 }, kind, decision_level);
        let ghost now = constraints@;
        proof {
            assert(now == before.update(ci as int, now[ci as int]));
            lemma_num_open_update(before, ci as int, now[ci as int]);
            assert forall|i: int| 0 <= i < old(constraints)@.len() implies recorded(#[trigger] old(constraints)@[i], now[i], k, val) by {
                if i == ci {
                    assert(recorded(old(constraints)@[i], before[i], k, val));
                    if before[i] != old(constraints)@[i] {
                        assert(before[i].rec().contains(k));
                        assert(now[i] == before[i]);
                    }
                }
            }
            assert forall|jq: int| q0.len() <= jq < queue@.len() implies queued_ok(now, k, #[trigger] queue@[jq]) by {
                let e = queue@[jq];
                assert(queued_ok(before, k, e));
                if let AssignmentKind::Propagated(ConstraintIndex::NormalConstraintIndex(i)) = e.2 {
                    if i == ci {
                        assert(before[i as int].rec().contains(k));
                        assert(now[i as int] == before[i as int]);
                    }
                }
            }
            if now[ci as int] != before[ci as int] {
                now[ci as int].lemma_sums_bounded();
            }
            assert(before[ci as int].wf());
        }
        match result {
            PropagationResult::Satisfied => {
                proof {
                    lemma_num_open_bounds(before);
                }
                *counter = *counter - 1;
                open.remove(&ci);
            },
            PropagationResult::Unsatisfied => {
                proof {
                    assert forall|a: Seq<bool>| #[trigger] now[ci as int].agrees(a) implies !now[ci as int].holds(a) by {
                        now[ci as int].lemma_outcome_sound(result, a);
                    }
                    assert(open@ =~= open_set(constraints@));
                }
                return Some(ci);
            },
            PropagationResult::ImpliedLiteral(l) => {
                proof {
                    let c = now[ci as int];
                    assert(c.max_literal.factor > 0);
                    assert forall|a: Seq<bool>| c.agrees(a) && c.holds(a) implies #[trigger] a[l.index as int] == l.positive by {
                        c.lemma_outcome_sound(result, a);
                    }
                }
                queue.push_back((l.index, l.positive, AssignmentKind::Propagated(ConstraintIndex::NormalConstraintIndex(ci))));
            },
            PropagationResult::ImpliedLiteralList(implied_list) => {
                let ghost c = now[ci as int];
                proof {
                    assert forall|t: int| 0 <= t < implied_list@.len() && (#[trigger] implied_list@[t]).factor > 0
                        implies forces(c, implied_list@[t].index as int, implied_list@[t].positive) by {
                        assert forall|a: Seq<bool>| c.agrees(a) && c.holds(a) implies #[trigger] a[implied_list@[t].index as int] == implied_list@[t].positive by {
                            c.lemma_outcome_sound(result, a);
                            assert(lit_holds(implied_list@[t], a));
                        }
                    }
                }
                let n_implied = implied_list.len();
                let mut t: usize = 0;
                while t < n_implied
                    invariant
                        0 <= t <= n_implied,
                        n_implied == implied_list@.len(),
                        constraints@ == now,
                        c == now[ci as int],
                        ci < now.len(),
                        c.wf(),
                        c.rec().contains(k),
                        sorted_values_of(implied_list@, c.unassigned_literals@),
                        forall|tt: int| 0 <= tt < implied_list@.len() && (#[trigger] implied_list@[tt]).factor > 0
                            ==> forces(c, implied_list@[tt].index as int, implied_list@[tt].positive),
                        queue@.len() >= q0.len(),
                        queue@.take(q0.len() as int) == q0,
                        forall|jq: int| q0.len() <= jq < queue@.len() ==> queued_ok(now, k, #[trigger] queue@[jq]),
                    decreases n_implied - t,
                {
                    let l = &implied_list[t];
                    proof {
                        assert(c.unassigned_literals@.contains_key(l.index as usize));
                        assert(c.unassigned_literals@[l.index as usize] == *l);
                        assert(c.literals@[l.index as usize] == *l);
                    }
                    queue.push_back((l.index, l.positive, AssignmentKind::Propagated(ConstraintIndex::NormalConstraintIndex(ci))));
                    proof {
                        assert(queue@.take(q0.len() as int) =~= q0);
                    }
                    t = t + 1;
                }
            },
            _ => {},
        }
        proof {
            assert(queue@.take(q0.len() as int) =~= q0);
            assert(open@ =~= open_set(constraints@));
            assert forall|jj: int| 0 <= jj < j + 1 implies {
                ||| constraints@[#[trigger] list@[jj] as int].rec().contains(k)
                ||| constraints@[list@[jj] as int].satisfied_by_rec()
            } by {
                let i = list@[jj] as int;
                if i != ci {
                    assert(constraints@[i] == before[i]);
                }
            }
        }
        j = j + 1;
    }
    None
}

/// Pushing an entry for a free variable, at the level its decisions give it, keeps the stack well
/// formed; a propagated entry forced by the stack below keeps its entries forced.
proof fn lemma_stack_push(cs: Seq<Constraint>, s: Seq<VariableAssignment>, n: nat, e: VariableAssignment)
    requires
        stack_ok(s, n),
        e.variable_index < n,
        pa(s, n, s.len() as int)[e.variable_index as int] is None,
        e.decision_level == decisions(s, s.len() as int) + if is_decision(e) { 1nat } else { 0nat },
    ensures
        stack_ok(s.push(e), n),
        pa(s.push(e), n, s.len() + 1int) == pa(s, n, s.len() as int).update(e.variable_index as int, Some(e.variable_sign)),
        decisions(s.push(e), s.len() + 1int) == e.decision_level,
        seconds(s.push(e), s.len() + 1int) == seconds(s, s.len() as int) + if e.assignment_kind is SecondDecision { 1nat } else { 0nat },
        firsts(s.push(e), s.len() + 1int) == firsts(s, s.len() as int) + if e.assignment_kind is FirstDecision { 1nat } else { 0nat },
        expected(cs, s.push(e), n, s.len() + 1int) == expected(cs, s, n, s.len() as int) + if e.assignment_kind is SecondDecision {
            seq![mc(cs, pa(s, n, s.len() as int).update(e.variable_index as int, Some(!e.variable_sign)))]
        } else {
            Seq::empty()
        },
        implied_entries(cs, s, n) && (e.assignment_kind is Propagated
            ==> implied(cs, pa(s, n, s.len() as int), e.variable_index as int, e.variable_sign))
            ==> implied_entries(cs, s.push(e), n),
{
    let t = s.push(e);
    let l = s.len() as int;
    lemma_agree(cs, s, t, n, l);
    assert(t[l] == e);
    assert forall|k: int| #![trigger t[k]] 0 <= k < t.len() implies {
        &&& t[k].variable_index < n
        &&& pa(t, n, k)[t[k].variable_index as int] is None
        &&& t[k].decision_level == decisions(t, k + 1)
    } by {
        if k < l {
            assert(t[k] == s[k]);
            lemma_agree(cs, s, t, n, k);
            lemma_agree(cs, s, t, n, k + 1);
        }
    }
    if implied_entries(cs, s, n) && (e.assignment_kind is Propagated
        ==> implied(cs, pa(s, n, l), e.variable_index as int, e.variable_sign)) {
        assert forall|k: int| #![trigger t[k]] 0 <= k < t.len() && t[k].assignment_kind is Propagated implies
            implied(cs, pa(t, n, k), t[k].variable_index as int, t[k].variable_sign) by {
            if k < l {
                assert(t[k] == s[k]);
                lemma_agree(cs, s, t, n, k);
            }
        }
    }
}

/// Two constraints that agree on what assignments never change hold under the same assignments.
proof fn lemma_same_statics_holds(c1: Constraint, c2: Constraint, a: Seq<bool>)
    requires
        c1.same_statics(c2),
    ensures
        c1.holds(a) == c2.holds(a),
{
    assert(c1.sat_w(a) =~= c2.sat_w(a));
}

/// After the top entry of the stack has been passed to a constraint (or the constraint did not
/// need it), the constraint is consistent with the longer stack.
proof fn lemma_cons_record(
    old_c: Constraint,
    new_c: Constraint,
    s: Seq<VariableAssignment>,
    n: nat,
    e: VariableAssignment,
    pend: bool,
)
    requires
        stack_ok(s, n),
        cons_ok(old_c, s, pa(s, n, s.len() as int), false),
        e.variable_index < n,
        pa(s, n, s.len() as int)[e.variable_index as int] is None,
        recorded(old_c, new_c, e.variable_index as usize, (e.variable_sign, e.assignment_kind, e.decision_level)),
        !pend ==> (old_c.vars().contains(e.variable_index as usize) ==> new_c.rec().contains(e.variable_index as usize)
            || new_c.satisfied_by_rec()),
    ensures
        cons_ok(new_c, s.push(e), pa(s, n, s.len() as int).update(e.variable_index as int, Some(e.variable_sign)), pend),
{
    let t = s.push(e);
    let l = s.len() as int;
    let k = e.variable_index as usize;
    let p = pa(s, n, l);
    let q = p.update(k as int, Some(e.variable_sign));
    lemma_free_count_stack(s, n, l);
    assert(t[l] == e);
    assert(!old_c.rec().contains(k));
    assert forall|v: usize| #[trigger] new_c.rec().contains(v) implies v < q.len() && q[v as int] == Some(new_c.assignments@[v].0) by {
        if v != k {
            assert(old_c.rec().contains(v));
        }
    }
    assert forall|i: int, j: int| #![trigger t[i], t[j]]
        0 <= i < t.len() && 0 <= j < t.len() && new_c.rec().contains(t[i].variable_index as usize)
            && new_c.vars().contains(t[j].variable_index as usize) && !new_c.rec().contains(t[j].variable_index as usize)
            implies i < j by {
        if j < l {
            assert(t[j] == s[j]);
            assert(old_c.vars().contains(s[j].variable_index as usize));
            assert(!old_c.rec().contains(s[j].variable_index as usize));
            assert(old_c.satisfied_by_rec());
            assert(new_c == old_c);
            if i < l {
                assert(t[i] == s[i]);
            } else {
                assert(i == l);
            }
        } else {
            assert(j == l);
            if i == l {
                assert(new_c.rec().contains(k));
            }
        }
    }
    assert forall|j: int| #![trigger t[j]]
        0 <= j < t.len() && new_c.vars().contains(t[j].variable_index as usize) && !new_c.rec().contains(t[j].variable_index as usize)
            implies new_c.satisfied_by_rec() || (pend && j == t.len() - 1) by {
        if j < l {
            assert(t[j] == s[j]);
            assert(old_c.vars().contains(s[j].variable_index as usize));
            assert(!old_c.rec().contains(s[j].variable_index as usize));
            assert(old_c.satisfied_by_rec());
            assert(new_c == old_c);
        } else {
            assert(old_c.vars().contains(k));
        }
    }
}

/// A constraint that refutes its recorded values leaves no model of an assignment that extends
/// them.
proof fn lemma_refuted_zero(cs: Seq<Constraint>, statics: Seq<Constraint>, i: int, p: Seq<Option<bool>>)
    requires
        0 <= i < cs.len(),
        cs.len() == statics.len(),
        cs[i].same_statics(statics[i]),
        refutes(cs[i]),
        forall|v: usize| #[trigger] cs[i].rec().contains(v) ==> v < p.len() && p[v as int] == Some(cs[i].assignments@[v].0),
    ensures
        mc(statics, p) == 0,
{
    assert forall|a: Seq<bool>| ext(p, a) implies !holds_all(statics, a) by {
        assert(cs[i].agrees(a)) by {
            assert forall|v: usize| #[trigger] cs[i].rec().contains(v) implies a[v as int] == cs[i].assignments@[v].0 by {
                assert(p[v as int] is Some);
            }
        }
        lemma_same_statics_holds(cs[i], statics[i], a);
    }
    lemma_mc_zero(statics, p);
}

/// A value a constraint forces under its recorded values is implied by every assignment that
/// extends them.
proof fn lemma_forced_implied(cs: Seq<Constraint>, statics: Seq<Constraint>, i: int, p: Seq<Option<bool>>, v: int, b: bool)
    requires
        0 <= i < cs.len(),
        cs.len() == statics.len(),
        cs[i].same_statics(statics[i]),
        forces(cs[i], v, b),
        forall|u: usize| #[trigger] cs[i].rec().contains(u) ==> u < p.len() && p[u as int] == Some(cs[i].assignments@[u].0),
    ensures
        implied(statics, p, v, b),
{
    assert forall|a: Seq<bool>| ext(p, a) && holds_all(statics, a) implies #[trigger] a[v] == b by {
        assert(cs[i].agrees(a)) by {
            assert forall|u: usize| #[trigger] cs[i].rec().contains(u) implies a[u as int] == cs[i].assignments@[u].0 by {
                assert(p[u as int] is Some);
            }
        }
        lemma_same_statics_holds(cs[i], statics[i], a);
        assert(statics[i].holds(a));
    }
}

/// Fixing one more free variable keeps every implied value implied.
proof fn lemma_implied_update(cs: Seq<Constraint>, p: Seq<Option<bool>>, k: int, b: bool, v: int, c: bool)
    requires
        0 <= k < p.len(),
        p[k] is None,
        implied(cs, p, v, c),
    ensures
        implied(cs, p.update(k, Some(b)), v, c),
{
    let q = p.update(k, Some(b));
    assert forall|a: Seq<bool>| ext(q, a) && holds_all(cs, a) implies #[trigger] a[v] == c by {
        assert forall|u: int| 0 <= u < p.len() && (#[trigger] p[u]) is Some implies a[u] == p[u]->0 by {
            assert(q[u] == p[u]);
        }
        assert(ext(p, a));
    }
}

/// The variables an open constraint offers for a decision: those it has not recorded that are
/// still in scope.
spec fn candidates(c: Constraint, scope: Set<usize>) -> Set<usize> {
    Set::new(|k: usize| c.unassigned_literals@.contains_key(k) && scope.contains(k))
}

/// The first open constraint with a candidate offers `v`, its smallest candidate.
spec fn is_next_variable(cs: Seq<Constraint>, scope: Set<usize>, v: u32) -> bool {
    exists|i: int| {
        &&& 0 <= i < cs.len()
        &&& !(#[trigger] cs[i]).satisfied_by_rec()
        &&& candidates(cs[i], scope).contains(v as usize)
        &&& forall|k: usize| #[trigger] candidates(cs[i], scope).contains(k) ==> v <= k
        &&& forall|i2: int| 0 <= i2 < i && !(#[trigger] cs[i2]).satisfied_by_rec() ==> candidates(cs[i2], scope).is_empty()
    }
}

/// An open constraint that has recorded every variable it mentions fails under every total
/// assignment that agrees with its recorded values.
proof fn lemma_open_refuted(c: Constraint, s: Seq<VariableAssignment>, n: nat)
    requires
        stack_ok(s, n),
        cons_ok(c, s, pa(s, n, s.len() as int), false),
        !c.satisfied_by_rec(),
        forall|k: usize| #[trigger] c.vars().contains(k) && !c.rec().contains(k)
            ==> k < n && pa(s, n, s.len() as int)[k as int] is Some,
    ensures
        refutes(c),
{
    let p = pa(s, n, s.len() as int);
    assert forall|k: usize| #[trigger] c.vars().contains(k) implies c.rec().contains(k) by {
        if !c.rec().contains(k) {
            lemma_pa_some(s, n, s.len() as int, k as int);
            let j = choose|j: int| 0 <= j < s.len() && (#[trigger] s[j]).variable_index == k && p[k as int] == Some(s[j].variable_sign);
            assert(s[j].variable_index as usize == k);
        }
    }
    assert(c.vars().difference(c.rec()) =~= Set::<usize>::empty());
    crate::fsum::lemma_fsum_empty(c.factor_w());
    assert forall|a: Seq<bool>| #[trigger] c.agrees(a) implies !c.holds(a) by {
        c.lemma_true_sum_split(a);
        crate::fsum::lemma_fsum_empty(c.sat_w(a));
    }
}

/// During backtracking the stack `b` is a prefix of the stack `a` it started from, or arises from
/// a prefix of `a` by turning a first decision into the second one and adding propagated entries.
spec fn from_backtrack(a: Seq<VariableAssignment>, b: Seq<VariableAssignment>) -> bool {
    ||| (b.len() <= a.len() && b == a.take(b.len() as int))
    ||| exists|p: int| flipped_at(a, b, p) && forall|i: int| p < i < b.len() ==> (#[trigger] b[i]).assignment_kind is Propagated
}

/// Dropping the top entry of a stack met during backtracking leaves one, unless the top entry is
/// the first decision of a prefix.
proof fn lemma_from_backtrack_pop(a: Seq<VariableAssignment>, b: Seq<VariableAssignment>)
    requires
        from_backtrack(a, b),
        b.len() > 0,
        !(b.last().assignment_kind is FirstDecision),
    ensures
        from_backtrack(a, b.drop_last()),
{
    let t = b.drop_last();
    if b.len() <= a.len() && b == a.take(b.len() as int) {
        assert(t =~= a.take(t.len() as int));
    } else {
        let p = choose|p: int| flipped_at(a, b, p) && forall|i: int| p < i < b.len() ==> (#[trigger] b[i]).assignment_kind is Propagated;
        if b.len() - 1 == p {
            assert(t =~= b.take(p));
            assert(t =~= a.take(t.len() as int));
        } else {
            assert(b.last() == b[b.len() - 1]);
            assert(t.take(p) =~= b.take(p));
            assert(t[p] == b[p]);
            assert forall|i: int| p < i < t.len() implies (#[trigger] t[i]).assignment_kind is Propagated by {
                assert(t[i] == b[i]);
            }
            assert(flipped_at(a, t, p));
        }
    }
}

/// Backtracking from the start `a` has reached the stack `b`, which agrees with `a` below `low`:
/// either `b` is that prefix, or it holds the flipped decision at `low` with propagated entries
/// above it; every first decision of `a` at `low` or above had a branch without models.
spec fn backtracked_to(cs: Seq<Constraint>, a: Seq<VariableAssignment>, b: Seq<VariableAssignment>, n: nat, low: int) -> bool {
    &&& 0 <= low <= a.len()
    &&& low <= b.len()
    &&& b.take(low) == a.take(low)
    &&& b.len() > low ==> flipped_at(a, b, low)
        && forall|i: int| low < i < b.len() ==> (#[trigger] b[i]).assignment_kind is Propagated
    &&& forall|i: int| low <= i < a.len() && (#[trigger] a[i]).assignment_kind is FirstDecision
        ==> flip_refuted(cs, a, n, i)
}

/// Dropping a top entry that is not a first decision keeps the backtracking relation, lowering
/// the agreed prefix by one when `b` was that prefix; the count stack can only have been left
/// alone by a start that had nothing but propagated entries from the new prefix on.
proof fn lemma_backtracked_pop(cs: Seq<Constraint>, a: Seq<VariableAssignment>, b: Seq<VariableAssignment>, n: nat, low: int) -> (low2: int)
    requires
        backtracked_to(cs, a, b, n, low),
        b.len() > 0,
        !(b.last().assignment_kind is FirstDecision),
    ensures
        low2 == if b.len() == low { low - 1 } else { low },
        backtracked_to(cs, a, b.drop_last(), n, low2),
        (forall|i: int| low2 <= i < a.len() ==> (#[trigger] a[i]).assignment_kind is Propagated)
            ==> b.last().assignment_kind is Propagated
                && forall|i: int| low <= i < a.len() ==> (#[trigger] a[i]).assignment_kind is Propagated,
{
    let t = b.drop_last();
    let low2 = if b.len() == low { low - 1 } else { low };
    if b.len() == low {
        assert(b.last() == b[low - 1]);
        assert(a.take(low)[low - 1] == b.take(low)[low - 1]);
        assert(t.take(low2) =~= b.take(low).take(low2));
        assert(a.take(low2) =~= a.take(low).take(low2));
    } else {
        assert(t.take(low2) =~= b.take(low2));
        if t.len() > low2 {
            assert(t[low] == b[low]);
            assert forall|i: int| low < i < t.len() implies (#[trigger] t[i]).assignment_kind is Propagated by {
                assert(t[i] == b[i]);
            }
        }
    }
    low2
}

/// A first decision on top of a stack met during backtracking sits on a prefix of the start.
proof fn lemma_from_backtrack_first(a: Seq<VariableAssignment>, b: Seq<VariableAssignment>)
    requires
        from_backtrack(a, b),
        b.len() > 0,
        b.last().assignment_kind is FirstDecision,
    ensures
        b.len() <= a.len(),
        b == a.take(b.len() as int),
{
    if !(b.len() <= a.len() && b == a.take(b.len() as int)) {
        let p = choose|p: int| flipped_at(a, b, p) && forall|i: int| p < i < b.len() ==> (#[trigger] b[i]).assignment_kind is Propagated;
        assert(b.last() == b[b.len() - 1]);
        assert(false);
    }
}

/// Pushing entries on a stack lowers the work left for the search.
proof fn lemma_phi_extend(s: Seq<VariableAssignment>, t: Seq<VariableAssignment>, n: nat)
    requires
        t.len() > s.len(),
        t.take(s.len() as int) == s,
        t.len() <= n,
    ensures
        phi_from(t, n, 0) < phi_from(s, n, 0),
    decreases t.len(),
{
    let u = t.drop_last();
    assert(t =~= u.push(t.last()));
    lemma_phi_push(u, t.last(), n, 0);
    if u.len() > s.len() {
        assert(u.take(s.len() as int) =~= t.take(s.len() as int));
        lemma_phi_extend(s, u, n);
    } else {
        assert(u =~= s);
    }
}

/// A literal leaf mentions its variable alone and is a d-DNNF.
proof fn lemma_literal_shape(literal: Rc<DDNNFNode>)
    requires
        *literal is LiteralLeave,
    ensures
        forall|u: u32| #[trigger] mentions(*literal, u) == (u == (*literal)->LiteralLeave_0.index),
        deterministic(*literal),
        decomposable(*literal),
        false_branch_first(*literal),
        forall|a: Seq<bool>| #[trigger] eval(*literal, a)
            == (a[(*literal)->LiteralLeave_0.index as int] == (*literal)->LiteralLeave_0.positive),
{
}

/// A node that does not mention the variable of a literal shares no variable with it.
proof fn lemma_disjoint_literal(node: DDNNFNode, literal: Rc<DDNNFNode>)
    requires
        *literal is LiteralLeave,
    ensures
        !mentions(node, (*literal)->LiteralLeave_0.index) ==> disjoint(node, *literal) && disjoint(*literal, node),
{
    lemma_literal_shape(literal);
}

/// Conjoins `literal` to `node`: appended to the children of an `AndNode`, otherwise in a new
/// `AndNode` in front of `node`.
fn and_with_literal(node: Rc<DDNNFNode>, literal: Rc<DDNNFNode>, id: u32) -> (r: Rc<DDNNFNode>)
    requires
        no_false_child(*node),
        !(*node is FalseLeave),
        *literal is LiteralLeave,
    ensures
        no_false_child(*r),
        *r matches DDNNFNode::AndNode(children, rid) && rid == id && (match *node {
            DDNNFNode::AndNode(old_children, _) => children@ == old_children@.push(literal),
            _ => children@ == seq![literal, node],
        }),
        forall|a: Seq<bool>| #[trigger] eval(*r, a) == (eval(*node, a) && eval(*literal, a)),
        forall|u: u32| #[trigger] mentions(*r, u) == (mentions(*node, u) || u == (*literal)->LiteralLeave_0.index),
        deterministic(*node) ==> deterministic(*r),
        decomposable(*node) && !mentions(*node, (*literal)->LiteralLeave_0.index) ==> decomposable(*r),
        false_branch_first(*node) ==> false_branch_first(*r),
{
    proof {
        lemma_literal_shape(literal);
    }
    if let DDNNFNode::AndNode(child_list, _) = &*node {
        let mut new_child_list: Vec<Rc<DDNNFNode>> = Vec::new();
        let number_children = child_list.len();
        let mut ci: usize = 0;
        while ci < number_children
            invariant
                0 <= ci <= number_children,
                number_children == child_list@.len(),
                new_child_list@ == child_list@.take(ci as int),
            decreases number_children - ci,
        {
            new_child_list.push(rc_clone(&child_list[ci]));
            ci = ci + 1;
            proof {
                assert(new_child_list@ =~= child_list@.take(ci as int));
            }
        }
        proof {
            assert(child_list@.take(number_children as int) =~= child_list@);
        }
        new_child_list.push(literal);
        let r = Rc::new(DDNNFNode::AndNode(new_child_list, id));
        proof {
            assert forall|a: Seq<bool>| #[trigger] eval(*r, a) == (eval(*node, a) && eval(*literal, a)) by {
                lemma_eval_and_push(*node, *r, literal, a);
            }
            let ghost nd = *node;
            let ghost rd = *r;
            lemma_shape_and_push(nd, rd, literal);
        }
        r
    } else {
        let mut child_list: Vec<Rc<DDNNFNode>> = Vec::new();
        child_list.push(literal);
        child_list.push(node);
        proof {
            assert(child_list@ =~= seq![literal, node]);
        }
        let r = Rc::new(DDNNFNode::AndNode(child_list, id));
        proof {
            assert forall|a: Seq<bool>| #[trigger] eval(*r, a) == (eval(*node, a) && eval(*literal, a)) by {
                lemma_eval_and_pair(*r, literal, node, a);
            }
            let ghost rd = *r;
            lemma_shape_and_pair(rd, literal, node);
        }
        r
    }
}

/// The count stack `results` and the d-DNNF stack `nodes` hold one entry for each second decision
/// on the assignment stack `s`, then one for each value of `extra`: the counts of the branches
/// explored first, then the values of `extra`. A node is `FalseLeave` exactly when its count is
/// zero, and no `AndNode` has a `FalseLeave` child. Every node is a d-DNNF over variables its
/// branch leaves free and holds exactly on the models of its branch.
spec fn stacks_ok(
    results: Seq<BigUint>,
    nodes: Seq<Rc<DDNNFNode>>,
    cs: Seq<Constraint>,
    s: Seq<VariableAssignment>,
    n: nat,
    extra: Seq<nat>,
) -> bool {
    let len = results.len();
    &&& len == seconds(s, s.len() as int) + extra.len()
    &&& nodes.len() == len
    &&& forall|i: int| 0 <= i < len ==> ((*nodes[i]) is FalseLeave <==> big_value(#[trigger] results[i]) == 0)
    &&& forall|i: int| 0 <= i < len ==> no_false_child(*#[trigger] nodes[i])
    &&& forall|i: int| 0 <= i < len ==> big_value(#[trigger] results[i])
        == (expected(cs, s, n, s.len() as int) + extra)[i]
    &&& forall|i: int| 0 <= i < len ==> denotes(*#[trigger] nodes[i], cs, slot_pa(s, n, i))
    &&& forall|i: int| 0 <= i < len ==> is_ddnnf(*#[trigger] nodes[i])
    &&& forall|i: int| 0 <= i < len ==> over_free(*#[trigger] nodes[i], slot_pa(s, n, i))
    &&& forall|i: int| 0 <= i < len ==> false_branch_first(*#[trigger] nodes[i])
    &&& signs_ok(s)
}

/// A first decision tries `true`, so its second decision is `false`.
spec fn signs_ok(s: Seq<VariableAssignment>) -> bool {
    forall|k: int| #![trigger s[k]] 0 <= k < s.len() ==> {
        &&& s[k].assignment_kind is FirstDecision ==> s[k].variable_sign
        &&& s[k].assignment_kind is SecondDecision ==> !s[k].variable_sign
    }
}

/// Every variable `node` mentions is a variable of `p` that `p` leaves free.
spec fn over_free(node: DDNNFNode, p: Seq<Option<bool>>) -> bool {
    forall|u: u32| #[trigger] mentions(node, u) ==> u < p.len() && p[u as int] is None
}

/// Propagated entries between positions `j` and `k` change none of the counts over the stack.
proof fn lemma_tail_propagated(cs: Seq<Constraint>, s: Seq<VariableAssignment>, n: nat, j: int, k: int)
    requires
        0 <= j <= k <= s.len(),
        forall|i: int| j <= i < k ==> (#[trigger] s[i]).assignment_kind is Propagated,
    ensures
        seconds(s, k) == seconds(s, j),
        firsts(s, k) == firsts(s, j),
        decisions(s, k) == decisions(s, j),
        expected(cs, s, n, k) == expected(cs, s, n, j),
        expected_pa(s, n, k) == expected_pa(s, n, j),
    decreases k - j,
{
    if k > j {
        lemma_tail_propagated(cs, s, n, j, k - 1);
        assert(s[k - 1].assignment_kind is Propagated);
        assert(expected(cs, s, n, k) =~= expected(cs, s, n, k - 1));
        assert(expected_pa(s, n, k) =~= expected_pa(s, n, k - 1));
    }
}

/// An assignment that extends `p` and gives `v` the value `b` extends `p` with `v` fixed to `b`.
proof fn lemma_ext_update(p: Seq<Option<bool>>, v: int, b: bool, a: Seq<bool>)
    requires
        ext(p, a),
        0 <= v < p.len(),
        a[v] == b,
    ensures
        ext(p.update(v, Some(b)), a),
{
    let q = p.update(v, Some(b));
    assert forall|u: int| 0 <= u < q.len() && (#[trigger] q[u]) is Some implies a[u] == q[u]->0 by {
        if u != v {
            assert(q[u] == p[u]);
        }
    }
}

/// A `FalseLeave` stands for the models of `p` when there are none.
proof fn lemma_false_denotes(cs: Seq<Constraint>, p: Seq<Option<bool>>, node: Rc<DDNNFNode>)
    ensures
        mc(cs, p) == 0 && (*node) is FalseLeave ==> denotes(*node, cs, p),
{
    assert forall|a: Seq<bool>| #[trigger] ext(p, a) && mc(cs, p) == 0 && (*node) is FalseLeave
        implies (eval(*node, a) == holds_all(cs, a)) by {
        lemma_mc_zero_no_model(cs, p, a);
    }
}

/// Pushing a count and its node for the state of `s` turns the stacks of a search into those of
/// a backtrack.
proof fn lemma_stacks_push(
    results: Seq<BigUint>,
    nodes: Seq<Rc<DDNNFNode>>,
    cs: Seq<Constraint>,
    s: Seq<VariableAssignment>,
    n: nat,
    x: BigUint,
    node: Rc<DDNNFNode>,
)
    requires
        stacks_ok(results, nodes, cs, s, n, Seq::empty()),
        (*node) is FalseLeave <==> big_value(x) == 0,
        no_false_child(*node),
        big_value(x) == mc(cs, pa(s, n, s.len() as int)),
        !((*node) is FalseLeave) ==> denotes(*node, cs, pa(s, n, s.len() as int)),
        (*node) is TrueLeave || (*node) is FalseLeave,
    ensures
        stacks_ok(results.push(x), nodes.push(node), cs, s, n, seq![mc(cs, pa(s, n, s.len() as int))]),
{
    let e = expected(cs, s, n, s.len() as int);
    lemma_expected_len(cs, s, n, s.len() as int);
    lemma_false_denotes(cs, pa(s, n, s.len() as int), node);
    assert(e + Seq::<nat>::empty() =~= e);
    let r2 = results.push(x);
    let d2 = nodes.push(node);
    assert forall|i: int| 0 <= i < r2.len() implies ((*d2[i]) is FalseLeave <==> big_value(#[trigger] r2[i]) == 0) by {
        if i < results.len() {
            assert(r2[i] == results[i] && d2[i] == nodes[i]);
        }
    }
    assert forall|i: int| 0 <= i < r2.len() implies no_false_child(*#[trigger] d2[i]) by {
        if i < results.len() {
            assert(d2[i] == nodes[i]);
        }
    }
    assert forall|i: int| 0 <= i < r2.len() implies is_ddnnf(*#[trigger] d2[i]) && over_free(*d2[i], slot_pa(s, n, i)) by {
        if i < results.len() {
            assert(d2[i] == nodes[i]);
        }
    }
    {
        assert forall|i: int| 0 <= i < r2.len() implies big_value(#[trigger] r2[i])
            == (e + seq![mc(cs, pa(s, n, s.len() as int))])[i] by {
            if i < results.len() {
                assert(r2[i] == results[i]);
                assert((e + Seq::<nat>::empty())[i] == e[i]);
            }
        }
        assert forall|i: int| 0 <= i < r2.len() implies denotes(*#[trigger] d2[i], cs, slot_pa(s, n, i)) by {
            if i < results.len() {
                assert(d2[i] == nodes[i]);
            }
        }
    }
}

/// Undoing a propagated top entry, with the top node replaced by one of the same kind, keeps the
/// stacks of a backtrack: the count of the state does not change.
proof fn lemma_stacks_pop_propagated(
    results: Seq<BigUint>,
    nodes: Seq<Rc<DDNNFNode>>,
    cs: Seq<Constraint>,
    s: Seq<VariableAssignment>,
    n: nat,
    node: Rc<DDNNFNode>,
)
    requires
        stacks_ok(results, nodes, cs, s, n, seq![mc(cs, pa(s, n, s.len() as int))]),
        stack_ok(s, n),
        s.len() > 0,
        s.last().assignment_kind is Propagated,
        implied_entries(cs, s, n),
        (*node) is FalseLeave <==> (*nodes.last()) is FalseLeave,
        no_false_child(*node),
        forall|a: Seq<bool>| #[trigger] eval(*node, a)
            == (eval(*nodes.last(), a) && a[s.last().variable_index as int] == s.last().variable_sign),
        forall|u: u32| #[trigger] mentions(*node, u) ==> mentions(*nodes.last(), u) || u == s.last().variable_index,
        deterministic(*nodes.last()) ==> deterministic(*node),
        decomposable(*nodes.last()) && !mentions(*nodes.last(), s.last().variable_index) ==> decomposable(*node),
        false_branch_first(*nodes.last()) ==> false_branch_first(*node),
    ensures
        stacks_ok(results, nodes.drop_last().push(node), cs, s.drop_last(), n,
            seq![mc(cs, pa(s.drop_last(), n, s.len() - 1))]),
{
    let l = s.len() - 1;
    let t = s.drop_last();
    lemma_agree(cs, s, t, n, l);
    assert(s[l] == s.last());
    lemma_free_count_stack(s, n, l);
    {
        lemma_mc_implied(cs, pa(s, n, l), s[l].variable_index as int, s[l].variable_sign);
    }
    let d2 = nodes.drop_last().push(node);
    let e = expected(cs, s, n, s.len() as int);
    assert(e == expected(cs, t, n, l));
    assert forall|i: int| 0 <= i < results.len() implies ((*d2[i]) is FalseLeave <==> big_value(#[trigger] results[i]) == 0) by {
        if i < results.len() - 1 {
            assert(d2[i] == nodes[i]);
        } else {
            assert(nodes.last() == nodes[i]);
        }
    }
    assert forall|i: int| 0 <= i < results.len() implies no_false_child(*#[trigger] d2[i]) by {
        if i < results.len() - 1 {
            assert(d2[i] == nodes[i]);
        }
    }
    lemma_expected_len(cs, s, n, s.len() as int);
    assert(expected_pa(s, n, s.len() as int) == expected_pa(s, n, l));
    {
        let v = s[l].variable_index;
        let top = nodes.last();
        let p = pa(s, n, l);
        assert(top == nodes[results.len() - 1]);
        assert(over_free(*top, pa(s, n, s.len() as int)));
        assert(pa(s, n, s.len() as int) == p.update(v as int, Some(s[l].variable_sign)));
        assert(!mentions(*top, v));
        assert(is_ddnnf(*node));
        assert forall|u: u32| #[trigger] mentions(*node, u) implies u < p.len() && p[u as int] is None by {
            if u != v {
                assert(mentions(*top, u));
            }
        }
        assert forall|i: int| 0 <= i < results.len() implies is_ddnnf(*#[trigger] d2[i]) && over_free(*d2[i], slot_pa(t, n, i)) by {
            if i < results.len() - 1 {
                assert(d2[i] == nodes[i]);
                assert(slot_pa(t, n, i) == slot_pa(s, n, i));
            }
        }
        assert forall|i: int| 0 <= i < results.len() implies false_branch_first(*#[trigger] d2[i]) by {
            if i < results.len() - 1 {
                assert(d2[i] == nodes[i]);
            }
        }
        assert forall|k: int| #![trigger t[k]] 0 <= k < t.len() implies ({
            &&& t[k].assignment_kind is FirstDecision ==> t[k].variable_sign
            &&& t[k].assignment_kind is SecondDecision ==> !t[k].variable_sign
        }) by {
            assert(t[k] == s[k]);
        }
    }
    {
        assert forall|i: int| 0 <= i < results.len() implies big_value(#[trigger] results[i])
            == (e + seq![mc(cs, pa(t, n, l))])[i] by {
            assert(big_value(results[i]) == (e + seq![mc(cs, pa(s, n, s.len() as int))])[i]);
        }
        let v = s[l].variable_index as int;
        let b = s[l].variable_sign;
        let p = pa(s, n, l);
        lemma_expected_len(cs, s, n, s.len() as int);
        assert(expected_pa(s, n, s.len() as int) == expected_pa(s, n, l));
        assert(implied(cs, p, v, b));
        assert(denotes(*nodes.last(), cs, pa(s, n, s.len() as int))) by {
            assert(nodes.last() == nodes[results.len() - 1]);
        }
        assert forall|a: Seq<bool>| #[trigger] ext(p, a) implies (eval(*node, a) == holds_all(cs, a)) by {
            if a[v] == b {
                lemma_ext_update(p, v, b, a);
                assert(ext(pa(s, n, s.len() as int), a));
            }
        }
        assert forall|i: int| 0 <= i < results.len() implies denotes(*#[trigger] d2[i], cs, slot_pa(t, n, i)) by {
            if i < results.len() - 1 {
                assert(d2[i] == nodes[i]);
                assert(slot_pa(t, n, i) == slot_pa(s, n, i));
            }
        }
    }
}

/// Joining the two branches of a second decision on top of the stack, with their counts added
/// and one node in place of their two, keeps the stacks of a backtrack once the decision is undone.
proof fn lemma_stacks_join(
    results: Seq<BigUint>,
    nodes: Seq<Rc<DDNNFNode>>,
    cs: Seq<Constraint>,
    s: Seq<VariableAssignment>,
    n: nat,
    sum: BigUint,
    node: Rc<DDNNFNode>,
)
    requires
        stacks_ok(results, nodes, cs, s, n, seq![mc(cs, pa(s, n, s.len() as int))]),
        stack_ok(s, n),
        s.len() > 0,
        s.last().assignment_kind is SecondDecision,
        results.len() >= 2 ==> big_value(sum) == big_value(results[results.len() - 1]) + big_value(results[results.len() - 2]),
        (*node) is FalseLeave <==> big_value(sum) == 0,
        no_false_child(*node),
        forall|a: Seq<bool>| #[trigger] eval(*node, a)
            == ((eval(*nodes[nodes.len() - 1], a) && a[s.last().variable_index as int] == s.last().variable_sign)
            || (eval(*nodes[nodes.len() - 2], a) && a[s.last().variable_index as int] == !s.last().variable_sign)),
        forall|u: u32| #[trigger] mentions(*node, u) ==> mentions(*nodes[nodes.len() - 1], u)
            || mentions(*nodes[nodes.len() - 2], u) || u == s.last().variable_index,
        deterministic(*nodes[nodes.len() - 1]) && deterministic(*nodes[nodes.len() - 2]) ==> deterministic(*node),
        decomposable(*nodes[nodes.len() - 1]) && decomposable(*nodes[nodes.len() - 2])
            && !mentions(*nodes[nodes.len() - 1], s.last().variable_index)
            && !mentions(*nodes[nodes.len() - 2], s.last().variable_index) ==> decomposable(*node),
        false_branch_first(*nodes[nodes.len() - 1]) && false_branch_first(*nodes[nodes.len() - 2])
            && !s.last().variable_sign ==> false_branch_first(*node),
    ensures
        results.len() >= 2,
        stacks_ok(results.drop_last().drop_last().push(sum), nodes.drop_last().drop_last().push(node), cs,
            s.drop_last(), n, seq![mc(cs, pa(s.drop_last(), n, s.len() - 1))]),
{
    let l = s.len() - 1;
    let t = s.drop_last();
    let len = results.len();
    lemma_agree(cs, s, t, n, l);
    assert(s[l] == s.last());
    lemma_expected_len(cs, s, n, l);
    lemma_free_count_stack(s, n, l);
    let v = s[l].variable_index as int;
    let b = s[l].variable_sign;
    let p = pa(s, n, l);
    let e0 = expected(cs, s, n, l);
    let e = expected(cs, s, n, s.len() as int);
    assert(e == e0 + seq![mc(cs, p.update(v, Some(!b)))]);
    let r2 = results.drop_last().drop_last().push(sum);
    let d2 = nodes.drop_last().drop_last().push(node);
    assert forall|i: int| 0 <= i < r2.len() implies ((*d2[i]) is FalseLeave <==> big_value(#[trigger] r2[i]) == 0) by {
        if i < len - 2 {
            assert(r2[i] == results[i] && d2[i] == nodes[i]);
        }
    }
    assert forall|i: int| 0 <= i < r2.len() implies no_false_child(*#[trigger] d2[i]) by {
        if i < len - 2 {
            assert(d2[i] == nodes[i]);
        }
    }
    {
        let f0 = expected_pa(s, n, l);
        let f = expected_pa(s, n, s.len() as int);
        assert(f == f0 + seq![p.update(v, Some(!b))]);
        assert(f0 == expected_pa(t, n, l));
        let u0 = v as u32;
        assert(over_free(*nodes[len - 1], p.update(v, Some(b))));
        assert(slot_pa(s, n, len - 2) == p.update(v, Some(!b)));
        assert(over_free(*nodes[len - 2], p.update(v, Some(!b))));
        assert(!mentions(*nodes[len - 1], u0));
        assert(!mentions(*nodes[len - 2], u0));
        assert(is_ddnnf(*nodes[len - 1]) && is_ddnnf(*nodes[len - 2]));
        assert(is_ddnnf(*node));
        assert forall|u: u32| #[trigger] mentions(*node, u) implies u < p.len() && p[u as int] is None by {
            if u != u0 {
                if mentions(*nodes[len - 1], u) {
                } else {
                    assert(mentions(*nodes[len - 2], u));
                }
            }
        }
        assert forall|i: int| 0 <= i < r2.len() implies is_ddnnf(*#[trigger] d2[i]) && over_free(*d2[i], slot_pa(t, n, i)) by {
            if i < len - 2 {
                assert(d2[i] == nodes[i]);
                assert(slot_pa(t, n, i) == slot_pa(s, n, i));
            }
        }
        assert(!s[l].variable_sign);
        assert(false_branch_first(*nodes[len - 1]) && false_branch_first(*nodes[len - 2]));
        assert forall|i: int| 0 <= i < r2.len() implies false_branch_first(*#[trigger] d2[i]) by {
            if i < len - 2 {
                assert(d2[i] == nodes[i]);
            }
        }
        assert forall|k: int| #![trigger t[k]] 0 <= k < t.len() implies ({
            &&& t[k].assignment_kind is FirstDecision ==> t[k].variable_sign
            &&& t[k].assignment_kind is SecondDecision ==> !t[k].variable_sign
        }) by {
            assert(t[k] == s[k]);
        }
    }
    {
        lemma_mc_split(cs, p, v);
        assert(big_value(results[len - 1]) == (e + seq![mc(cs, pa(s, n, s.len() as int))])[len - 1]);
        assert(big_value(results[len - 2]) == (e + seq![mc(cs, pa(s, n, s.len() as int))])[len - 2]);
        assert(pa(s, n, s.len() as int) == p.update(v, Some(b)));
        assert forall|i: int| 0 <= i < r2.len() implies big_value(#[trigger] r2[i])
            == (e0 + seq![mc(cs, pa(t, n, l))])[i] by {
            if i < len - 2 {
                assert(r2[i] == results[i]);
                assert(big_value(results[i]) == (e + seq![mc(cs, pa(s, n, s.len() as int))])[i]);
            }
        }
        let f0 = expected_pa(s, n, l);
        let f = expected_pa(s, n, s.len() as int);
        assert(f == f0 + seq![p.update(v, Some(!b))]);
        assert(f0 == expected_pa(t, n, l));
        assert(denotes(*nodes[len - 1], cs, p.update(v, Some(b))));
        assert(slot_pa(s, n, len - 2) == p.update(v, Some(!b)));
        assert(denotes(*nodes[len - 2], cs, p.update(v, Some(!b))));
        assert forall|a: Seq<bool>| #[trigger] ext(p, a) implies (eval(*node, a) == holds_all(cs, a)) by {
            if a[v] == b {
                lemma_ext_update(p, v, b, a);
            } else {
                lemma_ext_update(p, v, !b, a);
            }
        }
        assert forall|i: int| 0 <= i < r2.len() implies denotes(*#[trigger] d2[i], cs, slot_pa(t, n, i)) by {
            if i < len - 2 {
                assert(d2[i] == nodes[i]);
                assert(slot_pa(t, n, i) == slot_pa(s, n, i));
            }
        }
    }
}

/// Flipping the first decision on top of `s` into the second one (with propagated entries after
/// it) turns the stacks of a backtrack into those of a search: the count of the first branch now
/// stands for that second decision.
proof fn lemma_stacks_flip(
    results: Seq<BigUint>,
    nodes: Seq<Rc<DDNNFNode>>,
    cs: Seq<Constraint>,
    s: Seq<VariableAssignment>,
    t: Seq<VariableAssignment>,
    n: nat,
)
    requires
        stacks_ok(results, nodes, cs, s, n, seq![mc(cs, pa(s, n, s.len() as int))]),
        stack_ok(s, n),
        s.len() > 0,
        s.last().assignment_kind is FirstDecision,
        t.len() >= s.len(),
        t.take(s.len() - 1) == s.take(s.len() - 1),
        t[s.len() - 1] == (VariableAssignment {
            decision_level: s.last().decision_level,
            variable_index: s.last().variable_index,
            variable_sign: !s.last().variable_sign,
            assignment_kind: AssignmentKind::SecondDecision,
        }),
        forall|i: int| s.len() - 1 < i < t.len() ==> (#[trigger] t[i]).assignment_kind is Propagated,
    ensures
        stacks_ok(results, nodes, cs, t, n, Seq::empty()),
{
    let l = s.len() - 1;
    assert(s[l] == s.last());
    assert forall|i: int| 0 <= i < l implies s[i] == t[i] by {
        assert(s.take(l)[i] == t.take(l)[i]);
    }
    lemma_agree(cs, s, t, n, l);
    lemma_agree(cs, s, t, n, l);
    lemma_tail_propagated(cs, t, n, l + 1, t.len() as int);
    let e = expected(cs, s, n, s.len() as int);
    let f = expected(cs, t, n, t.len() as int);
    lemma_free_count_stack(s, n, l);
    assert(pa(t, n, l).update(s[l].variable_index as int, Some(!!s[l].variable_sign)) == pa(s, n, s.len() as int));
    assert(f == e + seq![mc(cs, pa(s, n, s.len() as int))]);
    assert(f + Seq::<nat>::empty() =~= f);
    let g = expected_pa(s, n, s.len() as int);
    let h = expected_pa(t, n, t.len() as int);
    assert(h == g + seq![pa(s, n, s.len() as int)]);
    lemma_expected_len(cs, s, n, s.len() as int);
    {
        assert forall|i: int| 0 <= i < results.len() implies denotes(*#[trigger] nodes[i], cs, slot_pa(t, n, i)) by {
            assert(slot_pa(t, n, i) == slot_pa(s, n, i));
        }
    }
}

/// When the stack holds no decision, the stacks of a backtrack hold just the count of the whole
/// formula and its node.
proof fn lemma_stacks_final(
    results: Seq<BigUint>,
    nodes: Seq<Rc<DDNNFNode>>,
    cs: Seq<Constraint>,
    s: Seq<VariableAssignment>,
    n: nat,
)
    requires
        stacks_ok(results, nodes, cs, s, n, seq![mc(cs, pa(s, n, s.len() as int))]),
        stack_ok(s, n),
        decisions(s, s.len() as int) == 0,
        implied_entries(cs, s, n),
    ensures
        results.len() == 1,
        nodes.len() == 1,
        (*nodes[0]) is FalseLeave <==> big_value(results[0]) == 0,
        big_value(results[0]) == model_count(cs, n),
        (s.len() == 0 || (*nodes[0]) is FalseLeave) ==> denotes(*nodes[0], cs, all_free(n)),
        is_ddnnf(*nodes[0]),
        false_branch_first(*nodes[0]),
        forall|u: u32| #[trigger] mentions(*nodes[0], u) ==> u < n,
{
    lemma_no_decisions(s, s.len() as int);
    lemma_expected_len(cs, s, n, s.len() as int);
    lemma_free_count_stack(s, n, s.len() as int);
    assert(over_free(*nodes[0], slot_pa(s, n, 0)));
    {
        lemma_mc_chain(cs, s, n, s.len() as int);
        assert(pa(s, n, 0) =~= all_free(n));
        assert(expected(cs, s, n, s.len() as int) =~= Seq::<nat>::empty());
        assert(big_value(results[0]) == (expected(cs, s, n, s.len() as int) + seq![mc(cs, pa(s, n, s.len() as int))])[0]);
        assert(denotes(*nodes[0], cs, slot_pa(s, n, 0)));
        lemma_false_denotes(cs, all_free(n), nodes[0]);
    }
}

/// A partial assignment that leaves no variable free fixes every variable.
proof fn lemma_free_count_zero(p: Seq<Option<bool>>)
    requires
        free_count(p) == 0,
    ensures
        forall|k: int| 0 <= k < p.len() ==> (#[trigger] p[k]) is Some,
    decreases p.len(),
{
    if p.len() > 0 {
        lemma_free_count_zero(p.drop_last());
        assert forall|k: int| 0 <= k < p.len() implies (#[trigger] p[k]) is Some by {
            if k < p.len() - 1 {
                assert(p.drop_last()[k] == p[k]);
            }
        }
    }
}

/// Pushing a first decision and propagated entries keeps the stacks of a search.
proof fn lemma_stacks_extend(
    results: Seq<BigUint>,
    nodes: Seq<Rc<DDNNFNode>>,
    cs: Seq<Constraint>,
    s: Seq<VariableAssignment>,
    t: Seq<VariableAssignment>,
    n: nat,
)
    requires
        stacks_ok(results, nodes, cs, s, n, Seq::empty()),
        t.len() > s.len(),
        t.take(s.len() as int) == s,
        t[s.len() as int].assignment_kind is FirstDecision,
        t[s.len() as int].variable_sign,
        forall|i: int| s.len() < i < t.len() ==> (#[trigger] t[i]).assignment_kind is Propagated,
    ensures
        stacks_ok(results, nodes, cs, t, n, Seq::empty()),
{
    let l = s.len() as int;
    assert forall|i: int| 0 <= i < l implies s[i] == t[i] by {
        assert(t.take(l)[i] == t[i]);
    }
    lemma_agree(cs, s, t, n, l);
    lemma_tail_propagated(cs, t, n, l + 1, t.len() as int);
    assert(expected(cs, t, n, l + 1) == expected(cs, t, n, l));
    assert(expected_pa(t, n, l + 1) == expected_pa(t, n, l));
    lemma_expected_len(cs, s, n, l);
    {
        assert forall|i: int| 0 <= i < results.len() implies denotes(*#[trigger] nodes[i], cs, slot_pa(t, n, i)) by {
            assert(slot_pa(t, n, i) == slot_pa(s, n, i));
        }
    }
}

/// When every constraint is satisfied by its recorded values, every assignment extending the
/// current one is a model.
proof fn lemma_all_satisfied(cs: Seq<Constraint>, statics: Seq<Constraint>, s: Seq<VariableAssignment>, n: nat)
    requires
        cs.len() == statics.len(),
        forall|i: int| 0 <= i < cs.len() ==> (#[trigger] cs[i]).same_statics(statics[i]),
        forall|i: int| 0 <= i < cs.len() ==> cons_ok(#[trigger] cs[i], s, pa(s, n, s.len() as int), false),
        forall|i: int| 0 <= i < cs.len() ==> (#[trigger] cs[i]).satisfied_by_rec(),
    ensures
        mc(statics, pa(s, n, s.len() as int)) == pow2(free_count(pa(s, n, s.len() as int))),
        denotes(DDNNFNode::TrueLeave, statics, pa(s, n, s.len() as int)),
{
    let p = pa(s, n, s.len() as int);
    assert forall|a: Seq<bool>| #[trigger] ext(p, a) implies holds_all(statics, a) by {
        assert forall|i: int| 0 <= i < statics.len() implies (#[trigger] statics[i]).holds(a) by {
            assert(cons_ok(cs[i], s, p, false));
            assert(cs[i].agrees(a)) by {
                assert forall|u: usize| #[trigger] cs[i].rec().contains(u) implies a[u as int] == cs[i].assignments@[u].0 by {
                    assert(p[u as int] is Some);
                }
            }
            cs[i].lemma_satisfied_by_rec_sound(a);
            lemma_same_statics_holds(cs[i], statics[i], a);
        }
    }
    lemma_mc_all(statics, p);
}

impl Solver {
    spec fn n(self) -> nat {
        self.pseudo_boolean_formula.number_variables as nat
    }

    spec fn cs(self) -> Seq<Constraint> {
        self.pseudo_boolean_formula.constraints@
    }

    spec fn st(self) -> Seq<VariableAssignment> {
        self.assignment_stack@
    }

    spec fn cur(self) -> Seq<Option<bool>> {
        pa(self.st(), self.n(), self.st().len() as int)
    }

    /// The counters of the solver.
    pub closed spec fn stats(self) -> Statistics {
        self.statistics
    }

    /// The formula the solver works on, with the values its constraints have recorded.
    pub closed spec fn held_formula(self) -> PseudoBooleanFormula {
        self.pseudo_boolean_formula
    }

    /// The variables in scope.
    pub closed spec fn scope(self) -> Set<usize> {
        self.variable_in_scope@
    }

    /// The constraints in scope.
    pub closed spec fn constraints_in_scope(self) -> Set<usize> {
        self.constraint_indexes_in_scope@
    }

    /// For each variable, its index and value when it has one.
    pub closed spec fn values(self) -> Seq<Option<(u32, bool)>> {
        self.assignments@
    }

    /// The number of open constraints the solver counts.
    pub closed spec fn unsat_count(self) -> usize {
        self.number_unsat_constraints
    }

    /// The number of variables without a value the solver counts.
    pub closed spec fn unassigned_count(self) -> u32 {
        self.number_unassigned_variables
    }

    /// The constraints the solver was created with.
    pub closed spec fn formula(self) -> Seq<Constraint> {
        self.statics@
    }

    /// The number of variables of the formula.
    pub closed spec fn num_vars(self) -> nat {
        self.n()
    }

    /// The partial assignment the solver holds.
    pub closed spec fn current(self) -> Seq<Option<bool>> {
        self.cur()
    }

    /// No value is assigned, no decision level is open, and no count or d-DNNF node is pending.
    pub closed spec fn nothing_decided(self) -> bool {
        &&& self.st().len() == 0
        &&& self.decision_level == 0
        &&& self.result_stack@.len() == 0
        &&& self.ddnnf_stack@.len() == 0
        &&& self.next_variables@.len() == 0
    }

    /// Variable `v` exists and has no value yet.
    pub closed spec fn is_free(self, v: u32) -> bool {
        v < self.n() && self.cur()[v as int] is None
    }

    /// The bookkeeping of the solver agrees with its assignment stack (with `pend`, the value
    /// assigned last may not have reached every constraint yet), and its decision level counts
    /// the decisions on the stack.
    pub closed spec fn inv(self, pend: bool) -> bool {
        self.consistent(pend)
    }

    /// The solver may assign `v` by `kind`: its bookkeeping is consistent and the level of a
    /// decision has already been opened.
    pub closed spec fn prepared(self, v: u32, kind: AssignmentKind) -> bool {
        &&& self.base(false)
        &&& self.decision_level == decisions(self.st(), self.st().len() as int)
            + if kind is Propagated { 0nat } else { 1nat }
    }

    /// `self` arises from `prev` by assigning `sign` to `v` (when `v` was free) and then only
    /// propagated values, leaving the result stacks and the decision level alone.
    pub closed spec fn extends(self, prev: Solver, v: u32, sign: bool, kind: AssignmentKind) -> bool {
        let l = prev.st().len() as int;
        &&& self.statics == prev.statics
        &&& self.statistics == prev.statistics
        &&& self.result_stack == prev.result_stack
        &&& self.ddnnf_stack == prev.ddnnf_stack
        &&& self.decision_level == prev.decision_level
        &&& self.unique_id == prev.unique_id
        &&& self.pseudo_boolean_formula.number_variables == prev.pseudo_boolean_formula.number_variables
        &&& if prev.is_free(v) {
            &&& self.st().len() > l
            &&& self.st().take(l) == prev.st()
            &&& self.st()[l] == (VariableAssignment {
                    decision_level: prev.decision_level,
                    variable_index: v,
                    variable_sign: sign,
                    assignment_kind: kind,
                })
            &&& forall|i: int| l < i < self.st().len() ==> (#[trigger] self.st()[i]).assignment_kind is Propagated
        } else {
            self.st() == prev.st()
        }
    }

    /// A solver as `new` makes it: nothing assigned or counted yet, every constraint still
    /// counted as open, and the constraints those it was given.
    pub closed spec fn ready(self) -> bool {
        let n = self.n();
        let cs = self.cs();
        &&& self.pseudo_boolean_formula.wf()
        &&& self.pseudo_boolean_formula.untouched()
        &&& self.statics@ == cs
        &&& self.st().len() == 0
        &&& self.result_stack@.len() == 0
        &&& self.ddnnf_stack@.len() == 0
        &&& self.decision_level == 0
        &&& self.next_variables@.len() == 0
        &&& self.assignments@ == Seq::new(n, |i: int| None::<(u32, bool)>)
        &&& self.number_unassigned_variables == n
        &&& self.variable_in_scope@ == Set::new(|v: usize| v < n)
        &&& self.number_unsat_constraints == cs.len()
        &&& self.constraint_indexes_in_scope@ == Set::new(|i: usize| i < cs.len())
    }

    /// The bookkeeping of the solver agrees with its assignment stack, and its decision level
    /// counts the decisions on it.
    spec fn consistent(self, pend: bool) -> bool {
        &&& self.base(pend)
        &&& self.decision_level == decisions(self.st(), self.st().len() as int)
    }

    /// The bookkeeping of the solver agrees with its assignment stack.
    #[verifier::opaque]
    spec fn base(self, pend: bool) -> bool {
        let n = self.n();
        let cs = self.cs();
        let s = self.st();
        let p = self.cur();
        &&& self.pseudo_boolean_formula.wf()
        &&& cs.len() == self.statics@.len()
        &&& forall|i: int| 0 <= i < cs.len() ==> (#[trigger] cs[i]).same_statics(self.statics@[i])
        &&& stack_ok(s, n)
        &&& self.assignments@.len() == n
        &&& forall|v: int| 0 <= v < n ==> #[trigger] self.assignments@[v] == (match p[v] {
                Some(b) => Some((v as u32, b)),
                None => None,
            })
        &&& self.number_unassigned_variables == free_count(p)
        &&& self.variable_in_scope@ == free_set(p)
        &&& self.number_unsat_constraints == num_open(cs)
        &&& self.constraint_indexes_in_scope@ == open_set(cs)
        &&& forall|i: int| 0 <= i < cs.len() ==> cons_ok(#[trigger] cs[i], s, p, pend)
        &&& self.next_variables@.len() == 0
        &&& implied_entries(self.statics@, s, n)
        &&& pend ==> s.len() > 0
    }

    /// The count and d-DNNF stacks match the assignment stack (see `stacks_ok`).
    spec fn results_ok(self, extra: Seq<nat>) -> bool {
        stacks_ok(self.result_stack@, self.ddnnf_stack@, self.statics@, self.st(), self.n(), extra)
    }

    /// Undoes the top entry of the assignment stack, in the solver and in every constraint.
    #[verifier::rlimit(40)]
    fn undo_last_assignment(&mut self, Ghost(pend): Ghost<bool>)
        requires
            old(self).base(pend),
            old(self).st().len() > 0,
        ensures
            final(self).base(false),
            final(self).st() == old(self).st().drop_last(),
            final(self).result_stack == old(self).result_stack,
            final(self).ddnnf_stack == old(self).ddnnf_stack,
            final(self).decision_level == old(self).decision_level,
            final(self).unique_id == old(self).unique_id,
            final(self).statics == old(self).statics,
            final(self).statistics == old(self).statistics,
            final(self).pseudo_boolean_formula.number_variables == old(self).pseudo_boolean_formula.number_variables,
    {
        proof { reveal(Solver::base); }
        let ghost s = self.st();
        let ghost n = self.n();
        let ghost l = s.len() - 1;
        let ghost cs0 = self.cs();
        let last = self.assignment_stack.pop().unwrap();
        let v = last.variable_index as usize;
        proof {
            assert(last == s[l]);
            lemma_agree(Seq::empty(), s, self.st(), n, l);
            lemma_free_count_stack(s, n, l);
            lemma_free_count_update(pa(s, n, l), v as int, last.variable_sign);
            assert(pa(s, n, l + 1) == pa(s, n, l).update(v as int, Some(last.variable_sign)));
        }
        self.assignments.set(v, None);
        self.number_unassigned_variables = self.number_unassigned_variables + 1;
        self.variable_in_scope.insert(v);
        proof {
            let q = self.cur();
            assert(q == pa(s, n, l));
            assert(self.variable_in_scope@ =~= free_set(q));
            assert forall|u: int| 0 <= u < n implies #[trigger] self.assignments@[u] == (match q[u] {
                Some(b) => Some((u as u32, b)),
                None => None,
            }) by {
                if u != v {
                    assert(q[u] == pa(s, n, l + 1)[u]);
                }
            }
            lemma_stack_pop(self.statics@, s, n);
        }
        let ghost cs_mid = self.cs();
        undo_in_constraints(
            &mut self.pseudo_boolean_formula.constraints,
            &self.pseudo_boolean_formula.constraints_by_variable[v],
            last.variable_index,
            last.variable_sign,
            &mut self.number_unsat_constraints,
            &mut self.constraint_indexes_in_scope,
        );
        proof {
            lemma_undo_consistent(cs0, self.cs(), s, n, pend, self.pseudo_boolean_formula.constraints_by_variable@[v as int]@);
            let q = self.cur();
            assert(q == pa(s.drop_last(), n, s.len() - 1));
            assert(self.pseudo_boolean_formula.wf()) by {
                assert forall|i: int| 0 <= i < self.cs().len() implies {
                    &&& (#[trigger] self.cs()[i]).wf()
                    &&& self.cs()[i].index == ConstraintIndex::NormalConstraintIndex(i as usize)
                    &&& forall|k: usize| #[trigger] self.cs()[i].vars().contains(k) ==> {
                        &&& k < self.pseudo_boolean_formula.number_variables
                        &&& exists|jj: int| 0 <= jj < self.pseudo_boolean_formula.constraints_by_variable@[k as int]@.len()
                            && self.pseudo_boolean_formula.constraints_by_variable@[k as int]@[jj] == i
                    }
                } by {
                    assert(cons_ok(self.cs()[i], self.st(), q, false));
                    assert(self.cs()[i].same_statics(cs0[i]));
                    assert(old(self).cs()[i].wf());
                }
            }
            assert forall|i: int| 0 <= i < self.cs().len() implies (#[trigger] self.cs()[i]).same_statics(self.statics@[i]) by {
                assert(old(self).cs()[i].same_statics(old(self).statics@[i]));
            }
        }
    }

    /// Assigns `sign` to the free variable `index`, records the assignment on the stack and
    /// passes it to the constraints that mention the variable, queueing what they imply.
    /// Returns the position of a constraint the assignment violates.
    #[verifier::rlimit(60)]
    fn assign(
        &mut self,
        index: u32,
        sign: bool,
        kind: AssignmentKind,
        queue: &mut VecDeque<(u32, bool, AssignmentKind)>,
    ) -> (r: Option<usize>)
        requires
            old(self).base(false),
            index < old(self).n(),
            old(self).cur()[index as int] is None,
            old(self).decision_level == decisions(old(self).st(), old(self).st().len() as int)
                + if kind is Propagated { 0nat } else { 1nat },
            kind is Propagated
                ==> implied(old(self).statics@, old(self).cur(), index as int, sign),
        ensures
            final(self).base(r is Some),
            final(self).st() == old(self).st().push(VariableAssignment {
                decision_level: old(self).decision_level,
                variable_index: index,
                variable_sign: sign,
                assignment_kind: kind,
            }),
            final(self).cur() == old(self).cur().update(index as int, Some(sign)),
            final(self).decision_level == decisions(final(self).st(), final(self).st().len() as int),
            final(self).result_stack == old(self).result_stack,
            final(self).ddnnf_stack == old(self).ddnnf_stack,
            final(self).decision_level == old(self).decision_level,
            final(self).unique_id == old(self).unique_id,
            final(self).statics == old(self).statics,
            final(self).statistics == old(self).statistics,
            final(self).pseudo_boolean_formula.number_variables == old(self).pseudo_boolean_formula.number_variables,
            final(queue)@.len() >= old(queue)@.len(),
            final(queue)@.take(old(queue)@.len() as int) == old(queue)@,
            forall|j: int| old(queue)@.len() <= j < final(queue)@.len() ==> {
                &&& (#[trigger] final(queue)@[j]).2 is Propagated
                &&& implied(old(self).statics@, final(self).cur(), final(queue)@[j].0 as int, final(queue)@[j].1)
            },
            r is Some ==> mc(old(self).statics@, final(self).cur()) == 0,
            final(self).cs().len() == old(self).cs().len(),
            r matches Some(ci) ==> ci < final(self).cs().len()
                && final(self).cs()[ci as int].outcome_is(PropagationResult::Unsatisfied),
            r is None ==> forall|i: int| 0 <= i < final(self).cs().len() && final(self).cs()[i] != old(self).cs()[i]
                ==> !(#[trigger] final(self).cs()[i]).outcome_is(PropagationResult::Unsatisfied),
    {
        proof { reveal(Solver::base); }
        let ghost s = self.st();
        let ghost n = self.n();
        let ghost m = s.len() as int;
        let ghost p = self.cur();
        let ghost cs0 = self.cs();
        let ghost statics = self.statics@;
        let ghost q0 = queue@;
        let idx = index as usize;
        let entry = VariableAssignment {
            decision_level: self.decision_level,
            variable_index: index,
            variable_sign: sign,
            assignment_kind: kind,
        };
        proof {
            lemma_free_count_stack(s, n, m);
            lemma_free_count_update(p, idx as int, sign);
            lemma_stack_push(statics, s, n, entry);
        }
        self.number_unassigned_variables = self.number_unassigned_variables - 1;
        self.variable_in_scope.remove(&idx);
        self.assignment_stack.push(entry);
        self.assignments.set(idx, Some((index, sign)));
        let ghost q = self.cur();
        proof {
            assert(q == p.update(idx as int, Some(sign)));
            assert(self.variable_in_scope@ =~= free_set(q));
            assert forall|u: int| 0 <= u < n implies #[trigger] self.assignments@[u] == (match q[u] {
                Some(b) => Some((u as u32, b)),
                None => None,
            }) by {
                if u != idx {
                    assert(q[u] == p[u]);
                }
            }
            assert forall|i: int| 0 <= i < cs0.len() implies !(#[trigger] cs0[i]).rec().contains(idx) by {
                assert(cons_ok(cs0[i], s, p, false));
            }
            assert forall|j: int| 0 <= j < self.pseudo_boolean_formula.constraints_by_variable@[idx as int]@.len() implies {
                &&& #[trigger] self.pseudo_boolean_formula.constraints_by_variable@[idx as int]@[j] < cs0.len()
                &&& cs0[self.pseudo_boolean_formula.constraints_by_variable@[idx as int]@[j] as int].vars().contains(idx)
            } by {
                assert(self.pseudo_boolean_formula.wf());
            }
        }
        let conflict = propagate_in_constraints(
            &mut self.pseudo_boolean_formula.constraints,
            &self.pseudo_boolean_formula.constraints_by_variable[idx],
            index,
            sign,
            kind,
            self.decision_level,
            &mut self.number_unsat_constraints,
            &mut self.constraint_indexes_in_scope,
            queue,
        );
        let ghost cs1 = self.cs();
        let ghost list = self.pseudo_boolean_formula.constraints_by_variable@[idx as int]@;
        proof {
            assert forall|i: int| 0 <= i < cs1.len() implies cons_ok(#[trigger] cs1[i], self.st(), q, conflict is Some)
                && cs1[i].same_statics(statics[i]) by {
                assert(recorded(cs0[i], cs1[i], idx, (sign, kind, entry.decision_level)));
                if conflict is None && cs0[i].vars().contains(idx) {
                    assert(old(self).pseudo_boolean_formula.wf());
                    let jj = choose|jj: int| 0 <= jj < list.len() && list[jj] == i;
                    assert(list[jj] == i);
                }
                lemma_cons_record(cs0[i], cs1[i], s, n, entry, conflict is Some);
                assert(cs0[i].same_statics(statics[i]));
            }
            assert(self.pseudo_boolean_formula.wf()) by {
                assert forall|i: int| 0 <= i < cs1.len() implies {
                    &&& (#[trigger] cs1[i]).wf()
                    &&& cs1[i].index == ConstraintIndex::NormalConstraintIndex(i as usize)
                    &&& forall|k: usize| #[trigger] cs1[i].vars().contains(k) ==> {
                        &&& k < self.pseudo_boolean_formula.number_variables
                        &&& exists|jj: int| 0 <= jj < self.pseudo_boolean_formula.constraints_by_variable@[k as int]@.len()
                            && self.pseudo_boolean_formula.constraints_by_variable@[k as int]@[jj] == i
                    }
                } by {
                    assert(cons_ok(cs1[i], self.st(), q, conflict is Some));
                    assert(recorded(cs0[i], cs1[i], idx, (sign, kind, entry.decision_level)));
                    assert(old(self).cs()[i].wf());
                }
            }
            assert forall|j: int| q0.len() <= j < queue@.len() implies {
                &&& (#[trigger] queue@[j]).2 is Propagated
                &&& implied(statics, q, queue@[j].0 as int, queue@[j].1)
            } by {
                let e = queue@[j];
                assert(queued_ok(cs1, idx, e));
                if let AssignmentKind::Propagated(ConstraintIndex::NormalConstraintIndex(i)) = e.2 {
                    {
                        assert(cs1[i as int].same_statics(statics[i as int]));
                        assert(statics[i as int].vars().contains(e.0 as usize));
                        assert(cons_ok(cs1[i as int], self.st(), q, conflict is Some));
                        lemma_forced_implied(cs1, statics, i as int, q, e.0 as int, e.1);
                    }
                }
            }
            if let Some(ci) = conflict {
                {
                    assert(cons_ok(cs1[ci as int], self.st(), q, true));
                    lemma_refuted_zero(cs1, statics, ci as int, q);
                }
            }
        }
        conflict
    }

    /// Assigns `variable_sign` to `variable_index` (when the variable is free) and then every value
    /// the constraints imply, one after the other, until nothing more is implied or an assignment
    /// violates a constraint; returns that constraint. The first assignment is of kind
    /// `assignment_kind`, the implied ones are `Propagated`.
    #[verifier::rlimit(40)]
    pub fn propagate(&mut self, variable_index: u32, variable_sign: bool, assignment_kind: AssignmentKind) -> (r: Option<ConstraintIndex>)
        requires
            old(self).prepared(variable_index, assignment_kind),
            assignment_kind is Propagated
                ==> implied(old(self).formula(), old(self).current(), variable_index as int, variable_sign),
        ensures
            old(self).is_free(variable_index) || assignment_kind is Propagated ==> final(self).inv(r is Some),
            final(self).extends(*old(self), variable_index, variable_sign, assignment_kind),
            final(self).formula() == old(self).formula(),
            r matches Some(ci) ==> ci is NormalConstraintIndex,
            r matches Some(ConstraintIndex::NormalConstraintIndex(ci)) ==> ci < final(self).held_formula().constraints@.len()
                && final(self).held_formula().constraints@[ci as int].outcome_is(PropagationResult::Unsatisfied),
            r is None ==> forall|i: int| 0 <= i < final(self).held_formula().constraints@.len()
                && final(self).held_formula().constraints@[i] != old(self).held_formula().constraints@[i]
                ==> !(#[trigger] final(self).held_formula().constraints@[i]).outcome_is(PropagationResult::Unsatisfied),
            !old(self).is_free(variable_index) ==> *final(self) == *old(self) && r is None,
            old(self).is_free(variable_index) ==> match r {
                None => mc(old(self).formula(), final(self).current())
                    == mc(old(self).formula(), old(self).current().update(variable_index as int, Some(variable_sign))),
                Some(_) => mc(old(self).formula(), final(self).current()) == 0,
            },
    {
        let mut propagation_queue: VecDeque<(u32, bool, AssignmentKind)> = VecDeque::new();
        propagation_queue.push_back((variable_index, variable_sign, assignment_kind));
        let ghost mut first_done = false;
        let ghost mut pushed_first = false;
        let ghost l = self.st().len() as int;
        let ghost statics = self.statics@;
        let ghost target = self.cur().update(variable_index as int, Some(variable_sign));
        let ghost first_entry = VariableAssignment {
            decision_level: self.decision_level,
            variable_index: variable_index,
            variable_sign: variable_sign,
            assignment_kind: assignment_kind,
        };
        while propagation_queue.len() > 0
            invariant
                old(self).prepared(variable_index, assignment_kind),
                assignment_kind is Propagated
                    ==> implied(old(self).formula(), old(self).current(), variable_index as int, variable_sign),
                self.base(false),
                statics == old(self).statics@,
                l == old(self).st().len(),
                target == old(self).cur().update(variable_index as int, Some(variable_sign)),
                first_entry == (VariableAssignment {
                    decision_level: old(self).decision_level,
                    variable_index: variable_index,
                    variable_sign: variable_sign,
                    assignment_kind: assignment_kind,
                }),
                self.statics == old(self).statics,
                self.statistics == old(self).statistics,
                self.result_stack == old(self).result_stack,
                self.ddnnf_stack == old(self).ddnnf_stack,
                self.decision_level == old(self).decision_level,
                self.unique_id == old(self).unique_id,
                self.pseudo_boolean_formula.number_variables == old(self).pseudo_boolean_formula.number_variables,
                !first_done ==> *self == *old(self)
                    && propagation_queue@ == seq![(variable_index, variable_sign, assignment_kind)],
                first_done && !pushed_first ==> *self == *old(self) && propagation_queue@.len() == 0
                    && !old(self).is_free(variable_index),
                pushed_first ==> first_done,
                pushed_first ==> {
                    &&& old(self).is_free(variable_index)
                    &&& self.st().len() > l
                    &&& self.st().take(l) == old(self).st()
                    &&& self.st()[l] == first_entry
                    &&& forall|i: int| l < i < self.st().len() ==> (#[trigger] self.st()[i]).assignment_kind is Propagated
                    &&& self.decision_level == decisions(self.st(), self.st().len() as int)
                    &&& mc(statics, self.cur()) == mc(statics, target)
                },
                first_done ==> forall|j: int| 0 <= j < propagation_queue@.len()
                    ==> (#[trigger] propagation_queue@[j]).2 is Propagated,
                forall|j: int| 0 <= j < propagation_queue@.len()
                    && (#[trigger] propagation_queue@[j]).2 is Propagated
                    ==> implied(statics, self.cur(), propagation_queue@[j].0 as int, propagation_queue@[j].1),
                self.cs().len() == old(self).cs().len(),
                forall|i: int| 0 <= i < self.cs().len() && self.cs()[i] != old(self).cs()[i]
                    ==> !(#[trigger] self.cs()[i]).outcome_is(PropagationResult::Unsatisfied),
            decreases self.number_unassigned_variables, propagation_queue@.len(),
        {
            let ghost q_all = propagation_queue@;
            let (index, sign, kind) = propagation_queue.pop_front().unwrap();
            proof {
                assert((index, sign, kind) == q_all[0]);
                assert forall|j: int| 0 <= j < propagation_queue@.len() implies #[trigger] propagation_queue@[j] == q_all[j + 1] by {}
                self.lemma_base_facts(false);
            }
            if !self.variable_in_scope.contains(&(index as usize)) {
                proof {
                    if !first_done {
                        assert(!old(self).is_free(variable_index));
                    }
                    first_done = true;
                }
                continue;
            }
            let ghost cur_before = self.cur();
            let ghost q_before = propagation_queue@;
            proof {
                assert(free_set(cur_before).contains(index as usize));
                if !first_done {
                    assert(old(self).is_free(variable_index));
                }
            }
            let conflict = self.assign(index, sign, kind, &mut propagation_queue);
            proof {
                self.lemma_base_facts(conflict is Some);
                lemma_free_count_update(cur_before, index as int, sign);
                if pushed_first {
                    assert(self.st().take(l) =~= old(self).st()) by {
                        assert(self.st().take(l) =~= self.st().drop_last().take(l));
                    }
                    assert(self.st()[l] == first_entry);
                    {
                        lemma_mc_implied(statics, cur_before, index as int, sign);
                    }
                } else {
                    assert(self.st().take(l) =~= old(self).st());
                }
                assert forall|j: int| 0 <= j < propagation_queue@.len() implies (#[trigger] propagation_queue@[j]).2 is Propagated by {
                    if j < q_before.len() {
                        assert(propagation_queue@.take(q_before.len() as int)[j] == q_before[j]);
                    }
                }
                {
                    assert forall|j: int| 0 <= j < propagation_queue@.len() && (#[trigger] propagation_queue@[j]).2 is Propagated
                        implies implied(statics, self.cur(), propagation_queue@[j].0 as int, propagation_queue@[j].1) by {
                        if j < q_before.len() {
                            assert(propagation_queue@.take(q_before.len() as int)[j] == q_before[j]);
                            lemma_implied_update(statics, cur_before, index as int, sign, q_before[j].0 as int, q_before[j].1);
                        }
                    }
                }
                pushed_first = true;
                first_done = true;
            }
            if let Some(ci) = conflict {
                return Some(ConstraintIndex::NormalConstraintIndex(ci));
            }
        }
        None
    }

    /// The variable to decide next: the smallest in-scope variable among the unrecorded literals
    /// of the first open constraint that has one.
    #[verifier::rlimit(80)]
    fn get_next_variable(&self) -> (r: Option<u32>)
        requires
            self.base(false),
        ensures
            match r {
                Some(v) => is_next_variable(self.cs(), self.variable_in_scope@, v),
                None => forall|i: int| 0 <= i < self.cs().len() && !(#[trigger] self.cs()[i]).satisfied_by_rec()
                    ==> candidates(self.cs()[i], self.variable_in_scope@).is_empty(),
            },
    {
        proof { reveal(Solver::base); }
        broadcast use vstd::std_specs::btree::group_btree_axioms;
        let ghost cs = self.cs();
        let ghost scope = self.variable_in_scope@;
        let mut max_index: Option<u32> = None;
        let ghost mut found_at: int = -1;
        let number_constraints = self.pseudo_boolean_formula.constraints.len();
        let mut ci: usize = 0;
        while ci < number_constraints
            invariant
                0 <= ci <= number_constraints,
                number_constraints == cs.len(),
                cs == self.cs(),
                scope == self.variable_in_scope@,
                self.base(false),
                self.pseudo_boolean_formula.wf(),
                match max_index {
                    Some(v) => {
                        &&& 0 <= found_at < ci
                        &&& !cs[found_at].satisfied_by_rec()
                        &&& candidates(cs[found_at], scope).contains(v as usize)
                        &&& forall|k: usize| #[trigger] candidates(cs[found_at], scope).contains(k) ==> v <= k
                        &&& forall|i2: int| 0 <= i2 < found_at && !(#[trigger] cs[i2]).satisfied_by_rec()
                            ==> candidates(cs[i2], scope).is_empty()
                    },
                    None => forall|i2: int| 0 <= i2 < ci && !(#[trigger] cs[i2]).satisfied_by_rec()
                        ==> candidates(cs[i2], scope).is_empty(),
                },
            decreases number_constraints - ci,
        {
            let constraint = &self.pseudo_boolean_formula.constraints[ci];
            proof {
                assert(self.pseudo_boolean_formula.wf());
                assert(cs[ci as int].wf());
            }
            if constraint.is_unsatisfied() {
                let ghost m = constraint.unassigned_literals@;
                let ghost g_seq = constraint.unassigned_literals.iter().remaining();
                let ghost mut g_i: int = 0;
                let ghost had = max_index;
                for (_k, literal) in it: constraint.unassigned_literals.iter()
                    invariant
                        m == constraint.unassigned_literals@,
                        *constraint == cs[ci as int],
                        ci < cs.len(),
                        g_seq == it.seq(),
                        g_i == it.index(),
                        forall|k: usize| #[trigger] m.contains_key(k) ==> m[k].index == k,
                        g_seq.len() == m.dom().len(),
                        forall|j: int| 0 <= j < g_seq.len() ==> m.contains_key(*(#[trigger] g_seq[j]).0)
                            && m[*g_seq[j].0] == *g_seq[j].1,
                        forall|k: usize| #[trigger] m.contains_key(k) ==> g_seq.contains((&k, &m[k])),
                        vstd::std_specs::btree::increasing_seq(g_seq.map_values(|kv: (&usize, &Literal)| *kv.0)),
                        scope == self.variable_in_scope@,
                        had is Some ==> max_index == had,
                        had is None ==> match max_index {
                            Some(v) => exists|j: int| 0 <= j < g_i && *(#[trigger] g_seq[j]).0 == v as usize
                                && scope.contains(v as usize)
                                && forall|j2: int| 0 <= j2 < j ==> !scope.contains(*(#[trigger] g_seq[j2]).0),
                            None => forall|j2: int| 0 <= j2 < g_i ==> !scope.contains(*(#[trigger] g_seq[j2]).0),
                        },
                {
                    proof {
                        assert(m.contains_key(*g_seq[g_i].0));
                    }
                    if self.variable_in_scope.contains(&(literal.index as usize)) {
                        if max_index.is_none() {
                            max_index = Some(literal.index);
                        }
                    }
                    proof { g_i = g_i + 1; }
                }
                proof {
                    crate::key_order::lemma_walk_keys_increase(g_seq);
                    if had is None {
                        let c = cs[ci as int];
                        if let Some(v) = max_index {
                            found_at = ci as int;
                            let j = choose|j: int| 0 <= j < g_i && *(#[trigger] g_seq[j]).0 == v as usize
                                && scope.contains(v as usize)
                                && forall|j2: int| 0 <= j2 < j ==> !scope.contains(*(#[trigger] g_seq[j2]).0);
                            assert(m.contains_key(v as usize));
                            assert forall|k: usize| #[trigger] candidates(c, scope).contains(k) implies v <= k by {
                                assert(g_seq.contains((&k, &m[k])));
                                let j3 = choose|j3: int| 0 <= j3 < g_seq.len() && g_seq[j3] == (&k, &m[k]);
                                if j3 < j {
                                    assert(!scope.contains(*g_seq[j3].0));
                                } else if j3 > j {
                                    assert(*g_seq[j].0 < *g_seq[j3].0);
                                }
                            }
                        } else {
                            assert forall|k: usize| !(#[trigger] candidates(c, scope).contains(k)) by {
                                if candidates(c, scope).contains(k) {
                                    assert(g_seq.contains((&k, &m[k])));
                                    let j3 = choose|j3: int| 0 <= j3 < g_seq.len() && g_seq[j3] == (&k, &m[k]);
                                    assert(!scope.contains(*g_seq[j3].0));
                                }
                            }
                            assert(candidates(c, scope) =~= Set::<usize>::empty());
                        }
                    }
                }
            }
            ci = ci + 1;
        }
        proof {
            if let Some(v) = max_index {
                assert(!(cs[found_at]).satisfied_by_rec());
                assert(is_next_variable(cs, scope, v));
            }
        }
        max_index
    }

    /// Chooses the next variable to decide and opens a new decision level for it; the value
    /// tried first is `true`. Returns nothing when no variable is free, or when no open
    /// constraint offers one.
    fn decide(&mut self) -> (r: Option<(u32, bool)>)
        requires
            old(self).consistent(false),
        ensures
            r is None ==> *final(self) == *old(self),
            r is None ==> old(self).number_unassigned_variables == 0 || forall|i: int| 0 <= i < old(self).cs().len()
                && !(#[trigger] old(self).cs()[i]).satisfied_by_rec()
                ==> candidates(old(self).cs()[i], old(self).variable_in_scope@).is_empty(),
            r matches Some((v, b)) ==> {
                &&& b
                &&& old(self).number_unassigned_variables > 0
                &&& is_next_variable(old(self).cs(), old(self).variable_in_scope@, v)
                &&& *final(self) == (Solver { decision_level: (old(self).decision_level + 1) as u32, ..*old(self) })
                &&& final(self).prepared(v, AssignmentKind::FirstDecision)
                &&& final(self).is_free(v)
            },
    {
        proof { reveal(Solver::base); }
        if self.number_unassigned_variables == 0 {
            return None;
        }
        let variable_index = self.get_next_variable();
        match variable_index {
            None => None,
            Some(variable_index) => {
                proof {
                    let s = self.st();
                    lemma_free_count_stack(s, self.n(), s.len() as int);
                    lemma_counts_bounded(s, s.len() as int);
                    let i = choose|i: int| {
                        &&& 0 <= i < self.cs().len()
                        &&& !(#[trigger] self.cs()[i]).satisfied_by_rec()
                        &&& candidates(self.cs()[i], self.variable_in_scope@).contains(variable_index as usize)
                        &&& forall|k: usize| #[trigger] candidates(self.cs()[i], self.variable_in_scope@).contains(k) ==> variable_index <= k
                        &&& forall|i2: int| 0 <= i2 < i && !(#[trigger] self.cs()[i2]).satisfied_by_rec()
                            ==> candidates(self.cs()[i2], self.variable_in_scope@).is_empty()
                    };
                    assert(free_set(self.cur()).contains(variable_index as usize));
                }
                self.decision_level = self.decision_level + 1;
                Some((variable_index, true))
            },
        }
    }

    /// `self` and `other` differ at most in the count and the set of open constraints.
    spec fn same_except_open(self, other: Solver) -> bool {
        &&& self.pseudo_boolean_formula.constraints@ == other.pseudo_boolean_formula.constraints@
        &&& self.pseudo_boolean_formula.number_variables == other.pseudo_boolean_formula.number_variables
        &&& self.pseudo_boolean_formula.constraints_by_variable == other.pseudo_boolean_formula.constraints_by_variable
        &&& self.assignment_stack == other.assignment_stack
        &&& self.assignments == other.assignments
        &&& self.decision_level == other.decision_level
        &&& self.result_stack == other.result_stack
        &&& self.ddnnf_stack == other.ddnnf_stack
        &&& self.number_unassigned_variables == other.number_unassigned_variables
        &&& self.variable_in_scope == other.variable_in_scope
        &&& self.next_variables == other.next_variables
        &&& self.unique_id == other.unique_id
        &&& self.statics == other.statics
        &&& self.statistics == other.statistics
    }

    /// The parts of the bookkeeping that the search loops use.
    proof fn lemma_base_facts(self, pend: bool)
        requires
            self.base(pend),
        ensures
            stack_ok(self.st(), self.n()),
            self.cur().len() == self.n(),
            free_count(self.cur()) + self.st().len() == self.n(),
            self.variable_in_scope@ == free_set(self.cur()),
            self.number_unassigned_variables == free_count(self.cur()),
            self.number_unsat_constraints == num_open(self.cs()),
            implied_entries(self.statics@, self.st(), self.n()),
            pend ==> self.st().len() > 0,
    {
        reveal(Solver::base);
        lemma_free_count_stack(self.st(), self.n(), self.st().len() as int);
    }

    /// The bookkeeping invariant does not look at the result stacks, the decision level or the
    /// identifier counter.
    proof fn lemma_base_frame(self, other: Solver, pend: bool)
        requires
            self.base(pend),
            other.pseudo_boolean_formula == self.pseudo_boolean_formula,
            other.statics == self.statics,
            other.assignment_stack == self.assignment_stack,
            other.assignments == self.assignments,
            other.number_unassigned_variables == self.number_unassigned_variables,
            other.variable_in_scope == self.variable_in_scope,
            other.number_unsat_constraints == self.number_unsat_constraints,
            other.constraint_indexes_in_scope == self.constraint_indexes_in_scope,
            other.next_variables == self.next_variables || other.next_variables@.len() == 0,
        ensures
            other.base(pend),
    {
        reveal(Solver::base);
    }

    /// A fresh identifier for a d-DNNF node.
    fn get_unique_id(&mut self) -> (r: u32)
        ensures
            r == old(self).unique_id,
            *final(self) == (Solver { unique_id: old(self).unique_id.wrapping_add(1), ..*old(self) }),
    {
        let id = self.unique_id;
        self.unique_id = self.unique_id.wrapping_add(1);
        id
    }

    /// Records what the constraints reveal before any decision: drops the satisfied ones from the
    /// open count and assigns every value they imply. Returns false when a constraint is violated,
    /// that is, when the formula has no model.
    #[verifier::rlimit(100)]
    #[verifier::spinoff_prover]
    fn simplify(&mut self) -> (r: bool)
        requires
            old(self).ready(),
        ensures
            final(self).statics == old(self).statics,
            final(self).statistics == old(self).statistics,
            final(self).pseudo_boolean_formula.number_variables == old(self).pseudo_boolean_formula.number_variables,
            final(self).unique_id == old(self).unique_id,
            r ==> {
                &&& final(self).consistent(false)
                &&& final(self).decision_level == 0
                &&& forall|i: int| 0 <= i < final(self).st().len() ==> (#[trigger] final(self).st()[i]).assignment_kind is Propagated
                &&& final(self).results_ok(Seq::empty())
                &&& mc(final(self).statics@, final(self).cur())
                    == model_count(final(self).statics@, final(self).n())
                &&& forall|i: int, k: usize, b: bool| 0 <= i < old(self).cs().len()
                    && #[trigger] forced_by_simplify(old(self).cs()[i], k, b) ==> {
                        &&& final(self).cur()[k as int] is Some
                        &&& model_count(final(self).statics@, final(self).n()) > 0 ==> final(self).cur()[k as int] == Some(b)
                    }
            },
            !r ==> (model_count(old(self).statics@, old(self).n()) == 0),
            all_satisfied(old(self).cs())
                ==> r && final(self).st().len() == 0 && final(self).cs() == old(self).cs(),
    {
        let ghost cs = self.cs();
        let ghost n = self.n();
        let mut propagation_set: Vec<(u32, bool, ConstraintIndex)> = Vec::new();
        let number_constraints = self.pseudo_boolean_formula.constraints.len();
        let mut i: usize = 0;
        proof {
            assert(all_free(n) =~= pa(self.st(), n, 0));
        }
        while i < number_constraints
            invariant
                0 <= i <= number_constraints,
                number_constraints == cs.len(),
                old(self).ready(),
                cs == old(self).cs(),
                n == old(self).n(),
                self.same_except_open(*old(self)),
                self.pseudo_boolean_formula.wf(),
                self.number_unsat_constraints == num_open(cs.take(i as int)) + (cs.len() - i),
                self.constraint_indexes_in_scope@ == Set::new(|j: usize| j < cs.len()
                    && (j >= i || !cs[j as int].satisfied_by_rec())),
                forall|j: int| 0 <= j < propagation_set@.len() ==> {
                    &&& (#[trigger] propagation_set@[j]).2 is NormalConstraintIndex
                    &&& implied(cs, all_free(n), propagation_set@[j].0 as int, propagation_set@[j].1)
                    &&& propagation_set@[j].0 < n
                },
                forall|j: int| 0 <= j < i ==> !(#[trigger] cs[j]).outcome_is(PropagationResult::Unsatisfied),
                forall|i2: int, k: usize, b: bool| 0 <= i2 < i && #[trigger] forced_by_simplify(cs[i2], k, b)
                    ==> exists|j: int| 0 <= j < propagation_set@.len() && (#[trigger] propagation_set@[j]).0 == k
                        && propagation_set@[j].1 == b,
                all_satisfied(cs) ==> propagation_set@.len() == 0,
            decreases number_constraints - i,
        {
            proof {
                assert(self.pseudo_boolean_formula.wf());
                assert(cs[i as int].wf());
                assert(cs.take(i + 1).drop_last() =~= cs.take(i as int));
                lemma_num_open_bounds(cs.take(i as int));
            }
            let result = self.pseudo_boolean_formula.constraints[i].simplify();
            let ghost c = cs[i as int];
            let ghost ps0 = propagation_set@;
            proof {
                assert(self.cs() == cs);
                c.lemma_sums_bounded();
                assert(c.rec().is_empty());
            }
            match result {
                PropagationResult::Satisfied => {
                    self.number_unsat_constraints = self.number_unsat_constraints - 1;
                    if let ConstraintIndex::NormalConstraintIndex(index) = self.pseudo_boolean_formula.constraints[i].index {
                        self.constraint_indexes_in_scope.remove(&index);
                    }
                },
                PropagationResult::Unsatisfied => {
                    proof {
                        assert forall|a: Seq<bool>| #[trigger] c.agrees(a) implies !c.holds(a) by {
                            c.lemma_outcome_sound(result, a);
                        }
                        lemma_refuted_zero(cs, cs, i as int, all_free(n));
                    }
                    return false;
                },
                PropagationResult::ImpliedLiteral(l) => {
                    proof {
                        assert(c.max_literal.factor > 0);
                        assert forall|a: Seq<bool>| c.agrees(a) && c.holds(a) implies #[trigger] a[l.index as int] == l.positive by {
                            c.lemma_outcome_sound(result, a);
                        }
                        lemma_forced_implied(cs, cs, i as int, all_free(n), l.index as int, l.positive);
                        assert(c.vars().contains(l.index as usize));
                    }
                    propagation_set.push((l.index, l.positive, self.pseudo_boolean_formula.constraints[i].index));
                    proof {
                        assert(propagation_set@[ps0.len() as int].0 == l.index);
                    }
                },
                PropagationResult::ImpliedLiteralList(list) => {
                    let n_list = list.len();
                    let mut t: usize = 0;
                    while t < n_list
                        invariant
                            0 <= t <= n_list,
                            n_list == list@.len(),
                            i < cs.len(),
                            c == cs[i as int],
                            c.wf(),
                            c.rec().is_empty(),
                            c.outcome_is(result),
                            result == PropagationResult::ImpliedLiteralList(list),
                            sorted_values_of(list@, c.unassigned_literals@),
                            self.cs() == cs,
                            self.pseudo_boolean_formula.wf(),
                            forall|j: int| 0 <= j < propagation_set@.len() ==> {
                                &&& (#[trigger] propagation_set@[j]).2 is NormalConstraintIndex
                                &&& implied(cs, all_free(n), propagation_set@[j].0 as int, propagation_set@[j].1)
                                &&& propagation_set@[j].0 < n
                            },
                            propagation_set@.len() == ps0.len() + t,
                            propagation_set@.take(ps0.len() as int) == ps0,
                            forall|t2: int| 0 <= t2 < t ==> propagation_set@[ps0.len() + t2].0 == (#[trigger] list@[t2]).index
                                && propagation_set@[ps0.len() + t2].1 == list@[t2].positive,
                            n == old(self).n(),
                            self.pseudo_boolean_formula.number_variables == old(self).pseudo_boolean_formula.number_variables,
                        decreases n_list - t,
                    {
                        let l = &list[t];
                        proof {
                            assert(c.unassigned_literals@.contains_key(l.index as usize));
                            assert(c.literals@[l.index as usize] == *l);
                            {
                                assert(c.vars().contains(l.index as usize));
                                assert(l.factor > 0);
                                assert forall|a: Seq<bool>| c.agrees(a) && c.holds(a) implies #[trigger] a[l.index as int] == l.positive by {
                                    c.lemma_outcome_sound(result, a);
                                    assert(lit_holds(list@[t as int], a));
                                }
                                lemma_forced_implied(cs, cs, i as int, all_free(n), l.index as int, l.positive);
                            }
                        }
                        let ghost before_push = propagation_set@;
                        propagation_set.push((l.index, l.positive, self.pseudo_boolean_formula.constraints[i].index));
                        proof {
                            assert(propagation_set@.take(ps0.len() as int) =~= before_push.take(ps0.len() as int));
                        }
                        t = t + 1;
                    }
                },
                _ => {},
            }
            proof {
                assert(propagation_set@.len() >= ps0.len());
                assert(propagation_set@.take(ps0.len() as int) =~= ps0) by {
                    if result is ImpliedLiteral {
                        assert(propagation_set@ =~= ps0.push(propagation_set@.last()));
                    }
                }
                assert forall|i2: int, k: usize, b: bool| 0 <= i2 < i + 1 && #[trigger] forced_by_simplify(cs[i2], k, b)
                    implies exists|j: int| 0 <= j < propagation_set@.len() && (#[trigger] propagation_set@[j]).0 == k
                        && propagation_set@[j].1 == b by {
                    if i2 < i {
                        let j = choose|j: int| 0 <= j < ps0.len() && (#[trigger] ps0[j]).0 == k && ps0[j].1 == b;
                        assert(propagation_set@.take(ps0.len() as int)[j] == propagation_set@[j]);
                    } else {
                        assert(c == cs[i2]);
                        if c.sum_true + c.sum_unassigned == c.degree {
                            let list = result->ImpliedLiteralList_0;
                            assert(c.unassigned_literals@.contains_key(k) && c.unassigned_literals@[k].factor > 0);
                            let t2 = choose|t2: int| 0 <= t2 < list@.len() && list@[t2].index == k;
                            assert(list@[t2] == c.unassigned_literals@[list@[t2].index as usize]);
                            assert(propagation_set@[ps0.len() + t2].0 == list@[t2].index);
                        } else {
                            assert(propagation_set@[ps0.len() as int].0 == k);
                        }
                    }
                }
                assert(self.constraint_indexes_in_scope@ =~= Set::new(|j: usize| j < cs.len()
                    && (j >= i + 1 || !cs[j as int].satisfied_by_rec())));
            }
            i = i + 1;
        }
        proof {
            reveal(Solver::base);
            assert(cs.take(cs.len() as int) =~= cs);
            let s = self.st();
            assert(self.cur() =~= all_free(n));
            lemma_free_count_all(n);
            assert(self.variable_in_scope@ =~= free_set(self.cur()));
            assert(self.constraint_indexes_in_scope@ =~= open_set(cs));
            assert forall|v: int| 0 <= v < n implies #[trigger] self.assignments@[v] == (match self.cur()[v] {
                Some(b) => Some((v as u32, b)),
                None => None,
            }) by {}
            assert(self.results_ok(Seq::empty()));
        }
        let number_implied = propagation_set.len();
        let mut j: usize = 0;
        while j < number_implied
            invariant
                0 <= j <= number_implied,
                number_implied == propagation_set@.len(),
                self.consistent(false),
                self.decision_level == 0,
                self.results_ok(Seq::empty()),
                self.statics@ == cs,
                self.statics == old(self).statics,
                self.statistics == old(self).statistics,
                self.pseudo_boolean_formula.number_variables == old(self).pseudo_boolean_formula.number_variables,
                self.unique_id == old(self).unique_id,
                n == self.n(),
                forall|jj: int| 0 <= jj < propagation_set@.len() ==> {
                    &&& (#[trigger] propagation_set@[jj]).2 is NormalConstraintIndex
                    &&& implied(cs, all_free(n), propagation_set@[jj].0 as int, propagation_set@[jj].1)
                    &&& propagation_set@[jj].0 < n
                },
                mc(cs, self.cur()) == model_count(cs, n),
                propagation_set@.len() == 0 ==> self.st().len() == 0 && self.cs() == cs,
                cs == old(self).cs(),
                all_satisfied(cs) ==> propagation_set@.len() == 0,
                forall|jj: int| 0 <= jj < j ==> {
                    &&& self.cur()[(#[trigger] propagation_set@[jj]).0 as int] is Some
                    &&& model_count(cs, n) > 0 ==> self.cur()[propagation_set@[jj].0 as int] == Some(propagation_set@[jj].1)
                },
            decreases number_implied - j,
        {
            let (index, sign, constraint_index) = propagation_set[j];
            let ghost before = *self;
            proof {
                let s = self.st();
                self.lemma_base_facts(false);
                lemma_no_decisions(s, s.len() as int);
                {
                    assert(pa(s, n, 0) =~= all_free(n));
                    lemma_implied_mono(cs, s, n, 0, s.len() as int, index as int, sign);
                }
            }
            let conflict = self.propagate(index, sign, AssignmentKind::Propagated(constraint_index));
            proof {
                let s = self.st();
                self.lemma_base_facts(conflict is Some);
                before.lemma_base_facts(false);
                lemma_no_decisions(s, s.len() as int);
                lemma_expected_len(cs, s, n, s.len() as int);
                {
                    lemma_mc_chain(cs, s, n, s.len() as int);
                    assert(pa(s, n, 0) =~= all_free(n));
                    if before.is_free(index) {
                        lemma_free_count_stack(before.st(), n, before.st().len() as int);
                        lemma_mc_implied(cs, before.cur(), index as int, sign);
                    }
                }
            }
            if conflict.is_some() {
                return false;
            }
            proof {
                let s2 = self.st();
                let s1 = before.st();
                let l1 = s1.len() as int;
                self.lemma_base_facts(false);
                before.lemma_base_facts(false);
                assert(propagation_set@[j as int].0 == index && propagation_set@[j as int].1 == sign);
                if before.is_free(index) {
                    assert forall|i: int| 0 <= i < l1 implies s1[i] == s2[i] by {
                        assert(s2.take(l1)[i] == s1[i]);
                    }
                    lemma_agree(cs, s1, s2, n, l1);
                    lemma_pa_assigned(s2, n, l1, s2.len() as int);
                    assert forall|jj: int| 0 <= jj < j implies {
                        &&& self.cur()[(#[trigger] propagation_set@[jj]).0 as int] is Some
                        &&& model_count(cs, n) > 0 ==> self.cur()[propagation_set@[jj].0 as int] == Some(propagation_set@[jj].1)
                    } by {
                        lemma_keeps_value(s2, n, l1, s2.len() as int, propagation_set@[jj].0 as int);
                    }
                } else {
                    if model_count(cs, n) > 0 && self.cur()[index as int] != Some(sign) {
                        assert forall|a: Seq<bool>| ext(self.cur(), a) implies !holds_all(cs, a) by {
                            assert(ext(all_free(n), a));
                            assert(self.cur()[index as int] is Some);
                            assert(a[index as int] != sign);
                        }
                        lemma_mc_zero(cs, self.cur());
                    }
                }
            }
            j = j + 1;
        }
        proof {
            lemma_no_decisions(self.st(), self.st().len() as int);
            assert forall|i: int, k: usize, b: bool| 0 <= i < cs.len()
                && #[trigger] forced_by_simplify(cs[i], k, b) implies {
                    &&& self.cur()[k as int] is Some
                    &&& model_count(self.statics@, self.n()) > 0 ==> self.cur()[k as int] == Some(b)
                } by {
                let jj = choose|jj: int| 0 <= jj < propagation_set@.len() && (#[trigger] propagation_set@[jj]).0 == k
                    && propagation_set@[jj].1 == b;
            }
        }
        true
    }

    /// Undoes the propagated top entry of level zero, conjoining its literal to the d-DNNF node
    /// of the state. Returns false, leaving the stacks alone, when that node is `FalseLeave`: the
    /// formula has no model and the stacks hold the result.
    #[verifier::rlimit(40)]
    fn backtrack_level_zero(&mut self, Ghost(pend): Ghost<bool>) -> (r: bool)
        requires
            old(self).consistent(pend),
            old(self).results_ok(seq![mc(old(self).statics@, old(self).cur())]),
            old(self).st().len() > 0,
            old(self).st().last().decision_level == 0,
        ensures
            final(self).statics == old(self).statics,
            final(self).statistics == old(self).statistics,
            final(self).pseudo_boolean_formula.number_variables == old(self).pseudo_boolean_formula.number_variables,
            r ==> {
                &&& final(self).consistent(false)
                &&& final(self).results_ok(seq![mc(final(self).statics@, final(self).cur())])
                &&& final(self).st() == old(self).st().drop_last()
                &&& final(self).result_stack == old(self).result_stack
                &&& final(self).ddnnf_stack@.len() == old(self).ddnnf_stack@.len()
            },
            !r ==> {
                &&& final(self).st() == old(self).st()
                &&& forall|i: int| 0 <= i < final(self).st().len() ==> (#[trigger] final(self).st()[i]).assignment_kind is Propagated
                &&& final(self).result_stack@.len() == 1
                &&& final(self).ddnnf_stack@.len() == 1
                &&& ((*final(self).ddnnf_stack@[0]) is FalseLeave <==> big_value(final(self).result_stack@[0]) == 0)
                &&& big_value(final(self).result_stack@[0])
                    == model_count(final(self).statics@, final(self).n())
                &&& denotes(*final(self).ddnnf_stack@[0], final(self).statics@,
                    all_free(final(self).n()))
                &&& is_ddnnf(*final(self).ddnnf_stack@[0])
                &&& false_branch_first(*final(self).ddnnf_stack@[0])
                &&& forall|u: u32| #[trigger] mentions(*final(self).ddnnf_stack@[0], u) ==> u < final(self).n()
            },
    {
        let ghost s = self.st();
        let ghost n = self.n();
        let ghost statics = self.statics@;
        let ghost l = s.len() - 1;
        let ghost start = *self;
        let last_assignment = self.assignment_stack[self.assignment_stack.len() - 1];
        proof {
            self.lemma_base_facts(pend);
            assert(last_assignment == s[l]);
            assert(s.last() == s[l]);
            assert(decisions(s, l + 1) == 0);
            lemma_counts_bounded(s, l);
            assert(s[l].assignment_kind is Propagated);
        }
        let ddnnf_node = self.ddnnf_stack.pop().unwrap();
        proof {
            assert(ddnnf_node == start.ddnnf_stack@.last());
        }
        if matches!(*ddnnf_node, DDNNFNode::FalseLeave) {
            self.ddnnf_stack.push(Rc::new(DDNNFNode::FalseLeave));
            proof {
                lemma_no_decisions(s, s.len() as int);
                lemma_stacks_final(start.result_stack@, start.ddnnf_stack@, statics, s, n);
                assert(self.ddnnf_stack@[0] == start.ddnnf_stack@[0]);
            }
            return false;
        }
        let literal = Rc::new(DDNNFNode::LiteralLeave(Rc::new(DDNNFLiteral {
            index: last_assignment.variable_index,
            positive: last_assignment.variable_sign,
        })));
        let ghost d0 = ddnnf_node;
        let ghost lit = literal;
        let new_node;
        if let DDNNFNode::AndNode(child_list, _) = &*ddnnf_node {
            let mut new_child_list: Vec<Rc<DDNNFNode>> = Vec::new();
            let mut contains_false = false;
            let number_children = child_list.len();
            let mut ci: usize = 0;
            proof {
                assert(no_false_child(*ddnnf_node));
            }
            while ci < number_children && !contains_false
                invariant
                    0 <= ci <= number_children,
                    number_children == child_list@.len(),
                    forall|i: int| 0 <= i < child_list@.len() ==> !(*child_list@[i] is FalseLeave),
                    !contains_false,
                    new_child_list@ == child_list@.take(ci as int),
                decreases number_children - ci,
            {
                let node = rc_clone(&child_list[ci]);
                let node_is_false = matches!(*node, DDNNFNode::FalseLeave);
                new_child_list.push(node);
                if node_is_false {
                    contains_false = true;
                }
                ci = ci + 1;
                proof {
                    assert(new_child_list@ =~= child_list@.take(ci as int));
                }
            }
            if contains_false {
                new_node = Rc::new(DDNNFNode::FalseLeave);
            } else {
                proof {
                    assert(child_list@.take(number_children as int) =~= child_list@);
                }
                new_child_list.push(literal);
                let and_id = self.get_unique_id();
                new_node = Rc::new(DDNNFNode::AndNode(new_child_list, and_id));
                proof {
                    assert forall|a: Seq<bool>| #[trigger] eval(*new_node, a) == (eval(*d0, a) && eval(*lit, a)) by {
                        lemma_eval_and_push(*d0, *new_node, lit, a);
                    }
                    let ghost nn = *new_node;
                    let ghost dd = *d0;
                    lemma_shape_and_push(dd, nn, lit);
                    lemma_literal_shape(lit);
                    lemma_disjoint_literal(dd, lit);
                }
            }
        } else {
            let mut child_list: Vec<Rc<DDNNFNode>> = Vec::new();
            child_list.push(ddnnf_node);
            child_list.push(literal);
            proof {
                assert(child_list@ =~= seq![d0, lit]);
            }
            new_node = Rc::new(DDNNFNode::AndNode(child_list, self.get_unique_id()));
            proof {
                assert forall|a: Seq<bool>| #[trigger] eval(*new_node, a) == (eval(*d0, a) && eval(*lit, a)) by {
                    lemma_eval_and_pair(*new_node, d0, lit, a);
                }
                let ghost nn = *new_node;
                let ghost dd = *d0;
                lemma_shape_and_pair(nn, d0, lit);
                lemma_literal_shape(lit);
                lemma_disjoint_literal(dd, lit);
            }
        }
        self.ddnnf_stack.push(new_node);
        proof {
            start.lemma_base_frame(*self, pend);
            lemma_stacks_pop_propagated(start.result_stack@, start.ddnnf_stack@, statics, s, n, new_node);
            assert(self.ddnnf_stack@ == start.ddnnf_stack@.drop_last().push(new_node));
        }
        self.undo_last_assignment(Ghost(pend));
        proof {
            lemma_agree(statics, s, s.drop_last(), n, l);
        }
        true
    }

    /// Undoes a propagated top entry above level zero, conjoining its literal to the d-DNNF node
    /// of the state.
    #[verifier::rlimit(40)]
    fn backtrack_propagated(&mut self, Ghost(pend): Ghost<bool>)
        requires
            old(self).consistent(pend),
            old(self).results_ok(seq![mc(old(self).statics@, old(self).cur())]),
            old(self).st().len() > 0,
            old(self).st().last().assignment_kind is Propagated,
        ensures
            final(self).statics == old(self).statics,
            final(self).statistics == old(self).statistics,
            final(self).pseudo_boolean_formula.number_variables == old(self).pseudo_boolean_formula.number_variables,
            final(self).consistent(false),
            final(self).results_ok(seq![mc(final(self).statics@, final(self).cur())]),
            final(self).st() == old(self).st().drop_last(),
            final(self).result_stack == old(self).result_stack,
            final(self).ddnnf_stack@.len() == old(self).ddnnf_stack@.len(),
    {
        let ghost s = self.st();
        let ghost n = self.n();
        let ghost statics = self.statics@;
        let ghost l = s.len() - 1;
        let ghost start = *self;
        let last_assignment = self.assignment_stack[self.assignment_stack.len() - 1];
        proof {
            self.lemma_base_facts(pend);
            assert(last_assignment == s[l]);
            assert(s.last() == s[l]);
        }
        let ddnnf_node = self.ddnnf_stack.pop().unwrap();
        proof {
            assert(ddnnf_node == start.ddnnf_stack@.last());
            assert(no_false_child(*ddnnf_node));
        }
        let literal = Rc::new(DDNNFNode::LiteralLeave(Rc::new(DDNNFLiteral {
            index: last_assignment.variable_index,
            positive: last_assignment.variable_sign,
        })));
        let ghost d0 = ddnnf_node;
        let ghost lit = literal;
        let new_node;
        if let DDNNFNode::AndNode(_, _) = &*ddnnf_node {
            let and_id = self.get_unique_id();
            new_node = and_with_literal(ddnnf_node, literal, and_id);
        } else if matches!(*ddnnf_node, DDNNFNode::FalseLeave) {
            new_node = Rc::new(DDNNFNode::FalseLeave);
        } else {
            let mut child_list: Vec<Rc<DDNNFNode>> = Vec::new();
            let keep = !matches!(*ddnnf_node, DDNNFNode::TrueLeave);
            if keep {
                child_list.push(ddnnf_node);
            }
            child_list.push(literal);
            proof {
                if keep {
                    assert(child_list@ =~= seq![d0, lit]);
                } else {
                    assert(child_list@ =~= seq![lit]);
                }
            }
            new_node = Rc::new(DDNNFNode::AndNode(child_list, self.get_unique_id()));
            proof {
                assert forall|a: Seq<bool>| #[trigger] eval(*new_node, a) == (eval(*d0, a) && eval(*lit, a)) by {
                    if keep {
                        lemma_eval_and_pair(*new_node, d0, lit, a);
                    } else {
                        lemma_eval_and_single(*new_node, lit, a);
                    }
                }
                let ghost nn = *new_node;
                let ghost dd = *d0;
                lemma_literal_shape(lit);
                lemma_disjoint_literal(dd, lit);
                if keep {
                    lemma_shape_and_pair(nn, d0, lit);
                } else {
                    lemma_shape_and_single(nn, lit);
                }
            }
        }
        self.ddnnf_stack.push(new_node);
        proof {
            start.lemma_base_frame(*self, pend);
            lemma_stacks_pop_propagated(start.result_stack@, start.ddnnf_stack@, statics, s, n, new_node);
            assert(self.ddnnf_stack@ == start.ddnnf_stack@.drop_last().push(new_node));
        }
        self.undo_last_assignment(Ghost(pend));
        proof {
            lemma_agree(statics, s, s.drop_last(), n, l);
        }
    }

    /// Flips the first decision on top of the stack: undoes it and assigns its variable the other
    /// value as the second decision. Returns whether that assignment violated a constraint; then
    /// the count zero and `FalseLeave` stand for the new branch.
    #[verifier::rlimit(40)]
    fn backtrack_first(&mut self, Ghost(pend): Ghost<bool>) -> (conflict: bool)
        requires
            old(self).consistent(pend),
            old(self).results_ok(seq![mc(old(self).statics@, old(self).cur())]),
            old(self).st().len() > 0,
            old(self).st().last().assignment_kind is FirstDecision,
        ensures
            final(self).statics == old(self).statics,
            final(self).statistics == old(self).statistics,
            final(self).pseudo_boolean_formula.number_variables == old(self).pseudo_boolean_formula.number_variables,
            final(self).st().len() >= old(self).st().len(),
            final(self).st().take(old(self).st().len() - 1) == old(self).st().take(old(self).st().len() - 1),
            final(self).st()[old(self).st().len() - 1] == (VariableAssignment {
                decision_level: old(self).st().last().decision_level,
                variable_index: old(self).st().last().variable_index,
                variable_sign: !old(self).st().last().variable_sign,
                assignment_kind: AssignmentKind::SecondDecision,
            }),
            forall|i: int| old(self).st().len() - 1 < i < final(self).st().len()
                ==> (#[trigger] final(self).st()[i]).assignment_kind is Propagated,
            !conflict ==> final(self).consistent(false) && final(self).results_ok(Seq::empty()),
            !conflict ==> final(self).result_stack == old(self).result_stack
                && final(self).ddnnf_stack@.len() == old(self).ddnnf_stack@.len(),
            conflict ==> final(self).consistent(true)
                && final(self).results_ok(seq![mc(final(self).statics@, final(self).cur())]),
            conflict ==> flip_refuted(old(self).statics@, old(self).st(), old(self).n(), old(self).st().len() - 1),
            conflict ==> final(self).result_stack@.drop_last() == old(self).result_stack@
                && final(self).result_stack@.len() == old(self).result_stack@.len() + 1
                && big_value(final(self).result_stack@.last()) == 0
                && final(self).ddnnf_stack@.len() == old(self).ddnnf_stack@.len() + 1,
    {
        let ghost s = self.st();
        let ghost n = self.n();
        let ghost statics = self.statics@;
        let ghost l = s.len() - 1;
        let ghost start = *self;
        let last_assignment = self.assignment_stack[self.assignment_stack.len() - 1];
        proof {
            self.lemma_base_facts(pend);
            assert(last_assignment == s[l]);
            assert(s.last() == s[l]);
            lemma_free_count_stack(s, n, l);
        }
        let index = last_assignment.variable_index;
        let sign = last_assignment.variable_sign;
        self.undo_last_assignment(Ghost(pend));
        let new_sign = !sign;
        proof {
            lemma_agree(statics, s, s.drop_last(), n, l);
            assert(self.cur() == pa(s, n, l));
        }
        let conflict = self.propagate(index, new_sign, AssignmentKind::SecondDecision);
        let ghost t = self.st();
        proof {
            assert(t.take(l) == s.take(l)) by {
                assert(s.drop_last() =~= s.take(l));
            }
            lemma_stacks_flip(start.result_stack@, start.ddnnf_stack@, statics, s, t, n);
        }
        if conflict.is_some() {
            proof {
                let tt = self.st();
                self.lemma_base_facts(true);
                lemma_mc_chain_from(statics, tt, n, l + 1, tt.len() as int);
                assert forall|i: int| 0 <= i < l implies s[i] == tt[i] by {
                    assert(s.take(l)[i] == tt.take(l)[i]);
                }
                lemma_agree(statics, s, tt, n, l);
                assert(pa(tt, n, l + 1) == pa(tt, n, l).update(index as int, Some(new_sign)));
            }
            let ghost mid = *self;
            self.result_stack.push(big_zero());
            self.ddnnf_stack.push(Rc::new(DDNNFNode::FalseLeave));
            proof {
                mid.lemma_base_frame(*self, true);
                lemma_stacks_push(mid.result_stack@, mid.ddnnf_stack@, statics, t, n, self.result_stack@.last(),
                    self.ddnnf_stack@.last());
                assert(self.result_stack@ == mid.result_stack@.push(self.result_stack@.last()));
                assert(self.ddnnf_stack@ == mid.ddnnf_stack@.push(self.ddnnf_stack@.last()));
            }
            true
        } else {
            false
        }
    }

    /// Joins the two branches of the second decision on top of the stack: adds their counts,
    /// conjoins each branch's literal to its d-DNNF node and joins the nodes under an `OrNode`
    /// (a `FalseLeave` branch is left out), then closes the decision level and undoes the decision.
    #[verifier::rlimit(60)]
    fn backtrack_second(&mut self, Ghost(pend): Ghost<bool>, node_id: u32)
        requires
            old(self).consistent(pend),
            old(self).results_ok(seq![mc(old(self).statics@, old(self).cur())]),
            old(self).st().len() > 0,
            old(self).st().last().assignment_kind is SecondDecision,
        ensures
            final(self).statics == old(self).statics,
            final(self).statistics == old(self).statistics,
            final(self).pseudo_boolean_formula.number_variables == old(self).pseudo_boolean_formula.number_variables,
            final(self).consistent(false),
            final(self).results_ok(seq![mc(final(self).statics@, final(self).cur())]),
            final(self).st() == old(self).st().drop_last(),
            old(self).result_stack@.len() >= 2,
            final(self).result_stack@.len() == old(self).result_stack@.len() - 1,
            final(self).result_stack@.drop_last() == old(self).result_stack@.drop_last().drop_last(),
            big_value(final(self).result_stack@.last()) == big_value(old(self).result_stack@.last())
                + big_value(old(self).result_stack@[old(self).result_stack@.len() - 2]),
            final(self).ddnnf_stack@.len() == old(self).ddnnf_stack@.len() - 1,
    {
        let ghost s = self.st();
        let ghost n = self.n();
        let ghost statics = self.statics@;
        let ghost l = s.len() - 1;
        let ghost start = *self;
        let last_assignment = self.assignment_stack[self.assignment_stack.len() - 1];
        proof {
            self.lemma_base_facts(pend);
            assert(last_assignment == s[l]);
            assert(s.last() == s[l]);
            assert(seconds(s, l + 1) == seconds(s, l) + 1);
            assert(decisions(s, l + 1) == decisions(s, l) + 1);
        }
        let ghost rs = self.result_stack@;
        let ghost ds = self.ddnnf_stack@;
        let r1 = self.result_stack.pop().unwrap();
        let r2 = self.result_stack.pop().unwrap();
        let res = big_add(r1, r2);
        self.result_stack.push(res);

        let mut d1 = self.ddnnf_stack.pop().unwrap();
        proof {
            assert(r1 == rs[rs.len() - 1] && r2 == rs[rs.len() - 2]);
            assert(d1 == ds[ds.len() - 1]);
            assert(no_false_child(*d1));
        }
        let ghost d1_in = d1;
        let ghost v = last_assignment.variable_index as int;
        let ghost b = last_assignment.variable_sign;
        if matches!(*d1, DDNNFNode::TrueLeave) {
            d1 = Rc::new(DDNNFNode::LiteralLeave(Rc::new(DDNNFLiteral {
                index: last_assignment.variable_index,
                positive: last_assignment.variable_sign,
            })));
        } else if !matches!(*d1, DDNNFNode::FalseLeave) {
            let literal = Rc::new(DDNNFNode::LiteralLeave(Rc::new(DDNNFLiteral {
                index: last_assignment.variable_index,
                positive: last_assignment.variable_sign,
            })));
            d1 = and_with_literal(d1, literal, node_id);
        }
        let ghost vu = last_assignment.variable_index;
        proof {
            assert forall|a: Seq<bool>| #[trigger] eval(*d1, a) == (eval(*d1_in, a) && a[v] == b) by {}
            assert forall|u: u32| #[trigger] mentions(*d1, u) implies mentions(*d1_in, u) || u == vu by {}
            assert(deterministic(*d1_in) ==> deterministic(*d1));
            assert(decomposable(*d1_in) && !mentions(*d1_in, vu) ==> decomposable(*d1));
            assert(false_branch_first(*d1_in) ==> false_branch_first(*d1));
        }

        let mut d2 = self.ddnnf_stack.pop().unwrap();
        proof {
            assert(d2 == ds[ds.len() - 2]);
            assert(no_false_child(*d2));
        }
        let ghost d2_in = d2;
        if matches!(*d2, DDNNFNode::TrueLeave) {
            d2 = Rc::new(DDNNFNode::LiteralLeave(Rc::new(DDNNFLiteral {
                index: last_assignment.variable_index,
                positive: !last_assignment.variable_sign,
            })));
        } else if !matches!(*d2, DDNNFNode::FalseLeave) {
            let literal = Rc::new(DDNNFNode::LiteralLeave(Rc::new(DDNNFLiteral {
                index: last_assignment.variable_index,
                positive: !last_assignment.variable_sign,
            })));
            let and_id = self.get_unique_id();
            d2 = and_with_literal(d2, literal, and_id);
        }
        proof {
            assert((*d1 is FalseLeave) == (*d1_in is FalseLeave));
            assert((*d2 is FalseLeave) == (*d2_in is FalseLeave));
            assert forall|a: Seq<bool>| #[trigger] eval(*d2, a) == (eval(*d2_in, a) && a[v] == !b) by {}
            assert forall|u: u32| #[trigger] mentions(*d2, u) implies mentions(*d2_in, u) || u == vu by {}
            assert(deterministic(*d2_in) ==> deterministic(*d2));
            assert(decomposable(*d2_in) && !mentions(*d2_in, vu) ==> decomposable(*d2));
            assert(false_branch_first(*d2_in) ==> false_branch_first(*d2));
        }
        let ghost g1 = d1;
        let ghost g2 = d2;

        let d_res;
        if matches!(*d1, DDNNFNode::FalseLeave) && matches!(*d2, DDNNFNode::FalseLeave) {
            d_res = Rc::new(DDNNFNode::FalseLeave);
        } else if matches!(*d2, DDNNFNode::FalseLeave) {
            d_res = d1;
        } else if matches!(*d1, DDNNFNode::FalseLeave) {
            d_res = d2;
        } else {
            let children = vec![d1, d2];
            proof {
                assert(children@ =~= seq![g1, g2]);
            }
            d_res = Rc::new(DDNNFNode::OrNode(children, self.get_unique_id()));
            proof {
                assert forall|a: Seq<bool>| #[trigger] eval(*d_res, a) == (eval(*g1, a) || eval(*g2, a)) by {
                    lemma_eval_or_pair(*d_res, g1, g2, a);
                }
                let ghost rn = *d_res;
                lemma_shape_or_pair(rn, g1, g2);
            }
        }
        proof {
            assert forall|a: Seq<bool>| #[trigger] eval(*d_res, a) == (eval(*g1, a) || eval(*g2, a)) by {}
            assert forall|u: u32| #[trigger] mentions(*d_res, u) implies mentions(*g1, u) || mentions(*g2, u) by {}
            assert forall|a: Seq<bool>| #[trigger] eval(*g1, a) implies !eval(*g2, a) by {}
            assert(deterministic(*g1) && deterministic(*g2) ==> deterministic(*d_res));
            assert(decomposable(*g1) && decomposable(*g2) ==> decomposable(*d_res));
            if !b {
                assert(splits_on(*g1, *g2, vu));
            }
            assert(false_branch_first(*g1) && false_branch_first(*g2) && !b ==> false_branch_first(*d_res));
        }
        self.ddnnf_stack.push(d_res);

        self.next_variables.clear();
        self.decision_level = self.decision_level - 1;
        proof {
            start.lemma_base_frame(*self, pend);
            lemma_stacks_join(rs, ds, statics, s, n, res, d_res);
            assert(self.result_stack@ == rs.drop_last().drop_last().push(res));
            assert(self.ddnnf_stack@ == ds.drop_last().drop_last().push(d_res));
        }
        self.undo_last_assignment(Ghost(pend));
        proof {
            lemma_agree(statics, s, s.drop_last(), n, l);
        }
    }

    /// Backtracks to the most recent first decision that has not been flipped yet, folding the
    /// counts and d-DNNF nodes of the explored branches on the way, and assigns that decision's
    /// variable the other value. Returns false when no such decision is left: the search is over
    /// and the stacks hold the count and the d-DNNF of the whole formula. A first decision is
    /// passed over only when flipping it conflicts, so its other branch has no model.
    #[verifier::rlimit(60)]
    fn backtrack(&mut self, Ghost(pend): Ghost<bool>) -> (r: bool)
        requires
            old(self).consistent(pend),
            old(self).results_ok(seq![mc(old(self).statics@, old(self).cur())]),
        ensures
            final(self).statics == old(self).statics,
            final(self).statistics == old(self).statistics,
            final(self).pseudo_boolean_formula.number_variables == old(self).pseudo_boolean_formula.number_variables,
            r ==> {
                &&& final(self).consistent(false)
                &&& final(self).results_ok(Seq::empty())
                &&& exists|p: int| #[trigger] flipped_at(old(self).st(), final(self).st(), p)
                    && (forall|i: int| p < i < final(self).st().len() ==> (#[trigger] final(self).st()[i]).assignment_kind is Propagated)
                    && (forall|i: int| p < i < old(self).st().len() && (#[trigger] old(self).st()[i]).assignment_kind is FirstDecision
                        ==> flip_refuted(old(self).statics@, old(self).st(), old(self).n(), i))
                    && ((forall|i: int| p < i < old(self).st().len() ==> (#[trigger] old(self).st()[i]).assignment_kind is Propagated)
                        ==> final(self).result_stack == old(self).result_stack
                            && final(self).ddnnf_stack@.len() == old(self).ddnnf_stack@.len())
            },
            old(self).st().len() == 0 ==> !r && final(self).result_stack == old(self).result_stack
                && final(self).ddnnf_stack == old(self).ddnnf_stack,
            !r ==> {
                &&& forall|i: int| 0 <= i < final(self).st().len() ==> (#[trigger] final(self).st()[i]).assignment_kind is Propagated
                &&& forall|i: int| 0 <= i < old(self).st().len() && (#[trigger] old(self).st()[i]).assignment_kind is FirstDecision
                    ==> flip_refuted(old(self).statics@, old(self).st(), old(self).n(), i)
                &&& final(self).result_stack@.len() == 1
                &&& final(self).ddnnf_stack@.len() == 1
                &&& ((*final(self).ddnnf_stack@[0]) is FalseLeave <==> big_value(final(self).result_stack@[0]) == 0)
                &&& big_value(final(self).result_stack@[0])
                    == model_count(final(self).statics@, final(self).n())
                &&& denotes(*final(self).ddnnf_stack@[0], final(self).statics@,
                    all_free(final(self).n()))
                &&& is_ddnnf(*final(self).ddnnf_stack@[0])
                &&& false_branch_first(*final(self).ddnnf_stack@[0])
                &&& forall|u: u32| #[trigger] mentions(*final(self).ddnnf_stack@[0], u) ==> u < final(self).n()
            },
    {
        let ghost mut pend_now = pend;
        let ghost a = old(self).st();
        let ghost cs0 = old(self).statics@;
        let ghost n0 = old(self).n();
        let ghost mut low: int = a.len() as int;
        proof {
            assert(self.st() =~= old(self).st().take(self.st().len() as int));
        }
        loop
            invariant
                self.consistent(pend_now),
                self.results_ok(seq![mc(self.statics@, self.cur())]),
                self.statics == old(self).statics,
                self.statistics == old(self).statistics,
                self.pseudo_boolean_formula.number_variables == old(self).pseudo_boolean_formula.number_variables,
                from_backtrack(old(self).st(), self.st()),
                a == old(self).st(),
                cs0 == old(self).statics@,
                n0 == old(self).n(),
                (forall|i: int| low <= i < a.len() ==> (#[trigger] a[i]).assignment_kind is Propagated)
                    ==> self.result_stack == old(self).result_stack
                        && self.ddnnf_stack@.len() == old(self).ddnnf_stack@.len(),
                backtracked_to(cs0, a, self.st(), n0, low),
                a.len() == 0 ==> self.result_stack == old(self).result_stack
                    && self.ddnnf_stack == old(self).ddnnf_stack,
            decreases firsts(self.st(), self.st().len() as int), self.st().len(),
        {
            let ghost start = *self;
            let node_id = self.get_unique_id();
            let ghost s = self.st();
            let ghost n = self.n();
            let ghost statics = self.statics@;
            proof {
                start.lemma_base_frame(*self, pend_now);
                self.lemma_base_facts(pend_now);
            }
            let stack_len = self.assignment_stack.len();
            if stack_len == 0 {
                proof {
                    assert(low == 0);
                    assert(self.cur() =~= all_free(n));
                    lemma_stacks_final(self.result_stack@, self.ddnnf_stack@, statics, s, n);
                }
                return false;
            }
            let last_assignment = self.assignment_stack[stack_len - 1];
            let ghost l = stack_len - 1;
            proof {
                if a.len() == 0 {
                    assert(low == 0);
                    assert(!flipped_at(a, s, low));
                }
                assert(a.len() > 0);
                assert(last_assignment == s[l]);
                assert(s.last() == s[l]);
                lemma_agree(statics, s, s.drop_last(), n, l);
            }
            if last_assignment.decision_level == 0 {
                if !self.backtrack_level_zero(Ghost(pend_now)) {
                    proof {
                        assert forall|i: int| 0 <= i < a.len() && (#[trigger] a[i]).assignment_kind is FirstDecision
                            implies flip_refuted(cs0, a, n0, i) by {
                            if i < low {
                                assert(s.take(low)[i] == a.take(low)[i]);
                                assert(s[i].assignment_kind is Propagated);
                            }
                        }
                    }
                    return false;
                }
                proof {
                    low = lemma_backtracked_pop(cs0, a, s, n0, low);
                    assert(decisions(s, l + 1) == 0);
                    lemma_counts_bounded(s, l);
                    lemma_from_backtrack_pop(old(self).st(), s);
                    pend_now = false;
                }
            } else if let AssignmentKind::Propagated(_) = last_assignment.assignment_kind {
                self.backtrack_propagated(Ghost(pend_now));
                proof {
                    low = lemma_backtracked_pop(cs0, a, s, n0, low);
                    lemma_from_backtrack_pop(old(self).st(), s);
                    pend_now = false;
                }
            } else if last_assignment.assignment_kind == AssignmentKind::FirstDecision {
                proof {
                    lemma_from_backtrack_first(old(self).st(), s);
                    if s.len() > low {
                        if l > low {
                            assert(s[l].assignment_kind is Propagated);
                        }
                        assert(false);
                    }
                    assert(low == l + 1);
                }
                let conflict = self.backtrack_first(Ghost(pend_now));
                let ghost t = self.st();
                proof {
                    assert(old(self).st().take(l) =~= s.take(l));
                    assert(old(self).st()[l] == s[l]);
                    assert(flipped_at(old(self).st(), t, l));
                    lemma_agree(statics, s, t, n, l);
                    lemma_tail_propagated(statics, t, n, l + 1, t.len() as int);
                }
                if !conflict {
                    proof {
                        assert(a.take(l) =~= s.take(l));
                        assert forall|i: int| l < i < a.len() && (#[trigger] a[i]).assignment_kind is FirstDecision
                            implies flip_refuted(cs0, a, n0, i) by {
                            assert(low <= i);
                        }
                    }
                    return true;
                }
                proof {
                    pend_now = true;
                    assert forall|i: int| 0 <= i < l implies s[i] == a[i] by {
                        assert(s.take(l + 1)[i] == a.take(l + 1)[i]);
                    }
                    lemma_agree(statics, s, a, n, l);
                    assert(s[l] == a[l]);
                    assert(flip_refuted(cs0, a, n0, l));
                    low = l;
                    assert(t.take(l) =~= a.take(l));
                }
            } else {
                self.backtrack_second(Ghost(pend_now), node_id);
                proof {
                    low = lemma_backtracked_pop(cs0, a, s, n0, low);
                    lemma_from_backtrack_pop(old(self).st(), s);
                    pend_now = false;
                }
            }
        }
    }

    /// The count and the d-DNNF of the formula: simplifies it, then searches, pushing the count of
    /// every state that satisfies all constraints (two to the number of free variables, with a
    /// `TrueLeave`) or that violates one (zero, with a `FalseLeave`) and backtracking after it.
    #[verifier::rlimit(60)]
    fn count(&mut self) -> (r: SolverResult)
        requires
            old(self).ready(),
        ensures
            big_value(r.model_count) == model_count(old(self).statics@, old(self).n()),
            denotes(*r.ddnnf.root_node, old(self).statics@, all_free(old(self).n())),
            is_ddnnf(*r.ddnnf.root_node),
            false_branch_first(*r.ddnnf.root_node),
            forall|u: u32| #[trigger] mentions(*r.ddnnf.root_node, u) ==> u < old(self).n(),
            final(self).statistics == old(self).statistics,
            (*r.ddnnf.root_node) is FalseLeave <==> big_value(r.model_count) == 0,
            r.ddnnf.number_variables == old(self).pseudo_boolean_formula.number_variables,
            all_satisfied(old(self).statics@)
                ==> (*r.ddnnf.root_node) is TrueLeave,
    {
        let ghost statics = self.statics@;
        let ghost all_sat = all_satisfied(statics);
        let ghost n = self.n();
        if !self.simplify() {
            let root = Rc::new(DDNNFNode::FalseLeave);
            proof {
                lemma_false_denotes(statics, all_free(n), root);
            }
            return SolverResult {
                model_count: big_zero(),
                ddnnf: DDNNF {
                    root_node: root,
                    number_variables: self.pseudo_boolean_formula.number_variables,
                },
            };
        }
        proof {
            if all_sat {
                reveal(Solver::base);
                lemma_num_open_none(self.cs());
            }
        }
        loop
            invariant
                self.consistent(false),
                self.results_ok(Seq::empty()),
                self.statics@ == statics,
                self.n() == n,
                self.pseudo_boolean_formula.number_variables == old(self).pseudo_boolean_formula.number_variables,
                statics == old(self).statics@,
                n == old(self).n(),
                self.statistics == old(self).statistics,
                all_sat == all_satisfied(statics),
                all_sat ==> self.st().len() == 0 && self.number_unsat_constraints == 0 && self.ddnnf_stack@.len() == 0,
            decreases phi_from(self.st(), n, 0),
        {
            let ghost s0 = self.st();
            let ghost start = *self;
            proof {
                self.lemma_base_facts(false);
            }
            if self.number_unsat_constraints == 0 {
                proof {
                    reveal(Solver::base);
                    lemma_num_open_bounds(self.cs());
                    lemma_all_satisfied(self.cs(), statics, s0, n);
                    vstd::arithmetic::power2::lemma_pow2(free_count(self.cur()));
                    vstd::arithmetic::power2::lemma_pow2_pos(free_count(self.cur()));
                }
                let two = big_from_u32(2);
                self.result_stack.push(big_pow(&two, self.number_unassigned_variables));
                self.ddnnf_stack.push(Rc::new(DDNNFNode::TrueLeave));
                self.next_variables.clear();
                proof {
                    start.lemma_base_frame(*self, false);
                    lemma_stacks_push(start.result_stack@, start.ddnnf_stack@, statics, s0, n,
                        self.result_stack@.last(), self.ddnnf_stack@.last());
                    assert(self.result_stack@ == start.result_stack@.push(self.result_stack@.last()));
                    assert(self.ddnnf_stack@ == start.ddnnf_stack@.push(self.ddnnf_stack@.last()));
                }
                if !self.backtrack(Ghost(false)) {
                    return SolverResult {
                        model_count: self.result_stack.pop().unwrap(),
                        ddnnf: DDNNF {
                            root_node: self.ddnnf_stack.pop().unwrap(),
                            number_variables: self.pseudo_boolean_formula.number_variables,
                        },
                    };
                }
                proof {
                    self.lemma_base_facts(false);
                    let p = choose|p: int| flipped_at(s0, self.st(), p);
                    lemma_phi_flip(s0, self.st(), n, p, 0);
                }
                continue;
            }
            let decided_literal = self.decide();
            match decided_literal {
                None => {
                    proof {
                        reveal(Solver::base);
                        let cs = self.cs();
                        let p = self.cur();
                        lemma_num_open_bounds(cs);
                        let i = choose|i: int| 0 <= i < cs.len() && !(#[trigger] cs[i]).satisfied_by_rec();
                        assert(self.pseudo_boolean_formula.wf());
                        assert(cs[i].wf());
                        if self.number_unassigned_variables == 0 {
                            lemma_free_count_zero(p);
                        } else {
                            assert(candidates(cs[i], self.variable_in_scope@).is_empty());
                            assert forall|k: usize| #[trigger] cs[i].vars().contains(k) && !cs[i].rec().contains(k)
                                implies k < n && p[k as int] is Some by {
                                assert(cs[i].unassigned_literals@.contains_key(k));
                                assert(!candidates(cs[i], self.variable_in_scope@).contains(k));
                            }
                        }
                        lemma_open_refuted(cs[i], s0, n);
                        lemma_refuted_zero(cs, statics, i, p);
                    }
                    self.result_stack.push(big_zero());
                    self.ddnnf_stack.push(Rc::new(DDNNFNode::FalseLeave));
                    self.next_variables.clear();
                    proof {
                        start.lemma_base_frame(*self, false);
                        lemma_stacks_push(start.result_stack@, start.ddnnf_stack@, statics, s0, n,
                            self.result_stack@.last(), self.ddnnf_stack@.last());
                        assert(self.result_stack@ == start.result_stack@.push(self.result_stack@.last()));
                        assert(self.ddnnf_stack@ == start.ddnnf_stack@.push(self.ddnnf_stack@.last()));
                    }
                    if !self.backtrack(Ghost(false)) {
                        return SolverResult {
                            model_count: self.result_stack.pop().unwrap(),
                            ddnnf: DDNNF {
                                root_node: self.ddnnf_stack.pop().unwrap(),
                                number_variables: self.pseudo_boolean_formula.number_variables,
                            },
                        };
                    }
                    proof {
                        self.lemma_base_facts(false);
                        let p = choose|p: int| flipped_at(s0, self.st(), p);
                        lemma_phi_flip(s0, self.st(), n, p, 0);
                    }
                },
                Some((var_index, var_sign)) => {
                    let ghost decided = *self;
                    let conflict = self.propagate(var_index, var_sign, AssignmentKind::FirstDecision);
                    let ghost s1 = self.st();
                    proof {
                        self.lemma_base_facts(conflict is Some);
                        assert(self.st().take(s0.len() as int) == s0);
                        lemma_stacks_extend(start.result_stack@, start.ddnnf_stack@, statics, s0, s1, n);
                        lemma_phi_extend(s0, s1, n);
                    }
                    if conflict.is_some() {
                        let ghost mid = *self;
                        self.result_stack.push(big_zero());
                        self.ddnnf_stack.push(Rc::new(DDNNFNode::FalseLeave));
                        self.next_variables.clear();
                        proof {
                            mid.lemma_base_frame(*self, true);
                            lemma_stacks_push(mid.result_stack@, mid.ddnnf_stack@, statics, s1, n,
                                self.result_stack@.last(), self.ddnnf_stack@.last());
                            assert(self.result_stack@ == mid.result_stack@.push(self.result_stack@.last()));
                            assert(self.ddnnf_stack@ == mid.ddnnf_stack@.push(self.ddnnf_stack@.last()));
                        }
                        if !self.backtrack(Ghost(true)) {
                            return SolverResult {
                                model_count: self.result_stack.pop().unwrap(),
                                ddnnf: DDNNF {
                                    root_node: self.ddnnf_stack.pop().unwrap(),
                                    number_variables: self.pseudo_boolean_formula.number_variables,
                                },
                            };
                        }
                        proof {
                            self.lemma_base_facts(false);
                            let p = choose|p: int| flipped_at(s1, self.st(), p);
                            lemma_phi_flip(s1, self.st(), n, p, 0);
                        }
                    }
                },
            }
        }
    }

    /// Counts the models of the formula and compiles it into a d-DNNF: a deterministic and
    /// decomposable node over the formula's variables that holds under exactly the assignments
    /// that satisfy every constraint. Every or-node decides one variable, its false branch first;
    /// a formula whose constraints all hold before any value is assigned compiles to the true leaf.
    pub fn solve(&mut self) -> (r: SolverResult)
        requires
            old(self).ready(),
        ensures
            big_value(r.model_count) == model_count(old(self).formula(), old(self).num_vars()),
            forall|a: Seq<bool>| a.len() == old(self).num_vars()
                ==> (#[trigger] eval(*r.ddnnf.root_node, a) == holds_all(old(self).formula(), a)),
            is_ddnnf(*r.ddnnf.root_node),
            false_branch_first(*r.ddnnf.root_node),
            forall|u: u32| #[trigger] mentions(*r.ddnnf.root_node, u) ==> u < old(self).num_vars(),
            final(self).stats() == old(self).stats(),
            (*r.ddnnf.root_node) is FalseLeave <==> big_value(r.model_count) == 0,
            r.ddnnf.number_variables == old(self).num_vars(),
            all_satisfied(old(self).formula()) ==> (*r.ddnnf.root_node) is TrueLeave,
    {
        let ghost n = self.n();
        let ghost cs = self.statics@;
        let r = self.count();
        proof {
            {
                assert forall|a: Seq<bool>| a.len() == n implies #[trigger] eval(*r.ddnnf.root_node, a) == holds_all(cs, a) by {
                    assert(ext(all_free(n), a));
                }
            }
        }
        r
    }

    /// Records how long the last `solve` took, in milliseconds, in the statistics.
    pub fn record_time_to_compute(&mut self, milliseconds: u128)
        ensures
            final(self).stats() == old(self).stats().with_time(milliseconds),
            final(self).held_formula() == old(self).held_formula(),
    {
        self.statistics.time_to_compute = milliseconds;
    }

    /// The formula the solver works on.
    pub fn formula_ref(&self) -> (r: &PseudoBooleanFormula)
        ensures
            *r == self.held_formula(),
    {
        &self.pseudo_boolean_formula
    }

    /// The variables in scope.
    pub fn scope_ref(&self) -> (r: &BTreeSet<usize>)
        ensures
            r@ == self.scope(),
    {
        &self.variable_in_scope
    }

    /// The constraints in scope.
    pub fn constraints_in_scope_ref(&self) -> (r: &BTreeSet<usize>)
        ensures
            r@ == self.constraints_in_scope(),
    {
        &self.constraint_indexes_in_scope
    }

    /// For each variable, its index and value when it has one.
    pub fn values_ref(&self) -> (r: &Vec<Option<(u32, bool)>>)
        ensures
            r@ == self.values(),
    {
        &self.assignments
    }

    /// The number of open constraints the solver counts.
    pub fn unsat_count_value(&self) -> (r: usize)
        ensures
            r == self.unsat_count(),
    {
        self.number_unsat_constraints
    }

    /// The number of variables without a value the solver counts.
    pub fn unassigned_count_value(&self) -> (r: u32)
        ensures
            r == self.unassigned_count(),
    {
        self.number_unassigned_variables
    }

    /// A solver for `pseudo_boolean_formula`, with nothing assigned yet.
    pub fn new(pseudo_boolean_formula: PseudoBooleanFormula) -> (solver: Solver)
        requires
            pseudo_boolean_formula.wf(),
            pseudo_boolean_formula.untouched(),
        ensures
            solver.ready(),
            solver.held_formula() == pseudo_boolean_formula,
            solver.formula() == pseudo_boolean_formula.constraints@,
            solver.num_vars() == pseudo_boolean_formula.number_variables,
            solver.current() == all_free(pseudo_boolean_formula.number_variables as nat),
            solver.values() == Seq::new(pseudo_boolean_formula.number_variables as nat, |i: int| None::<(u32, bool)>),
            solver.scope() == Set::new(|v: usize| v < pseudo_boolean_formula.number_variables),
            solver.constraints_in_scope() == Set::new(|i: usize| i < pseudo_boolean_formula.constraints@.len()),
            solver.unsat_count() == pseudo_boolean_formula.constraints@.len(),
            solver.unassigned_count() == pseudo_boolean_formula.number_variables,
            solver.nothing_decided(),
    {
        let number_unsat_constraints = pseudo_boolean_formula.constraints.len();
        let number_variables = pseudo_boolean_formula.number_variables;
        let ghost statics = pseudo_boolean_formula.constraints@;
        let mut assignments: Vec<Option<(u32, bool)>> = Vec::new();
        let mut variable_in_scope: BTreeSet<usize> = BTreeSet::new();
        let mut i: u32 = 0;
        while i < number_variables
            invariant
                0 <= i <= number_variables,
                assignments@ == Seq::new(i as nat, |j: int| None::<(u32, bool)>),
                variable_in_scope@ == Set::new(|v: usize| v < i),
            decreases number_variables - i,
        {
            assignments.push(None);
            variable_in_scope.insert(i as usize);
            i = i + 1;
            proof {
                assert(assignments@ =~= Seq::new(i as nat, |j: int| None::<(u32, bool)>));
                assert(variable_in_scope@ =~= Set::new(|v: usize| v < i));
            }
        }
        let mut constraint_indexes_in_scope: BTreeSet<usize> = BTreeSet::new();
        let mut ci: usize = 0;
        while ci < number_unsat_constraints
            invariant
                0 <= ci <= number_unsat_constraints,
                number_unsat_constraints == pseudo_boolean_formula.constraints@.len(),
                pseudo_boolean_formula.wf(),
                constraint_indexes_in_scope@ == Set::new(|j: usize| j < ci),
            decreases number_unsat_constraints - ci,
        {
            if let ConstraintIndex::NormalConstraintIndex(index) = pseudo_boolean_formula.constraints[ci].index {
                constraint_indexes_in_scope.insert(index);
            }
            proof {
                assert(pseudo_boolean_formula.constraints@[ci as int].wf());
            }
            ci = ci + 1;
            proof {
                assert(constraint_indexes_in_scope@ =~= Set::new(|j: usize| j < ci));
            }
        }
        let solver = Solver {
            pseudo_boolean_formula,
            assignment_stack: Vec::new(),
            assignments,
            decision_level: 0,
            result_stack: Vec::new(),
            ddnnf_stack: Vec::new(),
            number_unsat_constraints,
            number_unassigned_variables: number_variables,
            statistics: Statistics {
                cache_hits: 0,
                time_to_compute: 0,
                cache_entries: 0,
                learned_clauses: 0,
                propagations_from_learned_clauses: 0,
            },
            variable_in_scope,
            constraint_indexes_in_scope,
            next_variables: Vec::new(),
            unique_id: 0,
            statics: Ghost(statics),
        };
        proof {
            assert(solver.current() =~= all_free(number_variables as nat));
        }
        solver
    }
}


/// `cbf` splits the state of `s` along the connected parts `pv` of its hypergraph `h`: one
/// component per part, holding the part's open constraints and their open variables, then one
/// for the free variables in scope that occur in no open constraint, when there are any; the
/// scope before the split is kept beside them.
pub open spec fn splits_state(cbf: ComponentBasedFormula, h: Hypergraph, s: Solver, pv: Seq<u32>) -> bool {
    &&& built_from(h, s)
    &&& split_into_parts(h, s, pv)
    &&& cbf.current_component == 0
    &&& cbf.previous_number_unsat_constraints == s.unsat_count()
    &&& cbf.previous_number_unassigned_variables == s.unassigned_count()
    &&& cbf.previous_variables_in_scope@ == s.scope()
    &&& cbf.previous_constraint_indexes_in_scope@ == s.constraints_in_scope()
    &&& cbf.components@.len() == max_part(pv) + 1 + if h.single_variables@.is_empty() { 0int } else { 1int }
    &&& forall|p: int| 0 <= p <= max_part(pv)
        ==> holds_part(#[trigger] cbf.components@[p], h, s, pv, p as u32, pv.len() as int)
    &&& !h.single_variables@.is_empty() ==> {
        let c = cbf.components@[max_part(pv) + 1];
        &&& c.variables@ == h.single_variables@
        &&& c.number_unassigned_variables == h.single_variables@.len()
        &&& c.constraint_indexes_in_scope@.is_empty()
        &&& c.number_unsat_constraints == 0
    }
}

/// No constraint lies in two components of a split: each vertex of the hypergraph belongs to
/// one part, and each constraint is one vertex.
pub proof fn lemma_split_constraints_disjoint(cbf: ComponentBasedFormula, h: Hypergraph, s: Solver, pv: Seq<u32>, p: int, q: int)
    requires
        splits_state(cbf, h, s, pv),
        0 <= p < q <= max_part(pv),
    ensures
        cbf.components@[p].constraint_indexes_in_scope@.disjoint(cbf.components@[q].constraint_indexes_in_scope@),
{
    let vs = graph_vars(s, s.held_formula().constraints_by_variable@.len());
    lemma_first_seen(pin_list(s, vs));
    let starts = choose|starts: Seq<int>| #[trigger] component_labels(h, s, pv, starts)
        && (starts.len() > 1 || !h.single_variables@.is_empty());
    assert(holds_part(cbf.components@[p], h, s, pv, p as u32, pv.len() as int));
    assert(holds_part(cbf.components@[q], h, s, pv, q as u32, pv.len() as int));
    assert forall|c: usize| !(cbf.components@[p].constraint_indexes_in_scope@.contains(c)
        && #[trigger] cbf.components@[q].constraint_indexes_in_scope@.contains(c)) by {
        if cbf.components@[p].constraint_indexes_in_scope@.contains(c)
            && cbf.components@[q].constraint_indexes_in_scope@.contains(c) {
            let i = choose|i: int| 0 <= i < pv.len() && #[trigger] open_in_part(h, s, pv, p as u32, i)
                && h.constraint_index_map@[i] == c;
            let j = choose|j: int| 0 <= j < pv.len() && #[trigger] open_in_part(h, s, pv, q as u32, j)
                && h.constraint_index_map@[j] == c;
            assert(i != j);
            if i < j {
                assert(h.constraint_index_map@[i] != h.constraint_index_map@[j]);
            } else {
                assert(h.constraint_index_map@[j] != h.constraint_index_map@[i]);
            }
        }
    }
}

/// No variable lies in two components of a split of a consistent state: two open constraints
/// with a common open variable are joined by that variable's net, so they lie in one part.
pub proof fn lemma_split_variables_disjoint(cbf: ComponentBasedFormula, h: Hypergraph, s: Solver, pv: Seq<u32>, p: int, q: int)
    requires
        s.inv(false) || s.ready(),
        splits_state(cbf, h, s, pv),
        0 <= p < q <= max_part(pv),
    ensures
        cbf.components@[p].variables@.disjoint(cbf.components@[q].variables@),
{
    let starts = choose|starts: Seq<int>| #[trigger] component_labels(h, s, pv, starts)
        && (starts.len() > 1 || !h.single_variables@.is_empty());
    assert(holds_part(cbf.components@[p], h, s, pv, p as u32, pv.len() as int));
    assert(holds_part(cbf.components@[q], h, s, pv, q as u32, pv.len() as int));
    let cs = s.held_formula().constraints@;
    assert forall|v: usize| !(cbf.components@[p].variables@.contains(v)
        && #[trigger] cbf.components@[q].variables@.contains(v)) by {
        if cbf.components@[p].variables@.contains(v) && cbf.components@[q].variables@.contains(v) {
            let i = choose|i: int| 0 <= i < pv.len() && #[trigger] open_in_part(h, s, pv, p as u32, i)
                && cs[h.constraint_index_map@[i] as int].unassigned_literals@.contains_key(v);
            let j = choose|j: int| 0 <= j < pv.len() && #[trigger] open_in_part(h, s, pv, q as u32, j)
                && cs[h.constraint_index_map@[j] as int].unassigned_literals@.contains_key(v);
            s.lemma_shared_var_edge(h, i, j, v);
            s.lemma_shared_var_edge(h, j, i, v);
            let li = pv[i] as int;
            let lj = pv[j] as int;
            lemma_reaches_step(h, s, starts[li], i, j);
            lemma_reaches_step(h, s, starts[lj], j, i);
            assert(li == lj);
        }
    }
}

/// The variables kept apart in the last component of a split of a consistent state lie in no
/// other component: every variable of a part occurs in an open constraint.
pub proof fn lemma_split_lone_variables_apart(cbf: ComponentBasedFormula, h: Hypergraph, s: Solver, pv: Seq<u32>, p: int)
    requires
        s.inv(false) || s.ready(),
        splits_state(cbf, h, s, pv),
        0 <= p <= max_part(pv),
    ensures
        cbf.components@[p].variables@.disjoint(h.single_variables@),
{
    let starts = choose|starts: Seq<int>| #[trigger] component_labels(h, s, pv, starts)
        && (starts.len() > 1 || !h.single_variables@.is_empty());
    assert(holds_part(cbf.components@[p], h, s, pv, p as u32, pv.len() as int));
    let cs = s.held_formula().constraints@;
    assert forall|v: usize| !(cbf.components@[p].variables@.contains(v) && #[trigger] h.single_variables@.contains(v)) by {
        if cbf.components@[p].variables@.contains(v) {
            let i = choose|i: int| 0 <= i < pv.len() && #[trigger] open_in_part(h, s, pv, p as u32, i)
                && cs[h.constraint_index_map@[i] as int].unassigned_literals@.contains_key(v);
            s.lemma_graph_shape(h);
            s.lemma_open_var_has_net(h.constraint_index_map@[i] as int, v);
        }
    }
}

/// A split of a consistent state leaves out no free variable in scope: each lies in the
/// component of a part or among the variables kept apart.
pub proof fn lemma_split_covers_free_variables(cbf: ComponentBasedFormula, h: Hypergraph, s: Solver, pv: Seq<u32>, v: usize)
    requires
        s.inv(false) || s.ready(),
        splits_state(cbf, h, s, pv),
        v < s.held_formula().number_variables,
        free_in_scope(s, v),
    ensures
        h.single_variables@.contains(v)
            || exists|p: int| 0 <= p <= max_part(pv) && #[trigger] cbf.components@[p].variables@.contains(v),
{
    s.lemma_free_var_in_part(cbf, h, pv, v);
}

impl Solver {
    /// In a consistent state an open variable of an open constraint is free, in scope, and has a
    /// net whose pins include that constraint.
    proof fn lemma_open_var_has_net(self, c: int, k: usize)
        requires
            self.base(false) || self.ready(),
            0 <= c < self.held_formula().constraints@.len(),
            !self.held_formula().constraints@[c].satisfied_by_rec(),
            self.held_formula().constraints@[c].unassigned_literals@.contains_key(k),
        ensures
            free_in_scope(self, k),
            var_open_constraints(self, k).contains(c as usize),
            graph_vars(self, self.held_formula().constraints_by_variable@.len()).contains(k),
    {
        reveal(Solver::base);
        let f = self.held_formula();
        let cs = f.constraints@;
        let nn = f.constraints_by_variable@.len();
        let p = self.cur();
        let s = self.st();
        lemma_pa_len(s, self.n(), s.len() as int);
        assert(cs[c].wf());
        assert(cs[c].vars().contains(k));
        assert(!cs[c].rec().contains(k));
        assert(k < f.number_variables);
        if !self.ready() && p[k as int] is Some {
            lemma_pa_some(s, self.n(), s.len() as int, k as int);
            let j = choose|j: int| 0 <= j < s.len() && (#[trigger] s[j]).variable_index == k
                && p[k as int] == Some(s[j].variable_sign);
            assert(cons_ok(cs[c], s, p, false));
            assert(s[j].variable_index as usize == k);
            assert(false);
        }
        if !self.ready() {
            assert(self.scope().contains(k));
            assert(self.assignments@[k as int] is None);
        }
        let list = f.constraints_by_variable@[k as int]@;
        let jj = choose|jj: int| 0 <= jj < list.len() && f.constraints_by_variable@[k as int]@[jj] == c;
        assert forall|j2: int| 0 <= j2 < list.len() implies (#[trigger] list[j2]) < cs.len() by {
            assert(f.constraints_by_variable@[k as int]@[j2] == list[j2]);
        }
        lemma_open_constraints(cs, list);
        assert(list[jj] == c);
        assert(var_open_constraints(self, k).contains(list[jj]));
        lemma_graph_vars_contains(self, nn, k);
    }

    /// A free variable in scope with an open constraint lies in the component of the part of
    /// that constraint's vertex; one without lies among the variables kept apart.
    proof fn lemma_free_var_in_part(self, cbf: ComponentBasedFormula, h: Hypergraph, pv: Seq<u32>, v: usize)
        requires
            self.base(false) || self.ready(),
            splits_state(cbf, h, self, pv),
            v < self.held_formula().number_variables,
            free_in_scope(self, v),
        ensures
            h.single_variables@.contains(v)
                || exists|p: int| 0 <= p <= max_part(pv) && #[trigger] cbf.components@[p].variables@.contains(v),
    {
        reveal(Solver::base);
        let f = self.held_formula();
        let cs = f.constraints@;
        let nn = f.constraints_by_variable@.len();
        let vs = graph_vars(self, nn);
        let pins = pin_list(self, vs);
        let cons = first_seen(pins);
        let ov = var_open_constraints(self, v);
        let list = f.constraints_by_variable@[v as int]@;
        assert forall|j2: int| 0 <= j2 < list.len() implies (#[trigger] list[j2]) < cs.len() by {
            assert(f.constraints_by_variable@[v as int]@[j2] == list[j2]);
        }
        lemma_open_constraints(cs, list);
        if ov.len() > 0 {
            let c = ov[0];
            assert(ov.contains(c));
            let jj = choose|jj: int| 0 <= jj < list.len() && list[jj] == c;
            assert(f.constraints_by_variable@[v as int]@[jj] == c);
            assert(cs[c as int].vars().contains(v));
            assert(cs[c as int].wf());
            if !self.ready() {
                lemma_pa_len(self.st(), self.n(), self.st().len() as int);
                assert(self.assignments@[v as int] is None);
                assert(cons_ok(cs[c as int], self.st(), self.cur(), false));
            }
            assert(!cs[c as int].rec().contains(v));
            assert(cs[c as int].unassigned_literals@.contains_key(v));
            lemma_graph_vars_contains(self, nn, v);
            let g = choose|g: int| 0 <= g < vs.len() && vs[g] == v;
            let a = vs.take(g);
            let b = vs.take(g + 1);
            assert(b.drop_last() =~= a);
            assert(b.last() == v);
            assert(pin_list(self, b) == pin_list(self, a) + ov);
            lemma_pin_list_prefix(self, vs, g + 1);
            let ii = pin_list(self, a).len() as int;
            assert(pins.take(pin_list(self, b).len() as int)[ii] == pins[ii]);
            assert(pins[ii] == c);
            assert(pins.contains(c));
            lemma_first_seen(pins);
            assert(cons.contains(c));
            let i = choose|i: int| 0 <= i < cons.len() && cons[i] == c;
            let starts = choose|starts: Seq<int>| #[trigger] component_labels(h, self, pv, starts)
                && (starts.len() > 1 || !h.single_variables@.is_empty());
            lemma_max_part(pv);
            let q = pv[i];
            assert(open_in_part(h, self, pv, q, i));
            assert(holds_part(cbf.components@[q as int], h, self, pv, q, pv.len() as int));
            assert(cbf.components@[q as int].variables@.contains(v));
        } else {
            assert(h.single_variables@.contains(v));
        }
    }

    /// In a consistent state two open constraints with a common open variable are joined by an
    /// edge of the hypergraph: the second is a pin of that variable's net.
    proof fn lemma_shared_var_edge(self, h: Hypergraph, i: int, j: int, v: usize)
        requires
            self.base(false) || self.ready(),
            built_from(h, self),
            0 <= i < h.current_constraint_index,
            0 <= j < h.current_constraint_index,
            !self.held_formula().constraints@[h.constraint_index_map@[i] as int].satisfied_by_rec(),
            !self.held_formula().constraints@[h.constraint_index_map@[j] as int].satisfied_by_rec(),
            self.held_formula().constraints@[h.constraint_index_map@[i] as int].unassigned_literals@.contains_key(v),
            self.held_formula().constraints@[h.constraint_index_map@[j] as int].unassigned_literals@.contains_key(v),
        ensures
            edge(h, self, i, j),
    {
        let f = self.held_formula();
        let nn = f.constraints_by_variable@.len();
        let vs = graph_vars(self, nn);
        let pins = pin_list(self, vs);
        let cons = first_seen(pins);
        self.lemma_graph_shape(h);
        let cj = cons[j];
        self.lemma_open_var_has_net(cj as int, v);
        let g = choose|g: int| 0 <= g < vs.len() && vs[g] == v;
        assert(h.variable_index_map_reverse@[vs[g]] == g);
        let ov = var_open_constraints(self, v);
        let t = choose|t: int| 0 <= t < ov.len() && ov[t] == cj;
        let a = vs.take(g);
        let b = vs.take(g + 1);
        assert(b.drop_last() =~= a);
        assert(b.last() == v);
        assert(pin_list(self, b) == pin_list(self, a) + ov);
        lemma_pin_list_prefix(self, vs, g + 1);
        let ii = pin_list(self, a).len() + t;
        assert(h.x_pins@[g] == pin_list(self, vs.take(g)).len());
        assert(h.x_pins@[g + 1] == pin_list(self, vs.take(g + 1)).len());
        assert(pins.take(pin_list(self, b).len() as int)[ii] == pins[ii]);
        assert(pins[ii] == cj);
        assert(h.pins@[ii] == h.constraint_index_map_reverse@[pins[ii]]);
        assert(h.constraint_index_map_reverse@[cons[j]] == j);
        assert(net_pin(h, self, i, v, ii));
    }

    /// A hypergraph built from a consistent state fits it: its vertices are open constraints,
    /// the open variables of those constraints have nets, and the pins are vertices.
    proof fn lemma_graph_shape(self, h: Hypergraph)
        requires
            self.base(false) || self.ready(),
            built_from(h, self),
        ensures
            graph_shape_ok(h, self),
            h.current_constraint_index <= pin_list(self, graph_vars(self, self.held_formula().constraints_by_variable@.len())).len(),
            forall|v: usize| #[trigger] h.single_variables@.contains(v) ==> v < self.held_formula().number_variables,
            forall|u: int| 0 <= u < h.current_constraint_index
                ==> (#[trigger] h.constraint_index_map@[u]) < self.held_formula().constraints@.len(),
    {
        reveal(Solver::base);
        let f = self.held_formula();
        let cs = f.constraints@;
        let nn = f.constraints_by_variable@.len();
        let vs = graph_vars(self, nn);
        let pins = pin_list(self, vs);
        let cons = first_seen(pins);
        let p = self.cur();
        let s = self.st();
        lemma_first_seen(pins);
        lemma_graph_vars_prefix(self, nn, nn);
        lemma_pa_len(s, self.n(), s.len() as int);
        lemma_pins_open(self, vs);
        assert forall|u: int| 0 <= u < cons.len() implies (#[trigger] cons[u]) < cs.len() && !cs[cons[u] as int].satisfied_by_rec() by {
            assert(cons.contains(cons[u]));
            assert(pins.contains(cons[u]));
        }
        assert forall|u: int, k: usize| 0 <= u < cons.len() && #[trigger] cs[cons[u] as int].unassigned_literals@.contains_key(k)
            implies h.variable_index_map_reverse@.contains_key(k) && h.variable_index_map_reverse@[k] + 1 < h.x_pins@.len() by {
            self.lemma_open_var_has_net(cons[u] as int, k);
            let i = choose|i: int| 0 <= i < vs.len() && vs[i] == k;
            assert(h.variable_index_map_reverse@[vs[i]] == i);
        }
        assert forall|g: int| 0 <= g < h.x_pins@.len() implies #[trigger] h.x_pins@[g] <= h.pins@.len() by {
            lemma_pin_list_prefix(self, vs, g);
        }
        assert forall|i: int| 0 <= i < h.pins@.len() implies (#[trigger] h.pins@[i]) < cons.len() by {
            assert(pins.contains(pins[i]));
            assert(cons.contains(pins[i]));
            let k = choose|k: int| 0 <= k < cons.len() && cons[k] == pins[i];
            assert(h.constraint_index_map_reverse@[cons[k]] == k);
        }
    }

    /// Splits the formula into independent components when its open constraints fall apart:
    /// builds the hypergraph of the state, labels its connected parts, and gives one component
    /// per part, with one more for the free variables in no open constraint. Gives nothing when
    /// at most one constraint is open, when the hypergraph is one part, or when the per-variable
    /// lists hold `u32::MAX` entries or more (the hypergraph numbers its pins in `u32`). Choosing
    /// variables for a cut of a connected hypergraph needs a hypergraph partitioner, which this
    /// library does not call: nothing is queued for the search when no split exists.
    pub fn to_disconnected_components(&self) -> (r: Option<ComponentBasedFormula>)
        requires
            self.inv(false) || self.ready(),
        ensures
            self.unsat_count() <= 1 ==> r is None,
            r matches Some(cbf) ==> exists|h: Hypergraph, pv: Seq<u32>| #[trigger] splits_state(cbf, h, *self, pv),
            r is None && self.unsat_count() > 1
                && listed_pins(self.held_formula(), self.held_formula().number_variables as nat) < u32::MAX
                ==> exists|h: Hypergraph| #[trigger] built_from(h, *self)
                    && (h.current_constraint_index <= 1 || one_part(h, *self)),
    {
        if self.number_unsat_constraints <= 1 {
            return None;
        }
        let ghost f = self.held_formula();
        proof {
            reveal(Solver::base);
            lemma_pa_len(self.st(), self.n(), self.st().len() as int);
            assert(f.wf());
        }
        let nv = self.pseudo_boolean_formula.constraints_by_variable.len();
        let mut total: u64 = 0;
        let mut v: usize = 0;
        while v < nv
            invariant
                0 <= v <= nv,
                nv == f.constraints_by_variable@.len(),
                nv == f.number_variables,
                f == self.pseudo_boolean_formula,
                total == listed_pins(f, v as nat),
                total < u32::MAX,
            decreases nv - v,
        {
            let len = self.pseudo_boolean_formula.constraints_by_variable[v].len();
            if len >= 0xFFFF_FFFFusize || len as u64 >= 0xFFFF_FFFFu64 - total {
                proof {
                    lemma_listed_pins_mono(f, (v + 1) as nat, nv as nat);
                }
                return None;
            }
            total = total + len as u64;
            v = v + 1;
        }
        proof {
            lemma_pins_bound(*self, nv as nat);
            lemma_graph_vars_prefix(*self, nv as nat, nv as nat);
        }
        let h = Hypergraph::new(self);
        proof {
            self.lemma_graph_shape(h);
        }
        match h.find_disconnected_components(self) {
            Some(partvec) => {
                proof {
                    let starts = choose|starts: Seq<int>| #[trigger] component_labels(h, *self, partvec@, starts)
                        && (starts.len() > 1 || !h.single_variables@.is_empty());
                    lemma_labels_below(h, *self, partvec@, starts);
                    lemma_max_part_below(partvec@, h.current_constraint_index);
                }
                let cbf = h.create_partition(self, partvec);
                proof {
                    assert(splits_state(cbf, h, *self, partvec@));
                    assert(exists|h2: Hypergraph, pv2: Seq<u32>| #[trigger] splits_state(cbf, h2, *self, pv2));
                }
                let r = Some(cbf);
                assert(r->0 == cbf);
                r
            },
            None => {
                proof {
                    assert(built_from(h, *self));
                }
                None
            },
        }
    }
}

} // verus!
