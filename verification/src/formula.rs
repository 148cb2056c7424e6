//! Building the constraints of a formula from the equations of an `.opb` file.

use vstd::prelude::*;
use std::collections::BTreeMap;
use crate::opb::{OPBFile, Equation, EquationKind, Summand, summand_value, lhs_value, equation_holds, opb_holds};
use crate::normalization::{
    seq_sum, summand_vars, distinct_vars, same_polarity, pick, picked, abs, abs_sum, within_limits,
    is_normal, lemma_summand_vars, lemma_distinct_sum, lemma_seq_sum_congr, lemma_value_is_sum, lemma_abs_sum_bounds,
    replace_equal_equations, normalize_equation, nonzero_totals,
};
use crate::solver::exact;
use crate::parser::indices_in_range;
use crate::pseudo_boolean_datastructure::{Constraint, ConstraintIndex, ConstraintType, Literal, PseudoBooleanFormula, first_max};
use crate::model_count::{holds_all, mc_from, all_free, ext, model_count};
use crate::fsum::{fsum, lemma_fsum_congr, lemma_fsum_empty, lemma_fsum_nonneg};
use crate::name_map::{name_pairs, name_map_clone};

verus! {

/// The literal a summand with a non-negative factor stands for.
pub open spec fn literal_of(s: Summand) -> Literal {
    Literal { index: s.variable_index, factor: s.factor as u128, positive: s.positive }
}

/// The literals of the summands, keyed by variable.
pub open spec fn literals_of(lhs: Seq<Summand>) -> Map<usize, Literal>
    decreases lhs.len(),
{
    if lhs.len() == 0 {
        Map::empty()
    } else {
        literals_of(lhs.drop_last()).insert(lhs.last().variable_index as usize, literal_of(lhs.last()))
    }
}

/// With distinct variables, the literals of the summands are keyed by their variables and are
/// the literals of the summands of those variables.
pub proof fn lemma_literals_of(lhs: Seq<Summand>)
    requires
        distinct_vars(lhs),
    ensures
        literals_of(lhs).dom() == summand_vars(lhs),
        forall|k: usize| #[trigger] literals_of(lhs).contains_key(k) ==> literals_of(lhs)[k] == literal_of(pick(lhs, k)),
    decreases lhs.len(),
{
    lemma_summand_vars(lhs);
    if lhs.len() > 0 {
        let l = lhs.drop_last();
        assert(distinct_vars(l)) by {
            assert forall|i: int, j: int| 0 <= i < j < l.len() implies l[i].variable_index != l[j].variable_index by {
                assert(l[i] == lhs[i] && l[j] == lhs[j]);
            }
        }
        lemma_literals_of(l);
        lemma_summand_vars(l);
        assert(literals_of(lhs).dom() =~= summand_vars(lhs));
        assert forall|k: usize| #[trigger] literals_of(lhs).contains_key(k) implies literals_of(lhs)[k] == literal_of(pick(lhs, k)) by {
            let j = choose|j: int| 0 <= j < lhs.len() && lhs[j].variable_index as usize == k;
            if k == lhs.last().variable_index as usize {
                if j != lhs.len() - 1 {
                    assert(lhs[j].variable_index != lhs[lhs.len() - 1].variable_index);
                }
            } else {
                let j2 = choose|j2: int| 0 <= j2 < l.len() && l[j2].variable_index as usize == k;
                assert(l[j2] == lhs[j2]);
                if j != j2 {
                    if j < j2 {
                        assert(lhs[j].variable_index != lhs[j2].variable_index);
                    } else {
                        assert(lhs[j2].variable_index != lhs[j].variable_index);
                    }
                }
            }
        }
    }
}

/// Summands with non-negative factors have a non-negative value.
proof fn lemma_value_nonneg(lhs: Seq<Summand>, a: Seq<bool>)
    requires
        forall|j: int| 0 <= j < lhs.len() ==> (#[trigger] lhs[j]).factor >= 0,
    ensures
        lhs_value(lhs, a) >= 0,
    decreases lhs.len(),
{
    if lhs.len() > 0 {
        let l = lhs.drop_last();
        assert forall|j: int| 0 <= j < l.len() implies (#[trigger] l[j]).factor >= 0 by {
            assert(l[j] == lhs[j]);
        }
        lemma_value_nonneg(l, a);
    }
}

/// A constraint whose literals are those of a normal equation holds exactly when the equation
/// does.
pub proof fn lemma_constraint_semantics(c: Constraint, e: Equation, a: Seq<bool>)
    requires
        is_normal(e),
        c.literals@ == literals_of(e.lhs@),
        c.degree == if e.rhs < 0 { 0 } else { e.rhs },
        c.constraint_type == (if e.kind == EquationKind::Ge || e.rhs < 0 { ConstraintType::GreaterEqual } else { ConstraintType::NotEqual }),
    ensures
        c.true_sum(a) == lhs_value(e.lhs@, a),
        c.holds(a) == equation_holds(e, a),
{
    let lhs = e.lhs@;
    lemma_literals_of(lhs);
    lemma_summand_vars(lhs);
    let sv = |s: Summand| summand_value(s, a);
    lemma_value_is_sum(lhs, a);
    lemma_seq_sum_congr(lhs, |s: Summand| summand_value(s, a), sv);
    lemma_distinct_sum(lhs, sv);
    assert forall|k: usize| summand_vars(lhs).contains(k) implies (c.sat_w(a))(k) == picked(lhs, sv)(k) by {
        let j = choose|j: int| 0 <= j < lhs.len() && lhs[j].variable_index as usize == k;
        assert(lhs[j].factor >= 0);
        assert(pick(lhs, k).factor >= 0) by {
            let j2 = choose|j2: int| 0 <= j2 < lhs.len() && lhs[j2].variable_index as usize == k;
            assert(lhs[j2].factor >= 0);
        }
    }
    lemma_fsum_congr(summand_vars(lhs), c.sat_w(a), picked(lhs, sv));
    lemma_value_nonneg(lhs, a);
}

/// The total of the factors of a normal equation's summands.
fn factor_total(lhs: &Vec<Summand>) -> (r: i128)
    requires
        forall|j: int| 0 <= j < lhs@.len() ==> (#[trigger] lhs@[j]).factor >= 0,
        abs_sum(lhs@) <= i128::MAX,
    ensures
        r == seq_sum(lhs@, |s: Summand| s.factor as int),
        r == abs_sum(lhs@),
{
    let ghost w = |s: Summand| s.factor as int;
    let mut total: i128 = 0;
    let mut i: usize = 0;
    proof {
        lemma_abs_sum_bounds(lhs@);
    }
    while i < lhs.len()
        invariant
            0 <= i <= lhs@.len(),
            forall|j: int| 0 <= j < lhs@.len() ==> (#[trigger] lhs@[j]).factor >= 0,
            abs_sum(lhs@) <= i128::MAX,
            forall|t: int| 0 <= t <= lhs@.len() ==> #[trigger] abs_sum(lhs@.take(t)) <= abs_sum(lhs@),
            total == seq_sum(lhs@.take(i as int), |s: Summand| s.factor as int),
            total == abs_sum(lhs@.take(i as int)),
        decreases lhs@.len() - i,
    {
        proof {
            let t = lhs@.take(i + 1);
            assert(t.drop_last() =~= lhs@.take(i as int));
            assert(t.last() == lhs@[i as int]);
            assert(abs_sum(lhs@.take(i + 1)) <= abs_sum(lhs@));
        }
        total = total + lhs[i].factor;
        i = i + 1;
    }
    proof {
        assert(lhs@.take(lhs@.len() as int) =~= lhs@);
    }
    total
}

/// The relation of a constraint built from an equation that is `>=` or `!=`. A `!=` with a negative
/// right-hand side holds under every assignment (its sum is never negative), so it becomes the
/// `>=` that its degree, clamped to 0, makes always true.
fn get_constraint_type_from_equation(equation: &Equation) -> (r: ConstraintType)
    requires
        equation.kind == EquationKind::Ge || equation.kind == EquationKind::NotEq,
    ensures
        r == (if equation.kind == EquationKind::Ge || equation.rhs < 0 { ConstraintType::GreaterEqual } else { ConstraintType::NotEqual }),
{
    if equation.kind == EquationKind::Ge || equation.rhs < 0 {
        ConstraintType::GreaterEqual
    } else {
        ConstraintType::NotEqual
    }
}

/// Every equation holds under `a`.
pub open spec fn all_hold(es: Seq<Equation>, a: Seq<bool>) -> bool {
    forall|j: int| 0 <= j < es.len() ==> #[trigger] equation_holds(es[j], a)
}

/// The list `now` extends the list `before` by entries `c` only, and only when `member` holds.
pub open spec fn list_extends(before: Seq<usize>, now: Seq<usize>, c: usize, member: bool) -> bool {
    &&& now.len() >= before.len()
    &&& now.len() <= before.len() + 1
    &&& now.take(before.len() as int) == before
    &&& forall|j: int| before.len() <= j < now.len() ==> #[trigger] now[j] == c && member
}

/// The number of constraints the equations give: two for an `=`, one for any other.
pub open spec fn split_count(es: Seq<Equation>) -> nat
    decreases es.len(),
{
    if es.len() == 0 {
        0
    } else {
        split_count(es.drop_last()) + if es.last().kind == EquationKind::Eq { 2nat } else { 1nat }
    }
}

/// The rewriting keeps the meaning of the equation: its variables keep one polarity each.
pub open spec fn faithful_equation(e: Equation) -> bool {
    same_polarity(e.lhs@)
}

/// A file whose summands are all positive literals, as `parse` gives them, is rewritten faithfully.
pub proof fn lemma_positive_file_faithful(f: OPBFile)
    requires
        indices_in_range(f),
    ensures
        faithful(f),
{
    assert forall|i: int| 0 <= i < f.equations@.len() implies faithful_equation(#[trigger] f.equations@[i]) by {
        let lhs = f.equations@[i].lhs@;
        assert forall|j: int| 0 <= j < lhs.len() implies (#[trigger] lhs[j]).positive by {
            assert(f.equations@[i].lhs@[j].positive);
        }
    }
}

/// Every variable of every equation of the file has a nonzero total factor there.
pub open spec fn nonzero_file(f: OPBFile) -> bool {
    forall|i: int| 0 <= i < f.equations@.len() ==> nonzero_totals(#[trigger] f.equations@[i])
}

/// Every equation of the file is rewritten faithfully.
pub open spec fn faithful(f: OPBFile) -> bool {
    forall|i: int| 0 <= i < f.equations@.len() ==> faithful_equation(#[trigger] f.equations@[i])
}

/// The constraint at position `constraint_counter` for a normal equation; appends that position
/// to the list of every variable the equation mentions.
fn constraint_from_equation(
    equation: &Equation,
    constraint_counter: usize,
    constraints_by_variable: &mut Vec<Vec<usize>>,
) -> (c: Constraint)
    requires
        is_normal(*equation),
        abs_sum(equation.lhs@) < i128::MAX,
        forall|j: int| 0 <= j < equation.lhs@.len() ==> (#[trigger] equation.lhs@[j]).variable_index < old(constraints_by_variable)@.len(),
    ensures
        c.wf(),
        c.rec().is_empty(),
        c.index == ConstraintIndex::NormalConstraintIndex(constraint_counter),
        c.literals@ == literals_of(equation.lhs@),
        c.degree == if equation.rhs < 0 { 0 } else { equation.rhs },
        c.constraint_type == (if equation.kind == EquationKind::Ge || equation.rhs < 0 { ConstraintType::GreaterEqual } else { ConstraintType::NotEqual }),
        c.vars() == summand_vars(equation.lhs@),
        first_max(c.literals@, c.max_literal),
        final(constraints_by_variable)@.len() == old(constraints_by_variable)@.len(),
        forall|v: int| 0 <= v < old(constraints_by_variable)@.len() ==> list_extends(old(constraints_by_variable)@[v]@,
            #[trigger] final(constraints_by_variable)@[v]@, constraint_counter, c.vars().contains(v as usize)),
        forall|k: usize| #[trigger] c.vars().contains(k) ==> exists|j: int| 0 <= j < final(constraints_by_variable)@[k as int]@.len()
            && final(constraints_by_variable)@[k as int]@[j] == constraint_counter,
{
    broadcast use vstd::std_specs::btree::group_btree_axioms;
    let ghost lhs = equation.lhs@;
    proof {
        lemma_abs_sum_bounds(lhs);
    }
    let factor_sum = factor_total(&equation.lhs);
    let mut constraint = Constraint {
        degree: if equation.rhs < 0 { 0 } else { equation.rhs },
        sum_true: 0,
        sum_unassigned: factor_sum as u128,
        literals: BTreeMap::new(),
        unassigned_literals: BTreeMap::new(),
        assignments: BTreeMap::new(),
        factor_sum: factor_sum as u128,
        index: ConstraintIndex::NormalConstraintIndex(constraint_counter),
        hash_value: 0,
        hash_value_old: true,
        constraint_type: get_constraint_type_from_equation(equation),
        max_literal: Literal { index: 0, factor: 0, positive: false },
    };
    let ghost old_cbv = constraints_by_variable@;
    let cbv_len = constraints_by_variable.len();
    proof {
        assert forall|v: int| 0 <= v < old_cbv.len() implies list_extends(old_cbv[v]@, #[trigger] constraints_by_variable@[v]@,
            constraint_counter, summand_vars(lhs).contains(v as usize)) by {
            assert(old_cbv[v]@.take(old_cbv[v]@.len() as int) =~= old_cbv[v]@);
        }
        assert(lhs.take(0) =~= Seq::<Summand>::empty());
    }
    let mut i: usize = 0;
    while i < equation.lhs.len()
        invariant
            0 <= i <= lhs.len(),
            lhs == equation.lhs@,
            is_normal(*equation),
            forall|j: int| 0 <= j < lhs.len() ==> (#[trigger] lhs[j]).variable_index < old_cbv.len(),
            constraint.literals@ == literals_of(lhs.take(i as int)),
            constraint.unassigned_literals@ == literals_of(lhs.take(i as int)),
            constraint.assignments@ == Map::<usize, (bool, crate::pseudo_boolean_datastructure::AssignmentKind, u32)>::empty(),
            constraint.degree == if equation.rhs < 0 { 0 } else { equation.rhs },
            constraint.index == ConstraintIndex::NormalConstraintIndex(constraint_counter),
            constraint.sum_true == 0,
            constraint.sum_unassigned == factor_sum,
            constraint.factor_sum == factor_sum,
            factor_sum == abs_sum(lhs),
            constraint.constraint_type == (if equation.kind == EquationKind::Ge || equation.rhs < 0 { ConstraintType::GreaterEqual } else { ConstraintType::NotEqual }),
            constraints_by_variable@.len() == old_cbv.len(),
            forall|v: int| 0 <= v < old_cbv.len() ==> list_extends(old_cbv[v]@, #[trigger] constraints_by_variable@[v]@,
                constraint_counter, summand_vars(lhs).contains(v as usize)),
            forall|k: usize| #[trigger] summand_vars(lhs.take(i as int)).contains(k) ==> exists|j: int|
                0 <= j < constraints_by_variable@[k as int]@.len() && constraints_by_variable@[k as int]@[j] == constraint_counter,
            forall|v: int| 0 <= v < old_cbv.len() ==> (#[trigger] constraints_by_variable@[v])@.len()
                == old_cbv[v]@.len() + if summand_vars(lhs.take(i as int)).contains(v as usize) { 1int } else { 0int },
            cbv_len == old_cbv.len(),
        decreases lhs.len() - i,
    {
        let summand = equation.lhs[i];
        let k = summand.variable_index as usize;
        let ghost t0 = lhs.take(i as int);
        let ghost t1 = lhs.take(i + 1);
        proof {
            assert(summand == lhs[i as int]);
            assert(t1.drop_last() =~= t0);
            assert(t1.last() == summand);
            lemma_summand_vars(lhs);
            lemma_summand_vars(t1);
            lemma_summand_vars(t0);
            assert(summand_vars(lhs).contains(k));
            if summand_vars(t0).contains(k) {
                let j = choose|j: int| 0 <= j < t0.len() && t0[j].variable_index as usize == k;
                assert(t0[j] == lhs[j]);
                assert(false);
            }
            assert(summand_vars(t1) == summand_vars(t0).insert(k));
        }
        constraint.literals.insert(k, Literal { index: summand.variable_index, factor: summand.factor as u128, positive: summand.positive });
        constraint.unassigned_literals.insert(k, Literal { index: summand.variable_index, factor: summand.factor as u128, positive: summand.positive });
        let ghost before = constraints_by_variable@;
        constraints_by_variable[k].push(constraint_counter);
        proof {
            assert forall|v: int| 0 <= v < old_cbv.len() implies (#[trigger] constraints_by_variable@[v])@.len()
                == old_cbv[v]@.len() + if summand_vars(t1).contains(v as usize) { 1int } else { 0int } by {
                if v != k {
                    assert(constraints_by_variable@[v] == before[v]);
                    assert(summand_vars(t1) == summand_vars(t0).insert(k));
                    assert((v as usize) != k);
                    assert(summand_vars(t1).contains(v as usize) == summand_vars(t0).contains(v as usize));
                }
            }
            assert forall|v: int| 0 <= v < old_cbv.len() implies list_extends(old_cbv[v]@, #[trigger] constraints_by_variable@[v]@,
                constraint_counter, summand_vars(lhs).contains(v as usize)) by {
                assert(list_extends(old_cbv[v]@, before[v]@, constraint_counter, summand_vars(lhs).contains(v as usize)));
                if v == k {
                    assert(constraints_by_variable@[v]@ == before[v]@.push(constraint_counter));
                    assert(constraints_by_variable@[v]@.take(old_cbv[v]@.len() as int) =~= before[v]@.take(old_cbv[v]@.len() as int));
                    assert(summand_vars(lhs).contains(v as usize));
                    assert forall|j: int| old_cbv[v]@.len() <= j < constraints_by_variable@[v]@.len()
                        implies #[trigger] constraints_by_variable@[v]@[j] == constraint_counter && summand_vars(lhs).contains(v as usize) by {
                        if j < before[v]@.len() {
                            assert(constraints_by_variable@[v]@[j] == before[v]@[j]);
                        }
                    }
                } else {
                    assert(constraints_by_variable@[v] == before[v]);
                }
            }
            assert forall|u: usize| #[trigger] summand_vars(t1).contains(u) implies exists|j: int|
                0 <= j < constraints_by_variable@[u as int]@.len() && constraints_by_variable@[u as int]@[j] == constraint_counter by {
                if u == k {
                    assert(constraints_by_variable@[u as int]@[before[u as int]@.len() as int] == constraint_counter);
                } else {
                    assert(summand_vars(t0).contains(u));
                    let j = choose|j: int| 0 <= j < before[u as int]@.len() && before[u as int]@[j] == constraint_counter;
                    assert(constraints_by_variable@[u as int] == before[u as int]);
                }
            }
        }
        i = i + 1;
    }
    proof {
        assert(lhs.take(lhs.len() as int) =~= lhs);
        lemma_literals_of(lhs);
        lemma_summand_vars(lhs);
        let c = constraint;
        assert(c.rec() =~= Set::<usize>::empty());
        assert(c.unassigned_literals@ =~= c.literals@.remove_keys(c.rec()));
        lemma_fsum_empty(c.rec_true_w());
        assert(c.vars().difference(c.rec()) =~= c.vars());
        let fw = |s: Summand| s.factor as int;
        lemma_distinct_sum(lhs, fw);
        lemma_seq_sum_congr(lhs, |s: Summand| s.factor as int, fw);
        assert forall|k: usize| summand_vars(lhs).contains(k) implies (c.factor_w())(k) == picked(lhs, fw)(k) by {
            let j = choose|j: int| 0 <= j < lhs.len() && lhs[j].variable_index as usize == k;
            assert(pick(lhs, k).factor >= 0) by {
                let j2 = choose|j2: int| 0 <= j2 < lhs.len() && lhs[j2].variable_index as usize == k;
                assert(lhs[j2].factor >= 0);
            }
        }
        lemma_fsum_congr(summand_vars(lhs), c.factor_w(), picked(lhs, fw));
        assert forall|k: usize| #[trigger] c.literals@.contains_key(k) implies c.literals@[k].index == k by {}
    }
    proof {
        assert(lhs.take(lhs.len() as int) =~= lhs);
        assert forall|v: int| 0 <= v < old_cbv.len() implies list_extends(old_cbv[v]@, #[trigger] constraints_by_variable@[v]@,
            constraint_counter, summand_vars(lhs).contains(v as usize)) by {}
    }
    constraint.max_literal = constraint.get_max_literal();
    constraint
}

impl PseudoBooleanFormula {
    /// The formula of an `.opb` file: every equation becomes one constraint (an `=` becomes two),
    /// rewritten to `>=` or `!=` with non-negative factors and each variable once; the variables
    /// are those the file names.
    pub fn new(opb_file: &OPBFile) -> (r: PseudoBooleanFormula)
        requires
            opb_file.max_name_index > 0,
            forall|i: int| 0 <= i < opb_file.equations@.len() ==> {
                &&& within_limits(#[trigger] opb_file.equations@[i])
                &&& forall|j: int| 0 <= j < opb_file.equations@[i].lhs@.len()
                    ==> (#[trigger] opb_file.equations@[i].lhs@[j]).variable_index < opb_file.max_name_index
            },
        ensures
            r.wf(),
            r.untouched(),
            r.number_variables == opb_file.max_name_index,
            name_pairs(r.name_map) == name_pairs(opb_file.name_map),
            r.constraints@.len() == split_count(opb_file.equations@),
            forall|i: int| 0 <= i < r.constraints@.len() ==> first_max((#[trigger] r.constraints@[i]).literals@, r.constraints@[i].max_literal),
            forall|v: int, j1: int, j2: int| 0 <= v < r.constraints_by_variable@.len() && 0 <= j1 < j2 < r.constraints_by_variable@[v]@.len()
                ==> #[trigger] r.constraints_by_variable@[v]@[j1] < #[trigger] r.constraints_by_variable@[v]@[j2],
            faithful(*opb_file) ==> forall|a: Seq<bool>| #[trigger] holds_all(r.constraints@, a) == opb_holds(*opb_file, a),
            nonzero_file(*opb_file) ==> exact(r.constraints@),
    {
        let ghost es = opb_file.equations@;
        let ghost n = opb_file.max_name_index;
        let mut equation_list: Vec<Equation> = Vec::new();
        let mut i: usize = 0;
        while i < opb_file.equations.len()
            invariant
                0 <= i <= es.len(),
                es == opb_file.equations@,
                n == opb_file.max_name_index,
                forall|i2: int| 0 <= i2 < es.len() ==> {
                    &&& within_limits(#[trigger] es[i2])
                    &&& forall|j: int| 0 <= j < es[i2].lhs@.len() ==> (#[trigger] es[i2].lhs@[j]).variable_index < n
                },
                equation_list@.len() == split_count(es.take(i as int)),
                forall|j: int| 0 <= j < equation_list@.len() ==> {
                    &&& (#[trigger] equation_list@[j]).kind != EquationKind::Eq
                    &&& within_limits(equation_list@[j])
                    &&& forall|t: int| 0 <= t < equation_list@[j].lhs@.len() ==> (#[trigger] equation_list@[j].lhs@[t]).variable_index < n
                    &&& faithful(*opb_file) ==> faithful_equation(equation_list@[j])
                    &&& nonzero_file(*opb_file) ==> nonzero_totals(equation_list@[j])
                },
                forall|a: Seq<bool>| #[trigger] all_hold(equation_list@, a) == all_hold(es.take(i as int), a),
            decreases es.len() - i,
        {
            let ghost e = es[i as int];
            let ghost before = equation_list@;
            let mut split = replace_equal_equations(&opb_file.equations[i]);
            let ghost parts = split@;
            equation_list.append(&mut split);
            proof {
                assert(es.take(i + 1).drop_last() =~= es.take(i as int));
                assert(equation_list@ == before + parts);
                assert forall|j: int| 0 <= j < equation_list@.len() implies {
                    &&& (#[trigger] equation_list@[j]).kind != EquationKind::Eq
                    &&& within_limits(equation_list@[j])
                    &&& forall|t: int| 0 <= t < equation_list@[j].lhs@.len() ==> (#[trigger] equation_list@[j].lhs@[t]).variable_index < n
                    &&& faithful(*opb_file) ==> faithful_equation(equation_list@[j])
                    &&& nonzero_file(*opb_file) ==> nonzero_totals(equation_list@[j])
                } by {
                    if j < before.len() {
                        assert(equation_list@[j] == before[j]);
                    } else {
                        assert(equation_list@[j] == parts[j - before.len()]);
                        assert(within_limits(e));
                        if faithful(*opb_file) {
                            assert(faithful_equation(es[i as int]));
                        }
                        if nonzero_file(*opb_file) {
                            assert(nonzero_totals(es[i as int]));
                        }
                    }
                }
                assert forall|a: Seq<bool>| #[trigger] all_hold(equation_list@, a) == all_hold(es.take(i + 1), a) by {
                    let t0 = es.take(i as int);
                    let t1 = es.take(i + 1);
                    assert(t1.last() == e);
                    let parts_hold = all_hold(parts, a);
                    assert(parts_hold == equation_holds(e, a)) by {
                        if e.kind == EquationKind::Eq {
                            assert(parts_hold ==> equation_holds(parts[0], a) && equation_holds(parts[1], a));
                        } else {
                            assert(parts_hold ==> equation_holds(parts[0], a));
                        }
                    }
                    assert(all_hold(t1, a) == (all_hold(t0, a) && equation_holds(e, a))) by {
                        if all_hold(t1, a) {
                            assert(equation_holds(t1[i as int], a));
                            assert forall|jj: int| 0 <= jj < t0.len() implies #[trigger] equation_holds(t0[jj], a) by {
                                assert(t1[jj] == t0[jj]);
                            }
                        }
                        if all_hold(t0, a) && equation_holds(e, a) {
                            assert forall|jj: int| 0 <= jj < t1.len() implies #[trigger] equation_holds(t1[jj], a) by {
                                if jj < i {
                                    assert(t1[jj] == t0[jj]);
                                }
                            }
                        }
                    }
                    assert(all_hold(equation_list@, a) == (all_hold(before, a) && parts_hold)) by {
                        if all_hold(equation_list@, a) {
                            assert forall|jj: int| 0 <= jj < before.len() implies #[trigger] equation_holds(before[jj], a) by {
                                assert(equation_list@[jj] == before[jj]);
                            }
                            assert forall|jj: int| 0 <= jj < parts.len() implies #[trigger] equation_holds(parts[jj], a) by {
                                assert(equation_list@[before.len() + jj] == parts[jj]);
                            }
                        }
                        if all_hold(before, a) && parts_hold {
                            assert forall|jj: int| 0 <= jj < equation_list@.len() implies #[trigger] equation_holds(equation_list@[jj], a) by {
                                if jj < before.len() {
                                    assert(equation_list@[jj] == before[jj]);
                                } else {
                                    assert(equation_list@[jj] == parts[jj - before.len()]);
                                }
                            }
                        }
                    }
                }
            }
            i = i + 1;
        }
        proof {
            assert(es.take(es.len() as int) =~= es);
        }
        let mut normalized: Vec<Equation> = Vec::new();
        let mut j: usize = 0;
        while j < equation_list.len()
            invariant
                0 <= j <= equation_list@.len(),
                n == opb_file.max_name_index,
                forall|jj: int| 0 <= jj < equation_list@.len() ==> {
                    &&& (#[trigger] equation_list@[jj]).kind != EquationKind::Eq
                    &&& within_limits(equation_list@[jj])
                    &&& forall|t: int| 0 <= t < equation_list@[jj].lhs@.len() ==> (#[trigger] equation_list@[jj].lhs@[t]).variable_index < n
                    &&& faithful(*opb_file) ==> faithful_equation(equation_list@[jj])
                    &&& nonzero_file(*opb_file) ==> nonzero_totals(equation_list@[jj])
                },
                normalized@.len() == j,
                forall|jj: int| 0 <= jj < j ==> {
                    &&& is_normal(#[trigger] normalized@[jj])
                    &&& abs_sum(normalized@[jj].lhs@) < i128::MAX
                    &&& forall|k: usize| summand_vars(normalized@[jj].lhs@).contains(k) ==> k < n
                    &&& faithful(*opb_file) ==> forall|a: Seq<bool>| equation_holds(normalized@[jj], a) == equation_holds(equation_list@[jj], a)
                    &&& nonzero_file(*opb_file) ==> forall|t: int| 0 <= t < normalized@[jj].lhs@.len() ==> (#[trigger] normalized@[jj].lhs@[t]).factor > 0
                },
            decreases equation_list@.len() - j,
        {
            let ne = normalize_equation(&equation_list[j]);
            proof {
                let e = equation_list@[j as int];
                lemma_summand_vars(e.lhs@);
                lemma_summand_vars(ne.lhs@);
                assert forall|k: usize| summand_vars(ne.lhs@).contains(k) implies k < n by {
                    let t = choose|t: int| 0 <= t < e.lhs@.len() && e.lhs@[t].variable_index as usize == k;
                    assert(e.lhs@[t].variable_index < n);
                }
            }
            normalized.push(ne);
            proof {
                assert forall|jj: int| 0 <= jj < j + 1 implies {
                    &&& is_normal(#[trigger] normalized@[jj])
                    &&& abs_sum(normalized@[jj].lhs@) < i128::MAX
                    &&& forall|k: usize| summand_vars(normalized@[jj].lhs@).contains(k) ==> k < n
                    &&& faithful(*opb_file) ==> forall|a: Seq<bool>| equation_holds(normalized@[jj], a) == equation_holds(equation_list@[jj], a)
                    &&& nonzero_file(*opb_file) ==> forall|t: int| 0 <= t < normalized@[jj].lhs@.len() ==> (#[trigger] normalized@[jj].lhs@[t]).factor > 0
                } by {
                    if jj == j {
                        if nonzero_file(*opb_file) {
                            assert(nonzero_totals(equation_list@[jj]));
                        }
                        assert(normalized@[jj] == ne);
                        assert(within_limits(equation_list@[jj]));
                        if faithful(*opb_file) {
                            assert(faithful_equation(equation_list@[jj]));
                            assert forall|a: Seq<bool>| equation_holds(normalized@[jj], a) == equation_holds(equation_list@[jj], a) by {
                                assert(equation_holds(ne, a) == equation_holds(equation_list@[j as int], a));
                            }
                        }
                    }
                }
            }
            j = j + 1;
        }
        let mut pseudo_boolean_formula = PseudoBooleanFormula {
            constraints: Vec::new(),
            number_variables: opb_file.max_name_index,
            constraints_by_variable: Vec::new(),
            name_map: name_map_clone(&opb_file.name_map),
        };
        let mut v: u32 = 0;
        while v < opb_file.max_name_index
            invariant
                0 <= v <= n,
                n == opb_file.max_name_index,
                pseudo_boolean_formula.constraints_by_variable@.len() == v,
                forall|u: int| 0 <= u < v ==> (#[trigger] pseudo_boolean_formula.constraints_by_variable@[u])@.len() == 0,
                pseudo_boolean_formula.constraints@.len() == 0,
                pseudo_boolean_formula.number_variables == n,
                name_pairs(pseudo_boolean_formula.name_map) == name_pairs(opb_file.name_map),
            decreases n - v,
        {
            pseudo_boolean_formula.constraints_by_variable.push(Vec::new());
            v = v + 1;
        }
        let mut constraint_counter: usize = 0;
        while constraint_counter < normalized.len()
            invariant
                0 <= constraint_counter <= normalized@.len(),
                n == opb_file.max_name_index,
                n > 0,
                pseudo_boolean_formula.number_variables == n,
                pseudo_boolean_formula.constraints_by_variable@.len() == n,
                pseudo_boolean_formula.constraints@.len() == constraint_counter,
                name_pairs(pseudo_boolean_formula.name_map) == name_pairs(opb_file.name_map),
                forall|jj: int| 0 <= jj < normalized@.len() ==> {
                    &&& is_normal(#[trigger] normalized@[jj])
                    &&& abs_sum(normalized@[jj].lhs@) < i128::MAX
                    &&& forall|k: usize| summand_vars(normalized@[jj].lhs@).contains(k) ==> k < n
                    &&& nonzero_file(*opb_file) ==> forall|t: int| 0 <= t < normalized@[jj].lhs@.len() ==> (#[trigger] normalized@[jj].lhs@[t]).factor > 0
                },
                forall|ci: int| 0 <= ci < constraint_counter ==> {
                    let c = #[trigger] pseudo_boolean_formula.constraints@[ci];
                    &&& c.wf()
                    &&& c.rec().is_empty()
                    &&& c.index == ConstraintIndex::NormalConstraintIndex(ci as usize)
                    &&& c.literals@ == literals_of(normalized@[ci].lhs@)
                    &&& c.degree == if normalized@[ci].rhs < 0 { 0 } else { normalized@[ci].rhs }
                    &&& c.constraint_type == (if normalized@[ci].kind == EquationKind::Ge || normalized@[ci].rhs < 0 { ConstraintType::GreaterEqual } else { ConstraintType::NotEqual })
                    &&& c.vars() == summand_vars(normalized@[ci].lhs@)
                    &&& first_max(c.literals@, c.max_literal)
                    &&& forall|k: usize| #[trigger] c.vars().contains(k) ==> exists|jj: int|
                        0 <= jj < pseudo_boolean_formula.constraints_by_variable@[k as int]@.len()
                        && pseudo_boolean_formula.constraints_by_variable@[k as int]@[jj] == ci
                },
                forall|u: int, j1: int, j2: int| 0 <= u < n && 0 <= j1 < j2 < pseudo_boolean_formula.constraints_by_variable@[u]@.len()
                    ==> #[trigger] pseudo_boolean_formula.constraints_by_variable@[u]@[j1]
                        < #[trigger] pseudo_boolean_formula.constraints_by_variable@[u]@[j2],
                forall|u: int, jj: int| 0 <= u < n && 0 <= jj < pseudo_boolean_formula.constraints_by_variable@[u]@.len() ==> {
                    &&& (#[trigger] pseudo_boolean_formula.constraints_by_variable@[u]@[jj]) < constraint_counter
                    &&& pseudo_boolean_formula.constraints@[pseudo_boolean_formula.constraints_by_variable@[u]@[jj] as int].vars().contains(u as usize)
                },
            decreases normalized@.len() - constraint_counter,
        {
            let ghost ne = normalized@[constraint_counter as int];
            let ghost cbv0 = pseudo_boolean_formula.constraints_by_variable@;
            let ghost cs0 = pseudo_boolean_formula.constraints@;
            proof {
                lemma_summand_vars(ne.lhs@);
                assert forall|t: int| 0 <= t < ne.lhs@.len() implies (#[trigger] ne.lhs@[t]).variable_index < cbv0.len() by {
                    assert(summand_vars(ne.lhs@).contains(ne.lhs@[t].variable_index as usize));
                }
            }
            let constraint = constraint_from_equation(&normalized[constraint_counter], constraint_counter,
                &mut pseudo_boolean_formula.constraints_by_variable);
            pseudo_boolean_formula.constraints.push(constraint);
            proof {
                let cbv = pseudo_boolean_formula.constraints_by_variable@;
                let cs = pseudo_boolean_formula.constraints@;
                assert(cs == cs0.push(constraint));
                assert forall|ci: int| 0 <= ci < constraint_counter + 1 implies {
                    let c = #[trigger] cs[ci];
                    &&& c.wf()
                    &&& c.rec().is_empty()
                    &&& c.index == ConstraintIndex::NormalConstraintIndex(ci as usize)
                    &&& c.literals@ == literals_of(normalized@[ci].lhs@)
                    &&& c.degree == if normalized@[ci].rhs < 0 { 0 } else { normalized@[ci].rhs }
                    &&& c.constraint_type == (if normalized@[ci].kind == EquationKind::Ge || normalized@[ci].rhs < 0 { ConstraintType::GreaterEqual } else { ConstraintType::NotEqual })
                    &&& c.vars() == summand_vars(normalized@[ci].lhs@)
                    &&& first_max(c.literals@, c.max_literal)
                    &&& forall|k: usize| #[trigger] c.vars().contains(k) ==> exists|jj: int|
                        0 <= jj < cbv[k as int]@.len() && cbv[k as int]@[jj] == ci
                } by {
                    if ci < constraint_counter {
                        assert(cs[ci] == cs0[ci]);
                        assert forall|k: usize| #[trigger] cs[ci].vars().contains(k) implies exists|jj: int|
                            0 <= jj < cbv[k as int]@.len() && cbv[k as int]@[jj] == ci by {
                            assert(cs0[ci].vars().contains(k));
                            let jj = choose|jj: int| 0 <= jj < cbv0[k as int]@.len() && cbv0[k as int]@[jj] == ci;
                            assert(k < n);
                            assert(list_extends(cbv0[k as int]@, cbv[k as int]@, constraint_counter as usize, constraint.vars().contains(k)));
                            assert(cbv[k as int]@.take(cbv0[k as int]@.len() as int)[jj] == cbv0[k as int]@[jj]);
                        }
                    } else {
                        assert(cs[ci] == constraint);
                    }
                }
                assert forall|u: int, j1: int, j2: int| 0 <= u < n && 0 <= j1 < j2 < cbv[u]@.len()
                    implies #[trigger] cbv[u]@[j1] < #[trigger] cbv[u]@[j2] by {
                    assert(list_extends(cbv0[u]@, cbv[u]@, constraint_counter as usize, constraint.vars().contains(u as usize)));
                    assert(cbv[u]@.take(cbv0[u]@.len() as int)[j1] == cbv0[u]@[j1]);
                    if j2 < cbv0[u]@.len() {
                        assert(cbv[u]@.take(cbv0[u]@.len() as int)[j2] == cbv0[u]@[j2]);
                    } else {
                        assert(cbv0[u]@[j1] < constraint_counter);
                    }
                }
                assert forall|u: int, jj: int| 0 <= u < n && 0 <= jj < cbv[u]@.len() implies {
                    &&& (#[trigger] cbv[u]@[jj]) < constraint_counter + 1
                    &&& cs[cbv[u]@[jj] as int].vars().contains(u as usize)
                } by {
                    assert(list_extends(cbv0[u]@, cbv[u]@, constraint_counter as usize, constraint.vars().contains(u as usize)));
                    if jj < cbv0[u]@.len() {
                        assert(cbv[u]@.take(cbv0[u]@.len() as int)[jj] == cbv0[u]@[jj]);
                        assert(cbv[u]@[jj] == cbv0[u]@[jj]);
                    }
                }
            }
            constraint_counter = constraint_counter + 1;
        }
        proof {
            let cs = pseudo_boolean_formula.constraints@;
            assert forall|ci: int| 0 <= ci < cs.len() implies {
                &&& (#[trigger] cs[ci]).wf()
                &&& cs[ci].index == ConstraintIndex::NormalConstraintIndex(ci as usize)
                &&& forall|k: usize| #[trigger] cs[ci].vars().contains(k) ==> {
                    &&& k < pseudo_boolean_formula.number_variables
                    &&& exists|jj: int| 0 <= jj < pseudo_boolean_formula.constraints_by_variable@[k as int]@.len()
                        && pseudo_boolean_formula.constraints_by_variable@[k as int]@[jj] == ci
                }
            } by {
                assert(forall|k: usize| summand_vars(normalized@[ci].lhs@).contains(k) ==> k < n);
            }
            if nonzero_file(*opb_file) {
                assert forall|ci: int, k: usize| 0 <= ci < cs.len() && #[trigger] cs[ci].vars().contains(k)
                    implies cs[ci].literals@[k].factor > 0 by {
                    let lhs = normalized@[ci].lhs@;
                    lemma_literals_of(lhs);
                    lemma_summand_vars(lhs);
                    let j = choose|j: int| 0 <= j < lhs.len() && lhs[j].variable_index as usize == k;
                    assert(lhs[j].factor > 0);
                }
            }
            if faithful(*opb_file) {
                assert forall|a: Seq<bool>| #[trigger] holds_all(cs, a) == opb_holds(*opb_file, a) by {
                    assert forall|ci: int| 0 <= ci < cs.len() implies (#[trigger] cs[ci]).holds(a) == equation_holds(normalized@[ci], a) by {
                        lemma_constraint_semantics(cs[ci], normalized@[ci], a);
                    }
                    assert(all_hold(equation_list@, a) == all_hold(es, a));
                    if holds_all(cs, a) {
                        assert forall|jj: int| 0 <= jj < equation_list@.len() implies #[trigger] equation_holds(equation_list@[jj], a) by {
                            assert(cs[jj].holds(a));
                        }
                        assert(all_hold(es, a));
                        assert forall|i2: int| 0 <= i2 < opb_file.equations@.len() implies #[trigger] equation_holds(opb_file.equations@[i2], a) by {
                            assert(equation_holds(es[i2], a));
                        }
                    }
                    if opb_holds(*opb_file, a) {
                        assert forall|i2: int| 0 <= i2 < es.len() implies #[trigger] equation_holds(es[i2], a) by {
                            assert(equation_holds(opb_file.equations@[i2], a));
                        }
                        assert(all_hold(equation_list@, a));
                        assert forall|ci: int| 0 <= ci < cs.len() implies (#[trigger] cs[ci]).holds(a) by {
                            assert(equation_holds(equation_list@[ci], a));
                        }
                    }
                }
            }
        }
        pseudo_boolean_formula
    }
}


/// The number of total assignments of `n` variables that begin with `prefix` and satisfy every
/// equation of the file.
pub open spec fn file_models_from(f: OPBFile, n: nat, prefix: Seq<bool>) -> nat
    decreases n - prefix.len(),
{
    if prefix.len() >= n {
        if opb_holds(f, prefix) {
            1
        } else {
            0
        }
    } else {
        file_models_from(f, n, prefix.push(false)) + file_models_from(f, n, prefix.push(true))
    }
}

/// The number of total assignments of `n` variables that satisfy every equation of the file.
pub open spec fn file_model_count(f: OPBFile, n: nat) -> nat {
    file_models_from(f, n, Seq::empty())
}

proof fn lemma_file_models_from(f: OPBFile, cs: Seq<Constraint>, n: nat, prefix: Seq<bool>)
    requires
        forall|a: Seq<bool>| #[trigger] holds_all(cs, a) == opb_holds(f, a),
        prefix.len() <= n,
    ensures
        mc_from(cs, all_free(n), prefix) == file_models_from(f, n, prefix),
    decreases n - prefix.len(),
{
    if prefix.len() < n {
        lemma_file_models_from(f, cs, n, prefix.push(false));
        lemma_file_models_from(f, cs, n, prefix.push(true));
    } else {
        assert(ext(all_free(n), prefix));
        assert(holds_all(cs, prefix) == opb_holds(f, prefix));
    }
}

/// Constraints that hold exactly where the equations of a file hold have as many models over `n`
/// variables as the file has.
pub proof fn lemma_file_model_count(f: OPBFile, cs: Seq<Constraint>, n: nat)
    requires
        forall|a: Seq<bool>| #[trigger] holds_all(cs, a) == opb_holds(f, a),
    ensures
        model_count(cs, n) == file_model_count(f, n),
{
    lemma_file_models_from(f, cs, n, Seq::empty());
}


/// The absolute value of `x`.
fn magnitude(x: i128) -> (r: u128)
    ensures
        r as int == abs(x as int),
{
    if x < 0 {
        ((-(x + 1)) as u128) + 1
    } else {
        x as u128
    }
}

/// The sum of the absolute values of the factors, when it fits in `u128`.
fn abs_sum_exec(lhs: &Vec<Summand>) -> (r: Option<u128>)
    ensures
        match r {
            Some(v) => v == abs_sum(lhs@),
            None => abs_sum(lhs@) > u128::MAX,
        },
{
    let mut total: u128 = 0;
    let mut i: usize = 0;
    proof {
        lemma_abs_sum_bounds(lhs@);
        assert(lhs@.take(0) =~= Seq::<Summand>::empty());
    }
    while i < lhs.len()
        invariant
            0 <= i <= lhs@.len(),
            total == abs_sum(lhs@.take(i as int)),
            forall|t: int| 0 <= t <= lhs@.len() ==> #[trigger] abs_sum(lhs@.take(t)) <= abs_sum(lhs@),
        decreases lhs@.len() - i,
    {
        let m = magnitude(lhs[i].factor);
        proof {
            let taken = lhs@.take(i + 1);
            assert(taken.drop_last() =~= lhs@.take(i as int));
            assert(taken.last() == lhs@[i as int]);
        }
        match total.checked_add(m) {
            None => {
                assert(abs_sum(lhs@.take(i + 1)) <= abs_sum(lhs@));
                return None;
            },
            Some(v) => {
                total = v;
            },
        }
        i = i + 1;
    }
    proof {
        assert(lhs@.take(lhs@.len() as int) =~= lhs@);
    }
    Some(total)
}

/// Whether `PseudoBooleanFormula::new` can take the file: it names at least one variable, every
/// summand's variable is below `max_name_index`, and the numbers of every equation stay within
/// the bounds its rewriting needs.
pub fn fits_formula(opb_file: &OPBFile) -> (r: bool)
    ensures
        r == (opb_file.max_name_index > 0 && forall|i: int| 0 <= i < opb_file.equations@.len() ==> {
            &&& within_limits(#[trigger] opb_file.equations@[i])
            &&& forall|j: int| 0 <= j < opb_file.equations@[i].lhs@.len()
                ==> (#[trigger] opb_file.equations@[i].lhs@[j]).variable_index < opb_file.max_name_index
        }),
{
    if opb_file.max_name_index == 0 {
        return false;
    }
    let n = opb_file.max_name_index;
    let mut i: usize = 0;
    while i < opb_file.equations.len()
        invariant
            0 <= i <= opb_file.equations@.len(),
            n == opb_file.max_name_index,
            forall|i2: int| 0 <= i2 < i ==> {
                &&& within_limits(#[trigger] opb_file.equations@[i2])
                &&& forall|j: int| 0 <= j < opb_file.equations@[i2].lhs@.len()
                    ==> (#[trigger] opb_file.equations@[i2].lhs@[j]).variable_index < n
            },
        decreases opb_file.equations@.len() - i,
    {
        let equation = &opb_file.equations[i];
        let total = match abs_sum_exec(&equation.lhs) {
            None => {
                assert(!within_limits(opb_file.equations@[i as int]));
                return false;
            },
            Some(v) => v,
        };
        let rhs = magnitude(equation.rhs);
        if total >= 170141183460469231731687303715884105727u128 {
            assert(!within_limits(opb_file.equations@[i as int]));
            return false;
        }
        if rhs >= 170141183460469231731687303715884105727u128 {
            assert(!within_limits(opb_file.equations@[i as int]));
            return false;
        }
        if total >= 170141183460469231731687303715884105727u128 - rhs {
            assert(!within_limits(opb_file.equations@[i as int]));
            return false;
        }
        assert(within_limits(opb_file.equations@[i as int]));
        let mut j: usize = 0;
        while j < equation.lhs.len()
            invariant
                0 <= j <= equation.lhs@.len(),
                n == opb_file.max_name_index,
                i < opb_file.equations@.len(),
                *equation == opb_file.equations@[i as int],
                within_limits(opb_file.equations@[i as int]),
                forall|j2: int| 0 <= j2 < j ==> (#[trigger] equation.lhs@[j2]).variable_index < n,
            decreases equation.lhs@.len() - j,
        {
            if equation.lhs[j].variable_index >= n {
                assert(opb_file.equations@[i as int].lhs@[j as int].variable_index >= n);
                assert(within_limits(opb_file.equations@[i as int]));
                return false;
            }
            j = j + 1;
        }
        i = i + 1;
    }
    true
}

} // verus!
