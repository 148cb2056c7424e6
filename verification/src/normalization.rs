//! Rewriting `.opb` equations into `>=` and `!=` constraints whose factors are non-negative and
//! whose variables occur once each.

use vstd::prelude::*;
use std::collections::HashSet;
use crate::opb::{Equation, EquationKind, Summand, summand_value, lhs_value, relation_holds, equation_holds};
use crate::fsum::{fsum, lemma_fsum_insert, lemma_fsum_remove, lemma_fsum_congr};

verus! {

/// The absolute value.
pub open spec fn abs(x: int) -> int {
    if x < 0 {
        -x
    } else {
        x
    }
}

/// The sum of `w` over the summands.
pub open spec fn seq_sum(lhs: Seq<Summand>, w: spec_fn(Summand) -> int) -> int
    decreases lhs.len(),
{
    if lhs.len() == 0 {
        0
    } else {
        seq_sum(lhs.drop_last(), w) + w(lhs.last())
    }
}

/// Sums of pointwise equal weights are equal.
pub proof fn lemma_seq_sum_congr(lhs: Seq<Summand>, w1: spec_fn(Summand) -> int, w2: spec_fn(Summand) -> int)
    requires
        forall|s: Summand| #[trigger] w1(s) == w2(s),
    ensures
        seq_sum(lhs, w1) == seq_sum(lhs, w2),
    decreases lhs.len(),
{
    if lhs.len() > 0 {
        lemma_seq_sum_congr(lhs.drop_last(), w1, w2);
    }
}

/// The sum of the absolute values of the factors.
pub open spec fn abs_sum(lhs: Seq<Summand>) -> int {
    seq_sum(lhs, |s: Summand| abs(s.factor as int))
}

/// The sum of the negative factors.
pub open spec fn neg_part(lhs: Seq<Summand>) -> int {
    seq_sum(lhs, |s: Summand| if s.factor < 0 { s.factor as int } else { 0 })
}

/// The variables of the summands.
pub open spec fn summand_vars(lhs: Seq<Summand>) -> Set<usize>
    decreases lhs.len(),
{
    if lhs.len() == 0 {
        Set::empty()
    } else {
        summand_vars(lhs.drop_last()).insert(lhs.last().variable_index as usize)
    }
}

/// No variable occurs twice.
pub open spec fn distinct_vars(lhs: Seq<Summand>) -> bool {
    forall|i: int, j: int| 0 <= i < j < lhs.len() ==> lhs[i].variable_index != lhs[j].variable_index
}

/// All summands of a variable have the same polarity.
pub open spec fn same_polarity(lhs: Seq<Summand>) -> bool {
    forall|i: int, j: int| 0 <= i < lhs.len() && 0 <= j < lhs.len() && lhs[i].variable_index == lhs[j].variable_index
        ==> lhs[i].positive == lhs[j].positive
}

/// A summand of variable `k`.
pub open spec fn pick(lhs: Seq<Summand>, k: usize) -> Summand {
    lhs[choose|j: int| 0 <= j < lhs.len() && lhs[j].variable_index as usize == k]
}

/// The weight `w` of the summand of each variable.
pub open spec fn picked(lhs: Seq<Summand>, w: spec_fn(Summand) -> int) -> spec_fn(usize) -> int {
    |k: usize| w(pick(lhs, k))
}

/// The sum of the factors of variable `k`.
pub open spec fn var_total(lhs: Seq<Summand>, k: usize) -> int
    decreases lhs.len(),
{
    if lhs.len() == 0 {
        0
    } else {
        var_total(lhs.drop_last(), k) + if lhs.last().variable_index as usize == k { lhs.last().factor as int } else { 0 }
    }
}

/// What variable `k` contributes to the summands' value under `a`, all its summands taken together.
pub open spec fn grouped_w(lhs: Seq<Summand>, a: Seq<bool>) -> spec_fn(usize) -> int {
    |k: usize| if a[k as int] == pick(lhs, k).positive { var_total(lhs, k) } else { 0 }
}

/// The right-hand side of a `!=` equation once the negative factors of its variables are moved to
/// the right.
pub open spec fn normalized_rhs(e: Equation) -> int {
    e.rhs - fsum(summand_vars(e.lhs@), |k: usize| if var_total(e.lhs@, k) < 0 { var_total(e.lhs@, k) } else { 0 })
}

/// The numbers of the equation are small enough for every rewriting step to stay within `i128`.
pub open spec fn within_limits(e: Equation) -> bool {
    abs_sum(e.lhs@) + abs(e.rhs as int) < i128::MAX
}

pub proof fn lemma_summand_vars(lhs: Seq<Summand>)
    ensures
        summand_vars(lhs).finite(),
        forall|k: usize| #[trigger] summand_vars(lhs).contains(k) <==> exists|j: int| 0 <= j < lhs.len() && lhs[j].variable_index as usize == k,
    decreases lhs.len(),
{
    if lhs.len() > 0 {
        let l = lhs.drop_last();
        lemma_summand_vars(l);
        assert forall|k: usize| #[trigger] summand_vars(lhs).contains(k) <==> exists|j: int| 0 <= j < lhs.len() && lhs[j].variable_index as usize == k by {
            if summand_vars(lhs).contains(k) && k != lhs.last().variable_index as usize {
                let j = choose|j: int| 0 <= j < l.len() && l[j].variable_index as usize == k;
                assert(lhs[j] == l[j]);
            }
            if exists|j: int| 0 <= j < lhs.len() && lhs[j].variable_index as usize == k {
                let j = choose|j: int| 0 <= j < lhs.len() && lhs[j].variable_index as usize == k;
                if j < lhs.len() - 1 {
                    assert(l[j] == lhs[j]);
                }
            }
        }
    }
}

/// A variable that does not occur has total factor zero.
pub proof fn lemma_var_total_absent(lhs: Seq<Summand>, k: usize)
    requires
        !summand_vars(lhs).contains(k),
    ensures
        var_total(lhs, k) == 0,
    decreases lhs.len(),
{
    if lhs.len() > 0 {
        lemma_var_total_absent(lhs.drop_last(), k);
    }
}

/// Sums over summands whose variables are distinct are sums over their variables.
pub proof fn lemma_distinct_sum(lhs: Seq<Summand>, w: spec_fn(Summand) -> int)
    requires
        distinct_vars(lhs),
    ensures
        seq_sum(lhs, w) == fsum(summand_vars(lhs), picked(lhs, w)),
    decreases lhs.len(),
{
    lemma_summand_vars(lhs);
    if lhs.len() > 0 {
        let l = lhs.drop_last();
        let k = lhs.last().variable_index as usize;
        lemma_summand_vars(l);
        lemma_distinct_sum(l, w);
        let wl = picked(l, w);
        let wf = picked(lhs, w);
        assert(!summand_vars(l).contains(k)) by {
            if summand_vars(l).contains(k) {
                let j = choose|j: int| 0 <= j < l.len() && l[j].variable_index as usize == k;
                assert(lhs[j] == l[j]);
                assert(lhs[j].variable_index != lhs[lhs.len() - 1].variable_index);
            }
        }
        lemma_fsum_insert(summand_vars(l), wf, k);
        assert forall|u: usize| summand_vars(l).contains(u) implies wf(u) == wl(u) by {
            let j = choose|j: int| 0 <= j < lhs.len() && lhs[j].variable_index as usize == u;
            let j2 = choose|j2: int| 0 <= j2 < l.len() && l[j2].variable_index as usize == u;
            assert(l[j2] == lhs[j2]);
            if j != j2 {
                if j < j2 {
                    assert(lhs[j].variable_index != lhs[j2].variable_index);
                } else {
                    assert(lhs[j2].variable_index != lhs[j].variable_index);
                }
            }
        }
        lemma_fsum_congr(summand_vars(l), wf, wl);
        let jk = choose|j: int| 0 <= j < lhs.len() && lhs[j].variable_index as usize == k;
        if jk != lhs.len() - 1 {
            assert(lhs[jk].variable_index != lhs[lhs.len() - 1].variable_index);
        }
    }
}

/// Under a common polarity per variable, the value of the summands is the sum over their variables
/// of the grouped contributions.
pub proof fn lemma_grouping(lhs: Seq<Summand>, a: Seq<bool>)
    requires
        same_polarity(lhs),
    ensures
        lhs_value(lhs, a) == fsum(summand_vars(lhs), grouped_w(lhs, a)),
    decreases lhs.len(),
{
    lemma_summand_vars(lhs);
    if lhs.len() > 0 {
        let l = lhs.drop_last();
        let s = lhs.last();
        let k = s.variable_index as usize;
        lemma_summand_vars(l);
        assert(same_polarity(l)) by {
            assert forall|i: int, j: int| 0 <= i < l.len() && 0 <= j < l.len() && l[i].variable_index == l[j].variable_index
                implies l[i].positive == l[j].positive by {
                assert(l[i] == lhs[i] && l[j] == lhs[j]);
            }
        }
        lemma_grouping(l, a);
        let gl = grouped_w(l, a);
        let g = grouped_w(lhs, a);
        let vl = summand_vars(l);
        assert(pick(lhs, k).positive == s.positive) by {
            let j = choose|j: int| 0 <= j < lhs.len() && lhs[j].variable_index as usize == k;
            assert(lhs[lhs.len() - 1] == s);
        }
        assert forall|u: usize| vl.contains(u) && u != k implies g(u) == gl(u) by {
            let j = choose|j: int| 0 <= j < lhs.len() && lhs[j].variable_index as usize == u;
            let j2 = choose|j2: int| 0 <= j2 < l.len() && l[j2].variable_index as usize == u;
            assert(l[j2] == lhs[j2]);
        }
        if vl.contains(k) {
            assert(summand_vars(lhs) =~= vl);
            assert(pick(l, k).positive == s.positive) by {
                let j2 = choose|j2: int| 0 <= j2 < l.len() && l[j2].variable_index as usize == k;
                assert(l[j2] == lhs[j2]);
                assert(lhs[lhs.len() - 1] == s);
            }
            lemma_fsum_remove(vl, g, k);
            lemma_fsum_remove(vl, gl, k);
            lemma_fsum_congr(vl.remove(k), g, gl);
        } else {
            lemma_var_total_absent(l, k);
            lemma_fsum_insert(vl, g, k);
            lemma_fsum_congr(vl, g, gl);
        }
    }
}

/// The summands with their factors negated.
pub open spec fn negated(lhs: Seq<Summand>) -> Seq<Summand> {
    lhs.map_values(|s: Summand| Summand { variable_index: s.variable_index, factor: (-s.factor) as i128, positive: s.positive })
}

/// The summands with every negative factor made positive on the opposite literal.
pub open spec fn flipped(lhs: Seq<Summand>) -> Seq<Summand> {
    lhs.map_values(|s: Summand|
        if s.factor < 0 {
            Summand { variable_index: s.variable_index, factor: (-s.factor) as i128, positive: !s.positive }
        } else {
            s
        })
}

/// The absolute values of the factors bound each factor, each prefix and each variable's total.
pub proof fn lemma_abs_sum_bounds(lhs: Seq<Summand>)
    ensures
        abs_sum(lhs) >= 0,
        forall|j: int| 0 <= j < lhs.len() ==> abs(#[trigger] lhs[j].factor as int) <= abs_sum(lhs),
        forall|i: int| 0 <= i <= lhs.len() ==> #[trigger] abs_sum(lhs.take(i)) <= abs_sum(lhs),
        forall|k: usize| abs(#[trigger] var_total(lhs, k)) <= abs_sum(lhs),
        abs(neg_part(lhs)) <= abs_sum(lhs),
    decreases lhs.len(),
{
    if lhs.len() > 0 {
        let l = lhs.drop_last();
        lemma_abs_sum_bounds(l);
        assert forall|j: int| 0 <= j < lhs.len() implies abs(#[trigger] lhs[j].factor as int) <= abs_sum(lhs) by {
            if j < l.len() {
                assert(l[j] == lhs[j]);
            }
        }
        assert forall|k: usize| abs(#[trigger] var_total(lhs, k)) <= abs_sum(lhs) by {
            assert(abs(var_total(l, k)) <= abs_sum(l));
        }
        assert forall|i: int| 0 <= i <= lhs.len() implies #[trigger] abs_sum(lhs.take(i)) <= abs_sum(lhs) by {
            if i < lhs.len() {
                assert(lhs.take(i) =~= l.take(i));
            } else {
                assert(lhs.take(i) =~= lhs);
            }
        }
    }
}

/// Negating the factors negates the value and keeps the absolute values.
pub proof fn lemma_negated(lhs: Seq<Summand>, a: Seq<bool>)
    requires
        forall|j: int| 0 <= j < lhs.len() ==> (#[trigger] lhs[j]).factor > i128::MIN,
    ensures
        lhs_value(negated(lhs), a) == -lhs_value(lhs, a),
        abs_sum(negated(lhs)) == abs_sum(lhs),
        summand_vars(negated(lhs)) == summand_vars(lhs),
        same_polarity(lhs) ==> same_polarity(negated(lhs)),
    decreases lhs.len(),
{
    if lhs.len() > 0 {
        let l = lhs.drop_last();
        assert(negated(lhs).drop_last() =~= negated(l));
        lemma_negated(l, a);
    }
}

/// Moving the negative factors to the opposite literals lowers the value by their sum.
pub proof fn lemma_flipped(lhs: Seq<Summand>, a: Seq<bool>)
    requires
        forall|j: int| 0 <= j < lhs.len() ==> (#[trigger] lhs[j]).factor > i128::MIN,
    ensures
        lhs_value(flipped(lhs), a) == lhs_value(lhs, a) - neg_part(lhs),
        abs_sum(flipped(lhs)) == abs_sum(lhs),
        summand_vars(flipped(lhs)) == summand_vars(lhs),
        distinct_vars(lhs) ==> distinct_vars(flipped(lhs)),
        forall|j: int| 0 <= j < lhs.len() ==> (#[trigger] flipped(lhs)[j]).factor >= 0,
        forall|j: int| 0 <= j < lhs.len() ==> (#[trigger] flipped(lhs)[j]).variable_index == lhs[j].variable_index,
    decreases lhs.len(),
{
    if lhs.len() > 0 {
        let l = lhs.drop_last();
        assert(flipped(lhs).drop_last() =~= flipped(l));
        lemma_flipped(l, a);
    }
}

/// The absolute totals of the variables add up to at most the absolute values of the factors.
pub proof fn lemma_totals_bounded(lhs: Seq<Summand>)
    ensures
        fsum(summand_vars(lhs), |k: usize| abs(var_total(lhs, k))) <= abs_sum(lhs),
    decreases lhs.len(),
{
    lemma_summand_vars(lhs);
    if lhs.len() > 0 {
        let l = lhs.drop_last();
        let k = lhs.last().variable_index as usize;
        let w = |u: usize| abs(var_total(lhs, u));
        let wl = |u: usize| abs(var_total(l, u));
        lemma_summand_vars(l);
        lemma_totals_bounded(l);
        let vl = summand_vars(l);
        if vl.contains(k) {
            assert(summand_vars(lhs) =~= vl);
            lemma_fsum_remove(vl, w, k);
            lemma_fsum_remove(vl, wl, k);
            lemma_fsum_congr(vl.remove(k), w, wl);
        } else {
            lemma_var_total_absent(l, k);
            lemma_fsum_insert(vl, w, k);
            lemma_fsum_congr(vl, w, wl);
        }
    }
}

/// A copy of the summands.
fn copy_summands(lhs: &Vec<Summand>) -> (r: Vec<Summand>)
    ensures
        r@ == lhs@,
{
    let mut r: Vec<Summand> = Vec::new();
    let mut i: usize = 0;
    while i < lhs.len()
        invariant
            0 <= i <= lhs.len(),
            r@ == lhs@.take(i as int),
        decreases lhs.len() - i,
    {
        r.push(lhs[i]);
        i = i + 1;
        proof {
            assert(r@ =~= lhs@.take(i as int));
        }
    }
    proof {
        assert(lhs@.take(lhs.len() as int) =~= lhs@);
    }
    r
}

/// A copy of the equation.
fn copy_equation(equation: &Equation) -> (r: Equation)
    ensures
        r@ == equation@,
{
    Equation { lhs: copy_summands(&equation.lhs), rhs: equation.rhs, kind: equation.kind }
}

/// Splits `lhs = rhs` into `lhs >= rhs` and `lhs <= rhs`; other equations stay as they are.
pub fn replace_equal_equations(equation: &Equation) -> (r: Vec<Equation>)
    ensures
        equation.kind == EquationKind::Eq ==> r@.len() == 2 && r@[0]@ == (equation.lhs@, equation.rhs, EquationKind::Ge)
            && r@[1]@ == (equation.lhs@, equation.rhs, EquationKind::Le),
        equation.kind != EquationKind::Eq ==> r@.len() == 1 && r@[0]@ == equation@,
{
    if equation.kind == EquationKind::Eq {
        let e1 = Equation { lhs: copy_summands(&equation.lhs), rhs: equation.rhs, kind: EquationKind::Ge };
        let e2 = Equation { lhs: copy_summands(&equation.lhs), rhs: equation.rhs, kind: EquationKind::Le };
        vec![e1, e2]
    } else {
        vec![copy_equation(equation)]
    }
}

/// The summands with negated factors.
fn negate_summands(lhs: &Vec<Summand>) -> (r: Vec<Summand>)
    requires
        forall|j: int| 0 <= j < lhs@.len() ==> (#[trigger] lhs@[j]).factor > i128::MIN,
    ensures
        r@ == negated(lhs@),
{
    let mut r: Vec<Summand> = Vec::new();
    let mut i: usize = 0;
    while i < lhs.len()
        invariant
            0 <= i <= lhs.len(),
            forall|j: int| 0 <= j < lhs@.len() ==> (#[trigger] lhs@[j]).factor > i128::MIN,
            r@ == negated(lhs@).take(i as int),
        decreases lhs.len() - i,
    {
        let s = lhs[i];
        proof {
            assert(s == lhs@[i as int]);
        }
        r.push(Summand { variable_index: s.variable_index, factor: -s.factor, positive: s.positive });
        i = i + 1;
        proof {
            assert(r@ =~= negated(lhs@).take(i as int));
        }
    }
    proof {
        assert(negated(lhs@).take(lhs.len() as int) =~= negated(lhs@));
    }
    r
}

/// Turns `lhs <= rhs` into `-lhs >= -rhs`; other equations stay as they are.
pub fn replace_le_equations(equation: &Equation) -> (r: Equation)
    requires
        forall|j: int| 0 <= j < equation.lhs@.len() ==> (#[trigger] equation.lhs@[j]).factor > i128::MIN,
        equation.rhs > i128::MIN,
    ensures
        r@ == if equation.kind == EquationKind::Le {
            (negated(equation.lhs@), (-equation.rhs) as i128, EquationKind::Ge)
        } else {
            equation@
        },
{
    if equation.kind == EquationKind::Le {
        Equation { lhs: negate_summands(&equation.lhs), rhs: -equation.rhs, kind: EquationKind::Ge }
    } else {
        copy_equation(equation)
    }
}

/// Turns `lhs < rhs` into `-lhs > -rhs`; other equations stay as they are.
pub fn replace_l_equations(equation: &Equation) -> (r: Equation)
    requires
        forall|j: int| 0 <= j < equation.lhs@.len() ==> (#[trigger] equation.lhs@[j]).factor > i128::MIN,
        equation.rhs > i128::MIN,
    ensures
        r@ == if equation.kind == EquationKind::L {
            (negated(equation.lhs@), (-equation.rhs) as i128, EquationKind::G)
        } else {
            equation@
        },
{
    if equation.kind == EquationKind::L {
        Equation { lhs: negate_summands(&equation.lhs), rhs: -equation.rhs, kind: EquationKind::G }
    } else {
        copy_equation(equation)
    }
}

/// Turns `lhs > rhs` into `lhs >= rhs + 1`; other equations stay as they are.
pub fn replace_g_equations(equation: &Equation) -> (r: Equation)
    requires
        equation.kind == EquationKind::G ==> equation.rhs < i128::MAX,
    ensures
        r@ == if equation.kind == EquationKind::G {
            (equation.lhs@, (equation.rhs + 1) as i128, EquationKind::Ge)
        } else {
            equation@
        },
{
    if equation.kind == EquationKind::G {
        Equation { lhs: copy_summands(&equation.lhs), rhs: equation.rhs + 1, kind: EquationKind::Ge }
    } else {
        copy_equation(equation)
    }
}

/// Moves every negative factor to the opposite literal, adding its absolute value to the
/// right-hand side.
pub fn replace_negative_factors(equation: &Equation) -> (r: Equation)
    requires
        forall|j: int| 0 <= j < equation.lhs@.len() ==> (#[trigger] equation.lhs@[j]).factor > i128::MIN,
        equation.rhs - neg_part(equation.lhs@) <= i128::MAX,
    ensures
        r.lhs@ == flipped(equation.lhs@),
        r.rhs == equation.rhs - neg_part(equation.lhs@),
        r.kind == equation.kind,
        forall|a: Seq<bool>| #[trigger] equation_holds(r, a) == equation_holds(*equation, a),
{
    let ghost lhs = equation.lhs@;
    let mut new_lhs: Vec<Summand> = Vec::new();
    let mut rhs: i128 = equation.rhs;
    proof {
        lemma_neg_part_prefixes(lhs);
    }
    let mut i: usize = 0;
    while i < equation.lhs.len()
        invariant
            0 <= i <= lhs.len(),
            lhs == equation.lhs@,
            forall|j: int| 0 <= j < lhs.len() ==> (#[trigger] lhs[j]).factor > i128::MIN,
            equation.rhs - neg_part(lhs) <= i128::MAX,
            forall|t: int| 0 <= t <= lhs.len() ==> neg_part(lhs) <= #[trigger] neg_part(lhs.take(t)) <= 0,
            new_lhs@ == flipped(lhs).take(i as int),
            rhs == equation.rhs - neg_part(lhs.take(i as int)),
        decreases lhs.len() - i,
    {
        let s = equation.lhs[i];
        proof {
            assert(s == lhs[i as int]);
            let t = lhs.take(i + 1);
            assert(t.drop_last() =~= lhs.take(i as int));
            assert(t.last() == s);
            assert(neg_part(lhs) <= neg_part(t));
        }
        if s.factor < 0 {
            new_lhs.push(Summand { factor: -s.factor, variable_index: s.variable_index, positive: !s.positive });
            rhs = rhs - s.factor;
        } else {
            new_lhs.push(s);
        }
        i = i + 1;
        proof {
            assert(new_lhs@ =~= flipped(lhs).take(i as int));
        }
    }
    proof {
        assert(flipped(lhs).take(lhs.len() as int) =~= flipped(lhs));
        assert(lhs.take(lhs.len() as int) =~= lhs);
    }
    let r = Equation { lhs: new_lhs, rhs: rhs, kind: equation.kind };
    proof {
        assert forall|a: Seq<bool>| #[trigger] equation_holds(r, a) == equation_holds(*equation, a) by {
            lemma_flipped(lhs, a);
        }
    }
    r
}

/// Every prefix's sum of negative factors lies between that of the whole and zero.
proof fn lemma_neg_part_prefixes(lhs: Seq<Summand>)
    ensures
        forall|t: int| 0 <= t <= lhs.len() ==> neg_part(lhs) <= #[trigger] neg_part(lhs.take(t)) <= 0,
    decreases lhs.len(),
{
    if lhs.len() > 0 {
        let l = lhs.drop_last();
        lemma_neg_part_prefixes(l);
        assert(neg_part(lhs) <= neg_part(l));
        assert forall|t: int| 0 <= t <= lhs.len() implies neg_part(lhs) <= #[trigger] neg_part(lhs.take(t)) <= 0 by {
            if t < lhs.len() {
                assert(lhs.take(t) =~= l.take(t));
            } else {
                assert(lhs.take(t) =~= lhs);
                assert(neg_part(l) <= 0) by {
                    assert(l.take(l.len() as int) =~= l);
                }
            }
        }
    } else {
        assert forall|t: int| 0 <= t <= lhs.len() implies neg_part(lhs) <= #[trigger] neg_part(lhs.take(t)) <= 0 by {
            assert(lhs.take(t) =~= lhs);
        }
    }
}

/// Variable `v` first occurs at position `i`.
pub open spec fn first_occurrence(lhs: Seq<Summand>, i: int, v: u32) -> bool {
    &&& 0 <= i < lhs.len()
    &&& lhs[i].variable_index == v
    &&& forall|i2: int| 0 <= i2 < i ==> lhs[i2].variable_index != v
}

/// `s` merges the summands of its variable: it carries their total factor and the polarity of the
/// first of them.
pub open spec fn merged_entry(lhs: Seq<Summand>, s: Summand) -> bool {
    &&& s.factor == var_total(lhs, s.variable_index as usize)
    &&& exists|i: int| first_occurrence(lhs, i, s.variable_index) && lhs[i].positive == s.positive
}

/// The variables of the summands in the order of their first occurrence.
pub open spec fn first_vars(lhs: Seq<Summand>) -> Seq<u32>
    decreases lhs.len(),
{
    if lhs.len() == 0 {
        Seq::empty()
    } else {
        let l = lhs.drop_last();
        first_vars(l) + if summand_vars(l).contains(lhs.last().variable_index as usize) {
            Seq::<u32>::empty()
        } else {
            seq![lhs.last().variable_index]
        }
    }
}

/// Merges the summands of each variable into one, at the place of its first summand, with the
/// sum of their factors and the polarity of the first.
pub fn add_up_same_variables(equation: &Equation) -> (r: Equation)
    requires
        forall|t: int, k: usize| 0 <= t <= equation.lhs@.len()
            ==> i128::MIN <= #[trigger] var_total(equation.lhs@.take(t), k) <= i128::MAX,
    ensures
        r.rhs == equation.rhs,
        r.kind == equation.kind,
        r.lhs@.map_values(|s: Summand| s.variable_index) == first_vars(equation.lhs@),
        distinct_vars(r.lhs@),
        summand_vars(r.lhs@) == summand_vars(equation.lhs@),
        forall|j: int| 0 <= j < r.lhs@.len() ==> merged_entry(equation.lhs@, #[trigger] r.lhs@[j]),
{
    broadcast use vstd::std_specs::hash::group_hash_axioms;
    let ghost lhs = equation.lhs@;
    let mut new_lhs: Vec<Summand> = Vec::new();
    let mut visited: HashSet<u32> = HashSet::new();
    proof {
        assert(lhs.take(0) =~= Seq::<Summand>::empty());
        assert(new_lhs@ =~= Seq::<Summand>::empty());
        assert(new_lhs@.map_values(|s: Summand| s.variable_index) =~= first_vars(lhs.take(0)));
    }
    let len = equation.lhs.len();
    let mut i: usize = 0;
    while i < len
        invariant
            0 <= i <= len,
            len == lhs.len(),
            lhs == equation.lhs@,
            forall|t: int, k: usize| 0 <= t <= lhs.len() ==> i128::MIN <= #[trigger] var_total(lhs.take(t), k) <= i128::MAX,
            forall|v: u32| visited@.contains(v) <==> #[trigger] summand_vars(lhs.take(i as int)).contains(v as usize),
            new_lhs@.map_values(|s: Summand| s.variable_index) == first_vars(lhs.take(i as int)),
            distinct_vars(new_lhs@),
            summand_vars(new_lhs@) == summand_vars(lhs.take(i as int)),
            forall|j: int| 0 <= j < new_lhs@.len() ==> merged_entry(lhs, #[trigger] new_lhs@[j]),
        decreases len - i,
    {
        let current = equation.lhs[i];
        let v = current.variable_index;
        let ghost t0 = lhs.take(i as int);
        let ghost t1 = lhs.take(i + 1);
        proof {
            assert(current == lhs[i as int]);
            assert(t1.drop_last() =~= t0);
            assert(t1.last() == current);
            lemma_summand_vars(t0);
            lemma_summand_vars(t1);
            lemma_summand_vars(new_lhs@);
        }
        if visited.contains(&v) {
            proof {
                assert(summand_vars(t1) =~= summand_vars(t0));
                assert(first_vars(t1) =~= first_vars(t0));
            }
            i = i + 1;
            proof {
                assert(summand_vars(lhs.take(i as int)) == summand_vars(t1));
            }
            continue;
        }
        visited.insert(v);
        let mut summand = Summand { factor: current.factor, variable_index: v, positive: current.positive };
        proof {
            lemma_var_total_absent(t0, v as usize);
            assert(!summand_vars(t0).contains(v as usize));
            assert forall|i2: int| 0 <= i2 < i implies lhs[i2].variable_index != v by {
                assert(t0[i2] == lhs[i2]);
                if lhs[i2].variable_index == v {
                    assert(0 <= i2 < t0.len() && t0[i2].variable_index as usize == v as usize);
                    assert(summand_vars(t0).contains(v as usize));
                }
            }
        }
        let mut j: usize = i + 1;
        while j < len
            invariant
                i < j <= len,
                len == lhs.len(),
                lhs == equation.lhs@,
                forall|t: int, k: usize| 0 <= t <= lhs.len() ==> i128::MIN <= #[trigger] var_total(lhs.take(t), k) <= i128::MAX,
                summand.variable_index == v,
                summand.positive == current.positive,
                summand.factor == var_total(lhs.take(j as int), v as usize),
            decreases len - j,
        {
            let other = equation.lhs[j];
            proof {
                let tj = lhs.take(j as int);
                let tj1 = lhs.take(j + 1);
                assert(tj1.drop_last() =~= tj);
                assert(tj1.last() == other);
                assert(i128::MIN <= var_total(tj1, v as usize) <= i128::MAX);
            }
            if summand.variable_index == other.variable_index {
                summand.factor = summand.factor + other.factor;
            }
            j = j + 1;
        }
        proof {
            assert(lhs.take(len as int) =~= lhs);
        }
        let ghost before = new_lhs@;
        new_lhs.push(summand);
        proof {
            assert(new_lhs@.drop_last() =~= before);
            assert(new_lhs@.last() == summand);
            assert(new_lhs@.map_values(|s: Summand| s.variable_index)
                =~= before.map_values(|s: Summand| s.variable_index).push(v));
            assert(first_vars(t1) =~= first_vars(t0).push(v));
            assert(summand_vars(t1) == summand_vars(t0).insert(v as usize));
            assert(!summand_vars(before).contains(v as usize));
            assert forall|a: int, b: int| 0 <= a < b < new_lhs@.len() implies new_lhs@[a].variable_index != new_lhs@[b].variable_index by {
                if b == new_lhs@.len() - 1 {
                    assert(before[a] == new_lhs@[a]);
                    assert(summand_vars(before).contains(before[a].variable_index as usize));
                } else {
                    assert(before[a] == new_lhs@[a] && before[b] == new_lhs@[b]);
                }
            }
            assert forall|jj: int| 0 <= jj < new_lhs@.len() implies merged_entry(lhs, #[trigger] new_lhs@[jj]) by {
                if jj < before.len() {
                    assert(before[jj] == new_lhs@[jj]);
                } else {
                    assert(new_lhs@[jj] == summand);
                    assert(summand.factor == var_total(lhs, v as usize));
                    assert(first_occurrence(lhs, i as int, v));
                    assert(lhs[i as int].positive == summand.positive);
                }
            }
            assert forall|w: u32| visited@.contains(w) <==> #[trigger] summand_vars(t1).contains(w as usize) by {
                if summand_vars(t1).contains(w as usize) && w != v {
                    assert(summand_vars(t0).contains(w as usize));
                }
            }
        }
        i = i + 1;
    }
    proof {
        assert(lhs.take(len as int) =~= lhs);
    }
    Equation { lhs: new_lhs, rhs: equation.rhs, kind: equation.kind }
}

/// An equation in the shape of a constraint: `>=` or `!=`, non-negative factors, each variable once.
pub open spec fn is_normal(e: Equation) -> bool {
    &&& (e.kind == EquationKind::Ge || e.kind == EquationKind::NotEq)
    &&& distinct_vars(e.lhs@)
    &&& forall|j: int| 0 <= j < e.lhs@.len() ==> (#[trigger] e.lhs@[j]).factor >= 0
}

/// Merging the summands of each variable keeps the value when a variable's summands share a
/// polarity.
proof fn lemma_merged_value(lhs: Seq<Summand>, merged: Seq<Summand>, a: Seq<bool>)
    requires
        same_polarity(lhs),
        distinct_vars(merged),
        summand_vars(merged) == summand_vars(lhs),
        forall|j: int| 0 <= j < merged.len() ==> merged_entry(lhs, #[trigger] merged[j]),
    ensures
        lhs_value(merged, a) == lhs_value(lhs, a),
{
    lemma_summand_vars(lhs);
    lemma_summand_vars(merged);
    let sv = |s: Summand| summand_value(s, a);
    lemma_value_is_sum(merged, a);
    lemma_seq_sum_congr(merged, |s: Summand| summand_value(s, a), sv);
    lemma_distinct_sum(merged, sv);
    lemma_grouping(lhs, a);
    assert forall|k: usize| summand_vars(lhs).contains(k) implies picked(merged, sv)(k) == grouped_w(lhs, a)(k) by {
        let j = choose|j: int| 0 <= j < merged.len() && merged[j].variable_index as usize == k;
        assert(merged_entry(lhs, merged[j]));
        let i0 = choose|i: int| first_occurrence(lhs, i, merged[j].variable_index) && lhs[i].positive == merged[j].positive;
        let i1 = choose|i1: int| 0 <= i1 < lhs.len() && lhs[i1].variable_index as usize == k;
        assert(lhs[i0].variable_index == lhs[i1].variable_index);
    }
    lemma_fsum_congr(summand_vars(lhs), picked(merged, sv), grouped_w(lhs, a));
}

/// The value of the summands is the sum of their contributions.
pub proof fn lemma_value_is_sum(lhs: Seq<Summand>, a: Seq<bool>)
    ensures
        lhs_value(lhs, a) == seq_sum(lhs, |s: Summand| summand_value(s, a)),
    decreases lhs.len(),
{
    if lhs.len() > 0 {
        lemma_value_is_sum(lhs.drop_last(), a);
    }
}

/// Every variable of the equation has a nonzero total factor.
pub open spec fn nonzero_totals(e: Equation) -> bool {
    forall|k: usize| #[trigger] summand_vars(e.lhs@).contains(k) ==> var_total(e.lhs@, k) != 0
}

/// Negating the factors negates each variable's total.
proof fn lemma_var_total_negated(lhs: Seq<Summand>, k: usize)
    requires
        forall|j: int| 0 <= j < lhs.len() ==> (#[trigger] lhs[j]).factor > i128::MIN,
    ensures
        var_total(negated(lhs), k) == -var_total(lhs, k),
    decreases lhs.len(),
{
    if lhs.len() > 0 {
        let l = lhs.drop_last();
        assert(negated(lhs).drop_last() =~= negated(l));
        assert forall|j: int| 0 <= j < l.len() implies (#[trigger] l[j]).factor > i128::MIN by {
            assert(l[j] == lhs[j]);
        }
        lemma_var_total_negated(l, k);
        assert(lhs.last().factor > i128::MIN);
    }
}

/// Brings one equation (not `=`) into the shape of a constraint: `<=` and `<` become `>=` and
/// `>` by negation, `>` becomes `>=` one higher, the summands of each variable are merged, and
/// negative factors move to the opposite literal.
pub fn normalize_equation(equation: &Equation) -> (r: Equation)
    requires
        within_limits(*equation),
        equation.kind != EquationKind::Eq,
    ensures
        is_normal(r),
        summand_vars(r.lhs@) == summand_vars(equation.lhs@),
        abs_sum(r.lhs@) <= abs_sum(equation.lhs@),
        same_polarity(equation.lhs@) ==> forall|a: Seq<bool>| #[trigger] equation_holds(r, a) == equation_holds(*equation, a),
        equation.kind == EquationKind::NotEq ==> r.kind == EquationKind::NotEq && r.rhs == normalized_rhs(*equation),
        equation.kind != EquationKind::NotEq ==> r.kind == EquationKind::Ge,
        nonzero_totals(*equation) ==> forall|j: int| 0 <= j < r.lhs@.len() ==> (#[trigger] r.lhs@[j]).factor > 0,
{
    let ghost lhs = equation.lhs@;
    proof {
        lemma_abs_sum_bounds(lhs);
    }
    let e1 = replace_le_equations(equation);
    proof {
        lemma_negated(lhs, Seq::empty());
        lemma_abs_sum_bounds(e1.lhs@);
    }
    let e2 = replace_l_equations(&e1);
    proof {
        lemma_negated(e1.lhs@, Seq::empty());
    }
    let e3 = replace_g_equations(&e2);
    proof {
        assert forall|t: int, k: usize| 0 <= t <= e3.lhs@.len()
            implies i128::MIN <= #[trigger] var_total(e3.lhs@.take(t), k) <= i128::MAX by {
            lemma_abs_sum_bounds(e3.lhs@);
            lemma_abs_sum_bounds(e3.lhs@.take(t));
        }
    }
    let e4 = add_up_same_variables(&e3);
    proof {
        let aw = |s: Summand| abs(s.factor as int);
        let at = |u: usize| abs(var_total(e3.lhs@, u));
        lemma_distinct_sum(e4.lhs@, aw);
        lemma_seq_sum_congr(e4.lhs@, |s: Summand| abs(s.factor as int), aw);
        lemma_totals_bounded(e3.lhs@);
        lemma_summand_vars(e3.lhs@);
        lemma_summand_vars(e4.lhs@);
        assert forall|k: usize| summand_vars(e3.lhs@).contains(k) implies picked(e4.lhs@, aw)(k) == at(k) by {
            let j = choose|j: int| 0 <= j < e4.lhs@.len() && e4.lhs@[j].variable_index as usize == k;
            assert(merged_entry(e3.lhs@, e4.lhs@[j]));
        }
        lemma_fsum_congr(summand_vars(e3.lhs@), picked(e4.lhs@, aw), at);
        assert(abs_sum(e4.lhs@) <= abs_sum(e3.lhs@));
        assert(abs_sum(e3.lhs@) == abs_sum(lhs));
        assert(abs(e4.rhs as int) <= abs(equation.rhs as int) + 1);
        lemma_abs_sum_bounds(e4.lhs@);
    }
    let e5 = replace_negative_factors(&e4);
    proof {
        lemma_abs_sum_bounds(e4.lhs@);
        lemma_flipped(e4.lhs@, Seq::empty());
        if same_polarity(lhs) {
            assert forall|a: Seq<bool>| #[trigger] equation_holds(e5, a) == equation_holds(*equation, a) by {
                lemma_negated(lhs, a);
                lemma_negated(e1.lhs@, a);
                lemma_merged_value(e3.lhs@, e4.lhs@, a);
                lemma_flipped(e4.lhs@, a);
            }
        }
        if equation.kind == EquationKind::NotEq {
            let negw = |s: Summand| if s.factor < 0 { s.factor as int } else { 0 };
            let negt = |u: usize| if var_total(lhs, u) < 0 { var_total(lhs, u) } else { 0 };
            lemma_distinct_sum(e4.lhs@, negw);
            lemma_seq_sum_congr(e4.lhs@, |s: Summand| if s.factor < 0 { s.factor as int } else { 0 }, negw);
            assert forall|k: usize| summand_vars(lhs).contains(k) implies picked(e4.lhs@, negw)(k) == negt(k) by {
                let j = choose|j: int| 0 <= j < e4.lhs@.len() && e4.lhs@[j].variable_index as usize == k;
                assert(merged_entry(e3.lhs@, e4.lhs@[j]));
            }
            lemma_fsum_congr(summand_vars(lhs), picked(e4.lhs@, negw), negt);
        }
        if nonzero_totals(*equation) {
            assert forall|j: int| 0 <= j < e5.lhs@.len() implies (#[trigger] e5.lhs@[j]).factor > 0 by {
                let s = e4.lhs@[j];
                let v = s.variable_index as usize;
                assert(merged_entry(e3.lhs@, s));
                assert(summand_vars(e4.lhs@).contains(v));
                lemma_var_total_negated(lhs, v);
                lemma_var_total_negated(e1.lhs@, v);
                assert(var_total(e3.lhs@, v) != 0);
            }
        }
    }
    e5
}

} // verus!
