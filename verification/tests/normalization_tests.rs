use p2d::normalization::{
    add_up_same_variables, normalize_equation, replace_equal_equations, replace_g_equations, replace_l_equations,
    replace_le_equations, replace_negative_factors,
};
use p2d::opb::{Equation, EquationKind, Summand};

fn s(v: u32, f: i128) -> Summand {
    Summand { variable_index: v, factor: f, positive: true }
}

fn shape(e: &Equation) -> (Vec<(u32, i128, bool)>, i128, EquationKind) {
    (e.lhs.iter().map(|x| (x.variable_index, x.factor, x.positive)).collect(), e.rhs, e.kind)
}

#[test]
fn equal_becomes_two_bounds() {
    let e = Equation { lhs: vec![s(0, 2)], rhs: 1, kind: EquationKind::Eq };
    let parts = replace_equal_equations(&e);
    assert_eq!(parts.len(), 2);
    assert_eq!(shape(&parts[0]), (vec![(0, 2, true)], 1, EquationKind::Ge));
    assert_eq!(shape(&parts[1]), (vec![(0, 2, true)], 1, EquationKind::Le));
}

#[test]
fn less_equal_is_negated() {
    let e = Equation { lhs: vec![s(0, 2), s(1, -3)], rhs: 4, kind: EquationKind::Le };
    assert_eq!(shape(&replace_le_equations(&e)), (vec![(0, -2, true), (1, 3, true)], -4, EquationKind::Ge));
}

#[test]
fn less_is_negated_to_greater() {
    let e = Equation { lhs: vec![s(0, 2)], rhs: 4, kind: EquationKind::L };
    assert_eq!(shape(&replace_l_equations(&e)), (vec![(0, -2, true)], -4, EquationKind::G));
}

#[test]
fn greater_becomes_at_least_one_more() {
    let e = Equation { lhs: vec![s(0, 2)], rhs: 4, kind: EquationKind::G };
    assert_eq!(shape(&replace_g_equations(&e)), (vec![(0, 2, true)], 5, EquationKind::Ge));
}

#[test]
fn negative_factors_move_to_the_opposite_literal() {
    let e = Equation { lhs: vec![s(0, -2), s(1, 3)], rhs: 1, kind: EquationKind::Ge };
    assert_eq!(shape(&replace_negative_factors(&e)), (vec![(0, 2, false), (1, 3, true)], 3, EquationKind::Ge));
}

#[test]
fn same_variables_are_added_up() {
    let e = Equation { lhs: vec![s(1, 2), s(0, 1), s(1, 5)], rhs: 1, kind: EquationKind::Ge };
    assert_eq!(shape(&add_up_same_variables(&e)), (vec![(1, 7, true), (0, 1, true)], 1, EquationKind::Ge));
}

#[test]
fn normalized_less_than() {
    let e = Equation { lhs: vec![s(0, 1), s(1, 1)], rhs: 2, kind: EquationKind::L };
    assert_eq!(shape(&normalize_equation(&e)), (vec![(0, 1, false), (1, 1, false)], 1, EquationKind::Ge));
}
