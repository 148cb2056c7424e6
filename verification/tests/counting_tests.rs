use num_bigint::BigUint;
use p2d::formula::fits_formula;
use p2d::parser::parse;
use p2d::pseudo_boolean_datastructure::{PropagationResult, PseudoBooleanFormula};
use p2d::solver::Solver;

fn count(text: &str) -> BigUint {
    let opb_file = parse(text).expect("error while parsing");
    assert!(fits_formula(&opb_file));
    let formula = PseudoBooleanFormula::new(&opb_file);
    let mut solver = Solver::new(formula);
    solver.solve().model_count
}

#[test]
fn clause_counts_assignments_with_a_true_literal() {
    assert_eq!(count("#variable= 3 #constraint= 1\nx + y + z >= 1;"), BigUint::from(7u32));
}

#[test]
fn at_most_one_by_negative_factors() {
    assert_eq!(count("#variable= 2 #constraint= 1\n-1 x - y >= -1;"), BigUint::from(3u32));
}

#[test]
fn less_equal_and_greater_relations() {
    assert_eq!(count("#variable= 3 #constraint= 1\nx + y + z <= 1;"), BigUint::from(4u32));
    assert_eq!(count("#variable= 3 #constraint= 1\nx + y + z > 1;"), BigUint::from(4u32));
    assert_eq!(count("#variable= 3 #constraint= 1\nx + y + z < 3;"), BigUint::from(7u32));
}

#[test]
fn equality_splits_into_two_constraints() {
    assert_eq!(count("#variable= 3 #constraint= 1\nx + y + z = 2;"), BigUint::from(3u32));
}

#[test]
fn repeated_variable_is_merged() {
    assert_eq!(count("#variable= 2 #constraint= 1\nx + x + y >= 2;"), BigUint::from(2u32));
}

#[test]
fn unsatisfiable_file_counts_zero() {
    assert_eq!(count("#variable= 2 #constraint= 2\nx + y >= 2;\nx + y <= 0;"), BigUint::from(0u32));
}

#[test]
fn unconstrained_variables_double_the_count() {
    assert_eq!(count("#variable= 3 #constraint= 2\nx >= 1;\ny + z >= 0;"), BigUint::from(4u32));
}

#[test]
fn not_equal_with_weights() {
    assert_eq!(count("#variable= 2 #constraint= 1\n2 x + y != 2;"), BigUint::from(3u32));
}

#[test]
fn header_counts_do_not_limit_the_names() {
    let opb_file = parse("#variable= 0 #constraint= 1\n1 x >= 0;").expect("error while parsing");
    assert!(fits_formula(&opb_file));
    let formula = PseudoBooleanFormula::new(&opb_file);
    assert_eq!(formula.number_variables, 1);
    assert_eq!(formula.constraints.len(), 1);
}

#[test]
fn formula_keeps_per_variable_lists() {
    let opb_file = parse("#variable= 3 #constraint= 2\nx + y >= 1;\ny + z = 1;").expect("error while parsing");
    let formula = PseudoBooleanFormula::new(&opb_file);
    assert_eq!(formula.constraints.len(), 3);
    assert_eq!(formula.constraints_by_variable[0], vec![0]);
    assert_eq!(formula.constraints_by_variable[1], vec![0, 1, 2]);
    assert_eq!(formula.constraints_by_variable[2], vec![1, 2]);
}

#[test]
fn zero_factor_variables_stay_free() {
    assert_eq!(count("#variable= 2 #constraint= 1\nx + 0 y >= 1;"), BigUint::from(2u32));
    assert_eq!(count("#variable= 2 #constraint= 1\n0 x + y >= 1;"), BigUint::from(2u32));
    assert_eq!(count("#variable= 3 #constraint= 1\nx + y - y + z >= 2;"), BigUint::from(2u32));
}

#[test]
fn implied_list_leaves_out_zero_factors() {
    let opb_file = parse("#variable= 2 #constraint= 1\nx + 0 y >= 1;").expect("error while parsing");
    let mut formula = PseudoBooleanFormula::new(&opb_file);
    match formula.constraints[0].simplify() {
        PropagationResult::ImpliedLiteralList(list) => {
            assert_eq!(list.len(), 1);
            assert_eq!(list[0].index, 0);
        }
        _ => panic!("expected an implied literal list"),
    }
}

#[test]
fn not_equal_to_a_negative_number_always_holds() {
    assert_eq!(count("#variable= 2 #constraint= 1\nx + y != -1;"), BigUint::from(4u32));
    assert_eq!(count("#variable= 2 #constraint= 1\n-1 x - y != 1;"), BigUint::from(4u32));
    assert_eq!(count("#variable= 2 #constraint= 1\n-1 x - y != -1;"), BigUint::from(2u32));
}

#[test]
fn factors_above_half_the_integer_range_are_counted() {
    assert_eq!(count("#variable= 2 #constraint= 1\n100000000000000000000000000000000000000 x + y >= 1;"), BigUint::from(3u32));
    let too_large = parse("#variable= 2 #constraint= 1\n170141183460469231731687303715884105000 x + 1000 y >= 1;").expect("error while parsing");
    assert!(!fits_formula(&too_large));
}
