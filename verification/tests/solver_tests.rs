use std::collections::HashMap;

use num_bigint::BigUint;
use p2d::ddnnf::{DDNNFNode, DDNNFPrinter};
use p2d::parser::parse;
use p2d::pseudo_boolean_datastructure::PseudoBooleanFormula;
use p2d::solver::Solver;

#[test]
fn solver_test_ex_1() {
    let opb_file = parse("#variable= 5 #constraint= 2\nx1 + x2 >= 0;\n3 x2 + x3 + x4 + x5 >= 3;").expect("error while parsing");
    let formula = PseudoBooleanFormula::new(&opb_file);
    let mut solver = Solver::new(formula);
    let model_count = solver.solve().model_count;
    assert_eq!(model_count, BigUint::from(18 as u32));
}

#[test]
fn solver_test_ex_2() {
    let opb_file = parse("#variable= 5 #constraint= 2\nx1 + x2 >= 1;\n3 x2 + x3 + x4 + x5 >= 3;").expect("error while parsing");
    let formula = PseudoBooleanFormula::new(&opb_file);
    let mut solver = Solver::new(formula);
    let model_count = solver.solve().model_count;
    assert_eq!(model_count, BigUint::from(17 as u32));
}

#[test]
fn test_ex_5() {
    let opb_file = parse("#variable= 3 #constraint= 1\n2 x + y + z >= 2;\n").expect("error while parsing");
    let formula = PseudoBooleanFormula::new(&opb_file);
    let mut solver = Solver::new(formula);
    let result = solver.solve();
    let model_count = result.model_count;
    assert_eq!(model_count, BigUint::from(5 as u32));
}

#[test]
fn test_ex_9() {
    let opb_file = parse("#variable= 2 #constraint= 1\nx1 + x2 = 1;").expect("error while parsing");
    let formula = PseudoBooleanFormula::new(&opb_file);
    let mut solver = Solver::new(formula);
    let model_count = solver.solve().model_count;
    assert_eq!(model_count, BigUint::from(2 as u32));
}

#[test]
fn test_ex_10() {
    let opb_file = parse("#variable= 2 #constraint= 1\nx1 + x2 < 2;").expect("error while parsing");
    let formula = PseudoBooleanFormula::new(&opb_file);
    let mut solver = Solver::new(formula);
    let model_count = solver.solve().model_count;
    assert_eq!(model_count, BigUint::from(3 as u32));
}

#[test]
fn test_ex_11() {
    let opb_file = parse("#variable= 2 #constraint= 1\nx1 + x2 > 1;").expect("error while parsing");
    let formula = PseudoBooleanFormula::new(&opb_file);
    let mut solver = Solver::new(formula);
    let model_count = solver.solve().model_count;
    assert_eq!(model_count, BigUint::from(1 as u32));
}

#[test]
fn test_ex_12() {
    let opb_file = parse("#variable= 2 #constraint= 1\nx1 + x2 != 1;").expect("error while parsing");
    let formula = PseudoBooleanFormula::new(&opb_file);
    let mut solver = Solver::new(formula);
    let model_count = solver.solve().model_count;
    assert_eq!(model_count, BigUint::from(2 as u32));
}

#[test]
fn test_ex_13() {
    let opb_file = parse("#variable= 1 #constraint= 1\nx1 >= 0;").expect("error while parsing");
    let formula = PseudoBooleanFormula::new(&opb_file);
    let mut solver = Solver::new(formula);
    let result = solver.solve();
    let mut printer = DDNNFPrinter { true_sink_id: None, false_sink_id: None, ddnnf: result.ddnnf, current_node_id: 0, id_map: HashMap::new(), edge_counter: 0, node_counter: 0 };
    let ddnnf = printer.print();
    assert_eq!(ddnnf, "t 1 0\n");
}

#[test]
fn test_ex_14() {
    let opb_file = parse("#variable= 1 #constraint= 1\nx1 > 1;").expect("error while parsing");
    let formula = PseudoBooleanFormula::new(&opb_file);
    let mut solver = Solver::new(formula);
    let result = solver.solve();
    let mut printer = DDNNFPrinter { true_sink_id: None, false_sink_id: None, ddnnf: result.ddnnf, current_node_id: 0, id_map: HashMap::new(), edge_counter: 0, node_counter: 0 };
    let ddnnf = printer.print();
    assert_eq!(ddnnf, "o 1 0\nf 2 0\n1 2 1 0\n");
}

#[test]
fn test_ex_15() {
    let opb_file = parse("#variable= 2 #constraint= 1\nx1 + x2 >= 1;").expect("error while parsing");
    let formula = PseudoBooleanFormula::new(&opb_file);
    let mut solver = Solver::new(formula);
    let result = solver.solve();
    let mut printer = DDNNFPrinter { true_sink_id: None, false_sink_id: None, ddnnf: result.ddnnf, current_node_id: 0, id_map: HashMap::new(), edge_counter: 0, node_counter: 0 };
    let ddnnf = printer.print();
    assert_eq!(ddnnf, "o 1 0\nt 2 0\n1 2 2 -1 0\n1 2 1 0\n");
}

fn holds_in(node: &DDNNFNode, assignment: &[bool]) -> bool {
    match node {
        DDNNFNode::TrueLeave => true,
        DDNNFNode::FalseLeave => false,
        DDNNFNode::LiteralLeave(literal) => assignment[literal.index as usize] == literal.positive,
        DDNNFNode::AndNode(children, _) => children.iter().all(|child| holds_in(child, assignment)),
        DDNNFNode::OrNode(children, _) => children.iter().any(|child| holds_in(child, assignment)),
    }
}

#[test]
fn compiled_ddnnf_holds_exactly_on_models() {
    let opb_file = parse("#variable= 3 #constraint= 2\n2 x + y + z >= 2;\ny + z <= 1;").expect("error while parsing");
    let formula = PseudoBooleanFormula::new(&opb_file);
    let mut solver = Solver::new(formula);
    let result = solver.solve();
    assert_eq!(result.model_count, BigUint::from(3 as u32));
    let mut models = 0;
    for bits in 0..8u32 {
        let assignment = [bits & 1 == 1, bits & 2 == 2, bits & 4 == 4];
        let (x, y, z) = (assignment[0] as i32, assignment[1] as i32, assignment[2] as i32);
        let expected = 2 * x + y + z >= 2 && y + z <= 1;
        assert_eq!(holds_in(&result.ddnnf.root_node, &assignment), expected);
        if expected {
            models += 1;
        }
    }
    assert_eq!(models, 3);
}

#[test]
fn compiled_ddnnf_of_unsatisfiable_formula_is_false() {
    let opb_file = parse("#variable= 2 #constraint= 2\nx + y >= 2;\nx + y <= 1;").expect("error while parsing");
    let formula = PseudoBooleanFormula::new(&opb_file);
    let mut solver = Solver::new(formula);
    let result = solver.solve();
    assert_eq!(result.model_count, BigUint::from(0 as u32));
    for bits in 0..4u32 {
        let assignment = [bits & 1 == 1, bits & 2 == 2];
        assert!(!holds_in(&result.ddnnf.root_node, &assignment));
    }
}

fn variables_of(node: &DDNNFNode, out: &mut Vec<u32>) {
    match node {
        DDNNFNode::LiteralLeave(literal) => out.push(literal.index),
        DDNNFNode::AndNode(children, _) | DDNNFNode::OrNode(children, _) => {
            for child in children {
                variables_of(child, out);
            }
        }
        _ => {}
    }
}

fn shape_holds(node: &DDNNFNode, number_variables: u32) -> bool {
    match node {
        DDNNFNode::AndNode(children, _) => {
            let mut seen: Vec<u32> = Vec::new();
            for child in children {
                let mut vars = Vec::new();
                variables_of(child, &mut vars);
                vars.sort();
                vars.dedup();
                if vars.iter().any(|v| seen.contains(v)) {
                    return false;
                }
                seen.extend(vars);
            }
            children.iter().all(|child| shape_holds(child, number_variables))
        }
        DDNNFNode::OrNode(children, _) => {
            for bits in 0..(1u32 << number_variables) {
                let assignment: Vec<bool> = (0..number_variables).map(|i| bits & (1 << i) != 0).collect();
                let true_children = children.iter().filter(|child| holds_in(child, &assignment)).count();
                if true_children > 1 {
                    return false;
                }
            }
            children.iter().all(|child| shape_holds(child, number_variables))
        }
        _ => true,
    }
}

#[test]
fn compiled_ddnnf_is_deterministic_and_decomposable() {
    let opb_file = parse("#variable= 4 #constraint= 2\nx1 + x2 + x3 >= 2;\n2 x3 + x4 >= 2;").expect("error while parsing");
    let formula = PseudoBooleanFormula::new(&opb_file);
    let mut solver = Solver::new(formula);
    let result = solver.solve();
    assert!(shape_holds(&result.ddnnf.root_node, 4));
    let mut vars = Vec::new();
    variables_of(&result.ddnnf.root_node, &mut vars);
    assert!(vars.iter().all(|v| *v < 4));
    let mut models = 0;
    for bits in 0..16u32 {
        let assignment: Vec<bool> = (0..4).map(|i| bits & (1 << i) != 0).collect();
        if holds_in(&result.ddnnf.root_node, &assignment) {
            models += 1;
        }
    }
    assert_eq!(result.model_count, BigUint::from(models as u32));
}

