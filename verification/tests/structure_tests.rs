use std::collections::{BTreeSet, HashMap};
use std::rc::Rc;

use p2d::components::ComponentBasedFormula;
use p2d::ddnnf::{DDNNFLiteral, DDNNFNode, DDNNFPrinter, DDNNF};
use p2d::hypergraph::{cut_nets, Hypergraph};
use p2d::parser::parse;
use p2d::pseudo_boolean_datastructure::{AssignmentKind, ConstraintIndex, Literal, PropagationResult, PseudoBooleanFormula};
use p2d::solver::Solver;

fn solver_for(text: &str) -> Solver {
    let opb_file = parse(text).expect("error while parsing");
    Solver::new(PseudoBooleanFormula::new(&opb_file))
}

fn literal(index: u32, positive: bool) -> Rc<DDNNFNode> {
    Rc::new(DDNNFNode::LiteralLeave(Rc::new(DDNNFLiteral { index, positive })))
}

fn printer_for(root: DDNNFNode) -> DDNNFPrinter {
    DDNNFPrinter {
        ddnnf: DDNNF { root_node: Rc::new(root), number_variables: 2 },
        true_sink_id: None,
        false_sink_id: None,
        current_node_id: 0,
        id_map: HashMap::new(),
        edge_counter: 0,
        node_counter: 0,
    }
}

#[test]
fn printer_folds_literal_children_into_edges() {
    let a = DDNNFNode::AndNode(vec![literal(0, true), literal(1, true)], 2);
    let b = DDNNFNode::AndNode(vec![literal(0, false), Rc::new(DDNNFNode::TrueLeave)], 3);
    let mut printer = printer_for(DDNNFNode::OrNode(vec![Rc::new(a), Rc::new(b)], 1));
    assert_eq!(printer.print(), "o 1 0\nt 2 0\n1 2 1 2 0\n1 2 -1 0\n");
    assert_eq!(printer.current_node_id, 2);
}

#[test]
fn printer_numbers_a_shared_node_once() {
    let shared = Rc::new(DDNNFNode::OrNode(vec![literal(0, true), literal(0, false)], 20));
    let other = Rc::new(DDNNFNode::OrNode(vec![Rc::clone(&shared), literal(1, true)], 30));
    let mut printer = printer_for(DDNNFNode::AndNode(vec![shared, other], 10));
    assert_eq!(
        printer.print(),
        "a 1 0\no 2 0\n1 2 0\nt 3 0\n2 3 1 0\n2 3 -1 0\no 4 0\n1 4 0\n4 2 0\n4 3 2 0\n"
    );
    assert_eq!(printer.edge_counter, 1);
    assert_eq!(printer.node_counter, 1);
    assert_eq!(printer.id_map.get(&20), Some(&2));
}

#[test]
fn printer_refuses_a_literal_root() {
    let mut printer = printer_for(DDNNFNode::LiteralLeave(Rc::new(DDNNFLiteral { index: 0, positive: true })));
    assert!(printer.try_print().is_none());
}

#[test]
fn independent_constraints_form_two_parts() {
    let solver = solver_for("#variable= 4 #constraint= 2\nx1 + x2 >= 1;\nx3 + x4 >= 1;");
    let hypergraph = Hypergraph::new(&solver);
    assert_eq!(hypergraph.current_constraint_index, 2);
    assert_eq!(hypergraph.current_variable_index, 4);
    assert_eq!(hypergraph.variable_index_map, vec![0, 1, 2, 3]);
    assert_eq!(hypergraph.constraint_index_map, vec![0, 1]);
    assert_eq!(hypergraph.x_pins, vec![0, 1, 2, 3, 4]);
    assert_eq!(hypergraph.pins, vec![0, 0, 1, 1]);
    assert!(hypergraph.single_variables.is_empty());
    let partvec = hypergraph.find_disconnected_components(&solver).expect("two parts");
    assert_eq!(partvec, vec![0, 1]);
    let split = hypergraph.create_partition(&solver, partvec);
    assert_eq!(split.components.len(), 2);
    assert_eq!(split.previous_number_unsat_constraints, 2);
    assert_eq!(split.previous_number_unassigned_variables, 4);
    assert_eq!(split.components[0].constraint_indexes_in_scope, BTreeSet::from([0]));
    assert_eq!(split.components[0].variables, BTreeSet::from([0, 1]));
    assert_eq!(split.components[0].number_unsat_constraints, 1);
    assert_eq!(split.components[0].number_unassigned_variables, 2);
    assert_eq!(split.components[1].constraint_indexes_in_scope, BTreeSet::from([1]));
    assert_eq!(split.components[1].variables, BTreeSet::from([2, 3]));
    assert!(hypergraph.get_variables_for_cut(&vec![0, 1]).is_empty());
}

#[test]
fn connected_constraints_form_one_part() {
    let solver = solver_for("#variable= 3 #constraint= 2\nx1 + x2 >= 1;\nx2 + x3 >= 1;");
    let hypergraph = Hypergraph::new(&solver);
    assert_eq!(hypergraph.pins, vec![0, 0, 1, 1]);
    assert_eq!(hypergraph.x_pins, vec![0, 1, 3, 4]);
    assert!(hypergraph.find_disconnected_components(&solver).is_none());
    assert_eq!(hypergraph.get_variables_for_cut(&vec![0, 1]), vec![1]);
    assert!(hypergraph.get_variables_for_cut(&vec![1, 1]).is_empty());
}

#[test]
fn nets_spanning_two_parts_are_cut() {
    assert_eq!(cut_nets(3, &vec![0, 0, 1, 1], &vec![0, 1, 3, 4], &vec![0, 1]), vec![1]);
    assert_eq!(cut_nets(3, &vec![0, 1, 2, 0, 2, 1], &vec![0, 3, 5, 6], &vec![4, 4, 7]), vec![0, 1]);
    assert!(cut_nets(2, &vec![0, 1], &vec![0, 1, 2], &vec![5, 6]).is_empty());
}

#[test]
fn variables_without_open_constraints_are_kept_apart() {
    let solver = solver_for("#variable= 3 #constraint= 3\nx1 + x2 >= 1;\nx1 + x2 >= 2;\nx3 >= 0;");
    let hypergraph = Hypergraph::new(&solver);
    assert_eq!(hypergraph.single_variables, BTreeSet::from([2]));
    let partvec = hypergraph.find_disconnected_components(&solver).expect("a part and a lone variable");
    assert_eq!(partvec, vec![0, 0]);
    let split = hypergraph.create_partition(&solver, partvec);
    assert_eq!(split.components.len(), 2);
    assert_eq!(split.components[0].number_unsat_constraints, 2);
    assert_eq!(split.components[0].variables, BTreeSet::from([0, 1]));
    assert_eq!(split.components[1].variables, BTreeSet::from([2]));
    assert_eq!(split.components[1].number_unassigned_variables, 1);
    assert_eq!(split.components[1].number_unsat_constraints, 0);
}

#[test]
fn a_single_vertex_needs_no_cut() {
    let solver = solver_for("#variable= 2 #constraint= 1\nx1 + x2 >= 1;");
    let hypergraph = Hypergraph::new(&solver);
    assert!(hypergraph.find_disconnected_components(&solver).is_none());
    assert!(hypergraph.get_variables_for_cut(&vec![0]).is_empty());
}

#[test]
fn empty_split_remembers_the_scope() {
    let split = ComponentBasedFormula::new(3, 5, BTreeSet::from([1, 4]), BTreeSet::from([0]));
    assert!(split.components.is_empty());
    assert_eq!(split.current_component, 0);
    assert_eq!(split.previous_number_unsat_constraints, 3);
    assert_eq!(split.previous_number_unassigned_variables, 5);
    assert_eq!(split.previous_variables_in_scope, BTreeSet::from([1, 4]));
    assert_eq!(split.previous_constraint_indexes_in_scope, BTreeSet::from([0]));
}

#[test]
fn undo_restores_a_propagated_constraint() {
    let opb_file = parse("#variable= 3 #constraint= 1\nx + y + z >= 2;").expect("error while parsing");
    let formula = PseudoBooleanFormula::new(&opb_file);
    let mut constraint = formula.constraints[0].clone();
    let before = (constraint.sum_true, constraint.sum_unassigned, constraint.unassigned_literals.clone(), constraint.assignments.clone());
    constraint.propagate(Literal { index: 0, factor: 1, positive: true }, AssignmentKind::FirstDecision, 1);
    assert_eq!(constraint.sum_true, 1);
    assert_eq!(constraint.sum_unassigned, 2);
    assert!(!constraint.undo(0, true));
    let after = (constraint.sum_true, constraint.sum_unassigned, constraint.unassigned_literals.clone(), constraint.assignments.clone());
    assert_eq!(after, before);
}

#[test]
fn constraint_reports_its_largest_open_literal_and_reasons() {
    let opb_file = parse("#variable= 3 #constraint= 1\n3 x + 2 y + z >= 4;").expect("error while parsing");
    let formula = PseudoBooleanFormula::new(&opb_file);
    let mut constraint = formula.constraints[0].clone();
    assert!(constraint.is_unsatisfied());
    assert_eq!(constraint.get_max_literal(), Literal { index: 0, factor: 3, positive: true });
    assert!(matches!(constraint.simplify(), PropagationResult::ImpliedLiteral(l) if l == Literal { index: 0, factor: 3, positive: true }));
    let first = constraint.propagate(Literal { index: 0, factor: 3, positive: true }, AssignmentKind::FirstDecision, 1);
    assert!(matches!(first, PropagationResult::NothingToPropagated));
    let second = constraint.propagate(Literal { index: 1, factor: 2, positive: false }, AssignmentKind::FirstDecision, 2);
    assert!(matches!(second, PropagationResult::ImpliedLiteralList(ref list) if list == &vec![Literal { index: 2, factor: 1, positive: true }]));
    let third = constraint.propagate(Literal { index: 2, factor: 1, positive: true }, AssignmentKind::Propagated(ConstraintIndex::NormalConstraintIndex(0)), 2);
    assert!(matches!(third, PropagationResult::Satisfied));
    assert!(!constraint.is_unsatisfied());
    let reason = constraint.calculate_reason(2);
    assert_eq!(reason.len(), 2);
    assert_eq!(reason.get(&0), Some(&(AssignmentKind::FirstDecision, true, 1)));
    assert_eq!(reason.get(&1), Some(&(AssignmentKind::FirstDecision, false, 2)));
}

#[test]
fn literals_compare_by_factor() {
    let small = Literal { index: 7, factor: 1, positive: true };
    let large = Literal { index: 0, factor: 3, positive: false };
    let same_factor = Literal { index: 2, factor: 3, positive: true };
    assert!(small < large);
    assert!(large > small);
    assert_eq!(large.partial_cmp(&same_factor), Some(std::cmp::Ordering::Equal));
    assert!(large <= same_factor && large >= same_factor);
    assert_ne!(large, same_factor);
}

#[test]
fn solver_splits_independent_constraints() {
    let solver = solver_for("#variable= 4 #constraint= 2\nx1 + x2 >= 1;\nx3 + x4 >= 1;");
    let split = solver.to_disconnected_components().expect("two components");
    assert_eq!(split.current_component, 0);
    assert_eq!(split.components.len(), 2);
    assert_eq!(split.previous_number_unsat_constraints, 2);
    assert_eq!(split.previous_variables_in_scope, BTreeSet::from([0, 1, 2, 3]));
    assert_eq!(split.components[0].constraint_indexes_in_scope, BTreeSet::from([0]));
    assert_eq!(split.components[0].variables, BTreeSet::from([0, 1]));
    assert_eq!(split.components[1].constraint_indexes_in_scope, BTreeSet::from([1]));
    assert_eq!(split.components[1].variables, BTreeSet::from([2, 3]));
    assert_eq!(split.components[1].number_unassigned_variables, 2);
    assert!(split.components[0].variables.is_disjoint(&split.components[1].variables));
    assert!(split.components[0].constraint_indexes_in_scope.is_disjoint(&split.components[1].constraint_indexes_in_scope));
}

#[test]
fn solver_keeps_lone_variables_in_a_component_of_their_own() {
    let solver = solver_for("#variable= 3 #constraint= 3\nx1 + x2 >= 1;\nx1 + x2 >= 2;\nx3 >= 0;");
    let split = solver.to_disconnected_components().expect("a part and a lone variable");
    assert_eq!(split.components.len(), 2);
    assert_eq!(split.components[0].variables, BTreeSet::from([0, 1]));
    assert_eq!(split.components[1].variables, BTreeSet::from([2]));
    assert_eq!(split.components[1].number_unsat_constraints, 0);
}

#[test]
fn solver_does_not_split_connected_or_single_constraints() {
    assert!(solver_for("#variable= 3 #constraint= 2\nx1 + x2 >= 1;\nx2 + x3 >= 1;").to_disconnected_components().is_none());
    assert!(solver_for("#variable= 2 #constraint= 1\nx1 + x2 >= 1;").to_disconnected_components().is_none());
}
