//! A formula split into independent components: parts that share no open constraint.

use vstd::prelude::*;
use std::collections::BTreeSet;

verus! {

/// A formula split into components, with the scope it had before the split.
#[derive(Debug, Clone)]
pub struct ComponentBasedFormula {
    pub components: Vec<Component>,
    pub current_component: usize,
    pub previous_number_unsat_constraints: usize,
    pub previous_number_unassigned_variables: u32,
    pub previous_variables_in_scope: BTreeSet<usize>,
    pub previous_constraint_indexes_in_scope: BTreeSet<usize>,
}

impl ComponentBasedFormula {
    /// A split with no component yet, remembering the scope before it.
    pub fn new(
        previous_number_unsat_constraints: usize,
        previous_number_unassigned_variables: u32,
        previous_variables_in_scope: BTreeSet<usize>,
        previous_constraint_indexes_in_scope: BTreeSet<usize>,
    ) -> (r: ComponentBasedFormula)
        ensures
            r.components@.len() == 0,
            r.current_component == 0,
            r.previous_number_unsat_constraints == previous_number_unsat_constraints,
            r.previous_number_unassigned_variables == previous_number_unassigned_variables,
            r.previous_variables_in_scope@ == previous_variables_in_scope@,
            r.previous_constraint_indexes_in_scope@ == previous_constraint_indexes_in_scope@,
    {
        ComponentBasedFormula {
            components: Vec::new(),
            current_component: 0,
            previous_number_unsat_constraints,
            previous_number_unassigned_variables,
            previous_variables_in_scope,
            previous_constraint_indexes_in_scope,
        }
    }
}

/// One component: its open constraints and variables, and how many of each it has.
#[derive(Debug, Clone)]
pub struct Component {
    pub constraint_indexes_in_scope: BTreeSet<usize>,
    pub variables: BTreeSet<usize>,
    pub number_unsat_constraints: u32,
    pub number_unassigned_variables: u32,
}

} // verus!
