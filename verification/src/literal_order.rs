//! Literals ordered by their factors.

use vstd::prelude::*;
use std::cmp::Ordering;
use vstd::std_specs::cmp::PartialOrdSpecImpl;
use crate::pseudo_boolean_datastructure::Literal;

verus! {

/// How factor `a` compares with factor `b`.
pub open spec fn factor_order(a: u128, b: u128) -> Ordering {
    if a < b {
        Ordering::Less
    } else if a == b {
        Ordering::Equal
    } else {
        Ordering::Greater
    }
}

impl PartialOrd for Literal {
    /// Literals compare by their factors alone.
    fn partial_cmp(&self, other: &Self) -> (r: Option<Ordering>) {
        if self.factor < other.factor {
            Some(Ordering::Less)
        } else if self.factor == other.factor {
            Some(Ordering::Equal)
        } else {
            Some(Ordering::Greater)
        }
    }
}

impl PartialOrdSpecImpl for Literal {
    open spec fn obeys_partial_cmp_spec() -> bool {
        true
    }

    open spec fn partial_cmp_spec(&self, other: &Self) -> Option<Ordering> {
        Some(factor_order(self.factor, other.factor))
    }
}

} // verus!
