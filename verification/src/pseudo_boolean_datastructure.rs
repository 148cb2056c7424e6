//! Pseudo-Boolean constraints with incremental assignment bookkeeping.

use vstd::prelude::*;
use std::collections::BTreeMap;
use bimap::BiHashMap;
use vstd::std_specs::iter::IteratorSpec;
use crate::key_order::lemma_walk_keys_increase;
use crate::fsum::{fsum, lemma_fsum_remove, lemma_fsum_insert, lemma_fsum_congr, lemma_fsum_mono, lemma_fsum_nonneg, lemma_fsum_union, lemma_fsum_ge_elem, lemma_fsum_zero_elems};

verus! {

broadcast use vstd::std_specs::btree::group_btree_axioms;

/// A weighted literal: `factor` counts when variable `index` has value `positive`.
#[derive(Debug, Clone, PartialEq, Eq, Structural, Hash)]
pub struct Literal {
    pub index: u32,
    pub factor: u128,
    pub positive: bool,
}

/// The relation a constraint imposes between its weighted sum and its degree.
#[derive(Debug, Clone, Copy, PartialEq, Eq, Structural, Hash)]
pub enum ConstraintType {
    GreaterEqual,
    NotEqual,
}

/// What assigning a literal (or inspecting a constraint) revealed.
pub enum PropagationResult {
    Satisfied,
    Unsatisfied,
    ImpliedLiteral(Literal),
    ImpliedLiteralList(Vec<Literal>),
    NothingToPropagated,
    AlreadySatisfied,
}

/// Where a constraint is stored: among learned clauses or among the formula's constraints.
#[derive(Debug, Clone, Copy, PartialEq, Eq, Structural)]
pub enum ConstraintIndex {
    LearnedClauseIndex(usize),
    NormalConstraintIndex(usize),
}

/// How a variable got its value.
#[derive(Debug, Clone, Copy, PartialEq, Eq, Structural)]
pub enum AssignmentKind {
    Propagated(ConstraintIndex),
    FirstDecision,
    SecondDecision,
}

/// A pseudo-Boolean constraint together with the part of the current assignment it has seen.
#[derive(Debug, Clone)]
pub struct Constraint {
    pub index: ConstraintIndex,
    pub literals: BTreeMap<usize, Literal>,
    pub unassigned_literals: BTreeMap<usize, Literal>,
    pub degree: i128,
    pub sum_true: u128,
    pub sum_unassigned: u128,
    pub assignments: BTreeMap<usize, (bool, AssignmentKind, u32)>,
    pub factor_sum: u128,
    pub hash_value: u64,
    pub hash_value_old: bool,
    pub constraint_type: ConstraintType,
    pub max_literal: Literal,
}

/// Whether literal `l` is true under the total assignment `a`.
pub open spec fn lit_holds(l: Literal, a: Seq<bool>) -> bool {
    a[l.index as int] == l.positive
}

/// The literals of `m` with a positive factor, in increasing order of index, each stored in `m`
/// under its own index.
pub open spec fn sorted_values_of(list: Seq<Literal>, m: Map<usize, Literal>) -> bool {
    &&& forall|k: usize| #[trigger] m.contains_key(k) && m[k].factor > 0 ==> exists|i: int| 0 <= i < list.len() && list[i].index == k
    &&& forall|i: int| 0 <= i < list.len() ==> {
        &&& m.contains_key(#[trigger] list[i].index as usize)
        &&& m[list[i].index as usize] == list[i]
        &&& list[i].factor > 0
    }
    &&& forall|i: int, j: int| 0 <= i < j < list.len() ==> list[i].index < list[j].index
}

impl Constraint {
    /// The variables the constraint mentions.
    pub open spec fn vars(self) -> Set<usize> {
        self.literals@.dom()
    }

    /// The variables whose values the constraint has recorded.
    pub open spec fn rec(self) -> Set<usize> {
        self.assignments@.dom()
    }

    /// The weight of each literal.
    pub open spec fn factor_w(self) -> spec_fn(usize) -> int {
        |k: usize| self.literals@[k].factor as int
    }

    /// The weight each recorded literal contributes under its recorded value.
    pub open spec fn rec_true_w(self) -> spec_fn(usize) -> int {
        |k: usize|
            if self.assignments@[k].0 == self.literals@[k].positive {
                self.literals@[k].factor as int
            } else {
                0int
            }
    }

    /// The weight each literal contributes under the total assignment `a`.
    pub open spec fn sat_w(self, a: Seq<bool>) -> spec_fn(usize) -> int {
        |k: usize|
            if a[k as int] == self.literals@[k].positive {
                self.literals@[k].factor as int
            } else {
                0int
            }
    }

    /// The weighted sum of the literals true under `a`.
    pub open spec fn true_sum(self, a: Seq<bool>) -> int {
        fsum(self.vars(), self.sat_w(a))
    }

    /// The sum of all factors.
    pub open spec fn total(self) -> int {
        fsum(self.vars(), self.factor_w())
    }

    /// Whether the total assignment `a` satisfies the constraint.
    pub open spec fn holds(self, a: Seq<bool>) -> bool {
        match self.constraint_type {
            ConstraintType::GreaterEqual => self.true_sum(a) >= self.degree,
            ConstraintType::NotEqual => self.true_sum(a) != self.degree,
        }
    }

    /// Whether `a` agrees with every value the constraint has recorded.
    pub open spec fn agrees(self, a: Seq<bool>) -> bool {
        forall|k: usize| #[trigger] self.rec().contains(k) ==> a[k as int] == self.assignments@[k].0
    }

    /// Whether the recorded values alone already satisfy the constraint.
    pub open spec fn satisfied_by_rec(self) -> bool {
        match self.constraint_type {
            ConstraintType::GreaterEqual => self.sum_true >= self.degree,
            ConstraintType::NotEqual => self.sum_unassigned == 0 && self.sum_true != self.degree,
        }
    }

    /// The parts of the constraint that assignments never change.
    pub open spec fn same_statics(self, other: Constraint) -> bool {
        &&& self.index == other.index
        &&& self.literals@ == other.literals@
        &&& self.degree == other.degree
        &&& self.constraint_type == other.constraint_type
        &&& self.factor_sum == other.factor_sum
    }

    /// The bookkeeping of the constraint is consistent with its recorded values.
    pub open spec fn wf(self) -> bool {
        &&& forall|k: usize| #[trigger] self.literals@.contains_key(k) ==> self.literals@[k].index == k
        &&& self.rec().subset_of(self.vars())
        &&& self.unassigned_literals@ == self.literals@.remove_keys(self.rec())
        &&& self.sum_true == fsum(self.rec(), self.rec_true_w())
        &&& self.sum_unassigned == fsum(self.vars().difference(self.rec()), self.factor_w())
        &&& self.total() <= i128::MAX
        &&& self.factor_sum == self.total()
        &&& 0 <= self.degree
        &&& self.constraint_type == ConstraintType::GreaterEqual ==> self.max_ok()
    }

    /// `max_literal` carries the largest factor among the unrecorded literals.
    pub open spec fn max_ok(self) -> bool {
        &&& forall|k: usize| #[trigger] self.unassigned_literals@.contains_key(k)
                ==> self.unassigned_literals@[k].factor <= self.max_literal.factor
        &&& self.max_literal.factor > 0 ==> {
            &&& self.unassigned_literals@.contains_key(self.max_literal.index as usize)
            &&& self.unassigned_literals@[self.max_literal.index as usize] == self.max_literal
        }
    }

    /// What inspecting the constraint in its present state reveals.
    pub open spec fn outcome_is(self, r: PropagationResult) -> bool {
        match self.constraint_type {
            ConstraintType::NotEqual => {
                if self.sum_unassigned == 0 && self.sum_true != self.degree {
                    r is Satisfied
                } else if self.sum_unassigned == 0 && self.sum_true == self.degree {
                    r is Unsatisfied
                } else {
                    r is NothingToPropagated
                }
            },
            ConstraintType::GreaterEqual => {
                if self.sum_true >= self.degree {
                    r is Satisfied
                } else if self.sum_true + self.sum_unassigned < self.degree {
                    r is Unsatisfied
                } else if self.sum_true + self.sum_unassigned == self.degree {
                    r matches PropagationResult::ImpliedLiteralList(list)
                        && sorted_values_of(list@, self.unassigned_literals@)
                } else if self.sum_true + self.sum_unassigned < self.degree + self.max_literal.factor {
                    r == PropagationResult::ImpliedLiteral(self.max_literal)
                } else {
                    r is NothingToPropagated
                }
            },
        }
    }
}

impl Constraint {
    /// Whether the recorded values leave the constraint open (not yet satisfied).
    pub fn is_unsatisfied(&self) -> (r: bool)
        requires
            self.degree >= 0,
        ensures
            r == !self.satisfied_by_rec(),
    {
        if self.constraint_type == ConstraintType::GreaterEqual {
            self.sum_true < self.degree as u128
        } else {
            self.sum_unassigned != 0 || self.sum_true == self.degree as u128
        }
    }

    /// The first unrecorded literal (in index order) with the largest factor, or a zero
    /// literal when no unrecorded literal has a positive factor.
    pub fn get_max_literal(&self) -> (r: Literal)
        ensures
            first_max(self.unassigned_literals@, r),
            (forall|k: usize| #[trigger] self.unassigned_literals@.contains_key(k)
                ==> self.unassigned_literals@[k].index == k) ==> (r.factor > 0 ==> {
                &&& self.unassigned_literals@.contains_key(r.index as usize)
                &&& self.unassigned_literals@[r.index as usize] == r
            }),
    {
        let mut max_literal_factor: u128 = 0;
        let mut max_literal_index: u32 = 0;
        let mut max_literal_sign = false;
        let ghost m = self.unassigned_literals@;
        let ghost g_seq = self.unassigned_literals.iter().remaining();
        let ghost mut g_i: int = 0;
        let ghost mut g_best: int = -1;
        for (_k, literal) in it: self.unassigned_literals.iter()
            invariant
                m == self.unassigned_literals@,
                g_seq == it.seq(),
                g_i == it.index(),
                g_seq.len() == m.dom().len(),
                forall|j: int| 0 <= j < g_seq.len() ==> m.contains_key(*(#[trigger] g_seq[j]).0)
                    && m[*g_seq[j].0] == *g_seq[j].1,
                forall|k: usize| #[trigger] m.contains_key(k) ==> g_seq.contains((&k, &m[k])),
                vstd::std_specs::btree::increasing_seq(g_seq.map_values(|kv: (&usize, &Literal)| *kv.0)),
                forall|j: int| 0 <= j < g_i ==> (#[trigger] g_seq[j]).1.factor <= max_literal_factor,
                max_literal_factor == 0 ==> max_literal_index == 0 && !max_literal_sign && g_best == -1,
                max_literal_factor > 0 ==> {
                    &&& 0 <= g_best < g_i
                    &&& *g_seq[g_best].1 == (Literal { index: max_literal_index, factor: max_literal_factor, positive: max_literal_sign })
                    &&& forall|j: int| 0 <= j < g_best ==> (#[trigger] g_seq[j]).1.factor < max_literal_factor
                },
        {
            if literal.factor > max_literal_factor {
                max_literal_factor = literal.factor;
                max_literal_index = literal.index;
                max_literal_sign = literal.positive;
                proof { g_best = g_i; }
            }
            proof { g_i = g_i + 1; }
        }
        let r = Literal { index: max_literal_index, factor: max_literal_factor, positive: max_literal_sign };
        proof {
            assert forall|k: usize| #[trigger] m.contains_key(k) implies m[k].factor <= r.factor by {
                assert(g_seq.contains((&k, &m[k])));
                let j = choose|j: int| 0 <= j < g_seq.len() && g_seq[j] == (&k, &m[k]);
                assert(g_seq[j].1.factor <= r.factor);
            }
            lemma_walk_keys_increase(g_seq);
            if r.factor > 0 {
                let kb = *g_seq[g_best].0;
                assert(m.contains_key(kb) && m[kb] == r);
                assert forall|k: usize| #[trigger] m.contains_key(k) && k < kb implies m[k].factor < r.factor by {
                    assert(g_seq.contains((&k, &m[k])));
                    let j = choose|j: int| 0 <= j < g_seq.len() && g_seq[j] == (&k, &m[k]);
                    if j >= g_best {
                        if j > g_best {
                            assert(*g_seq[g_best].0 < *g_seq[j].0);
                        }
                    }
                    assert(g_seq[j].1.factor < r.factor);
                }
                if forall|k: usize| #[trigger] m.contains_key(k) ==> m[k].index == k {
                    assert(m[kb].index == kb);
                }
            }
        }
        r
    }
}

/// `r` is the first literal of `m`, in key order, with the largest factor, or the zero literal
/// when no literal of `m` has a positive factor.
pub open spec fn first_max(m: Map<usize, Literal>, r: Literal) -> bool {
    &&& forall|k: usize| #[trigger] m.contains_key(k) ==> m[k].factor <= r.factor
    &&& r.factor > 0 ==> exists|kb: usize| {
        &&& m.contains_key(kb)
        &&& m[kb] == r
        &&& forall|k: usize| #[trigger] m.contains_key(k) && k < kb ==> m[k].factor < r.factor
    }
    &&& r.factor == 0 ==> r == (Literal { index: 0, factor: 0, positive: false })
}

impl Constraint {
    /// The recorded and unrecorded parts of the constraint together never exceed its total.
    pub proof fn lemma_sums_bounded(self)
        requires
            self.wf(),
        ensures
            self.sum_true <= fsum(self.rec(), self.factor_w()),
            self.total() == fsum(self.rec(), self.factor_w()) + self.sum_unassigned,
            self.sum_true + self.sum_unassigned <= self.total(),
            self.total() >= 0,
    {
        let vars = self.vars();
        let rec = self.rec();
        assert(vars =~= rec + vars.difference(rec));
        lemma_fsum_union(rec, vars.difference(rec), self.factor_w());
        lemma_fsum_mono(rec, self.rec_true_w(), self.factor_w());
        lemma_fsum_nonneg(rec, self.rec_true_w());
        lemma_fsum_nonneg(vars.difference(rec), self.factor_w());
        lemma_fsum_nonneg(vars, self.factor_w());
    }

    /// Under any total assignment that agrees with the recorded values, the weighted sum of the
    /// true literals is `sum_true` plus a part of `sum_unassigned`.
    pub proof fn lemma_true_sum_split(self, a: Seq<bool>)
        requires
            self.wf(),
            self.agrees(a),
        ensures
            self.true_sum(a) == self.sum_true + fsum(self.vars().difference(self.rec()), self.sat_w(a)),
            0 <= fsum(self.vars().difference(self.rec()), self.sat_w(a)) <= self.sum_unassigned,
    {
        let vars = self.vars();
        let rec = self.rec();
        let rest = vars.difference(rec);
        assert(vars =~= rec + rest);
        lemma_fsum_union(rec, rest, self.sat_w(a));
        assert forall|k: usize| rec.contains(k) implies (self.sat_w(a))(k) == (self.rec_true_w())(k) by {
            assert(self.agrees(a));
            assert(a[k as int] == self.assignments@[k].0);
        }
        lemma_fsum_congr(rec, self.sat_w(a), self.rec_true_w());
        lemma_fsum_mono(rest, self.sat_w(a), self.factor_w());
        lemma_fsum_nonneg(rest, self.sat_w(a));
    }

    /// What inspecting a well-formed constraint reports is true of every total assignment that
    /// agrees with its recorded values: `Satisfied` means it holds, `Unsatisfied` means it fails,
    /// and an implied literal is true whenever the constraint holds.
    pub proof fn lemma_outcome_sound(self, r: PropagationResult, a: Seq<bool>)
        requires
            self.wf(),
            self.outcome_is(r),
            self.agrees(a),
        ensures
            r is Satisfied ==> self.holds(a),
            r is Unsatisfied ==> !self.holds(a),
            r matches PropagationResult::ImpliedLiteral(l) ==> (self.holds(a) ==> lit_holds(l, a)),
            r matches PropagationResult::ImpliedLiteralList(list) ==> (self.holds(a) ==> forall|i: int|
                0 <= i < list@.len() && list@[i].factor > 0 ==> lit_holds(#[trigger] list@[i], a)),
    {
        self.lemma_true_sum_split(a);
        self.lemma_sums_bounded();
        let rest = self.vars().difference(self.rec());
        let sw = self.sat_w(a);
        if self.constraint_type == ConstraintType::NotEqual {
            if self.sum_unassigned == 0 {
                assert(fsum(rest, sw) == 0);
            }
        } else {
            if let PropagationResult::ImpliedLiteral(l) = r {
                if self.holds(a) && !lit_holds(l, a) {
                    let k = l.index as usize;
                    assert(self.unassigned_literals@.contains_key(k));
                    assert(rest.contains(k));
                    assert(sw(k) == 0);
                    lemma_fsum_remove(rest, sw, k);
                    lemma_fsum_remove(rest, self.factor_w(), k);
                    lemma_fsum_mono(rest.remove(k), sw, self.factor_w());
                    assert(false);
                }
            }
            if let PropagationResult::ImpliedLiteralList(list) = r {
                if self.holds(a) {
                    assert forall|i: int| 0 <= i < list@.len() && list@[i].factor > 0 implies lit_holds(#[trigger] list@[i], a) by {
                        let l = list@[i];
                        let k = l.index as usize;
                        assert(self.unassigned_literals@.contains_key(k));
                        assert(rest.contains(k));
                        if !lit_holds(l, a) {
                            assert(sw(k) == 0);
                            lemma_fsum_remove(rest, sw, k);
                            lemma_fsum_remove(rest, self.factor_w(), k);
                            lemma_fsum_mono(rest.remove(k), sw, self.factor_w());
                            assert(false);
                        }
                    }
                }
            }
        }
    }

    /// A constraint whose recorded values satisfy it holds under every agreeing assignment.
    pub proof fn lemma_satisfied_by_rec_sound(self, a: Seq<bool>)
        requires
            self.wf(),
            self.satisfied_by_rec(),
            self.agrees(a),
        ensures
            self.holds(a),
    {
        self.lemma_true_sum_split(a);
        let rest = self.vars().difference(self.rec());
        if self.constraint_type == ConstraintType::NotEqual {
            assert(fsum(rest, self.sat_w(a)) == 0);
        }
    }

    /// The unrecorded literals with a positive factor, in index order.
    #[verifier::rlimit(40)]
    fn collect_unassigned(&self) -> (list: Vec<Literal>)
        requires
            forall|k: usize| #[trigger] self.unassigned_literals@.contains_key(k)
                ==> self.unassigned_literals@[k].index == k,
        ensures
            sorted_values_of(list@, self.unassigned_literals@),
    {
        let mut implied_literals: Vec<Literal> = Vec::new();
        let ghost m = self.unassigned_literals@;
        let ghost g_seq = self.unassigned_literals.iter().remaining();
        let ghost mut g_i: int = 0;
        for (index, unassigned_literal) in it: self.unassigned_literals.iter()
            invariant
                m == self.unassigned_literals@,
                g_seq == it.seq(),
                g_i == it.index(),
                forall|k: usize| #[trigger] m.contains_key(k) ==> m[k].index == k,
                forall|j: int| 0 <= j < g_seq.len() ==> m.contains_key(*(#[trigger] g_seq[j]).0)
                    && m[*g_seq[j].0] == *g_seq[j].1,
                g_seq.len() == m.dom().len(),
                forall|k: usize| #[trigger] m.contains_key(k) ==> g_seq.contains((&k, &m[k])),
                vstd::std_specs::btree::increasing_seq(g_seq.map_values(|kv: (&usize, &Literal)| *kv.0)),
                forall|i: int| 0 <= i < implied_literals@.len() ==> {
                    &&& m.contains_key(#[trigger] implied_literals@[i].index as usize)
                    &&& m[implied_literals@[i].index as usize] == implied_literals@[i]
                    &&& implied_literals@[i].factor > 0
                },
                forall|i: int| 0 <= i < implied_literals@.len() && g_i < g_seq.len()
                    ==> (#[trigger] implied_literals@[i]).index < *g_seq[g_i].0,
                forall|j: int| 0 <= j < g_i && (#[trigger] g_seq[j]).1.factor > 0 ==> exists|i: int|
                    0 <= i < implied_literals@.len() && implied_literals@[i].index == *g_seq[j].0,
                forall|i1: int, i2: int| 0 <= i1 < i2 < implied_literals@.len()
                    ==> implied_literals@[i1].index < implied_literals@[i2].index,
        {
            let ghost before = implied_literals@;
            let ghost key = *g_seq[g_i].0;
            proof {
                lemma_walk_keys_increase(g_seq);
                assert(m.contains_key(key));
                assert(m[key].index == key);
            }
            if unassigned_literal.factor > 0 {
                implied_literals.push(Literal {
                    index: *index as u32,
                    factor: unassigned_literal.factor,
                    positive: unassigned_literal.positive,
                });
                proof {
                    assert(implied_literals@.last() == m[key]);
                    assert forall|i: int| 0 <= i < implied_literals@.len() implies {
                        &&& m.contains_key(#[trigger] implied_literals@[i].index as usize)
                        &&& m[implied_literals@[i].index as usize] == implied_literals@[i]
                        &&& implied_literals@[i].factor > 0
                    } by {
                        if i < before.len() {
                            assert(implied_literals@[i] == before[i]);
                        }
                    }
                    assert forall|i1: int, i2: int| 0 <= i1 < i2 < implied_literals@.len()
                        implies implied_literals@[i1].index < implied_literals@[i2].index by {
                        assert(implied_literals@[i1] == before[i1]);
                        if i2 < before.len() {
                            assert(implied_literals@[i2] == before[i2]);
                        }
                    }
                    assert forall|j: int| 0 <= j < g_i + 1 && (#[trigger] g_seq[j]).1.factor > 0 implies exists|i: int|
                        0 <= i < implied_literals@.len() && implied_literals@[i].index == *g_seq[j].0 by {
                        if j < g_i {
                            let i = choose|i: int| 0 <= i < before.len() && before[i].index == *g_seq[j].0;
                            assert(implied_literals@[i] == before[i]);
                        } else {
                            assert(implied_literals@[before.len() as int].index == *g_seq[j].0);
                        }
                    }
                }
            }
            proof {
                assert forall|i: int| 0 <= i < implied_literals@.len() && g_i + 1 < g_seq.len()
                    implies (#[trigger] implied_literals@[i]).index < *g_seq[g_i + 1].0 by {
                    assert(*g_seq[g_i].0 < *g_seq[g_i + 1].0);
                    if i < before.len() {
                        assert(implied_literals@[i] == before[i]);
                    }
                }
                g_i = g_i + 1;
            }
        }
        proof {
            assert forall|k: usize| #[trigger] m.contains_key(k) && m[k].factor > 0 implies exists|i: int|
                0 <= i < implied_literals@.len() && implied_literals@[i].index == k by {
                assert(g_seq.contains((&k, &m[k])));
                let j = choose|j: int| 0 <= j < g_seq.len() && g_seq[j] == (&k, &m[k]);
                assert(g_seq[j].1.factor > 0);
            }
        }
        implied_literals
    }

    /// Reports what the recorded values reveal, without changing the constraint.
    pub fn simplify(&mut self) -> (r: PropagationResult)
        requires
            old(self).wf(),
        ensures
            *final(self) == *old(self),
            old(self).outcome_is(r),
    {
        proof { self.lemma_sums_bounded(); }
        if self.constraint_type == ConstraintType::NotEqual {
            if self.sum_unassigned == 0 && self.sum_true != self.degree as u128 {
                return PropagationResult::Satisfied;
            } else if self.sum_unassigned == 0 && self.sum_true == self.degree as u128 {
                return PropagationResult::Unsatisfied;
            } else {
                return PropagationResult::NothingToPropagated;
            }
        }
        self.ge_outcome()
    }

    fn ge_outcome(&self) -> (r: PropagationResult)
        requires
            self.wf(),
            self.constraint_type == ConstraintType::GreaterEqual,
        ensures
            self.outcome_is(r),
    {
        proof {
            self.lemma_sums_bounded();
            if self.max_literal.factor > 0 {
                let k = self.max_literal.index as usize;
                assert(self.unassigned_literals@.contains_key(k));
                lemma_fsum_ge_elem(self.vars().difference(self.rec()), self.factor_w(), k);
            }
        }
        if self.sum_true >= self.degree as u128 {
            PropagationResult::Satisfied
        } else if self.sum_true + self.sum_unassigned < self.degree as u128 {
            PropagationResult::Unsatisfied
        } else if self.sum_true + self.sum_unassigned == self.degree as u128 {
            PropagationResult::ImpliedLiteralList(self.collect_unassigned())
        } else if self.sum_true + self.sum_unassigned < (self.degree as u128) + self.max_literal.factor {
            PropagationResult::ImpliedLiteral(Literal {
                index: self.max_literal.index,
                factor: self.max_literal.factor,
                positive: self.max_literal.positive,
            })
        } else {
            PropagationResult::NothingToPropagated
        }
    }

    /// The recorded values except the one of `propagated_variable_index`, each as
    /// (kind, value, decision level).
    pub fn calculate_reason(&self, propagated_variable_index: usize) -> (r: BTreeMap<usize, (AssignmentKind, bool, u32)>)
        ensures
            r@ == self.assignments@.remove(propagated_variable_index).map_values(
                |t: (bool, AssignmentKind, u32)| (t.1, t.0, t.2)),
    {
        let mut result: BTreeMap<usize, (AssignmentKind, bool, u32)> = BTreeMap::new();
        let ghost m = self.assignments@;
        let ghost g_seq = self.assignments.iter().remaining();
        let ghost mut g_i: int = 0;
        for (index, entry) in it: self.assignments.iter()
            invariant
                m == self.assignments@,
                g_seq == it.seq(),
                g_i == it.index(),
                g_seq.len() == m.dom().len(),
                g_seq.no_duplicates(),
                forall|j: int| 0 <= j < g_seq.len() ==> m.contains_key(*(#[trigger] g_seq[j]).0)
                    && m[*g_seq[j].0] == *g_seq[j].1,
                forall|k: usize| #[trigger] m.contains_key(k) ==> g_seq.contains((&k, &m[k])),
                forall|k: usize| #[trigger] result@.contains_key(k) ==> k != propagated_variable_index
                    && m.contains_key(k) && result@[k] == (m[k].1, m[k].0, m[k].2),
                forall|j: int| 0 <= j < g_i && *(#[trigger] g_seq[j]).0 != propagated_variable_index
                    ==> result@.contains_key(*g_seq[j].0),
        {
            let (sign, kind, decision_level) = *entry;
            if *index != propagated_variable_index {
                result.insert(*index, (kind, sign, decision_level));
            }
            proof { g_i = g_i + 1; }
        }
        proof {
            let target = m.remove(propagated_variable_index).map_values(
                |t: (bool, AssignmentKind, u32)| (t.1, t.0, t.2));
            assert forall|k: usize| target.contains_key(k) implies result@.contains_key(k) by {
                assert(g_seq.contains((&k, &m[k])));
                let j = choose|j: int| 0 <= j < g_seq.len() && g_seq[j] == (&k, &m[k]);
                assert(*g_seq[j].0 == k);
            }
            assert(result@ =~= target);
        }
        result
    }
}

impl Constraint {
    /// Records that the variable of `literal` takes the value `literal.positive`, and reports
    /// what the constraint reveals afterwards.
    pub fn propagate(&mut self, literal: Literal, assignment_kind: AssignmentKind, decision_level: u32) -> (r: PropagationResult)
        requires
            old(self).wf(),
            !old(self).satisfied_by_rec() ==> old(self).literals@.contains_key(literal.index as usize),
        ensures
            ({
                let k = literal.index as usize;
                &&& old(self).rec().contains(k) ==> {
                    &&& *final(self) == *old(self)
                    &&& if old(self).assignments@[k].0 == literal.positive {
                        r is NothingToPropagated
                    } else {
                        r is Unsatisfied
                    }
                }
                &&& !old(self).rec().contains(k) && old(self).satisfied_by_rec() ==> {
                    &&& *final(self) == *old(self)
                    &&& r is AlreadySatisfied
                }
                &&& !old(self).rec().contains(k) && !old(self).satisfied_by_rec() ==> {
                    &&& final(self).wf()
                    &&& final(self).same_statics(*old(self))
                    &&& final(self).assignments@ == old(self).assignments@.insert(k, (literal.positive, assignment_kind, decision_level))
                    &&& final(self).hash_value_old
                    &&& final(self).outcome_is(r)
                    &&& old(self).constraint_type == ConstraintType::NotEqual ==> final(self).max_literal == old(self).max_literal
                    &&& old(self).constraint_type == ConstraintType::GreaterEqual
                        ==> first_max(final(self).unassigned_literals@, final(self).max_literal)
                }
            }),
    {
        let k = literal.index as usize;
        if let Some((a, _, _)) = self.assignments.get(&k) {
            if *a == literal.positive {
                return PropagationResult::NothingToPropagated;
            } else {
                return PropagationResult::Unsatisfied;
            }
        }
        let already_satisfied = if self.constraint_type == ConstraintType::GreaterEqual {
            self.sum_true >= self.degree as u128
        } else {
            self.sum_unassigned == 0 && self.sum_true != self.degree as u128
        };
        if already_satisfied {
            return PropagationResult::AlreadySatisfied;
        }
        let ghost old_self = *self;
        proof {
            old_self.lemma_sums_bounded();
            let rest = old_self.vars().difference(old_self.rec());
            assert(rest.contains(k));
            lemma_fsum_remove(rest, old_self.factor_w(), k);
            lemma_fsum_nonneg(rest.remove(k), old_self.factor_w());
        }
        let (factor, positive) = match self.literals.get(&k) {
            Some(l) => (l.factor, l.positive),
            None => (0, false),
        };
        if positive == literal.positive {
            self.sum_true = self.sum_true + factor;
            self.sum_unassigned = self.sum_unassigned - factor;
        } else {
            self.sum_unassigned = self.sum_unassigned - factor;
        }
        self.unassigned_literals.remove(&k);
        self.assignments.insert(k, (literal.positive, assignment_kind, decision_level));
        self.hash_value_old = true;
        proof {
            let rec = old_self.rec();
            let vars = old_self.vars();
            assert(self.rec() =~= rec.insert(k));
            assert(self.unassigned_literals@ =~= self.literals@.remove_keys(self.rec()));
            assert forall|j: usize| rec.contains(j) implies (self.rec_true_w())(j) == (old_self.rec_true_w())(j) by {
                assert(self.assignments@[j] == old_self.assignments@[j]);
            }
            lemma_fsum_congr(rec, self.rec_true_w(), old_self.rec_true_w());
            lemma_fsum_insert(rec, self.rec_true_w(), k);
            assert(vars.difference(self.rec()) =~= vars.difference(rec).remove(k));
            assert(self.factor_w() == old_self.factor_w());
        }
        if self.constraint_type == ConstraintType::NotEqual {
            if self.sum_unassigned == 0 && self.sum_true != self.degree as u128 {
                return PropagationResult::Satisfied;
            } else if self.sum_unassigned == 0 && self.sum_true == self.degree as u128 {
                return PropagationResult::Unsatisfied;
            } else {
                return PropagationResult::NothingToPropagated;
            }
        }
        self.max_literal = self.get_max_literal();
        self.ge_outcome()
    }

    /// Forgets the recorded value of `variable_index`; true when that turns a constraint its
    /// recorded values satisfied into an open one.
    pub fn undo(&mut self, variable_index: u32, variable_sign: bool) -> (r: bool)
        requires
            old(self).wf(),
            old(self).rec().contains(variable_index as usize)
                ==> old(self).assignments@[variable_index as usize].0 == variable_sign,
        ensures
            ({
                let k = variable_index as usize;
                &&& !old(self).rec().contains(k) ==> *final(self) == *old(self) && !r
                &&& old(self).rec().contains(k) ==> {
                    &&& final(self).wf()
                    &&& final(self).same_statics(*old(self))
                    &&& final(self).assignments@ == old(self).assignments@.remove(k)
                    &&& final(self).hash_value_old
                    &&& r == (old(self).satisfied_by_rec() && !final(self).satisfied_by_rec())
                    &&& !old(self).satisfied_by_rec() ==> !final(self).satisfied_by_rec()
                    &&& final(self).max_literal == if old(self).literals@[k].factor > old(self).max_literal.factor {
                            old(self).literals@[k]
                        } else {
                            old(self).max_literal
                        }
                }
            }),
    {
        let k = variable_index as usize;
        if self.assignments.contains_key(&k) {
            let ghost old_self = *self;
            proof {
                old_self.lemma_sums_bounded();
                let rec = old_self.rec();
                lemma_fsum_remove(rec, old_self.rec_true_w(), k);
                lemma_fsum_nonneg(rec.remove(k), old_self.rec_true_w());
                let rest = old_self.vars().difference(rec);
                lemma_fsum_insert(rest, old_self.factor_w(), k);
                let vars = old_self.vars();
                assert(vars =~= rec + rest);
                lemma_fsum_union(rec, rest, old_self.factor_w());
                lemma_fsum_remove(rec, old_self.factor_w(), k);
                lemma_fsum_nonneg(rec.remove(k), old_self.factor_w());
            }
            if let Some(literal) = self.literals.get(&k) {
                let lit = Literal { index: literal.index, factor: literal.factor, positive: literal.positive };
                if lit.factor > self.max_literal.factor {
                    self.max_literal = Literal { index: lit.index, factor: lit.factor, positive: lit.positive };
                }
                let satisfied_before_undo = if self.constraint_type == ConstraintType::GreaterEqual {
                    self.sum_true >= self.degree as u128
                } else {
                    self.sum_unassigned == 0 && self.sum_true != self.degree as u128
                };
                self.unassigned_literals.insert(lit.index as usize, Literal { index: lit.index, factor: lit.factor, positive: lit.positive });
                self.assignments.remove(&k);
                self.sum_unassigned = self.sum_unassigned + lit.factor;
                if lit.positive == variable_sign {
                    self.sum_true = self.sum_true - lit.factor;
                }
                let satisfied_after_undo = if self.constraint_type == ConstraintType::GreaterEqual {
                    self.sum_true >= self.degree as u128
                } else {
                    self.sum_unassigned == 0 && self.sum_true != self.degree as u128
                };
                self.hash_value_old = true;
                proof {
                    let rec = old_self.rec();
                    let vars = old_self.vars();
                    assert(self.rec() =~= rec.remove(k));
                    assert(self.unassigned_literals@ =~= self.literals@.remove_keys(self.rec()));
                    assert forall|j: usize| rec.remove(k).contains(j) implies (self.rec_true_w())(j) == (old_self.rec_true_w())(j) by {
                        assert(self.assignments@[j] == old_self.assignments@[j]);
                    }
                    lemma_fsum_congr(rec.remove(k), self.rec_true_w(), old_self.rec_true_w());
                    assert(vars.difference(self.rec()) =~= vars.difference(rec).insert(k));
                    assert(self.factor_w() == old_self.factor_w());
                }
                if satisfied_before_undo && !satisfied_after_undo {
                    return true;
                }
            }
        }
        false
    }
}

/// A formula: constraints over `number_variables` variables, with, for each variable, the
/// constraints that mention it.
#[derive(Debug)]
pub struct PseudoBooleanFormula {
    pub constraints: Vec<Constraint>,
    pub number_variables: u32,
    pub constraints_by_variable: Vec<Vec<usize>>,
    pub name_map: BiHashMap<String, u32>,
}

impl PseudoBooleanFormula {
    /// Every constraint is consistent, knows its own position, mentions only existing variables,
    /// and the per-variable lists name exactly the constraints mentioning each variable.
    pub open spec fn wf(self) -> bool {
        &&& self.constraints_by_variable@.len() == self.number_variables
        &&& forall|i: int| 0 <= i < self.constraints@.len() ==> {
            &&& (#[trigger] self.constraints@[i]).wf()
            &&& self.constraints@[i].index == ConstraintIndex::NormalConstraintIndex(i as usize)
            &&& forall|k: usize| #[trigger] self.constraints@[i].vars().contains(k) ==> {
                &&& k < self.number_variables
                &&& exists|j: int| 0 <= j < self.constraints_by_variable@[k as int]@.len()
                    && self.constraints_by_variable@[k as int]@[j] == i
            }
        }
        &&& forall|v: int, j: int| 0 <= v < self.number_variables
            && 0 <= j < self.constraints_by_variable@[v]@.len() ==> {
            &&& (#[trigger] self.constraints_by_variable@[v]@[j]) < self.constraints@.len()
            &&& self.constraints@[self.constraints_by_variable@[v]@[j] as int].vars().contains(v as usize)
        }
    }

    /// No constraint has recorded any value yet.
    pub open spec fn untouched(self) -> bool {
        forall|i: int| 0 <= i < self.constraints@.len() ==> (#[trigger] self.constraints@[i]).rec().is_empty()
    }
}


/// Forgetting the value a constraint has just recorded restores it: when `c1` is `c0` with an
/// entry recorded for the unrecorded variable `k`, and `c2` is `c1` with the value of `k`
/// forgotten, `c2` has the recorded values, open literals and sums of `c0`.
pub proof fn lemma_undo_restores(c0: Constraint, c1: Constraint, c2: Constraint, k: usize, entry: (bool, AssignmentKind, u32))
    requires
        c0.wf(),
        !c0.rec().contains(k),
        c1.wf(),
        c1.same_statics(c0),
        c1.assignments@ == c0.assignments@.insert(k, entry),
        c2.wf(),
        c2.same_statics(c1),
        c2.assignments@ == c1.assignments@.remove(k),
    ensures
        c2.same_statics(c0),
        c2.assignments@ == c0.assignments@,
        c2.unassigned_literals@ == c0.unassigned_literals@,
        c2.sum_true == c0.sum_true,
        c2.sum_unassigned == c0.sum_unassigned,
{
    assert(c2.assignments@ =~= c0.assignments@);
    assert(c2.rec() =~= c0.rec());
    assert(c2.rec_true_w() =~= c0.rec_true_w());
    assert(c2.factor_w() =~= c0.factor_w());
    assert(c2.unassigned_literals@ =~= c0.unassigned_literals@);
}

} // verus!
