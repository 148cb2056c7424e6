//! The contents of an `.opb` file: named variables and pseudo-Boolean equations over them.

use vstd::prelude::*;
use bimap::BiHashMap;
use crate::name_map::{name_pairs, name_map_new, name_map_get_by_right};
use crate::text::{decimal, signed_decimal, push_char, push_decimal, push_signed_decimal};
use vstd::string::{StringExecFns, StrSliceExecFns};

verus! {

/// A parsed `.opb` file.
pub struct OPBFile {
    pub name_map: BiHashMap<String, u32>,
    pub equations: Vec<Equation>,
    pub max_name_index: u32,
    pub number_constraints: usize,
    pub number_variables: usize,
}

/// `lhs kind rhs`, where the left-hand side is a sum of weighted literals.
#[derive(Clone)]
pub struct Equation {
    pub lhs: Vec<Summand>,
    pub rhs: i128,
    pub kind: EquationKind,
}

/// The relation of an equation.
#[derive(PartialEq, Eq, Structural, Debug, Clone, Copy)]
pub enum EquationKind {
    Eq,
    Ge,
    Le,
    G,
    L,
    NotEq,
}

/// `factor` times the literal of variable `variable_index` with polarity `positive`.
#[derive(Clone, Copy)]
pub struct Summand {
    pub variable_index: u32,
    pub factor: i128,
    pub positive: bool,
}

impl View for Equation {
    type V = (Seq<Summand>, i128, EquationKind);

    /// The summands, the right-hand side and the relation.
    open spec fn view(&self) -> (Seq<Summand>, i128, EquationKind) {
        (self.lhs@, self.rhs, self.kind)
    }
}

/// What a summand contributes under the total assignment `a`.
pub open spec fn summand_value(s: Summand, a: Seq<bool>) -> int {
    if a[s.variable_index as int] == s.positive {
        s.factor as int
    } else {
        0
    }
}

/// The value of a sum of summands under `a`.
pub open spec fn lhs_value(lhs: Seq<Summand>, a: Seq<bool>) -> int
    decreases lhs.len(),
{
    if lhs.len() == 0 {
        0
    } else {
        lhs_value(lhs.drop_last(), a) + summand_value(lhs.last(), a)
    }
}

/// Whether `value kind rhs` is true.
pub open spec fn relation_holds(kind: EquationKind, value: int, rhs: int) -> bool {
    match kind {
        EquationKind::Eq => value == rhs,
        EquationKind::Ge => value >= rhs,
        EquationKind::Le => value <= rhs,
        EquationKind::G => value > rhs,
        EquationKind::L => value < rhs,
        EquationKind::NotEq => value != rhs,
    }
}

/// Whether the total assignment `a` satisfies the equation.
pub open spec fn equation_holds(e: Equation, a: Seq<bool>) -> bool {
    relation_holds(e.kind, lhs_value(e.lhs@, a), e.rhs as int)
}

/// Whether the total assignment `a` satisfies every equation of the file.
pub open spec fn opb_holds(f: OPBFile, a: Seq<bool>) -> bool {
    forall|i: int| 0 <= i < f.equations@.len() ==> equation_holds(#[trigger] f.equations@[i], a)
}

/// A clause as an equation: every summand has factor 1.
pub open spec fn unit_factors(lhs: Seq<Summand>) -> bool {
    forall|j: int| 0 <= j < lhs.len() ==> (#[trigger] lhs[j]).factor == 1
}

/// Some summand's literal is true under `a`.
pub open spec fn some_literal_true(lhs: Seq<Summand>, a: Seq<bool>) -> bool {
    exists|j: int| 0 <= j < lhs.len() && a[(#[trigger] lhs[j]).variable_index as int] == lhs[j].positive
}

/// With factors 1, the value is at least 1 exactly when some literal is true, and never negative.
proof fn lemma_unit_value(lhs: Seq<Summand>, a: Seq<bool>)
    requires
        unit_factors(lhs),
    ensures
        lhs_value(lhs, a) >= 0,
        lhs_value(lhs, a) >= 1 <==> some_literal_true(lhs, a),
    decreases lhs.len(),
{
    if lhs.len() > 0 {
        let l = lhs.drop_last();
        assert forall|j: int| 0 <= j < l.len() implies (#[trigger] l[j]).factor == 1 by {
            assert(l[j] == lhs[j]);
        }
        lemma_unit_value(l, a);
        if some_literal_true(lhs, a) {
            let j = choose|j: int| 0 <= j < lhs.len() && a[(#[trigger] lhs[j]).variable_index as int] == lhs[j].positive;
            if j < l.len() {
                assert(l[j] == lhs[j]);
            }
        }
        if some_literal_true(l, a) {
            let j = choose|j: int| 0 <= j < l.len() && a[(#[trigger] l[j]).variable_index as int] == l[j].positive;
            assert(l[j] == lhs[j]);
        }
    }
}

/// A clause is a pseudo-Boolean equation: `1 l1 + ... + 1 ln >= 1` holds exactly when one of
/// the literals is true.
pub proof fn lemma_clause_equation(e: Equation, a: Seq<bool>)
    requires
        unit_factors(e.lhs@),
        e.kind == EquationKind::Ge,
        e.rhs == 1,
    ensures
        equation_holds(e, a) <==> some_literal_true(e.lhs@, a),
{
    lemma_unit_value(e.lhs@, a);
}

impl OPBFile {
    /// An empty file: no names, no equations, all counts zero.
    pub fn new() -> (r: OPBFile)
        ensures
            name_pairs(r.name_map).dom().is_empty(),
            r.equations@.len() == 0,
            r.max_name_index == 0,
            r.number_constraints == 0,
            r.number_variables == 0,
    {
        OPBFile {
            name_map: name_map_new(),
            equations: Vec::new(),
            max_name_index: 0,
            number_constraints: 0,
            number_variables: 0,
        }
    }
}


// ---------------------------------------------------------------------------------------------
// Writing a file back as text.

/// The symbol of a relation.
pub open spec fn kind_text(kind: EquationKind) -> Seq<char> {
    match kind {
        EquationKind::Eq => "="@,
        EquationKind::Ge => ">="@,
        EquationKind::Le => "<="@,
        EquationKind::G => ">"@,
        EquationKind::L => "<"@,
        EquationKind::NotEq => "!="@,
    }
}

/// A summand as text, with `name` the name of its variable: the factor, a space, a `-` for a
/// negative literal, then the name.
pub open spec fn summand_text(s: Summand, name: Seq<char>) -> Seq<char> {
    signed_decimal(s.factor as int) + seq![' '] + (if s.positive { Seq::empty() } else { seq!['-'] }) + name
}

/// The summands as text, each followed by a space; `names` holds the names of their variables.
pub open spec fn lhs_text(lhs: Seq<Summand>, names: Seq<Seq<char>>) -> Seq<char>
    decreases lhs.len(),
{
    if lhs.len() == 0 {
        Seq::empty()
    } else {
        lhs_text(lhs.drop_last(), names.drop_last()) + summand_text(lhs.last(), names.last()) + seq![' ']
    }
}

/// An equation as text: its summands, the relation, the right-hand side and a `;`.
pub open spec fn equation_text(e: (Seq<Summand>, i128, EquationKind), names: Seq<Seq<char>>) -> Seq<char> {
    lhs_text(e.0, names) + kind_text(e.2) + seq![' '] + signed_decimal(e.1 as int) + seq![';']
}

/// `names` gives, for each summand of `lhs`, a name that `pairs` pairs with its variable.
pub open spec fn names_for(pairs: Map<Seq<char>, u32>, lhs: Seq<Summand>, names: Seq<Seq<char>>) -> bool {
    &&& names.len() == lhs.len()
    &&& forall|k: int| 0 <= k < lhs.len() ==> pairs.contains_key(#[trigger] names[k]) && pairs[names[k]] == lhs[k].variable_index
}

/// Every variable of `lhs` has a name in `pairs`.
pub open spec fn all_named(pairs: Map<Seq<char>, u32>, lhs: Seq<Summand>) -> bool {
    forall|k: int| 0 <= k < lhs.len() ==> exists|l: Seq<char>| pairs.contains_key(l) && pairs[l] == (#[trigger] lhs[k]).variable_index
}

/// `names` gives, for each equation of `f`, names for its summands' variables.
pub open spec fn file_names(f: OPBFile, names: Seq<Seq<Seq<char>>>) -> bool {
    &&& names.len() == f.equations@.len()
    &&& forall|i: int| 0 <= i < f.equations@.len() ==> names_for(name_pairs(f.name_map), #[trigger] f.equations@[i].lhs@, names[i])
}

/// The equations as text, one per line; `names` holds the names of each equation's variables.
pub open spec fn equations_text(eqs: Seq<(Seq<Summand>, i128, EquationKind)>, names: Seq<Seq<Seq<char>>>) -> Seq<char>
    decreases eqs.len(),
{
    if eqs.len() == 0 {
        Seq::empty()
    } else {
        equations_text(eqs.drop_last(), names.drop_last()) + equation_text(eqs.last(), names.last()) + seq!['\n']
    }
}

/// A file as text: the header line with the numbers of variables and constraints, then the
/// equations.
pub open spec fn file_text(
    number_variables: nat,
    number_constraints: nat,
    eqs: Seq<(Seq<Summand>, i128, EquationKind)>,
    names: Seq<Seq<Seq<char>>>,
) -> Seq<char> {
    "* #variable= "@ + decimal(number_variables) + " #constraint= "@ + decimal(number_constraints) + seq!['\n']
        + equations_text(eqs, names)
}

impl EquationKind {
    /// The symbol of the relation.
    pub fn to_string(&self) -> (r: String)
        ensures
            r@ == kind_text(*self),
    {
        let mut r = String::new();
        match self {
            EquationKind::Eq => r.append("="),
            EquationKind::Ge => r.append(">="),
            EquationKind::Le => r.append("<="),
            EquationKind::G => r.append(">"),
            EquationKind::L => r.append("<"),
            EquationKind::NotEq => r.append("!="),
        }
        r
    }
}

impl Summand {
    /// The summand as text, its variable written by the name `variable_map` pairs with it.
    pub fn to_string(&self, variable_map: &BiHashMap<String, u32>) -> (r: String)
        requires
            exists|l: Seq<char>| name_pairs(*variable_map).contains_key(l) && name_pairs(*variable_map)[l] == self.variable_index,
        ensures
            exists|l: Seq<char>| {
                &&& name_pairs(*variable_map).contains_key(l)
                &&& name_pairs(*variable_map)[l] == self.variable_index
                &&& r@ == summand_text(*self, l)
            },
    {
        let mut output = String::new();
        push_signed_decimal(&mut output, self.factor);
        push_char(&mut output, ' ');
        if !self.positive {
            push_char(&mut output, '-');
        }
        match name_map_get_by_right(variable_map, self.variable_index) {
            Some(name) => {
                output.append(name.as_str());
                proof {
                    let l = name@;
                    assert(output@ =~= summand_text(*self, l));
                }
                output
            },
            None => {
                assert(false);
                output
            },
        }
    }
}

impl Equation {
    /// The equation as text, its variables written by the names `variable_map` pairs with them.
    pub fn to_string(&self, variable_map: &BiHashMap<String, u32>) -> (r: String)
        requires
            all_named(name_pairs(*variable_map), self.lhs@),
        ensures
            exists|names: Seq<Seq<char>>| names_for(name_pairs(*variable_map), self.lhs@, names) && r@ == equation_text(self@, names),
    {
        let ghost pairs = name_pairs(*variable_map);
        let ghost mut names: Seq<Seq<char>> = Seq::empty();
        let mut output = String::new();
        let mut k: usize = 0;
        while k < self.lhs.len()
            invariant
                0 <= k <= self.lhs@.len(),
                pairs == name_pairs(*variable_map),
                all_named(pairs, self.lhs@),
                names_for(pairs, self.lhs@.take(k as int), names),
                output@ == lhs_text(self.lhs@.take(k as int), names),
            decreases self.lhs@.len() - k,
        {
            let summand = &self.lhs[k];
            assert(exists|l: Seq<char>| pairs.contains_key(l) && pairs[l] == self.lhs@[k as int].variable_index);
            let text = summand.to_string(variable_map);
            let ghost name = choose|l: Seq<char>| pairs.contains_key(l) && pairs[l] == summand.variable_index && text@ == summand_text(*summand, l);
            output.append(text.as_str());
            push_char(&mut output, ' ');
            proof {
                let before = names;
                names = names.push(name);
                let taken = self.lhs@.take(k + 1);
                assert(taken.drop_last() =~= self.lhs@.take(k as int));
                assert(names.drop_last() =~= before);
                assert forall|j: int| 0 <= j < taken.len() implies pairs.contains_key(#[trigger] names[j]) && pairs[names[j]] == taken[j].variable_index by {
                    if j < k {
                        assert(names[j] == before[j]);
                    }
                }
            }
            k = k + 1;
        }
        let kind = self.kind.to_string();
        output.append(kind.as_str());
        push_char(&mut output, ' ');
        push_signed_decimal(&mut output, self.rhs);
        push_char(&mut output, ';');
        proof {
            assert(self.lhs@.take(self.lhs@.len() as int) =~= self.lhs@);
            assert(output@ =~= equation_text(self@, names));
        }
        output
    }
}

impl OPBFile {
    /// The file as text: the header line, then each equation on a line of its own.
    pub fn to_string(&self) -> (r: String)
        requires
            forall|i: int| 0 <= i < self.equations@.len() ==> all_named(name_pairs(self.name_map), #[trigger] self.equations@[i].lhs@),
        ensures
            exists|names: Seq<Seq<Seq<char>>>| #[trigger] file_names(*self, names)
                && r@ == file_text(self.number_variables as nat, self.number_constraints as nat,
                    self.equations@.map_values(|e: Equation| e@), names),
    {
        let ghost pairs = name_pairs(self.name_map);
        let ghost views = self.equations@.map_values(|e: Equation| e@);
        let ghost mut names: Seq<Seq<Seq<char>>> = Seq::empty();
        let mut output = String::new();
        output.append("* #variable= ");
        push_decimal(&mut output, self.number_variables as u128);
        output.append(" #constraint= ");
        push_decimal(&mut output, self.number_constraints as u128);
        push_char(&mut output, '\n');
        let ghost header = output@;
        let mut i: usize = 0;
        while i < self.equations.len()
            invariant
                0 <= i <= self.equations@.len(),
                pairs == name_pairs(self.name_map),
                views == self.equations@.map_values(|e: Equation| e@),
                forall|i2: int| 0 <= i2 < self.equations@.len() ==> all_named(pairs, #[trigger] self.equations@[i2].lhs@),
                names.len() == i,
                forall|i2: int| 0 <= i2 < i ==> names_for(pairs, #[trigger] self.equations@[i2].lhs@, names[i2]),
                output@ == header + equations_text(views.take(i as int), names),
            decreases self.equations@.len() - i,
        {
            let equation = &self.equations[i];
            let text = equation.to_string(&self.name_map);
            let ghost eq_names = choose|n: Seq<Seq<char>>| names_for(pairs, equation.lhs@, n) && text@ == equation_text(equation@, n);
            output.append(text.as_str());
            push_char(&mut output, '\n');
            proof {
                let before = names;
                names = names.push(eq_names);
                let taken = views.take(i + 1);
                assert(taken.drop_last() =~= views.take(i as int));
                assert(names.drop_last() =~= before);
                assert(taken.last() == equation@);
                assert forall|i2: int| 0 <= i2 < i + 1 implies names_for(pairs, #[trigger] self.equations@[i2].lhs@, names[i2]) by {
                    if i2 < i {
                        assert(names[i2] == before[i2]);
                    }
                }
                assert(output@ =~= header + equations_text(views.take(i + 1), names));
            }
            i = i + 1;
        }
        proof {
            assert(views.take(views.len() as int) =~= views);
            assert(file_names(*self, names));
            assert(output@ =~= file_text(self.number_variables as nat, self.number_constraints as nat, views, names));
        }
        output
    }
}

} // verus!
