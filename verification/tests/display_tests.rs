use bimap::BiHashMap;
use p2d::opb::{Equation, EquationKind, Summand};

fn names() -> BiHashMap<String, u32> {
    let mut map = BiHashMap::new();
    map.insert("x".to_string(), 0);
    map.insert("y".to_string(), 1);
    map
}

#[test]
fn relation_symbols() {
    assert_eq!(EquationKind::Eq.to_string(), "=");
    assert_eq!(EquationKind::Ge.to_string(), ">=");
    assert_eq!(EquationKind::Le.to_string(), "<=");
    assert_eq!(EquationKind::G.to_string(), ">");
    assert_eq!(EquationKind::L.to_string(), "<");
    assert_eq!(EquationKind::NotEq.to_string(), "!=");
}

#[test]
fn summand_with_negative_literal() {
    let summand = Summand { variable_index: 1, factor: -12, positive: false };
    assert_eq!(summand.to_string(&names()), "-12 -y");
}

#[test]
fn equation_as_text() {
    let equation = Equation {
        lhs: vec![
            Summand { variable_index: 0, factor: 3, positive: true },
            Summand { variable_index: 1, factor: 1, positive: false },
        ],
        rhs: -2,
        kind: EquationKind::NotEq,
    };
    assert_eq!(equation.to_string(&names()), "3 x 1 -y != -2;");
}
