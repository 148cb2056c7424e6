use p2d::parser::{parse, try_parse};

#[test]
fn missing_semicolon_is_reported() {
    let err = parse("#variable= 1 #constraint= 1\nx >= 1").err().expect("an error");
    assert_eq!(err, "Parsing error!  --> 2:7\n  |\n2 | x >= 1\n  |       ^---\n  |\n  = expected ;");
}

#[test]
fn stray_text_after_equations_names_the_end_of_input() {
    let err = parse("#variable= 1 #constraint= 1\nx >= 1;\n=").err().expect("an error");
    assert_eq!(err, "Parsing error!  --> 3:1\n  |\n3 | =\n  | ^---\n  |\n  = expected first_literal or EOI");
}

#[test]
fn missing_number_of_variables() {
    let err = parse("#variable= #constraint= 1\nx >= 1;").err().expect("an error");
    assert_eq!(err, "Parsing error!  --> 1:12\n  |\n1 | #variable= #constraint= 1\n  |            ^---\n  |\n  = expected number_variables");
}

#[test]
fn right_hand_side_too_large_for_i128() {
    let err = parse("#variable= 1 #constraint= 1\nx >= 170141183460469231731687303715884105728;").err().expect("an error");
    assert_eq!(err, "Parsing error! 170141183460469231731687303715884105728 is not a valid right hand side");
}

#[test]
fn negative_right_hand_side_at_the_bound() {
    let err = parse("#variable= 1 #constraint= 1\nx >= -170141183460469231731687303715884105728;").err().expect("an error");
    assert_eq!(err, "Parsing error! -170141183460469231731687303715884105728 is not a valid right hand side");
    let file = parse("#variable= 1 #constraint= 1\nx >= -170141183460469231731687303715884105727;").expect("parses");
    assert_eq!(file.equations[0].rhs, -170141183460469231731687303715884105727i128);
}

#[test]
fn factor_too_large_gives_nothing() {
    assert!(try_parse("#variable= 1 #constraint= 1\n170141183460469231731687303715884105728 x >= 1;").is_none());
}

#[test]
fn header_number_too_large_gives_nothing() {
    assert!(try_parse("#variable= 999999999999999999999999999999 #constraint= 1\nx >= 1;").is_none());
}

#[test]
fn names_get_indices_in_order_of_appearance() {
    let file = parse("# variable = 3 # constraint = 2\nb + 2 * a >= 1;\n-3 c - b != 0;").expect("parses");
    assert_eq!(file.max_name_index, 3);
    assert_eq!(file.number_variables, 3);
    assert_eq!(file.number_constraints, 2);
    assert_eq!(file.name_map.get_by_left("b"), Some(&0));
    assert_eq!(file.name_map.get_by_left("a"), Some(&1));
    assert_eq!(file.name_map.get_by_left("c"), Some(&2));
    let second = &file.equations[1];
    assert_eq!(second.lhs.len(), 2);
    assert_eq!(second.lhs[0].factor, -3);
    assert_eq!(second.lhs[0].variable_index, 2);
    assert_eq!(second.lhs[1].factor, -1);
    assert_eq!(second.lhs[1].variable_index, 0);
    assert!(second.lhs.iter().all(|s| s.positive));
}

#[test]
fn quoted_names_keep_their_quotes() {
    let file = parse("#variable= 1 #constraint= 1\n1 * \" var_name !\" >= 1;").expect("parses");
    assert_eq!(file.name_map.get_by_right(&0).map(|s| s.as_str()), Some("\" var_name !\""));
}
