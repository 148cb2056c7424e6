use p2d::parser::parse;

#[test]
fn parser_test_ex_1() {
    let result = parse("");

    match result {
        Err(err) => {
            assert_eq!(err, "Parsing error!  --> 1:1\n  |\n1 | \n  | ^---\n  |\n  = expected header".to_string());
        }
        Ok(_) => panic!("Expected an error, but got Ok instead."),
    }
}

#[test]
fn parser_test_ex_2() {
    let result = parse("#variable= 0 #constraint= 0\n");

    match result {
        Err(err) => {
            assert_eq!(err, "Parsing error!  --> 2:1\n  |\n2 | \n  | ^---\n  |\n  = expected first_literal".to_string());
        }
        Ok(_) => panic!("Expected an error, but got Ok instead."),
    }
}

#[test]
fn parser_test_ex_3() {
    let result = parse("#variable= 2 #constraint= 1\nx1 * x2 >= 1");

    match result {
        Err(err) => {
            assert_eq!(err, "Parsing error!  --> 2:4\n  |\n2 | x1 * x2 >= 1\n  |    ^---\n  |\n  = expected factor_sign or equation_kind".to_string());
        }
        Ok(_) => panic!("Expected an error, but got Ok instead."),
    }
}

#[test]
fn parser_test_ex_4() {
    let result = parse("#variable= 2 #constraint= 1\nx1 + x2 _ 1;\n");

    match result {
        Err(err) => {
            assert_eq!(err, "Parsing error!  --> 2:9\n  |\n2 | x1 + x2 _ 1;\n  |         ^---\n  |\n  = expected factor_sign or equation_kind".to_string());
        }
        Ok(_) => panic!("Expected an error, but got Ok instead."),
    }
}
