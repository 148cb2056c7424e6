use p2d::parser::parse;

#[test]
fn parse_and_display() {
    let input = r#"#variable= 7 #constraint= 2
x + 2 a + b + c >= 3;
-1 d + e + 1 * f >= 1;"#;

    let expected = r#"* #variable= 7 #constraint= 2
1 x 2 a 1 b 1 c >= 3;
-1 d 1 e 1 f >= 1;
"#;

    let parsed = parse(input).expect("failed to parse input");
    assert_eq!(parsed.to_string(), expected);
}
