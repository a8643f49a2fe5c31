use bool_expr_parser::{
    format_bool_expr, parse_bool_expr_str, parse_bool_expr_str_with_max_nesting,
    BoolExprParseError,
};

#[test]
fn rejects_square_brackets() {
    let err = parse_bool_expr_str("[x]", &["x"]).unwrap_err();
    assert!(matches!(err, BoolExprParseError::InvalidBrackets));
}

#[test]
fn rejects_angle_and_curly_brackets() {
    let err = parse_bool_expr_str("x < y", &["x", "y"]).unwrap_err();
    assert!(matches!(err, BoolExprParseError::InvalidBrackets));
    let err = parse_bool_expr_str("{x}", &["x"]).unwrap_err();
    assert!(matches!(err, BoolExprParseError::InvalidBrackets));
}

#[test]
fn rejects_non_alphanumeric_token() {
    let err = parse_bool_expr_str("x & $y", &["x", "y"]).unwrap_err();
    match err {
        BoolExprParseError::NonAlphanumericToken { token } => assert_eq!(token, "$y"),
        other => panic!("unexpected error: {:?}", other),
    }
}

#[test]
fn reports_the_unknown_terminal() {
    let err = parse_bool_expr_str("x | y", &["y"]).unwrap_err();
    match err {
        BoolExprParseError::UnknownTerminal { terminal } => assert_eq!(terminal, "x"),
        other => panic!("unexpected error: {:?}", other),
    }
}

#[test]
fn rejects_consecutive_terminals() {
    let err = parse_bool_expr_str("x y", &["x", "y"]).unwrap_err();
    assert!(matches!(err, BoolExprParseError::ConsecutiveTerminals { .. }));
}

#[test]
fn rejects_consecutive_operators() {
    let err = parse_bool_expr_str("x & & y", &["x", "y"]).unwrap_err();
    match err {
        BoolExprParseError::ConsecutiveOperators { second } => assert_eq!(second, "and"),
        other => panic!("unexpected error: {:?}", other),
    }
}

#[test]
fn rejects_trailing_operator() {
    let err = parse_bool_expr_str("x |", &["x"]).unwrap_err();
    match err {
        BoolExprParseError::TrailingOperator { op } => assert_eq!(op, "or"),
        other => panic!("unexpected error: {:?}", other),
    }
}

#[test]
fn rejects_empty_parentheses_and_empty_input() {
    let err = parse_bool_expr_str("()", &[]).unwrap_err();
    assert!(matches!(err, BoolExprParseError::EmptyStack));
    let err = parse_bool_expr_str("", &[]).unwrap_err();
    assert!(matches!(err, BoolExprParseError::EmptyStack));
}

#[test]
fn rejects_unmatched_brackets_both_ways() {
    let err = parse_bool_expr_str("(x", &["x"]).unwrap_err();
    match err {
        BoolExprParseError::UnmatchedBracket { expr } => assert_eq!(expr, "(x"),
        other => panic!("unexpected error: {:?}", other),
    }
    let err = parse_bool_expr_str("x)", &["x"]).unwrap_err();
    assert!(matches!(err, BoolExprParseError::UnmatchedBracket { .. }));
    let err = parse_bool_expr_str("((x)", &["x"]).unwrap_err();
    assert!(matches!(err, BoolExprParseError::UnmatchedBracket { .. }));
}

#[test]
fn enforces_the_nesting_bound() {
    // one more level than the bound fails, exactly the bound succeeds
    let err = parse_bool_expr_str_with_max_nesting("((x))", &["x"], 1).unwrap_err();
    assert!(matches!(err, BoolExprParseError::TooMuchNesting));
    let ok = parse_bool_expr_str_with_max_nesting("(x)", &["x"], 1).unwrap();
    assert_eq!(format_bool_expr(ok), "x");
}

#[test]
fn bound_zero_still_accepts_flat_input() {
    let ok = parse_bool_expr_str_with_max_nesting("x & y", &["x", "y"], 0).unwrap();
    assert_eq!(format_bool_expr(ok), "x & y");
    let err = parse_bool_expr_str_with_max_nesting("(x)", &["x"], 0).unwrap_err();
    assert!(matches!(err, BoolExprParseError::TooMuchNesting));
}

#[test]
fn lowercases_input_and_accepts_mixed_spellings() {
    let parsed = parse_bool_expr_str("X AND Y", &["x", "y"]).unwrap();
    assert_eq!(format_bool_expr(parsed), "x & y");
    let parsed = parse_bool_expr_str("x && y || z", &["x", "y", "z"]).unwrap();
    assert_eq!(format_bool_expr(parsed), "(x & y) | z");
}

#[test]
fn negation_at_the_very_start() {
    let parsed = parse_bool_expr_str("not x", &["x"]).unwrap();
    assert_eq!(format_bool_expr(parsed), "!x");
}

#[test]
fn accepts_boolean_literals_as_tokens() {
    let parsed = parse_bool_expr_str("true & x", &["x"]).unwrap();
    // the laws pass folds the conjunction with true away
    assert_eq!(format_bool_expr(parsed), "x");
    let parsed = parse_bool_expr_str("false", &[]).unwrap();
    assert_eq!(format_bool_expr(parsed), "false");
}

#[test]
fn round_trip_is_idempotent_on_concrete_inputs() {
    let cases: Vec<(&str, Vec<&str>)> = vec![
        ("x and y and not z", vec!["x", "y", "z"]),
        ("x and (a || (b && !c))", vec!["x", "a", "b", "c"]),
        ("a | b & c", vec!["a", "b", "c"]),
        ("!p_1 or q2", vec!["p_1", "q2"]),
    ];
    for (raw, terms) in cases {
        let first = format_bool_expr(parse_bool_expr_str(raw, &terms).unwrap());
        let second = format_bool_expr(parse_bool_expr_str(&first, &terms).unwrap());
        assert_eq!(first, second);
    }
}

#[test]
fn formatted_output_uses_only_the_canonical_alphabet() {
    let first = format_bool_expr(
        parse_bool_expr_str("alpha and not beta or true", &["alpha", "beta"]).unwrap(),
    );
    for c in first.chars() {
        let structural = "&|!() ".contains(c) || "truefals".contains(c);
        let from_terms = "alphbet".contains(c);
        assert!(structural || from_terms, "unexpected character {:?}", c);
    }
}

#[test]
fn default_bound_allows_a_hundred_levels() {
    let mut deep = String::new();
    for _ in 0..100 {
        deep.push('(');
    }
    deep.push('x');
    for _ in 0..100 {
        deep.push(')');
    }
    let ok = parse_bool_expr_str(&deep, &["x"]).unwrap();
    assert_eq!(format_bool_expr(ok), "x");

    let one_more = format!("({})", deep);
    let err = parse_bool_expr_str(&one_more, &["x"]).unwrap_err();
    assert!(matches!(err, BoolExprParseError::TooMuchNesting));
}

#[test]
fn other_whitespace_is_trimmed_from_tokens() {
    let parsed = parse_bool_expr_str("x \t& y", &["x", "y"]).unwrap();
    assert_eq!(format_bool_expr(parsed), "x & y");
}
