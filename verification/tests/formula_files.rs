use rev_gol_proof::dimacs::{parse_dimacs_str, DimacsError};

#[test]
fn test_parse_dimacs_str_basic_formula() {
    let formula = parse_dimacs_str("c example\np cnf 3 2\n1 -2 0\n2 3 0\n").unwrap();

    assert_eq!(formula.clauses.len(), 2);
    assert_eq!(formula.variables(), vec!["x1", "x2", "x3"]);
}

#[test]
fn test_parse_dimacs_requires_header() {
    let err = parse_dimacs_str("1 -2 0\n").unwrap_err();
    assert!(err.to_string().contains("missing a 'p cnf' header"));
}

#[test]
fn test_parse_dimacs_rejects_unterminated_clause() {
    let err = parse_dimacs_str("p cnf 2 1\n1 -2\n").unwrap_err();
    assert!(err.to_string().contains("ended before a clause-terminating 0"));
}

#[test]
fn literals_keep_their_signs() {
    let formula = parse_dimacs_str("p cnf 2 1\n1 -2 0\n").unwrap();

    assert_eq!(formula.clauses[0].literals[0].variable, "x1");
    assert!(!formula.clauses[0].literals[0].negated);
    assert_eq!(formula.clauses[0].literals[1].variable, "x2");
    assert!(formula.clauses[0].literals[1].negated);
}

#[test]
fn clauses_may_span_lines() {
    let formula = parse_dimacs_str("p cnf 3 2\n1 -2\n0 2\n3 0").unwrap();

    assert_eq!(formula.clauses.len(), 2);
    assert_eq!(formula.clauses[1].literals.len(), 2);
}

#[test]
fn broken_headers_are_reported() {
    assert!(matches!(parse_dimacs_str("p sat 3 2\n"), Err(DimacsError::UnsupportedHeader { .. })));
    assert!(matches!(parse_dimacs_str("p cnf x 2\n"), Err(DimacsError::InvalidVariableCount { .. })));
    assert!(matches!(parse_dimacs_str("p cnf 3 x\n"), Err(DimacsError::InvalidClauseCount { .. })));
}

#[test]
fn a_word_that_is_no_number_is_reported() {
    let error = parse_dimacs_str("p cnf 1 1\n1 y 0\n").unwrap_err();

    assert!(matches!(error, DimacsError::InvalidLiteral { ref token } if token.as_str() == "y"));
}

#[test]
fn the_declared_counts_are_checked() {
    assert!(matches!(
        parse_dimacs_str("p cnf 1 2\n1 0\n"),
        Err(DimacsError::ClauseCount { expected: 2, actual: 1 })
    ));
    assert!(matches!(
        parse_dimacs_str("p cnf 1 1\n3 0\n"),
        Err(DimacsError::VariableRange { expected: 1, actual: 3 })
    ));
}

#[test]
fn a_shown_formula_is_read_back() {
    let clauses: Vec<Vec<i32>> = vec![vec![1, -2], vec![2, 30, -4], vec![], vec![-17]];
    let mut text = format!("p cnf 30 {}\n", clauses.len());
    for clause in &clauses {
        for number in clause {
            text.push_str(&format!("{} ", number));
        }
        text.push_str("0\n");
    }
    let formula = parse_dimacs_str(&text).unwrap();

    assert_eq!(formula.clauses.len(), clauses.len());
    for (read, shown) in formula.clauses.iter().zip(&clauses) {
        assert_eq!(read.literals.len(), shown.len());
        for (literal, number) in read.literals.iter().zip(shown) {
            assert_eq!(literal.variable, format!("x{}", number.abs()));
            assert_eq!(literal.negated, *number < 0);
        }
    }
}

#[test]
fn any_blanks_may_stand_around_numbers() {
    let spread = parse_dimacs_str("\tp  cnf\t3   2 \n  1\t-2   0\t\n \t2 3  0\n").unwrap();
    let plain = parse_dimacs_str("p cnf 3 2\n1 -2 0\n2 3 0\n").unwrap();

    assert_eq!(spread, plain);
    assert_eq!(spread.clone(), plain);
}

#[test]
fn a_clause_may_be_empty() {
    let formula = parse_dimacs_str("p cnf 1 2\n 0\n1 0\n").unwrap();

    assert_eq!(formula.clauses.len(), 2);
    assert!(formula.clauses[0].literals.is_empty());
}
