use putnam::parser::{parse_and_convert, parse_dimacs, DimacsFormula, ParseError};
use putnam::solve;
use putnam::solver::dpll::SolveResult;
use putnam::types::Val;

/// Parses a string directly.
fn parse_str(src: &str) -> DimacsFormula {
    parse_dimacs(src.as_bytes()).expect("parse failed")
}

/// The minimal satisfiable input: just (x1).
#[test]
fn single_unit_clause() {
    let f = parse_str("p cnf 1 1\n1 0\n");

    assert_eq!(f.len(), 1);
    assert_eq!(f[0].len(), 1);
    assert_eq!(f[0][0].0, 1);
}

/// Comments mixed in, clauses with negated literals:
///   (x1 ∨ ¬x2 ∨ x3) ∧ (¬x1)
#[test]
fn negated_literals_and_comments() {
    let dimacs = "\
c example with comments
p cnf 3 2
1 -2 3 0
-1 0
";
    let f = parse_str(dimacs);

    assert_eq!(f.len(), 2);
    assert_eq!(f[0][0].0, 1);
    assert_eq!(f[0][1].0, -2);
    assert_eq!(f[0][2].0, 3);
    assert_eq!(f[1][0].0, -1);
}

/// An empty clause (just the 0 sentinel): the minimal unsatisfiable input.
#[test]
fn empty_clause_unsat() {
    let f = parse_str("p cnf 0 1\n0\n");

    assert_eq!(f.len(), 1);
    assert!(f[0].is_empty());
}

/// End to end: DIMACS text through conversion into the solver.
#[test]
fn integration_parse_and_solve() {
    // Simple SAT case: (x1) AND (NOT x2)
    let (formula, num_vars) = parse_and_convert("p cnf 2 2\n1 0\n-2 0\n".as_bytes()).unwrap();

    assert_eq!(num_vars, 2);
    assert_eq!(formula.len(), 2);

    match solve(&formula, num_vars) {
        SolveResult::Sat(model) => {
            assert_eq!(model.value(0), Val::True); // x1 = True
            assert_eq!(model.value(1), Val::False); // x2 = False
        }
        SolveResult::Unsat => panic!("Expected SAT"),
    }

    // Simple UNSAT case: (x1) AND (NOT x1)
    let (formula, num_vars) = parse_and_convert("p cnf 1 2\n1 0\n-1 0\n".as_bytes()).unwrap();

    assert_eq!(num_vars, 1);
    assert_eq!(solve(&formula, num_vars), SolveResult::Unsat);
}

/// A clause token that is not an integer is rejected.
#[test]
fn bad_token_is_rejected() {
    assert_eq!(parse_dimacs("1 x 0\n".as_bytes()), Err(ParseError::BadLiteral));
    assert_eq!(parse_dimacs("1 2- 0\n".as_bytes()), Err(ParseError::BadLiteral));
    assert_eq!(parse_dimacs("+ 0\n".as_bytes()), Err(ParseError::BadLiteral));
}

/// A literal that does not fit a 32-bit signed word is rejected; the two
/// extreme values that do fit are accepted.
#[test]
fn out_of_range_literal_is_rejected() {
    assert_eq!(
        parse_dimacs("99999999999 0\n".as_bytes()),
        Err(ParseError::BadLiteral)
    );
    assert_eq!(
        parse_dimacs("2147483648 0\n".as_bytes()),
        Err(ParseError::BadLiteral)
    );
    let f = parse_dimacs("2147483647 0\n".as_bytes()).unwrap();
    assert_eq!(f[0][0].0, 2147483647);
    let f = parse_dimacs("-2147483648 0\n".as_bytes()).unwrap();
    assert_eq!(f[0][0].0, -2147483648);
}

/// Everything after a clause's 0 sentinel is ignored, even a non-integer.
#[test]
fn tokens_after_sentinel_are_ignored() {
    let f = parse_str("1 -2 0 garbage\n");
    assert_eq!(f.len(), 1);
    assert_eq!(f[0].len(), 2);
    assert_eq!(f[0][0].0, 1);
    assert_eq!(f[0][1].0, -2);
}

/// A leading plus sign is accepted, as integer parsing allows.
#[test]
fn plus_sign_accepted() {
    let f = parse_str("+3 -1 0\n");
    assert_eq!(f[0][0].0, 3);
    assert_eq!(f[0][1].0, -1);
}

/// A clause line without a trailing 0 sentinel takes the whole line.
#[test]
fn missing_sentinel_takes_whole_line() {
    let f = parse_str("1 2 3\n");
    assert_eq!(f.len(), 1);
    assert_eq!(f[0].len(), 3);
    assert_eq!(f[0][2].0, 3);
}

/// Conversion renumbers to 0-based and sizes the variable range one past
/// the largest index referenced.
#[test]
fn conversion_is_zero_based() {
    let (formula, num_vars) = parse_and_convert("c header\n5 -3 0\n".as_bytes()).unwrap();
    assert_eq!(num_vars, 5);
    assert_eq!(formula.len(), 1);
    assert_eq!(formula[0][0].var, 4);
    assert!(!formula[0][0].neg);
    assert_eq!(formula[0][1].var, 2);
    assert!(formula[0][1].neg);
}
