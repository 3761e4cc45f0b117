use putnam::solve;
use putnam::solver::dpll::SolveResult;
use putnam::solver::unit::unit_propagate;
use putnam::types::{Formula, Lit, Model, Val};

fn lit(var: usize, neg: bool) -> Lit {
    Lit { var, neg }
}

/// Exhaustive truth-table check, for formulas over at most a few variables.
fn brute_force_sat(formula: &Formula, num_vars: usize) -> bool {
    assert!(num_vars <= 12);
    for mask in 0u32..(1u32 << num_vars) {
        let mut all = true;
        for clause in formula {
            let mut clause_sat = false;
            for l in clause {
                let value = (mask >> l.var) & 1 == 1;
                if value != l.neg {
                    clause_sat = true;
                    break;
                }
            }
            if !clause_sat {
                all = false;
                break;
            }
        }
        if all {
            return true;
        }
    }
    false
}

/// Pigeonhole: `holes + 1` pigeons into `holes` holes, unsatisfiable.
fn pigeonhole(holes: usize) -> (Formula, usize) {
    let pigeons = holes + 1;
    let var = |p: usize, h: usize| p * holes + h;
    let mut formula: Formula = Vec::new();
    for p in 0..pigeons {
        let mut clause = Vec::new();
        for h in 0..holes {
            clause.push(lit(var(p, h), false));
        }
        formula.push(clause);
    }
    for h in 0..holes {
        for p1 in 0..pigeons {
            for p2 in (p1 + 1)..pigeons {
                formula.push(vec![lit(var(p1, h), true), lit(var(p2, h), true)]);
            }
        }
    }
    (formula, pigeons * holes)
}

/// The chain formula (x0 ∨ x1) ∧ ⋀ᵢ [(¬xᵢ ∨ xᵢ₊₂) ∧ (¬xᵢ₊₁ ∨ xᵢ₊₂)].
fn chain(num_vars: usize) -> Formula {
    let mut formula: Formula = vec![vec![lit(0, false), lit(1, false)]];
    for i in 0..num_vars.saturating_sub(2) {
        formula.push(vec![lit(i, true), lit(i + 2, false)]);
        formula.push(vec![lit(i + 1, true), lit(i + 2, false)]);
    }
    formula
}

#[test]
fn test_simple_sat() {
    // Formula: (x0) ∧ (¬x1)
    let formula = vec![vec![lit(0, false)], vec![lit(1, true)]];

    match solve(&formula, 2) {
        SolveResult::Sat(model) => {
            assert_eq!(model.value(0), Val::True);
            assert_eq!(model.value(1), Val::False);
        }
        SolveResult::Unsat => panic!("Expected SAT"),
    }
}

#[test]
fn test_simple_unsat() {
    // Formula: (x0) ∧ (¬x0)
    let formula = vec![vec![lit(0, false)], vec![lit(0, true)]];

    assert_eq!(solve(&formula, 1), SolveResult::Unsat);
}

#[test]
fn test_three_variable_sat() {
    // Formula: (x0 ∨ x1) ∧ (¬x0 ∨ x2) ∧ (¬x1 ∨ ¬x2)
    let formula = vec![
        vec![lit(0, false), lit(1, false)],
        vec![lit(0, true), lit(2, false)],
        vec![lit(1, true), lit(2, true)],
    ];

    match solve(&formula, 3) {
        SolveResult::Sat(model) => {
            // Verify the solution satisfies all clauses
            for clause in &formula {
                assert!(clause.iter().any(|l| model.is_true(*l)));
            }
        }
        SolveResult::Unsat => panic!("Expected SAT"),
    }
}

#[test]
fn test_empty_formula() {
    // Empty formula is trivially satisfiable
    let formula = vec![];
    assert!(matches!(solve(&formula, 0), SolveResult::Sat(_)));
}

#[test]
fn test_empty_clause() {
    // Formula with empty clause is unsatisfiable
    let formula = vec![vec![]];
    assert_eq!(solve(&formula, 0), SolveResult::Unsat);
}

/// The empty formula is satisfiable for any variable count.
#[test]
fn empty_formula_any_size() {
    for n in [0, 1, 5, 12] {
        assert!(matches!(solve(&vec![], n), SolveResult::Sat(_)));
    }
}

/// An empty clause makes the formula unsatisfiable whatever else it holds.
#[test]
fn empty_clause_dominates() {
    let formula = vec![vec![lit(0, false)], vec![], vec![lit(1, true)]];
    assert_eq!(solve(&formula, 2), SolveResult::Unsat);
    let formula = vec![vec![], vec![lit(0, false)]];
    assert_eq!(solve(&formula, 1), SolveResult::Unsat);
}

/// Pigeonhole formulas are unsatisfiable for every size tried.
#[test]
fn pigeonhole_unsat() {
    for holes in 1..=3 {
        let (formula, num_vars) = pigeonhole(holes);
        assert_eq!(solve(&formula, num_vars), SolveResult::Unsat);
    }
}

/// Chain formulas are satisfiable, and the model satisfies every clause.
#[test]
fn chain_sat() {
    for n in [2, 5, 10] {
        let formula = chain(n);
        match solve(&formula, n) {
            SolveResult::Sat(model) => {
                for clause in &formula {
                    assert!(clause.iter().any(|l| model.is_true(*l)));
                }
            }
            SolveResult::Unsat => panic!("Expected SAT"),
        }
    }
}

/// The verdict agrees with exhaustive truth-table enumeration.
#[test]
fn agrees_with_enumeration() {
    let cases: Vec<(Formula, usize)> = vec![
        (vec![], 0),
        (vec![vec![]], 0),
        (vec![vec![lit(0, false)], vec![lit(0, true)]], 1),
        (
            vec![
                vec![lit(0, false), lit(1, false)],
                vec![lit(0, true), lit(2, false)],
                vec![lit(1, true), lit(2, true)],
            ],
            3,
        ),
        (
            vec![
                vec![lit(0, false), lit(1, false), lit(2, false)],
                vec![lit(0, true), lit(1, true)],
                vec![lit(0, true), lit(2, true)],
                vec![lit(1, true), lit(2, true)],
                vec![lit(0, false)],
            ],
            3,
        ),
        (chain(6), 6),
        (pigeonhole(2).0, 6),
        (
            vec![
                vec![lit(0, false), lit(1, true), lit(3, false)],
                vec![lit(2, false), lit(3, true)],
                vec![lit(1, false), lit(2, true)],
                vec![lit(0, true), lit(1, false)],
                vec![lit(3, false), lit(1, false)],
            ],
            4,
        ),
    ];
    for (formula, num_vars) in &cases {
        let expected = brute_force_sat(formula, *num_vars);
        match solve(formula, *num_vars) {
            SolveResult::Sat(model) => {
                assert!(expected, "solver said SAT, enumeration says UNSAT");
                for clause in formula {
                    assert!(clause.iter().any(|l| model.is_true(*l)));
                }
            }
            SolveResult::Unsat => {
                assert!(!expected, "solver said UNSAT, enumeration says SAT");
            }
        }
    }
}

/// Repeated runs on the same input give bit-identical models and trails.
#[test]
fn solve_is_deterministic() {
    let formula = chain(9);
    let first = solve(&formula, 9);
    let second = solve(&formula, 9);
    assert_eq!(first, second);
    let (formula, num_vars) = pigeonhole(2);
    assert_eq!(solve(&formula, num_vars), solve(&formula, num_vars));
}

/// The fixed scan and branch order pins the exact model: for
/// (x0 ∨ x1) ∧ (¬x0 ∨ x2) ∧ (¬x1 ∨ ¬x2) the search tries x0 true, then x2
/// true, then backtracks x1 to false — values and trail are determined.
#[test]
fn deterministic_three_variable_model() {
    let formula = vec![
        vec![lit(0, false), lit(1, false)],
        vec![lit(0, true), lit(2, false)],
        vec![lit(1, true), lit(2, true)],
    ];
    match solve(&formula, 3) {
        SolveResult::Sat(model) => {
            assert_eq!(model.value(0), Val::True);
            assert_eq!(model.value(1), Val::False);
            assert_eq!(model.value(2), Val::True);
            assert_eq!(model.trail, vec![0, 2, 1]);
        }
        SolveResult::Unsat => panic!("Expected SAT"),
    }
}

/// A conflict during propagation leaves the model exactly at the state the
/// failing assignment produced: x0 forced true first, then clause (¬x0) is
/// empty under the assignment.
#[test]
fn propagation_conflict_state() {
    let formula = vec![vec![lit(0, false)], vec![lit(0, true)]];
    let mut model = Model::new(1);
    assert!(unit_propagate(&formula, &mut model).is_err());
    assert_eq!(model.value(0), Val::True);
    assert_eq!(model.trail, vec![0]);
}

/// Re-running unit propagation on an already-closed state changes nothing
/// and succeeds.
#[test]
fn propagation_fixed_point() {
    let formula = vec![
        vec![lit(0, false)],
        vec![lit(0, true), lit(1, true)],
        vec![lit(1, false), lit(2, false)],
    ];
    let mut model = Model::new(3);
    assert!(unit_propagate(&formula, &mut model).is_ok());
    let closed = model.clone();
    assert!(unit_propagate(&formula, &mut model).is_ok());
    assert_eq!(model, closed);
}

/// Propagation alone detects an immediate contradiction between two unit
/// clauses.
#[test]
fn propagation_reports_conflict() {
    let formula = vec![vec![lit(0, false)], vec![lit(0, true)]];
    let mut model = Model::new(1);
    assert!(unit_propagate(&formula, &mut model).is_err());
}

/// The assignment state: creation, assignment, lookup, literal tests, and
/// independence of a duplicate.
#[test]
fn model_basics() {
    let mut model = Model::new(3);
    assert_eq!(model.value(0), Val::Undef);
    assert_eq!(model.value(1), Val::Undef);
    assert_eq!(model.value(2), Val::Undef);

    model.assign(0, Val::True);
    model.assign(1, Val::False);
    assert_eq!(model.value(0), Val::True);
    assert_eq!(model.value(1), Val::False);
    assert_eq!(model.value(2), Val::Undef);

    assert!(model.is_true(lit(0, false)));
    assert!(!model.is_true(lit(0, true)));
    assert!(model.is_true(lit(1, true)));
    assert!(!model.is_true(lit(1, false)));
    assert!(!model.is_true(lit(2, false)));
    assert!(!model.is_true(lit(2, true)));

    let mut copy = model.clone();
    assert_eq!(copy, model);
    copy.assign(2, Val::True);
    assert_eq!(copy.value(2), Val::True);
    assert_eq!(model.value(2), Val::Undef);
}

/// A satisfying model may leave a variable undecided when no clause still
/// needs it: undecided means unconstrained, not false.
#[test]
fn unconstrained_variable_stays_undecided() {
    let formula = vec![vec![lit(0, false)]];
    match solve(&formula, 3) {
        SolveResult::Sat(model) => {
            assert_eq!(model.value(0), Val::True);
            assert_eq!(model.value(1), Val::Undef);
            assert_eq!(model.value(2), Val::Undef);
        }
        SolveResult::Unsat => panic!("Expected SAT"),
    }
}
