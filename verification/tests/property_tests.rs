use sat_solver::assignment::{get_assignment_keys, Assignment};
use sat_solver::formula::simplify_formula;
use sat_solver::search::solve;

/// The distinct variables of a formula, ascending.
fn variables_of(formula: &[Vec<i32>]) -> Vec<i32> {
    let mut vars: Vec<i32> = Vec::new();
    for clause in formula {
        for &lit in clause {
            let v = lit.abs();
            if !vars.contains(&v) {
                vars.push(v);
            }
        }
    }
    vars.sort_unstable();
    vars
}

/// Whether the assignment encoded in `bits` over `vars` satisfies the clause.
fn clause_true_under(clause: &[i32], vars: &[i32], bits: u32) -> bool {
    clause.iter().any(|&lit| {
        let v = lit.abs();
        let idx = vars.iter().position(|&x| x == v).unwrap();
        let val = (bits >> idx) & 1 == 1;
        if lit > 0 {
            val
        } else {
            !val
        }
    })
}

/// Truth-table satisfiability, the reference the solver is held against.
fn brute_force_sat(formula: &[Vec<i32>]) -> bool {
    let vars = variables_of(formula);
    let n = vars.len();
    assert!(n <= 20);
    for bits in 0..(1u32 << n) {
        if formula.iter().all(|c| clause_true_under(c, &vars, bits)) {
            return true;
        }
    }
    false
}

/// Every clause of the formula has a literal made true by the solution.
fn solution_satisfies(formula: &[Vec<i32>], sol: &Assignment) -> bool {
    formula.iter().all(|clause| {
        clause.iter().any(|&lit| match sol.get(lit.abs()) {
            Some(Some(val)) => {
                if lit > 0 {
                    val
                } else {
                    !val
                }
            }
            _ => false,
        })
    })
}

/// Runs the solver on one formula and checks its verdict against brute
/// force, and its solution (when it gives one) against every clause.
fn check_formula(formula: &[Vec<i32>]) {
    let owned: Vec<Vec<i32>> = formula.to_vec();
    let expected = brute_force_sat(formula);
    match solve(&owned) {
        Some(sol) => {
            assert!(expected, "solver said SAT, brute force says UNSAT: {:?}", formula);
            assert!(
                solution_satisfies(formula, &sol),
                "solution does not satisfy {:?}",
                formula
            );
            for v in variables_of(formula) {
                assert!(matches!(sol.get(v), Some(Some(_))));
            }
        }
        None => {
            assert!(!expected, "solver said UNSAT, brute force says SAT: {:?}", formula);
        }
    }
}

#[test]
fn test_two_variables_opposite() {
    let formula = vec![vec![1, 2], vec![-1, -2]];
    let sol = solve(&formula).expect("must be satisfiable");
    let v1 = sol.get(1).unwrap().unwrap();
    let v2 = sol.get(2).unwrap().unwrap();
    assert_ne!(v1, v2);
    assert!(solution_satisfies(&formula, &sol));
}

#[test]
fn test_contradiction_unsatisfiable() {
    let formula = vec![vec![1], vec![-1]];
    assert!(solve(&formula).is_none());
}

#[test]
fn test_three_clause_satisfiable() {
    let formula = vec![vec![1, 2, 3], vec![-1, -2], vec![-3, 4]];
    let sol = solve(&formula).expect("must be satisfiable");
    assert!(solution_satisfies(&formula, &sol));
}

#[test]
fn test_tie_break_determinism() {
    let mut assignment = Assignment::new();
    assignment.put(3, None);
    assignment.put(1, None);
    assignment.put(2, None);
    let keys = get_assignment_keys(&assignment);
    assert_eq!(keys[0], 1);
    assert_eq!(keys, vec![1, 2, 3]);
}

#[test]
fn test_simplify_idempotent() {
    let formula = vec![
        vec![1, 2],
        vec![2, 3],
        vec![-4, -2, 3],
        vec![-1, -2, 3],
        vec![-4, 2, 3],
    ];
    let mut assignment = Assignment::new();
    assignment.put(1, Some(true));
    assignment.put(2, None);
    assignment.put(3, Some(false));
    assignment.put(4, None);
    let once = simplify_formula(&formula, &assignment);
    let twice = simplify_formula(&once, &assignment);
    assert_eq!(twice, once);
}

#[test]
fn test_edge_cases() {
    // an empty formula is vacuously satisfiable
    check_formula(&[]);
    // an empty clause can never be satisfied
    check_formula(&[vec![]]);
    check_formula(&[vec![1], vec![]]);
    // single literals and tautologies
    check_formula(&[vec![1]]);
    check_formula(&[vec![-1]]);
    check_formula(&[vec![1, -1]]);
    // a formula the pure-literal pass solves outright
    check_formula(&[vec![1, 2], vec![2, 3]]);
    // all four two-variable clauses together are unsatisfiable
    check_formula(&[vec![1, 2], vec![1, -2], vec![-1, 2], vec![-1, -2]]);
}

#[test]
fn test_against_brute_force_fixed() {
    let samples: Vec<Vec<Vec<i32>>> = vec![
        vec![vec![1, 2], vec![-1, -2]],
        vec![vec![1], vec![-1]],
        vec![vec![1, 2, 3], vec![-1, -2], vec![-3, 4]],
        vec![vec![3, -7, 9], vec![-3, 7], vec![-9, -7], vec![3, 9, 7]],
        vec![vec![1, 2], vec![2, 3], vec![-4, -2, 3], vec![-1, -2, 3], vec![-4, 2, 3]],
        vec![vec![5], vec![-5, 6], vec![-6, 7], vec![-7, -5]],
        vec![vec![1, -2], vec![2, -3], vec![3, -1], vec![1, 2, 3], vec![-1, -2, -3]],
        // an implication chain over twelve variables
        vec![
            vec![1],
            vec![-1, 2],
            vec![-2, 3],
            vec![-3, 4],
            vec![-4, 5],
            vec![-5, 6],
            vec![-6, 7],
            vec![-7, 8],
            vec![-8, 9],
            vec![-9, 10],
            vec![-10, 11],
            vec![-11, 12],
        ],
        // the same chain forced into contradiction
        vec![
            vec![1],
            vec![-1, 2],
            vec![-2, 3],
            vec![-3, 4],
            vec![-4, 5],
            vec![-5, 6],
            vec![-6, 7],
            vec![-7, 8],
            vec![-8, 9],
            vec![-9, 10],
            vec![-10, 11],
            vec![-11, 12],
            vec![-12],
        ],
    ];
    for formula in &samples {
        check_formula(formula);
    }
}

#[test]
fn test_against_brute_force_exhaustive_pairs() {
    // every formula of two binary clauses over three variables
    let lits = [1, -1, 2, -2, 3, -3];
    for &a in &lits {
        for &b in &lits {
            for &c in &lits {
                for &d in &lits {
                    let formula = vec![vec![a, b], vec![c, d]];
                    check_formula(&formula);
                }
            }
        }
    }
}

#[test]
fn test_against_brute_force_triples() {
    // a spread of three-clause formulas over four variables
    let lits = [1, -1, 2, -2, 3, -3, 4, -4];
    let mut count = 0;
    for i in 0..lits.len() {
        for j in 0..lits.len() {
            for k in 0..lits.len() {
                let formula = vec![
                    vec![lits[i], lits[(i + 3) % 8]],
                    vec![lits[j], lits[(j + 5) % 8], lits[k]],
                    vec![lits[k], lits[(k + 1) % 8]],
                ];
                check_formula(&formula);
                count += 1;
            }
        }
    }
    assert_eq!(count, 512);
}
