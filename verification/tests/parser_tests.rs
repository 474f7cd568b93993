use sat_solver::cnf::{read_cnf_lines, CnfError};
use sat_solver::search::solve;

fn as_lines(text: &str) -> Vec<Vec<u8>> {
    text.lines().map(|l| l.as_bytes().to_vec()).collect()
}

#[test]
fn test_read_cnf_basic() {
    let text = "c a small instance\np cnf 3 2\n1 -3 0\n2 3 -1 0\n";
    let clauses = read_cnf_lines(&as_lines(text)).unwrap();
    assert_eq!(clauses, vec![vec![1, -3], vec![2, 3, -1]]);
}

#[test]
fn test_read_cnf_two_clauses_one_line() {
    let text = "p cnf 4 2\n1 2 0 -3 4 0\n";
    let clauses = read_cnf_lines(&as_lines(text)).unwrap();
    assert_eq!(clauses, vec![vec![1, 2], vec![-3, 4]]);
}

#[test]
fn test_read_cnf_skips_comments_and_blanks() {
    let text = "c first\n\nc second\n  \n1 0\n";
    let clauses = read_cnf_lines(&as_lines(text)).unwrap();
    assert_eq!(clauses, vec![vec![1]]);
}

#[test]
fn test_read_cnf_trailing_literals_dropped() {
    // literals not closed by a 0 before the line ends are discarded
    let text = "1 2 0 3\n";
    let clauses = read_cnf_lines(&as_lines(text)).unwrap();
    assert_eq!(clauses, vec![vec![1, 2]]);
}

#[test]
fn test_read_cnf_bad_problem_line_short() {
    let text = "p cnf 3\n1 0\n";
    assert_eq!(read_cnf_lines(&as_lines(text)), Err(CnfError::BadProblemLine));
}

#[test]
fn test_read_cnf_bad_problem_line_tag() {
    let text = "p dnf 3 2\n1 0\n";
    assert_eq!(read_cnf_lines(&as_lines(text)), Err(CnfError::BadProblemLine));
}

#[test]
fn test_read_cnf_bad_literal_token() {
    let text = "p cnf 2 1\n1 x 0\n";
    assert_eq!(read_cnf_lines(&as_lines(text)), Err(CnfError::BadLiteral));
}

#[test]
fn test_read_cnf_literal_out_of_range() {
    let text = "99999999999999999999 0\n";
    assert_eq!(read_cnf_lines(&as_lines(text)), Err(CnfError::BadLiteral));
    let text2 = "-2147483648 0\n";
    assert_eq!(read_cnf_lines(&as_lines(text2)), Err(CnfError::BadLiteral));
}

#[test]
fn test_read_cnf_signed_literals() {
    let text = "-2147483647 2147483647 0\n+5 -6 0\n";
    let clauses = read_cnf_lines(&as_lines(text)).unwrap();
    assert_eq!(clauses, vec![vec![-2147483647, 2147483647], vec![5, -6]]);
}

#[test]
fn test_parse_then_solve() {
    let text = "c solvable\np cnf 3 3\n1 2 3 0\n-1 -2 0\n-3 0\n";
    let clauses = read_cnf_lines(&as_lines(text)).unwrap();
    let sol = solve(&clauses).expect("must be satisfiable");
    for clause in &clauses {
        assert!(clause.iter().any(|&lit| match sol.get(lit.abs()) {
            Some(Some(val)) =>
                if lit > 0 {
                    val
                } else {
                    !val
                },
            _ => false,
        }));
    }
}

#[test]
fn test_parse_then_solve_unsat() {
    let text = "p cnf 1 2\n1 0\n-1 0\n";
    let clauses = read_cnf_lines(&as_lines(text)).unwrap();
    assert!(solve(&clauses).is_none());
}
