use rust_formal_verification::formulas::{Clause, Cube, Literal, CNF};
use rust_formal_verification::solvers::sat::stateful::{CaDiCalSolver, StatefulSatSolver};
use rust_formal_verification::solvers::sat::SatResponse;

fn lit(n: u32) -> Literal {
    Literal::new(n)
}

fn not(n: u32) -> Literal {
    Literal::new(n).negated()
}

/// (x1 | !x2) & (x2)
fn base_cnf() -> CNF {
    let mut cnf = CNF::new();
    cnf.add_clause(&Clause::new(&[lit(1), not(2)]));
    cnf.add_clause(&Clause::new(&[lit(2)]));
    cnf
}

fn is_sat(r: &SatResponse) -> bool {
    matches!(r, SatResponse::Sat { .. })
}

#[test]
fn stateful_solver_finds_the_only_model() {
    let mut solver = CaDiCalSolver::default();
    solver.add_cnf(&base_cnf());
    match solver.solve(None, None) {
        SatResponse::Sat { assignment } => {
            assert_eq!(assignment.get_value(&1), Some(true));
            assert_eq!(assignment.get_value(&2), Some(true));
        }
        SatResponse::UnSat => panic!("the formula is satisfiable"),
    }
}

#[test]
fn stateful_solver_forgets_the_cube() {
    let mut solver = CaDiCalSolver::default();
    solver.add_cnf(&base_cnf());
    let cube = Cube::new(&[not(1)]);
    assert_eq!(solver.solve(Some(&cube), None), SatResponse::UnSat);
    assert!(is_sat(&solver.solve(None, None)));
    let cube = Cube::new(&[lit(1), lit(2)]);
    assert!(is_sat(&solver.solve(Some(&cube), None)));
}

#[test]
fn stateful_solver_forgets_the_temporary_clause() {
    let mut solver = CaDiCalSolver::default();
    solver.add_cnf(&base_cnf());
    let clause = Clause::new(&[not(1)]);
    assert_eq!(solver.solve(None, Some(&clause)), SatResponse::UnSat);
    assert!(is_sat(&solver.solve(None, None)));
    let clause = Clause::new(&[not(1), lit(2)]);
    assert!(is_sat(&solver.solve(None, Some(&clause))));
    // a variable added after the temporary clauses is free.
    let mut more = CNF::new();
    more.add_clause(&Clause::new(&[lit(3), lit(4)]));
    solver.add_cnf(&more);
    let cube = Cube::new(&[lit(3), not(4)]);
    match solver.solve(Some(&cube), None) {
        SatResponse::Sat { assignment } => {
            assert_eq!(assignment.get_value(&3), Some(true));
            assert_eq!(assignment.get_value(&4), Some(false));
        }
        SatResponse::UnSat => panic!("x3 & !x4 is consistent with the clauses"),
    }
}

#[test]
fn stateful_solver_cube_and_clause_together() {
    let mut solver = CaDiCalSolver::default();
    let mut cnf = CNF::new();
    cnf.add_clause(&Clause::new(&[lit(1), lit(2), lit(3)]));
    solver.add_cnf(&cnf);
    let cube = Cube::new(&[not(1)]);
    let clause = Clause::new(&[not(2)]);
    match solver.solve(Some(&cube), Some(&clause)) {
        SatResponse::Sat { assignment } => {
            assert_eq!(assignment.get_value(&1), Some(false));
            assert_eq!(assignment.get_value(&2), Some(false));
            assert_eq!(assignment.get_value(&3), Some(true));
        }
        SatResponse::UnSat => panic!("x3 satisfies the query"),
    }
    let cube = Cube::new(&[not(1), not(3)]);
    assert_eq!(solver.solve(Some(&cube), Some(&clause)), SatResponse::UnSat);
    assert!(is_sat(&solver.solve(Some(&cube), None)));
}

fn check_through_trait<T: StatefulSatSolver>() {
    let mut solver = T::default();
    solver.add_cnf(&base_cnf());
    assert!(is_sat(&solver.solve(None, None)));
    let cube = Cube::new(&[not(2)]);
    assert_eq!(solver.solve(Some(&cube), None), SatResponse::UnSat);
}

#[test]
fn stateful_solver_through_the_trait() {
    check_through_trait::<CaDiCalSolver>();
}

#[test]
fn empty_stateful_solver_is_satisfiable_but_not_with_the_empty_clause() {
    let mut solver = CaDiCalSolver::default();
    assert!(is_sat(&solver.solve(None, None)));
    assert_eq!(solver.solve(None, Some(&Clause::new(&[]))), SatResponse::UnSat);
    assert!(is_sat(&solver.solve(None, None)));
}
