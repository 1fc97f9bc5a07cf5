use rust_formal_verification::algorithms::formula_logic::{
    does_a_imply_b, evaluate_assignment_on_cnf, is_a_and_b_satisfiable,
};
use rust_formal_verification::formulas::{Clause, Cube, Literal, CNF};
use rust_formal_verification::solvers::sat::stateless::{CadicalSolver, SplrSolver, VarisatSolver};
use rust_formal_verification::solvers::sat::{Assignment, SatResponse, StatelessSatSolver};

fn ring_of_equalities() -> CNF {
    let l: Vec<Literal> = (1..=6).map(Literal::new).collect();
    let mut all_literals_are_equal = CNF::new();
    all_literals_are_equal.add_clause(&Clause::new(&[l[0], !l[1]]));
    all_literals_are_equal.add_clause(&Clause::new(&[l[1], !l[2]]));
    all_literals_are_equal.add_clause(&Clause::new(&[l[2], !l[3]]));
    all_literals_are_equal.add_clause(&Clause::new(&[l[3], !l[4]]));
    all_literals_are_equal.add_clause(&Clause::new(&[l[4], !l[5]]));
    all_literals_are_equal.add_clause(&Clause::new(&[l[5], !l[0]]));
    all_literals_are_equal
}

#[test]
fn ring_of_equalities_implies_one_and_four_equal() {
    let l1 = Literal::new(1);
    let l4 = Literal::new(4);
    let mut one_and_4_are_equal = CNF::new();
    one_and_4_are_equal.add_clause(&Clause::new(&[l1, !l4]));
    one_and_4_are_equal.add_clause(&Clause::new(&[l4, !l1]));
    assert!(does_a_imply_b::<VarisatSolver>(&ring_of_equalities(), &one_and_4_are_equal));
    assert!(does_a_imply_b::<SplrSolver>(&ring_of_equalities(), &one_and_4_are_equal));
    assert!(does_a_imply_b::<CadicalSolver>(&ring_of_equalities(), &one_and_4_are_equal));
    // the converse does not hold
    assert!(!does_a_imply_b::<VarisatSolver>(&one_and_4_are_equal, &ring_of_equalities()));
}

#[test]
fn every_cnf_implies_the_empty_cnf() {
    assert!(does_a_imply_b::<VarisatSolver>(&ring_of_equalities(), &CNF::new()));
    assert!(does_a_imply_b::<VarisatSolver>(&CNF::new(), &CNF::new()));
}

#[test]
fn conjunction_satisfiability() {
    let mut one = CNF::new();
    one.add_clause(&Clause::new(&[Literal::new(1)]));
    let mut not_six = CNF::new();
    not_six.add_clause(&Clause::new(&[!Literal::new(6)]));
    // the ring forces all six equal, so 1 and not 6 cannot hold together
    let mut ring_and_one = ring_of_equalities();
    ring_and_one.append(&one);
    assert!(!is_a_and_b_satisfiable::<VarisatSolver>(&ring_and_one, &not_six));
    assert!(is_a_and_b_satisfiable::<CadicalSolver>(&ring_of_equalities(), &not_six));
    assert!(is_a_and_b_satisfiable::<SplrSolver>(&one, &CNF::new()));
}

#[test]
fn assignments_are_evaluated_on_every_clause() {
    let cnf = ring_of_equalities();
    let all_true = Assignment::from_dimacs_assignment(&[1, 2, 3, 4, 5, 6]);
    let one_false = Assignment::from_dimacs_assignment(&[-1, 2, 3, 4, 5, 6]);
    let partial = Assignment::from_dimacs_assignment(&[1, 2]);
    assert!(evaluate_assignment_on_cnf(&cnf, &all_true));
    assert!(!evaluate_assignment_on_cnf(&cnf, &one_false));
    assert!(!evaluate_assignment_on_cnf(&cnf, &partial));
    assert_eq!(partial.get_value(&3), None);
    assert_eq!(one_false.get_value(&1), Some(false));
}

#[test]
fn solvers_agree_on_satisfiability() {
    let mut unsat = ring_of_equalities();
    unsat.add_clause(&Clause::new(&[Literal::new(2)]));
    unsat.add_clause(&Clause::new(&[!Literal::new(5)]));
    for cnf in [ring_of_equalities(), unsat] {
        let answers = [
            VarisatSolver::default().solve_cnf(&cnf),
            SplrSolver::default().solve_cnf(&cnf),
            CadicalSolver::default().solve_cnf(&cnf),
        ];
        let verdicts: Vec<bool> = answers
            .iter()
            .map(|r| matches!(r, SatResponse::Sat { .. }))
            .collect();
        assert!(verdicts.iter().all(|v| *v == verdicts[0]));
        for r in answers.iter() {
            if let SatResponse::Sat { assignment } = r {
                assert!(evaluate_assignment_on_cnf(&cnf, assignment));
            }
        }
    }
}

#[test]
fn negating_twice_gives_the_clause_back() {
    let clause = Clause::new(&[!Literal::new(4), Literal::new(2), Literal::new(7)]);
    let cube: Cube = !Clause::new(&[!Literal::new(4), Literal::new(2), Literal::new(7)]);
    assert_eq!((!cube).to_string(), clause.to_string());
    assert_eq!(clause.to_string(), "2 -4 7 0");
}
