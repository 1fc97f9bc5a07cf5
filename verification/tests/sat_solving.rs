use rust_formal_verification::algorithms::formula_logic::evaluate_assignment_on_cnf;
use rust_formal_verification::formulas::Clause;
use rust_formal_verification::formulas::Literal;
use rust_formal_verification::formulas::CNF;
use rust_formal_verification::solvers::sat::stateless::CadicalSolver;
use rust_formal_verification::solvers::sat::stateless::SplrSolver;
use rust_formal_verification::solvers::sat::stateless::VarisatSolver;
use rust_formal_verification::solvers::sat::SatResponse;
use std::cmp::min;
use std::collections::HashMap;
use std::time;

fn true_with_probability(prob: f64) -> bool {
    assert!(0.0 <= prob && prob <= 1.0);
    let random_number_between_0_and_1: f64 = rand::random::<f64>();
    random_number_between_0_and_1 > (1.0 - prob)
}

fn test_cnf_on_sat_solvers(cnf: &CNF, stats: &mut HashMap<&str, f32>) -> bool {
    let splr_timer = time::Instant::now();
    let splr_response = SplrSolver::default().solve_cnf(cnf);
    *stats.get_mut("SplrSolver").unwrap() += splr_timer.elapsed().as_secs_f32();

    let varisat_timer = time::Instant::now();
    let varisat_response = VarisatSolver::default().solve_cnf(cnf);
    *stats.get_mut("VarisatSolver").unwrap() += varisat_timer.elapsed().as_secs_f32();

    let cadical_timer = time::Instant::now();
    let cadical_response = CadicalSolver::default().solve_cnf(cnf);
    *stats.get_mut("CadicalSolver").unwrap() += cadical_timer.elapsed().as_secs_f32();

    match (splr_response, varisat_response, cadical_response) {
        (
            SatResponse::Sat { assignment: a },
            SatResponse::Sat { assignment: b },
            SatResponse::Sat { assignment: c },
        ) => {
            assert!(evaluate_assignment_on_cnf(cnf, &a));
            assert!(evaluate_assignment_on_cnf(cnf, &b));
            assert!(evaluate_assignment_on_cnf(cnf, &c));
            true
        }
        (SatResponse::UnSat, SatResponse::UnSat, SatResponse::UnSat) => false,
        _ => panic!("Sat solvers disagree."),
    }
}

fn generate_random_cnf(
    number_of_clauses: i32,
    number_of_variables_in_cnf: u32,
    maximal_number_of_variables_in_cnf_to_allow_empty_clause: u32,
    probability_of_adding_another_literal_to_cnf: f64,
    probability_of_negation: f64,
) -> CNF {
    let mut literals = Vec::new();
    for i in 1..(1 + number_of_variables_in_cnf) {
        literals.push(Literal::new(i));
    }

    let mut cnf = CNF::new();
    for _ in 0..number_of_clauses {
        let mut clause_literals = Vec::new();
        while ((number_of_variables_in_cnf
            > maximal_number_of_variables_in_cnf_to_allow_empty_clause)
            && (clause_literals.is_empty()))
            || (true_with_probability(probability_of_adding_another_literal_to_cnf))
        {
            let lit = literals[rand::random_range(0..literals.len())]
                .negate_if_true(true_with_probability(probability_of_negation));
            clause_literals.push(lit);
        }
        cnf.add_clause(&Clause::new(&clause_literals));
    }
    cnf
}

#[allow(clippy::too_many_arguments)]
fn generate_cnf_and_call_it(
    number_of_clauses: i32,
    number_of_variables_in_cnf: u32,
    maximal_number_of_variables_in_cnf_to_allow_empty_clause: u32,
    probability_of_adding_another_literal_to_cnf: f64,
    probability_of_negation: f64,
    number_of_repeats: u32,
    stats: &mut HashMap<&str, f32>,
    number_of_sat: &mut i64,
    number_of_unsat: &mut i64,
) {
    let cnf = generate_random_cnf(
        number_of_clauses,
        number_of_variables_in_cnf,
        maximal_number_of_variables_in_cnf_to_allow_empty_clause,
        probability_of_adding_another_literal_to_cnf,
        probability_of_negation,
    );

    let is_sat = test_cnf_on_sat_solvers(&cnf, stats);
    for _ in 1..number_of_repeats {
        let new_result = test_cnf_on_sat_solvers(&cnf, stats);
        assert_eq!(
            is_sat, new_result,
            "Multiple calls to sat solvers with same cnf got different answers."
        )
    }
    if is_sat {
        *number_of_sat += 1;
    } else {
        *number_of_unsat += 1;
    }
}

#[test]
fn random_sat_queries_performance_test() {
    let mut stats = HashMap::from([
        ("SplrSolver", (0_f32)),
        ("VarisatSolver", (0_f32)),
        ("CadicalSolver", (0_f32)),
    ]);
    let mut vec_of_number_of_sat = Vec::new();
    let mut vec_of_number_of_unsat = Vec::new();

    let max_number_of_variables_in_cnf = 10;
    let maximal_number_of_variables_in_cnf_to_allow_empty_clause = 2;
    let probability_of_negation = 0.002;
    let probability_of_adding_another_literal_to_cnf = 0.5;
    let base = 2_i32;
    let max_exponent = 11;
    let number_of_repeats = 3;

    for number_of_variables_in_cnf in 0..max_number_of_variables_in_cnf {
        let mut number_of_sat = 0;
        let mut number_of_unsat = 0;
        println!("number_of_variables_in_cnf = {}", number_of_variables_in_cnf);

        let max_number_of_clauses = base.pow(min(number_of_variables_in_cnf, max_exponent));

        for number_of_clauses in 0..max_number_of_clauses {
            generate_cnf_and_call_it(
                number_of_clauses,
                number_of_variables_in_cnf,
                maximal_number_of_variables_in_cnf_to_allow_empty_clause,
                probability_of_adding_another_literal_to_cnf,
                probability_of_negation,
                number_of_repeats,
                &mut stats,
                &mut number_of_sat,
                &mut number_of_unsat,
            );
        }
        vec_of_number_of_sat.push(number_of_sat);
        vec_of_number_of_unsat.push(number_of_unsat);
    }
    for (i, (s, us)) in vec_of_number_of_sat
        .iter()
        .zip(vec_of_number_of_unsat.iter())
        .enumerate()
    {
        println!("number_of_variables_in_cnf = {}, # sat = {}, #unsat = {}", i, s, us);
    }
}

#[test]
fn sat_solve_simple_cnf() {
    let mut cnf = CNF::new();

    let l1 = Literal::new(1);
    let l2 = Literal::new(2);
    let l3 = Literal::new(3);

    cnf.add_clause(&Clause::new(&[l1, l2, l3]));
    cnf.add_clause(&Clause::new(&[!l1, l2, l3]));
    cnf.add_clause(&Clause::new(&[l1, !l2, l3]));
    cnf.add_clause(&Clause::new(&[l1, l2, !l3]));

    let solver = SplrSolver::default();
    let response = solver.solve_cnf(&cnf);
    match response {
        SatResponse::Sat { assignment: _ } => assert!(true),
        SatResponse::UnSat => assert!(false),
    };
}

#[test]
fn sat_solve_simple_cnf_2() {
    let mut cnf = CNF::new();

    let l1 = Literal::new(1);
    let l2 = Literal::new(2);
    let l3 = Literal::new(3);
    let l4 = Literal::new(4);
    let l5 = Literal::new(5);

    cnf.add_clause(&Clause::new(&[l4, !l5]));
    cnf.add_clause(&Clause::new(&[!l3]));
    cnf.add_clause(&Clause::new(&[!l3, !l4]));
    cnf.add_clause(&Clause::new(&[l1, !l4, l5]));
    cnf.add_clause(&Clause::new(&[!l1]));
    cnf.add_clause(&Clause::new(&[!l2, !l4]));
    cnf.add_clause(&Clause::new(&[l2, l3, l4]));
    cnf.add_clause(&Clause::new(&[!l2]));
    cnf.add_clause(&Clause::new(&[!l1, !l5]));
    cnf.add_clause(&Clause::new(&[l3]));

    let solver = SplrSolver::default();
    let response = solver.solve_cnf(&cnf);
    match response {
        SatResponse::Sat { assignment: _ } => assert!(false),
        SatResponse::UnSat => assert!(true),
    };
}

#[test]
fn every_solver_gives_every_variable_of_the_cnf_a_value() {
    let mut cnf = CNF::new();
    cnf.add_clause(&Clause::new(&[Literal::new(1), !Literal::new(4)]));
    cnf.add_clause(&Clause::new(&[Literal::new(2)]));
    cnf.add_clause(&Clause::new(&[!Literal::new(2), Literal::new(7), Literal::new(1)]));
    let responses = vec![
        SplrSolver::default().solve_cnf(&cnf),
        VarisatSolver::default().solve_cnf(&cnf),
        CadicalSolver::default().solve_cnf(&cnf),
    ];
    for response in responses {
        match response {
            SatResponse::Sat { assignment } => {
                assert!(evaluate_assignment_on_cnf(&cnf, &assignment));
                for variable in [1u32, 2, 4, 7] {
                    assert!(assignment.get_value(&variable).is_some());
                }
                assert_eq!(assignment.get_value(&2), Some(true));
            }
            SatResponse::UnSat => panic!("the CNF is satisfiable"),
        }
    }
}

#[test]
fn cadical_and_splr_give_every_variable_up_to_the_largest_a_value() {
    let mut cnf = CNF::new();
    cnf.add_clause(&Clause::new(&[Literal::new(1), !Literal::new(4)]));
    cnf.add_clause(&Clause::new(&[!Literal::new(7)]));
    for response in [SplrSolver::default().solve_cnf(&cnf), CadicalSolver::default().solve_cnf(&cnf)] {
        match response {
            SatResponse::Sat { assignment } => {
                for variable in 1u32..=7 {
                    assert!(assignment.get_value(&variable).is_some());
                }
                assert_eq!(assignment.get_value(&7), Some(false));
            }
            SatResponse::UnSat => panic!("the CNF is satisfiable"),
        }
    }
}
