use rust_formal_verification::algorithms::bmc::{BMCResult, BmcEvent, BmcStep};
use rust_formal_verification::algorithms::formula_logic::evaluate_assignment_on_cnf;
use rust_formal_verification::algorithms::BMC;
use rust_formal_verification::formulas::{Clause, Literal, CNF};
use rust_formal_verification::models::{AndInverterGraph, FiniteStateTransitionSystem};
use rust_formal_verification::solvers::sat::stateless::{CadicalSolver, SplrSolver, VarisatSolver};
use rust_formal_verification::solvers::sat::StatelessSatSolver;

/// The 3-bit counter, with the given header numbers after the and gates and the given lines
/// of outputs and bad-state properties.
fn counter_variant(header: &str, literal_lines: &str) -> FiniteStateTransitionSystem {
    let mut bytes = format!("aig 5 0 3 {}\n10\n2\n4\n{}", header, literal_lines).into_bytes();
    bytes.extend_from_slice(&[1, 2, 2, 5]);
    let aig = AndInverterGraph::from_vector_of_bytes(&bytes).unwrap();
    FiniteStateTransitionSystem::from_aig(&aig, false)
}

/// Runs the search over the depths, deciding with the checker's steps.
fn search<T: StatelessSatSolver>(fsts: &FiniteStateTransitionSystem, limit: u32) -> BMCResult {
    let bmc = BMC::<T>::new(false);
    let mut depth = 0;
    loop {
        let formula = bmc.unrolled_formula(fsts, depth).unwrap();
        let response = bmc.solver().solve_cnf(&formula);
        if let rust_formal_verification::solvers::sat::SatResponse::Sat { assignment } = &response {
            assert!(evaluate_assignment_on_cnf(&formula, assignment));
        }
        match bmc.step(depth, limit, BmcEvent::Answer(response)) {
            BmcStep::Done(result) => return result,
            BmcStep::Next(next) => {
                assert_eq!(next, depth + 1);
                depth = next;
            }
        }
    }
}

fn ctx_depth(result: &BMCResult) -> Option<u32> {
    match result {
        BMCResult::CTX { depth, .. } => Some(*depth),
        BMCResult::NoCTX { .. } => None,
    }
}

#[test]
fn bmc_finds_the_bad_state_of_the_counter_in_three_steps() {
    let fsts = counter_variant("0 2 1", "6\n");
    assert_eq!(ctx_depth(&search::<VarisatSolver>(&fsts, 10)), Some(3));
    assert_eq!(ctx_depth(&search::<SplrSolver>(&fsts, 10)), Some(3));
    assert_eq!(ctx_depth(&search::<CadicalSolver>(&fsts, 10)), Some(3));
}

#[test]
fn bmc_finds_the_first_of_two_bad_states_in_two_steps() {
    let fsts = counter_variant("0 2 2", "4\n6\n");
    assert_eq!(ctx_depth(&search::<VarisatSolver>(&fsts, 10)), Some(2));
}

#[test]
fn bmc_stops_at_the_limit() {
    let fsts = counter_variant("0 2 1", "6\n");
    match search::<CadicalSolver>(&fsts, 2) {
        BMCResult::NoCTX { depth_reached } => assert_eq!(depth_reached, 2),
        BMCResult::CTX { .. } => panic!("no bad state within two steps"),
    }
    let safe = counter_variant("1 2", "10\n");
    match search::<CadicalSolver>(&safe, 5) {
        BMCResult::NoCTX { depth_reached } => assert_eq!(depth_reached, 5),
        BMCResult::CTX { .. } => panic!("the counter has no bad state"),
    }
}

#[test]
fn bmc_time_out_reports_the_depth_before() {
    let bmc = BMC::<VarisatSolver>::new(true);
    assert!(bmc.verbose());
    match bmc.step(4, 10, BmcEvent::TimeOut) {
        BmcStep::Done(BMCResult::NoCTX { depth_reached }) => assert_eq!(depth_reached, 3),
        _ => panic!("a time-out ends the search"),
    }
    match bmc.step(0, 10, BmcEvent::TimeOut) {
        BmcStep::Done(BMCResult::NoCTX { depth_reached }) => assert_eq!(depth_reached, -1),
        _ => panic!("a time-out ends the search"),
    }
}

#[test]
fn unrolled_formula_of_depth_zero_is_init_and_bad() {
    let fsts = counter_variant("0 2 1", "6\n");
    let bmc = BMC::<VarisatSolver>::new(false);
    let formula = bmc.unrolled_formula(&fsts, 0).unwrap();
    assert_eq!(formula.to_string(), "p cnf 3 4\n-1 0\n-2 0\n3 0\n-3 0");
}

/// A latch that keeps its initial value 0 forever, with the latch as the bad state.
fn stuck_latch() -> FiniteStateTransitionSystem {
    let bytes = b"aig 1 0 1 0 0 1\n2\n2\n".to_vec();
    let aig = AndInverterGraph::from_vector_of_bytes(&bytes).unwrap();
    FiniteStateTransitionSystem::from_aig(&aig, false)
}

#[test]
fn an_accepted_invariant_leaves_bmc_nothing_to_find() {
    let fsts = stuck_latch();
    let mut inv = CNF::new();
    inv.add_clause(&Clause::new(&[!Literal::new(1)]));
    assert_eq!(fsts.check_invariant::<VarisatSolver>(&inv), Ok(()));
    match search::<VarisatSolver>(&fsts, 5) {
        BMCResult::NoCTX { depth_reached } => assert_eq!(depth_reached, 5),
        BMCResult::CTX { .. } => panic!("the latch never leaves 0"),
    }
}
