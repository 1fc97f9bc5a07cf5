use rust_formal_verification::algorithms::pdr::{PDRResult, PDR};
use rust_formal_verification::models::{AndInverterGraph, FiniteStateTransitionSystem};
use rust_formal_verification::solvers::sat::stateless::{CadicalSolver, SplrSolver, VarisatSolver};
use rust_formal_verification::solvers::sat::StatelessSatSolver;

/// The 3-bit counter, with the given header numbers after the and gates and the given lines
/// of outputs and bad-state properties.
fn counter_variant(header: &str, literal_lines: &str) -> FiniteStateTransitionSystem {
    let mut bytes = format!("aig 5 0 3 {}\n10\n2\n4\n{}", header, literal_lines).into_bytes();
    bytes.extend_from_slice(&[1, 2, 2, 5]);
    let aig = AndInverterGraph::from_vector_of_bytes(&bytes).unwrap();
    FiniteStateTransitionSystem::from_aig(&aig, false)
}

/// One latch that starts at 0 and keeps its value; its value is the bad state.
fn stuck_latch() -> FiniteStateTransitionSystem {
    let bytes = b"aig 1 0 1 0 0 1\n2\n2\n".to_vec();
    let aig = AndInverterGraph::from_vector_of_bytes(&bytes).unwrap();
    FiniteStateTransitionSystem::from_aig(&aig, false)
}

/// One latch that starts at 0 and is set to 1 in the next step; its value is the bad state.
fn latch_set_once() -> FiniteStateTransitionSystem {
    let bytes = b"aig 1 0 1 0 0 1\n1\n2\n".to_vec();
    let aig = AndInverterGraph::from_vector_of_bytes(&bytes).unwrap();
    FiniteStateTransitionSystem::from_aig(&aig, false)
}

/// Runs the search; a proof's invariant must pass the invariant check.
fn test_pdr<T: StatelessSatSolver>(fin_state: &FiniteStateTransitionSystem) -> PDRResult {
    let mut pdr_solver = PDR::<T>::new(fin_state, true);
    assert!(pdr_solver.verbose());
    let prove_result = pdr_solver.prove().unwrap();
    if let PDRResult::Proof { invariant } = &prove_result {
        assert_eq!(fin_state.check_invariant::<T>(invariant), Ok(()));
    }
    prove_result
}

fn ctx_depth(result: &PDRResult) -> Option<u32> {
    match result {
        PDRResult::CTX { depth } => Some(*depth),
        PDRResult::Proof { .. } => None,
    }
}

#[test]
fn pdr_on_our_examples() {
    let examples = vec![
        (counter_variant("0 2 1", "6\n"), Some(3)),
        (counter_variant("0 2 2", "4\n6\n"), Some(2)),
        (stuck_latch(), None),
        (latch_set_once(), Some(1)),
    ];
    for (fin_state, expected) in &examples {
        assert_eq!(ctx_depth(&test_pdr::<SplrSolver>(fin_state)), *expected);
        assert_eq!(ctx_depth(&test_pdr::<VarisatSolver>(fin_state)), *expected);
        assert_eq!(ctx_depth(&test_pdr::<CadicalSolver>(fin_state)), *expected);
    }
}

#[test]
fn pdr_proves_a_stuck_latch_safe() {
    match test_pdr::<CadicalSolver>(&stuck_latch()) {
        PDRResult::Proof { invariant } => assert!(!invariant.is_empty()),
        PDRResult::CTX { .. } => panic!("the latch never leaves 0"),
    }
}

#[test]
fn pdr_finds_the_counter_reaching_its_bad_state_in_three_steps() {
    assert_eq!(ctx_depth(&test_pdr::<VarisatSolver>(&counter_variant("0 2 1", "6\n"))), Some(3));
}

#[test]
fn pdr_reports_an_initial_bad_state_at_depth_zero() {
    let bytes = b"aig 1 0 1 0 0 1\n2\n3\n".to_vec();
    let aig = AndInverterGraph::from_vector_of_bytes(&bytes).unwrap();
    let fin_state = FiniteStateTransitionSystem::from_aig(&aig, false);
    assert_eq!(ctx_depth(&test_pdr::<CadicalSolver>(&fin_state)), Some(0));
}

#[test]
fn pdr_with_no_budget_gives_no_answer() {
    let fin_state = counter_variant("0 2 1", "6\n");
    let mut pdr_solver = PDR::<CadicalSolver>::new(&fin_state, false);
    let mut budget = 0u64;
    assert!(pdr_solver.prove_with_budget(&mut budget).is_none());
    assert_eq!(budget, 0);
    assert_eq!(pdr_solver.rounds(), 0);
}

#[test]
fn pdr_counts_its_rounds_and_sat_queries() {
    let fin_state = counter_variant("0 2 1", "6\n");
    let mut pdr_solver = PDR::<CadicalSolver>::new(&fin_state, false);
    let counts = pdr_solver.sat_call_counts();
    assert_eq!(counts.get_bad_cube, 0);
    assert_eq!(counts.solve_relative_extract_model, 0);
    let mut budget = 1_000_000u64;
    match pdr_solver.prove_with_budget(&mut budget) {
        Some(PDRResult::CTX { depth }) => assert_eq!(depth, 3),
        _ => panic!("the counter reaches its bad state"),
    }
    assert_eq!(pdr_solver.rounds(), 1_000_000 - budget);
    let counts = pdr_solver.sat_call_counts();
    assert!(counts.get_bad_cube >= 4);
    assert!(counts.solve_relative_extract_model >= 3);
}
