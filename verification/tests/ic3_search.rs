use rust_formal_verification::algorithms::ic3_v2::{IC3V2Result, IC3V2};
use rust_formal_verification::models::{AndInverterGraph, FiniteStateTransitionSystem};
use rust_formal_verification::solvers::sat::stateless::{CadicalSolver, SplrSolver, VarisatSolver};
use rust_formal_verification::solvers::sat::StatelessSatSolver;

/// The 3-bit counter, with the given header numbers after the and gates and the given lines
/// of outputs and bad-state properties.
fn counter_variant(header: &str, literal_lines: &str) -> FiniteStateTransitionSystem {
    let mut bytes = format!("aig 5 0 3 {}\n10\n2\n4\n{}", header, literal_lines).into_bytes();
    bytes.extend_from_slice(&[1, 2, 2, 5]);
    let aig = AndInverterGraph::from_vector_of_bytes(&bytes).unwrap();
    FiniteStateTransitionSystem::from_aig(&aig, false)
}

fn from_bytes(bytes: &[u8]) -> FiniteStateTransitionSystem {
    let aig = AndInverterGraph::from_vector_of_bytes(bytes).unwrap();
    FiniteStateTransitionSystem::from_aig(&aig, false)
}

/// Runs the search; a proof's invariant must pass the invariant check.
fn test_ic3<T: StatelessSatSolver>(fin_state: &FiniteStateTransitionSystem) -> Option<u32> {
    let mut ic3_solver = IC3V2::<T>::new(fin_state, false);
    assert!(!ic3_solver.verbose());
    match ic3_solver.prove().unwrap() {
        IC3V2Result::Proof { invariant } => {
            assert_eq!(fin_state.check_invariant::<T>(&invariant), Ok(()));
            None
        }
        IC3V2Result::CTX { depth } => Some(depth),
    }
}

#[test]
fn ic3_ic3_on_our_examples() {
    let examples = vec![
        (counter_variant("0 2 1", "6\n"), Some(3)),
        (counter_variant("0 2 2", "4\n6\n"), Some(2)),
        (from_bytes(b"aig 1 0 1 0 0 1\n2\n2\n"), None),
        (from_bytes(b"aig 1 0 1 0 0 1\n1\n2\n"), Some(1)),
        (from_bytes(b"aig 1 0 1 0 0 1\n2\n3\n"), Some(0)),
    ];
    for (fin_state, expected) in &examples {
        assert_eq!(test_ic3::<SplrSolver>(fin_state), *expected);
        assert_eq!(test_ic3::<VarisatSolver>(fin_state), *expected);
        assert_eq!(test_ic3::<CadicalSolver>(fin_state), *expected);
    }
}

#[test]
fn ic3_proves_a_stuck_latch_safe() {
    let fin_state = from_bytes(b"aig 1 0 1 0 0 1\n2\n2\n");
    let mut ic3_solver = IC3V2::<CadicalSolver>::new(&fin_state, false);
    match ic3_solver.prove().unwrap() {
        IC3V2Result::Proof { invariant } => {
            assert_eq!(fin_state.check_invariant::<CadicalSolver>(&invariant), Ok(()));
        }
        IC3V2Result::CTX { .. } => panic!("the latch never leaves 0"),
    }
}

#[test]
fn ic3_finds_the_counter_reaching_its_bad_state_in_three_steps() {
    assert_eq!(test_ic3::<VarisatSolver>(&counter_variant("0 2 1", "6\n")), Some(3));
}

#[test]
fn ic3_with_no_budget_still_decides_depths_zero_and_one() {
    let mut budget = 0u64;
    let mut ic3_solver = IC3V2::<CadicalSolver>::new(&from_bytes(b"aig 1 0 1 0 0 1\n2\n3\n"), false);
    match ic3_solver.prove_with_budget(&mut budget) {
        Some(IC3V2Result::CTX { depth }) => assert_eq!(depth, 0),
        _ => panic!("the initial state is bad"),
    }
    let mut ic3_solver = IC3V2::<CadicalSolver>::new(&from_bytes(b"aig 1 0 1 0 0 1\n1\n2\n"), false);
    match ic3_solver.prove_with_budget(&mut budget) {
        Some(IC3V2Result::CTX { depth }) => assert_eq!(depth, 1),
        _ => panic!("one step reaches the bad state"),
    }
    let mut ic3_solver = IC3V2::<CadicalSolver>::new(&counter_variant("0 2 1", "6\n"), false);
    assert!(ic3_solver.prove_with_budget(&mut budget).is_none());
    assert_eq!(budget, 0);
    assert_eq!(ic3_solver.rounds(), 0);
}
