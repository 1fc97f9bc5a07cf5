use rust_formal_verification::algorithms::formula_logic::is_a_and_b_satisfiable;
use rust_formal_verification::models::finite_state_transition_system::features::InvariantError;
use rust_formal_verification::models::{AndInverterGraph, FiniteStateTransitionSystem};
use rust_formal_verification::formulas::{Clause, Cube, Literal, CNF};
use rust_formal_verification::solvers::sat::stateless::VarisatSolver;
use rust_formal_verification::solvers::sat::Assignment;

/// The 3-bit counter, with the given header numbers after the and gates and the given lines
/// of outputs and bad-state properties.
fn counter_variant(header: &str, literal_lines: &str) -> AndInverterGraph {
    let mut bytes = format!("aig 5 0 3 {}\n10\n2\n4\n{}", header, literal_lines).into_bytes();
    bytes.extend_from_slice(&[1, 2, 2, 5]);
    AndInverterGraph::from_vector_of_bytes(&bytes).unwrap()
}

#[test]
fn create_fsts_from_simple_example_counter() {
    let aig = counter_variant("1 2", "10\n");
    let fsts = FiniteStateTransitionSystem::from_aig(&aig, false);

    assert_eq!(
        fsts.get_initial_relation().to_string(),
        "p cnf 3 3\n-1 0\n-2 0\n-3 0"
    );
    assert_eq!(fsts.get_safety_property().to_string(), "p cnf 0 0\n");
    assert_eq!(fsts.get_unsafety_property().to_string(), "p cnf 0 1\n 0");
    assert_eq!(
        fsts.get_transition_relation().to_string(),
        "p cnf 8 12\n1 -7 0\n-1 -5 0\n-1 7 0\n2 -8 0\n-2 -4 0\n-2 8 0\n-3 -4 0\n4 -5 0\n5 -6 0\n-5 6 0\n1 -4 5 0\n2 3 4 0"
    );
}

#[test]
fn create_fsts_from_simple_example_counter_with_bad_assertion() {
    let aig = counter_variant("0 2 1", "6\n");
    let fsts = FiniteStateTransitionSystem::from_aig(&aig, false);

    assert_eq!(
        fsts.get_initial_relation().to_string(),
        "p cnf 3 3\n-1 0\n-2 0\n-3 0"
    );
    assert_eq!(fsts.get_safety_property().to_string(), "p cnf 3 1\n-3 0");
    assert_eq!(fsts.get_unsafety_property().to_string(), "p cnf 3 1\n3 0");
    assert_eq!(
        fsts.get_transition_relation().to_string(),
        "p cnf 8 12\n1 -7 0\n-1 -5 0\n-1 7 0\n2 -8 0\n-2 -4 0\n-2 8 0\n-3 -4 0\n4 -5 0\n5 -6 0\n-5 6 0\n1 -4 5 0\n2 3 4 0"
    );
}

#[test]
fn create_fsts_from_simple_example_counter_with_2_bad_assertions() {
    let aig = counter_variant("0 2 2", "4\n6\n");
    let fsts = FiniteStateTransitionSystem::from_aig(&aig, false);

    assert_eq!(
        fsts.get_initial_relation().to_string(),
        "p cnf 3 3\n-1 0\n-2 0\n-3 0"
    );
    assert_eq!(
        fsts.get_safety_property().to_string(),
        "p cnf 3 2\n-2 0\n-3 0"
    );
    assert_eq!(fsts.get_unsafety_property().to_string(), "p cnf 3 1\n2 3 0");
    assert_eq!(
        fsts.get_transition_relation().to_string(),
        "p cnf 8 12\n1 -7 0\n-1 -5 0\n-1 7 0\n2 -8 0\n-2 -4 0\n-2 8 0\n-3 -4 0\n4 -5 0\n5 -6 0\n-5 6 0\n1 -4 5 0\n2 3 4 0"
    );
}

#[test]
fn safety_and_unsafety_never_hold_together() {
    let aig = counter_variant("0 2 2", "4\n6\n");
    let fsts = FiniteStateTransitionSystem::from_aig(&aig, false);
    for depth in 0..3 {
        assert!(!is_a_and_b_satisfiable::<VarisatSolver>(
            &fsts.add_tags_to_relation(&fsts.get_safety_property(), depth),
            &fsts.add_tags_to_relation(&fsts.get_unsafety_property(), depth)
        ));
    }
}

#[test]
fn outputs_count_as_bad_when_asked() {
    let aig = counter_variant("1 2", "10\n");
    let fsts = FiniteStateTransitionSystem::from_aig(&aig, true);
    assert_eq!(fsts.get_unsafety_property().to_string(), "p cnf 5 1\n5 0");
    assert_eq!(
        fsts.get_state_to_safety_translation().to_string(),
        "p cnf 5 6\n-1 -5 0\n-2 -4 0\n-3 -4 0\n4 -5 0\n1 -4 5 0\n2 3 4 0"
    );
    assert_eq!(fsts.get_state_literal_numbers(), vec![1, 2, 3]);
    assert_eq!(fsts.get_input_literal_numbers(), Vec::<u32>::new());
    assert_eq!(fsts.get_max_literal_number(), 5);
}

#[test]
fn tags_move_variables_up() {
    let aig = counter_variant("1 2", "10\n");
    let fsts = FiniteStateTransitionSystem::from_aig(&aig, false);
    let init = fsts.get_initial_relation();
    assert_eq!(fsts.add_tags_to_relation(&init, 0).to_string(), "p cnf 3 3\n-1 0\n-2 0\n-3 0");
    assert_eq!(fsts.add_tags_to_relation(&init, 2).to_string(), "p cnf 13 3\n-11 0\n-12 0\n-13 0");
    let cube = !Clause::new(&[Literal::new(1), !Literal::new(3)]);
    let moved = fsts.add_tags_to_cube(&cube, 1);
    assert_eq!((!moved).to_string(), "6 -8 0");
}

#[test]
fn initial_cubes_and_states() {
    let aig = counter_variant("1 2", "10\n");
    let fsts = FiniteStateTransitionSystem::from_aig(&aig, false);
    assert!(fsts.is_cube_initial(&!Clause::new(&[Literal::new(1), Literal::new(2)])));
    assert!(!fsts.is_cube_initial(&!Clause::new(&[!Literal::new(1), Literal::new(2)])));
    let assignment = Assignment::from_dimacs_assignment(&[1, -2, 3, 4]);
    let state = fsts.extract_state_from_assignment(&assignment);
    assert_eq!((!state).to_string(), "-1 2 -3 0");
}

#[test]
fn invariants_are_checked() {
    let aig = counter_variant("0 2 1", "6\n");
    let fsts = FiniteStateTransitionSystem::from_aig(&aig, false);
    // the empty CNF covers everything, and every state it covers is kept, but 3 is bad
    assert_eq!(
        fsts.check_invariant::<VarisatSolver>(&CNF::new()),
        Err(InvariantError::NotSafe)
    );
    // "not 1" does not cover... it does cover init, but the counter leaves it
    let mut not_one = CNF::new();
    not_one.add_clause(&Clause::new(&[!Literal::new(1)]));
    assert_eq!(
        fsts.check_invariant::<VarisatSolver>(&not_one),
        Err(InvariantError::NotInductive)
    );
    // "1" does not hold initially
    let mut one = CNF::new();
    one.add_clause(&Clause::new(&[Literal::new(1)]));
    assert_eq!(
        fsts.check_invariant::<VarisatSolver>(&one),
        Err(InvariantError::DoesNotCoverInit)
    );
}

#[test]
fn cube_initial_exactly_when_it_meets_an_initial_state() {
    let aig = counter_variant("1 2", "10\n");
    let fsts = FiniteStateTransitionSystem::from_aig(&aig, false);
    let cubes = [
        Cube::new(&[!Literal::new(1)]),
        Cube::new(&[Literal::new(1)]),
        Cube::new(&[!Literal::new(2), !Literal::new(3)]),
        Cube::new(&[!Literal::new(2), Literal::new(3)]),
        Cube::new(&[Literal::new(4)]),
    ];
    for cube in cubes.iter() {
        let meets = is_a_and_b_satisfiable::<VarisatSolver>(&fsts.get_initial_relation(), &cube.to_cnf());
        assert_eq!(fsts.is_cube_initial(cube), meets);
    }
}
