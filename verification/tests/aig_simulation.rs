use rust_formal_verification::models::AndInverterGraph;
use std::collections::HashMap;

/// The 3-bit counter of the reading tests: latches 2, 4 and 6, and gates 8 = !6 & !4 and
/// 10 = 8 & !2.
fn counter() -> AndInverterGraph {
    let mut bytes = b"aig 5 0 3 1 2\n10\n2\n4\n10\n".to_vec();
    bytes.extend_from_slice(&[1, 2, 2, 5]);
    AndInverterGraph::from_vector_of_bytes(&bytes).unwrap()
}

#[test]
fn counter_simulation_from_all_false() {
    let aig = counter();
    let inputs = vec![HashMap::new(), HashMap::new(), HashMap::new()];
    let latches: HashMap<usize, bool> = [(1, false), (2, false), (3, false)].into_iter().collect();
    let result = aig.simulate(&inputs, &latches);
    assert_eq!(
        result.get_states(),
        &vec![
            vec![false, false, false, false, true, true],
            vec![false, true, false, false, true, false],
            vec![false, false, true, false, false, false],
        ]
    );
}

#[test]
fn counter_pre_initial_state_sets_next_state_variables() {
    let aig = counter();
    let latches: HashMap<usize, bool> = [(1, true), (2, false), (3, true)].into_iter().collect();
    let pre = aig.get_pre_initial_simulation_state(&HashMap::new(), &latches);
    // latch 1 reads literal 10, latch 2 literal 2, latch 3 literal 4.
    assert_eq!(pre, vec![false, false, true, false, false, true]);
}

#[test]
fn simulation_with_an_input() {
    let mut bytes = b"aig 3 1 1 1 1\n4 1\n6\n".to_vec();
    bytes.extend_from_slice(&[4, 2]);
    let aig = AndInverterGraph::from_vector_of_bytes(&bytes).unwrap();
    let inputs: Vec<HashMap<usize, bool>> = vec![
        [(1, true)].into_iter().collect(),
        [(1, false)].into_iter().collect(),
    ];
    let latches: HashMap<usize, bool> = [(2, true)].into_iter().collect();
    let result = aig.simulate(&inputs, &latches);
    assert_eq!(
        result.get_states(),
        &vec![vec![false, true, true, false], vec![false, false, true, false]]
    );
}
