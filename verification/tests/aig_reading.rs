use rust_formal_verification::models::and_inverter_graph::construction::AigReadError;
use rust_formal_verification::models::AndInverterGraph;

/// The binary AIGER file of a 3-bit counter: latches 2, 4 and 6, and gates 8 = !6 & !4 and
/// 10 = 8 & !2, output 10.
fn counter_bytes() -> Vec<u8> {
    let mut bytes = b"aig 5 0 3 1 2\n10\n2\n4\n10\n".to_vec();
    bytes.extend_from_slice(&[1, 2, 2, 5]);
    bytes
}

#[test]
fn counter_is_read_and_written_back_as_aag() {
    let aig = AndInverterGraph::from_vector_of_bytes(&counter_bytes()).unwrap();
    assert_eq!(
        "aag 5 0 3 1 2\n2 10\n4 2\n6 4\n10\n8 7 5\n10 8 3\n",
        aig.get_aag_string()
    );
}

#[test]
fn counter_information() {
    let aig = AndInverterGraph::from_vector_of_bytes(&counter_bytes()).unwrap();
    assert_eq!(Vec::<usize>::new(), aig.get_input_information());
    assert_eq!(vec![(2, 10, 0), (4, 2, 0), (6, 4, 0)], aig.get_latch_information());
    assert_eq!(Vec::<usize>::new(), aig.get_bad_information());
    assert_eq!(Vec::<usize>::new(), aig.get_constraints_information());
    assert_eq!(vec![10], aig.get_output_information());
    assert_eq!(5, aig.get_highest_variable_number());
}

#[test]
fn counter_cone_of_influence() {
    let aig = AndInverterGraph::from_vector_of_bytes(&counter_bytes()).unwrap();
    for lit in 0..8 {
        assert_eq!(aig.get_and_information_in_cone_of_influence(&[lit]), vec![]);
    }
    assert_eq!(aig.get_and_information_in_cone_of_influence(&[8]), vec![(8, 7, 5)]);
    assert_eq!(aig.get_and_information_in_cone_of_influence(&[9]), vec![(8, 7, 5)]);
    let mut sorted = aig.get_and_information_in_cone_of_influence(&[10]);
    sorted.sort();
    assert_eq!(sorted, vec![(8, 7, 5), (10, 8, 3)]);
    let mut sorted = aig.get_and_information_in_cone_of_influence(&[11]);
    sorted.sort();
    assert_eq!(sorted, vec![(8, 7, 5), (10, 8, 3)]);
    let mut both = aig.get_and_information_in_cone_of_influence(&[10, 9, 8]);
    both.sort();
    assert_eq!(both, vec![(8, 7, 5), (10, 8, 3)]);
}

#[test]
fn symbols_and_comments() {
    let mut bytes = b"aig 3 1 1 1 1 1\n4 1\n6\n5\n".to_vec();
    bytes.extend_from_slice(&[4, 2]);
    bytes.extend_from_slice("i0 enable\nl0 state\no0 out\nb0 \u{e9}t\u{e9}\nc\nnot a symbol\n".as_bytes());
    let aig = AndInverterGraph::from_vector_of_bytes(&bytes).unwrap();
    assert_eq!(
        aig.get_aag_string(),
        "aag 3 1 1 1 1 1\n2\n4 4 1\n6\n5\n6 2 0\ni0 enable\nl0 state\no0 out\nb0 \u{e9}t\u{e9}\n"
    );
}

#[test]
fn header_variants() {
    // a plus sign before a number is read, as usize::from_str reads it
    let aig = AndInverterGraph::from_vector_of_bytes(b"aig +1 1 0 0 0\n").unwrap();
    assert_eq!(aig.get_aag_string(), "aag 1 1 0 0 0\n2\n");
    // a latch may start uninitialized (its own literal)
    let aig = AndInverterGraph::from_vector_of_bytes(b"aig 1 0 1 0 0\n2 2\n").unwrap();
    assert_eq!(aig.get_latch_information(), vec![(2, 2, 2)]);
    assert_eq!(aig.get_aag_string(), "aag 1 0 1 0 0\n2 2 2\n");
    // a latch may start at 1
    let aig = AndInverterGraph::from_vector_of_bytes(b"aig 1 0 1 0 0\n3 1\n").unwrap();
    assert_eq!(aig.get_latch_information(), vec![(2, 3, 1)]);
}

#[test]
fn malformed_files_are_refused() {
    let refused: Vec<&[u8]> = vec![
        b"",
        b"aig 0 0 0 0 0",
        b"aag 0 0 0 0 0\n",
        b"aig 0 0 0 0\n",
        b"aig 0 0 0 0 0 0 0 0 0 0\n",
        b"aig 1 0 0 0 0\n",
        b"aig 0 0 0 0 0 0 0 1\n",
        b"aig 0 0 0 0 0 x\n",
        b"aig 1 0 1 0 0\n",
        b"aig 1 0 1 0 0\n4\n",
        b"aig 1 0 1 0 0\n2 3\n",
        b"aig 1 0 1 0 0\n2 0 1\n",
        b"aig 1 1 0 1 0\n4\n",
        b"aig 1 0 0 0 1\n",
        b"aig 1 0 0 0 1\n\x00\x00",
        b"aig 1 0 0 0 1\n\x03\x00",
        b"aig 0 0 0 0 0\nx0 name\n",
        b"aig 0 0 0 0 0\ni0 name\n",
        b"aig 1 1 0 0 0\ni0 two words\n",
        b"aig 1 1 0 0 0\ni0\n",
        b"aig 1 1 0 0 0\ni0 \xff\n",
        b"aig 1 1 0 0 0\n\n",
    ];
    for bytes in refused {
        assert_eq!(
            AndInverterGraph::from_vector_of_bytes(bytes).err(),
            Some(AigReadError::InvalidFormat),
            "{:?}",
            String::from_utf8_lossy(bytes)
        );
    }
}

#[test]
fn long_deltas() {
    // and gate 2 * 130 = 260 with inputs 2 and 0: deltas 258 (two bytes) and 2
    let mut bytes = b"aig 130 1 0 1 129\n".to_vec();
    bytes.extend_from_slice(b"260\n");
    for k in 0..129usize {
        let lhs = 2 * (k + 2);
        if k == 128 {
            bytes.extend_from_slice(&[0x82, 0x02, 0x02]);
        } else {
            // gate lhs = 2 (input) & 0
            let d0 = lhs - 2;
            if d0 < 128 {
                bytes.push(d0 as u8);
            } else {
                bytes.push((d0 % 128) as u8 | 0x80);
                bytes.push((d0 / 128) as u8);
            }
            bytes.push(2);
        }
    }
    let aig = AndInverterGraph::from_vector_of_bytes(&bytes).unwrap();
    let gates = aig.get_and_information_in_cone_of_influence(&[260]);
    assert_eq!(gates, vec![(260, 2, 0)]);
}
