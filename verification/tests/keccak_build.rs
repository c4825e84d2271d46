use bristol2sieve::keccak::{schedule_xors, Circuit, WireBody, NUM_INPUTS};
use bristol2sieve::keccak_build::ProtoWire::{Input, Own};
use bristol2sieve::keccak_build::{
    chaining_wires, expected_value_wires, multiply_wires, xor_wires,
};

fn small_circuit() -> Circuit {
    let mut c = Circuit::new();
    c.add_wire(WireBody::Input(0));
    c.add_wire(WireBody::Input(1));
    c.add_wire(WireBody::Xor(0, 1));
    c.add_wire(WireBody::Inv(0));
    c.add_wire(WireBody::And(2, 3));
    c.add_wire(WireBody::Xor(4, 2));
    c
}

#[test]
fn block_prototype_reads_constant_fixed_and_own_wires() {
    let c = small_circuit();
    let (xors, _mapping) = schedule_xors(&c);
    let w = xor_wires(&xors);
    assert_eq!(w.len(), 2);
    assert_eq!(
        w[0],
        [
            [Input(1, 0), Input(1, 1)],
            [Input(0, 0), Input(1, 0)],
            [Input(1, 0), Input(1, 1)],
            [Input(1, 0), Input(1, 1)],
        ]
    );
    assert_eq!(w[1], [[Input(1, NUM_INPUTS), Own(0)]; 4]);
}

#[test]
fn multiplication_check_reads_each_and_wire() {
    let c = small_circuit();
    let (_xors, mapping) = schedule_xors(&c);
    let w = multiply_wires(&c, &mapping);
    assert_eq!(w, vec![[Input(1, 0), Input(1, 1), Input(0, NUM_INPUTS)]]);
}

#[test]
fn multiplication_check_of_a_circuit_without_and_is_empty() {
    let mut c = Circuit::new();
    c.add_wire(WireBody::Input(0));
    c.add_wire(WireBody::Inv(0));
    let (_xors, mapping) = schedule_xors(&c);
    assert!(multiply_wires(&c, &mapping).is_empty());
}

#[test]
fn chaining_and_expected_value_pairs() {
    let c = small_circuit();
    let (_xors, mapping) = schedule_xors(&c);
    let outputs = vec![5, 4, 0];
    assert_eq!(
        chaining_wires(&outputs, &mapping),
        vec![
            [Input(2, 0), Input(1, 4)],
            [Input(2, 1), Input(0, NUM_INPUTS)],
            [Input(2, 2), Input(0, 0)],
        ]
    );
    assert_eq!(
        expected_value_wires(&outputs, &mapping),
        vec![
            [Input(0, 0), Input(2, 4)],
            [Input(0, 1), Input(1, NUM_INPUTS)],
            [Input(0, 2), Input(1, 0)],
        ]
    );
}
