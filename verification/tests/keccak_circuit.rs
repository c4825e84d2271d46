use bristol2sieve::keccak::KeccakWire::{ConstOne, FixOutput, XorOutput};
use bristol2sieve::keccak::{
    chain_copies, count_and_gates, evaluate, fix_data, parse_circuit, parse_circuit_checked,
    schedule_xors, Circuit, KeccakWire, WireBody, NUM_INPUTS,
};

fn small_circuit() -> Circuit {
    let mut c = Circuit::new();
    c.add_wire(WireBody::Input(0));
    c.add_wire(WireBody::Input(1));
    c.add_wire(WireBody::Xor(0, 1));
    c.add_wire(WireBody::Inv(0));
    c.add_wire(WireBody::And(2, 3));
    c.add_wire(WireBody::Xor(4, 2));
    c
}

#[test]
fn add_wire_records_readers() {
    let mut c = small_circuit();
    assert_eq!(c.wires.len(), 6);
    assert_eq!(
        c.reverse_deps,
        vec![vec![2, 3], vec![2], vec![4, 5], vec![4], vec![5], vec![]]
    );
    // A wire that reads the same wire twice is listed once.
    let w = c.add_wire(WireBody::And(1, 1));
    assert_eq!(w, 6);
    assert_eq!(c.reverse_deps[1], vec![2, 6]);
}

#[test]
fn evaluate_small_circuit() {
    let c = small_circuit();
    let v = evaluate(&c, &[true, false]);
    // x = 1 ^ 0 = 1, n = !1 = 0, a = 1 & 0 = 0, y = 0 ^ 1 = 1
    assert_eq!(v, vec![true, false, true, false, false, true]);
    let v = evaluate(&c, &[true, true]);
    assert_eq!(v, vec![true, true, false, false, false, false]);
}

#[test]
fn fix_data_is_inputs_then_and_values() {
    let c = small_circuit();
    assert_eq!(fix_data(&c, &[false, true]), vec![false, true, true]);
    assert_eq!(fix_data(&c, &[true, false]), vec![true, false, false]);
    assert_eq!(count_and_gates(&c), 1);
}

#[test]
fn schedule_small_circuit() {
    let c = small_circuit();
    let (xors, mapping) = schedule_xors(&c);
    assert_eq!(
        mapping,
        vec![FixOutput(0), FixOutput(1), XorOutput(0), XorOutput(1), FixOutput(NUM_INPUTS), XorOutput(4)]
    );
    assert_eq!(xors.len(), 2);
    assert_eq!(
        xors[0],
        [
            (FixOutput(0), FixOutput(1)),
            (ConstOne, FixOutput(0)),
            (FixOutput(0), FixOutput(1)),
            (FixOutput(0), FixOutput(1)),
        ]
    );
    assert_eq!(xors[1], [(FixOutput(NUM_INPUTS), XorOutput(0)); 4]);
}

fn wire_val(w: KeccakWire, fix: &[bool], xv: &[bool]) -> bool {
    match w {
        KeccakWire::ConstOne => true,
        KeccakWire::XorOutput(j) => xv[j],
        KeccakWire::FixOutput(i) => fix[i],
    }
}

#[test]
fn schedule_evaluates_like_the_circuit() {
    let c = small_circuit();
    let (xors, mapping) = schedule_xors(&c);
    for bits in 0..4u32 {
        let mut m = vec![false; NUM_INPUTS];
        m[0] = bits & 1 == 1;
        m[1] = bits & 2 == 2;
        let values = evaluate(&c, &m);
        let fix = fix_data(&c, &m);
        let mut xv: Vec<bool> = Vec::new();
        for block in &xors {
            for (a, b) in block.iter() {
                let v = wire_val(*a, &fix, &xv) ^ wire_val(*b, &fix, &xv);
                xv.push(v);
            }
        }
        for (i, w) in mapping.iter().enumerate() {
            assert_eq!(wire_val(*w, &fix, &xv), values[i]);
        }
    }
}

fn two_bit_circuit() -> Circuit {
    let mut c = Circuit::new();
    c.add_wire(WireBody::Input(0));
    c.add_wire(WireBody::Input(1));
    c.add_wire(WireBody::Xor(0, 1));
    c.add_wire(WireBody::And(0, 1));
    c.outputs = vec![2, 3];
    c
}

#[test]
fn chained_copies_apply_the_circuit_again() {
    let single = two_bit_circuit();
    let chained = chain_copies(&single, 3);
    assert_eq!(chained.wires.len(), 4 + 2 + 2);
    assert_eq!(chained.outputs.len(), 2);
    assert_eq!(chained.wires[4], WireBody::Xor(2, 3));
    assert_eq!(chained.wires[5], WireBody::And(2, 3));
    assert_eq!(chained.outputs, vec![6, 7]);
    for bits in 0..4u32 {
        let m = vec![bits & 1 == 1, bits & 2 == 2];
        let mut expected = m.clone();
        for _ in 0..3 {
            let v = evaluate(&single, &expected);
            expected = single.outputs.iter().map(|o| v[*o]).collect();
        }
        let v = evaluate(&chained, &m);
        let actual: Vec<bool> = chained.outputs.iter().map(|o| v[*o]).collect();
        assert_eq!(actual, expected);
    }
    let once = chain_copies(&single, 1);
    assert_eq!(once.wires, single.wires);
    assert_eq!(once.outputs, single.outputs);
}

fn keccak_text(gates: &[&str], num_wires: usize) -> String {
    let mut t = format!("{} {}\n{} 0 {}\n", gates.len(), num_wires, NUM_INPUTS, NUM_INPUTS);
    for g in gates {
        t.push_str(g);
        t.push('\n');
    }
    t
}

#[test]
fn parse_circuit_text() {
    let text = keccak_text(&["2 1 0 1 1600 XOR", "2 1 1600 2 1601 AND", "1 1 1601 1602 INV"], 1603);
    let c = parse_circuit(&text);
    assert_eq!(c.wires.len(), 1603);
    for i in 0..NUM_INPUTS {
        assert_eq!(c.wires[i], WireBody::Input(i));
    }
    assert_eq!(c.wires[1600], WireBody::Xor(0, 1));
    assert_eq!(c.wires[1601], WireBody::And(1600, 2));
    assert_eq!(c.wires[1602], WireBody::Inv(1601));
    assert_eq!(c.outputs.len(), NUM_INPUTS);
    assert_eq!(c.outputs[0], 3);
    assert_eq!(&c.outputs[1597..], &[1600, 1601, 1602]);
    assert_eq!(c.reverse_deps[1600], vec![1601]);
}

#[test]
fn parse_circuit_refusals() {
    let ok = ["2 1 0 1 1600 XOR"];
    assert!(parse_circuit_checked(&keccak_text(&ok, 1601)).is_some());
    // A header with one number.
    assert!(parse_circuit_checked("7").is_none());
    // Fewer wires than inputs.
    assert!(parse_circuit_checked("0 10\n1 1 1").is_none());
    // No second line.
    assert!(parse_circuit_checked("0 1600").is_none());
    // An unknown gate name, an empty line, counts other than 2 and 1.
    assert!(parse_circuit_checked(&keccak_text(&["2 1 0 1 1600 OR"], 1601)).is_none());
    assert!(parse_circuit_checked(&keccak_text(&["", "2 1 0 1 1600 XOR"], 1601)).is_none());
    assert!(parse_circuit_checked(&keccak_text(&["+2 1 0 1 1600 XOR"], 1601)).is_none());
    // A gate that reads a wire not written yet, or writes one twice.
    assert!(parse_circuit_checked(&keccak_text(&["2 1 0 1600 1600 XOR"], 1601)).is_none());
    assert!(parse_circuit_checked(&keccak_text(&["2 1 0 1 5 XOR"], 1601)).is_none());
    // Fewer wires than announced.
    assert!(parse_circuit_checked(&keccak_text(&ok, 1602)).is_none());
    // Extra tokens before the name of a gate are ignored.
    let c = parse_circuit_checked(&keccak_text(&["2 1 0 1 1600 9 XOR"], 1601)).unwrap();
    assert_eq!(c.wires[1600], WireBody::Xor(0, 1));
}

#[test]
fn schedule_takes_smallest_ready_first() {
    let mut c = Circuit::new();
    c.add_wire(WireBody::Input(0));
    c.add_wire(WireBody::Input(1));
    for _ in 0..5 {
        c.add_wire(WireBody::Xor(0, 1));
    }
    c.add_wire(WireBody::Xor(2, 3));
    let (xors, mapping) = schedule_xors(&c);
    assert_eq!(
        mapping,
        vec![
            FixOutput(0),
            FixOutput(1),
            XorOutput(0),
            XorOutput(1),
            XorOutput(2),
            XorOutput(3),
            XorOutput(4),
            XorOutput(5),
        ]
    );
    assert_eq!(xors.len(), 2);
    assert_eq!(xors[0], [(FixOutput(0), FixOutput(1)); 4]);
    assert_eq!(
        xors[1],
        [
            (FixOutput(0), FixOutput(1)),
            (XorOutput(0), XorOutput(1)),
            (FixOutput(0), FixOutput(1)),
            (FixOutput(0), FixOutput(1)),
        ]
    );
}

#[test]
fn add_wire_lists_the_new_wire_among_its_readers() {
    let mut c = Circuit::new();
    let w = c.add_wire(WireBody::Inv(0));
    assert_eq!(w, 0);
    assert_eq!(c.reverse_deps, vec![vec![0]]);
    let w = c.add_wire(WireBody::Xor(0, 1));
    assert_eq!(w, 1);
    assert_eq!(c.reverse_deps, vec![vec![0, 1], vec![1]]);
}
