use std::collections::{HashMap, HashSet};

use bristol2sieve::bristol::BristolErrorOf;
use bristol2sieve::sieve::{conversion_fault, ConversionFault};
use bristol2sieve::{transpile, transpile_checked};
use bristol2sieve::{BristolCircuit, BristolGate, SieveCircuit, SieveGate};

const FULL_ADDER: &str = "6 9
1 3
1 2
2 1 0 1 3 XOR
2 1 0 1 4 AND
2 1 3 2 5 AND
2 1 4 5 6 XOR
1 1 6 7 INV
2 1 3 2 8 XOR";

fn bristol_eval(c: &BristolCircuit, xs: &[bool]) -> Vec<bool> {
    let mut env: HashMap<usize, bool> = HashMap::new();
    for (k, w) in c.input_wires.iter().enumerate() {
        env.insert(*w, xs[k]);
    }
    for g in &c.gates {
        match g {
            BristolGate::Xor { inputs, output } => {
                let v = inputs.iter().fold(false, |a, w| a ^ env[w]);
                env.insert(*output, v);
            }
            BristolGate::And { inputs, output } => {
                let v = inputs.iter().fold(true, |a, w| a & env[w]);
                env.insert(*output, v);
            }
            BristolGate::Inv { input, output } => {
                let v = !env[input];
                env.insert(*output, v);
            }
        }
    }
    c.output_wires.iter().map(|w| env[w]).collect()
}

fn sieve_eval(c: &SieveCircuit, privates: &[bool]) -> Vec<bool> {
    let mut env: HashMap<usize, bool> = HashMap::new();
    let mut next = 0;
    for g in &c.gates {
        match g {
            SieveGate::Private { output, .. } => {
                env.insert(*output, privates[next]);
                next += 1;
            }
            SieveGate::Add { inputs, output } => {
                let v = inputs.iter().fold(false, |a, w| a ^ env[w]);
                env.insert(*output, v);
            }
            SieveGate::Mul { inputs, output } => {
                let v = inputs.iter().fold(true, |a, w| a & env[w]);
                env.insert(*output, v);
            }
        }
    }
    c.output_wires.iter().map(|w| env[w]).collect()
}

fn gate_output(g: &SieveGate) -> usize {
    match g {
        SieveGate::Private { output, .. } => *output,
        SieveGate::Add { output, .. } => *output,
        SieveGate::Mul { output, .. } => *output,
    }
}

#[test]
fn conversion_computes_the_same_outputs() {
    let b = BristolCircuit::from_str(FULL_ADDER).unwrap();
    let s = SieveCircuit::from_bristol(&b).unwrap();
    for bits in 0..8u32 {
        let xs: Vec<bool> = (0..3).map(|i| bits >> i & 1 == 1).collect();
        let mut privates = vec![true];
        privates.extend(xs.iter().copied());
        let expected = bristol_eval(&b, &xs);
        assert_eq!(sieve_eval(&s, &privates), expected);
        let a = xs[0] as u32 + xs[1] as u32 + xs[2] as u32;
        assert_eq!(expected, vec![a < 2, a % 2 == 1]);
    }
}

#[test]
fn conversion_shape_of_the_full_adder() {
    let b = BristolCircuit::from_str(FULL_ADDER).unwrap();
    let s = SieveCircuit::from_bristol(&b).unwrap();
    assert_eq!(s.gates.len(), 1 + 3 + 6);
    assert_eq!(s.constant_one_wire, 0);
    assert_eq!(s.input_wires, vec![1, 2, 3]);
    for k in 0..4 {
        assert_eq!(s.gates[k], SieveGate::Private { output: k, party: 0 });
    }
    // Gate outputs are numbered from 1 + 3 + 6 = 10 on.
    assert_eq!(s.gates[4], SieveGate::Add { inputs: vec![1, 2], output: 10 });
    assert_eq!(s.gates[5], SieveGate::Mul { inputs: vec![1, 2], output: 11 });
    assert_eq!(s.gates[6], SieveGate::Mul { inputs: vec![10, 3], output: 12 });
    assert_eq!(s.gates[7], SieveGate::Add { inputs: vec![11, 12], output: 13 });
    assert_eq!(s.gates[8], SieveGate::Add { inputs: vec![13, 0], output: 14 });
    assert_eq!(s.gates[9], SieveGate::Add { inputs: vec![10, 3], output: 15 });
    assert_eq!(s.output_wires, vec![14, 15]);
}

#[test]
fn conversion_writes_each_wire_once() {
    let b = BristolCircuit::from_str(FULL_ADDER).unwrap();
    let s = SieveCircuit::from_bristol(&b).unwrap();
    let mut written = HashSet::new();
    for g in &s.gates {
        let reads: Vec<usize> = match g {
            SieveGate::Private { .. } => vec![],
            SieveGate::Add { inputs, .. } | SieveGate::Mul { inputs, .. } => inputs.clone(),
        };
        for w in reads {
            assert!(written.contains(&w));
        }
        assert!(written.insert(gate_output(g)));
    }
    for w in &s.output_wires {
        assert!(written.contains(w));
    }
}

#[test]
fn conversion_keeps_the_wire_of_an_input_that_a_gate_overwrites() {
    let b = BristolCircuit::from_str("1 2\n1 2\n1 1\n1 1 0 1 INV").unwrap();
    let s = SieveCircuit::from_bristol(&b).unwrap();
    assert_eq!(s.gates.len(), 4);
    assert_eq!(s.gates[3], SieveGate::Add { inputs: vec![1, 0], output: 2 });
    assert_eq!(s.output_wires, vec![2]);
}

#[test]
fn conversion_of_repeated_input_wires_uses_the_last() {
    let b = BristolCircuit {
        num_gates: 1,
        num_wires: 2,
        num_input_groups: 1,
        input_group_sizes: vec![2],
        num_output_groups: 1,
        output_group_sizes: vec![1],
        gates: vec![BristolGate::Inv { input: 0, output: 1 }],
        input_wires: vec![0, 0],
        output_wires: vec![1],
    };
    let s = SieveCircuit::from_bristol(&b).unwrap();
    assert_eq!(s.input_wires, vec![1, 2]);
    assert_eq!(s.gates[3], SieveGate::Add { inputs: vec![2, 0], output: 4 });
    assert_eq!(s.output_wires, vec![4]);
}

#[test]
fn conversion_checked_refuses_unwritten_wires() {
    let reads_nothing = BristolCircuit::from_str("1 4\n1 1\n1 1\n2 1 0 2 3 XOR").unwrap();
    assert!(SieveCircuit::from_bristol_checked(&reads_nothing).is_none());
    let outputs_nothing = BristolCircuit::from_str("1 5\n1 1\n1 1\n1 1 0 3 INV").unwrap();
    assert!(SieveCircuit::from_bristol_checked(&outputs_nothing).is_none());
    let fine = BristolCircuit::from_str("1 4\n1 1\n1 1\n1 1 0 3 INV").unwrap();
    let s = SieveCircuit::from_bristol_checked(&fine).unwrap();
    assert_eq!(s.output_wires, vec![3]);
}

#[test]
fn gate_text_of_each_kind() {
    assert_eq!(
        SieveGate::Private { output: 12, party: 3 }.to_string(),
        "$12 <- @private(3);"
    );
    assert_eq!(
        SieveGate::Add { inputs: vec![1, 2, 30], output: 4 }.to_string(),
        "$4 <- @add(0: $1, $2, $30);"
    );
    assert_eq!(
        SieveGate::Add { inputs: vec![], output: 4 }.to_string(),
        "$4 <- @add(0: );"
    );
    assert_eq!(
        SieveGate::Mul { inputs: vec![7, 8], output: 9 }.to_string(),
        "$9 <- @mul(0: $7, $8);"
    );
    assert_eq!(
        SieveGate::Mul { inputs: vec![1, 2, 3], output: 4 }.to_string(),
        "// ERROR: Mul gate must have exactly 2 inputs"
    );
}

#[test]
fn circuit_text_in_full() {
    let b = BristolCircuit::from_str("1 4\n1 1\n1 1\n1 1 0 3 INV").unwrap();
    let s = SieveCircuit::from_bristol(&b).unwrap();
    assert_eq!(
        s.to_string(),
        "version 2.0.0;\ncircuit;\n@type field 2;\n@begin\n  $0 <- @private(0);\n  $1 <- @private(0);\n  $3 <- @add(0: $1, $0);\n@end\n"
    );
}

#[test]
fn transpile_text_to_text() {
    let out = transpile("1 4\n1 1\n1 1\n1 1 0 3 INV").unwrap();
    assert_eq!(
        out,
        "version 2.0.0;\ncircuit;\n@type field 2;\n@begin\n  $0 <- @private(0);\n  $1 <- @private(0);\n  $3 <- @add(0: $1, $0);\n@end\n"
    );
    assert_eq!(
        transpile("1 2 3"),
        Err(BristolErrorOf::HeaderFieldCount { found: 3 })
    );
}

#[test]
fn transpile_checked_outcomes() {
    assert!(transpile_checked("1 4\n1 1\n1 1\n2 1 0 2 3 XOR").is_none());
    assert!(transpile_checked("0 1\n1 1\n1 2").is_none());
    assert_eq!(
        transpile_checked(""),
        Some(Err(BristolErrorOf::EmptyCircuit))
    );
    let text = transpile_checked(FULL_ADDER).unwrap().unwrap();
    assert!(text.starts_with("version 2.0.0;\ncircuit;\n@type field 2;\n@begin\n"));
    assert!(text.ends_with("  $15 <- @add(0: $10, $3);\n@end\n"));
    assert_eq!(text.lines().count(), 4 + 10 + 1);
}

const THREE_GATES: &str = "3 7
2 1 1
1 1
2 1 0 1 4 XOR
2 1 0 1 5 AND
1 1 1 6 INV";

fn assert_three_gate_text(content: &str) {
    assert!(content.contains("version 2.0.0;"));
    assert!(content.contains("circuit;"));
    assert!(content.contains("@type field 2;"));
    assert!(content.contains("@begin"));
    assert!(content.contains("$0 <- @private(0);"));
    assert!(content.contains("$6 <- @add(0: $1, $2);"));
    assert!(content.contains("$7 <- @mul(0: $1, $2);"));
    assert!(content.contains("$8 <- @add(0: $2, $0);"));
    assert!(content.contains("@end"));
}

#[test]
fn sieve_text_of_the_three_gate_circuit() {
    let bristol = BristolCircuit::from_str(THREE_GATES).unwrap();
    let sieve = SieveCircuit::from_bristol(&bristol).unwrap();
    assert_three_gate_text(&sieve.to_string());
}

#[test]
fn transpile_three_gate_circuit() {
    assert_three_gate_text(&transpile(THREE_GATES).unwrap());
}

#[test]
fn conversion_fault_names_the_first_obstacle() {
    let reads_nothing = BristolCircuit::from_str("1 4\n1 1\n1 1\n2 1 0 2 3 XOR").unwrap();
    assert_eq!(conversion_fault(&reads_nothing), Some(ConversionFault::UnmappedRead));
    let outputs_nothing = BristolCircuit::from_str("1 5\n1 1\n1 1\n1 1 0 3 INV").unwrap();
    assert_eq!(conversion_fault(&outputs_nothing), Some(ConversionFault::UnmappedOutput));
    let fine = BristolCircuit::from_str("1 4\n1 1\n1 1\n1 1 0 3 INV").unwrap();
    assert_eq!(conversion_fault(&fine), None);
}
