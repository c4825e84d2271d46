use bristol2sieve::{BristolCircuit, SieveCircuit, SieveGate};

#[test]
fn test_parse_simple_circuit() {
    let bristol_str = r#"3 7
2 1 1
1 1
2 1 0 1 4 XOR
2 1 0 1 5 AND
1 1 1 6 INV"#;

    let circuit = BristolCircuit::from_str(bristol_str).unwrap();

    assert_eq!(circuit.num_gates, 3);
    assert_eq!(circuit.num_wires, 7);
    assert_eq!(circuit.num_input_groups, 2);
    assert_eq!(circuit.input_group_sizes, vec![1, 1]);
    assert_eq!(circuit.num_output_groups, 1);
    assert_eq!(circuit.output_group_sizes, vec![1]);
    assert_eq!(circuit.input_wires, vec![0, 1]);
    assert_eq!(circuit.output_wires, vec![6]);
    assert_eq!(circuit.gates.len(), 3);
}

#[test]
fn test_convert_to_sieve() {
    let bristol_str = r#"3 7
2 1 1
1 1
2 1 0 1 4 XOR
2 1 0 1 5 AND
1 1 1 6 INV"#;

    let bristol = BristolCircuit::from_str(bristol_str).unwrap();
    let sieve = SieveCircuit::from_bristol(&bristol).unwrap();

    assert_eq!(sieve.gates.len(), 6); // 1 constant + 2 inputs + 3 gates
    assert_eq!(sieve.constant_one_wire, 0);
    assert_eq!(sieve.input_wires, vec![1, 2]);
    assert_eq!(sieve.output_wires, vec![8]);

    // Check the SIEVE IR text representation
    let sieve_text = sieve.to_string();
    assert!(sieve_text.contains("version 2.0.0;"));
    assert!(sieve_text.contains("@type field 2;"));
    assert!(sieve_text.contains("$0 <- @private(0);"));
    assert!(sieve_text.contains("$6 <- @add(0: $1, $2);"));
    assert!(sieve_text.contains("$7 <- @mul(0: $1, $2);"));
    assert!(sieve_text.contains("$8 <- @add(0: $2, $0);"));
}

#[test]
fn test_xor_to_add_conversion() {
    // Create a simple Bristol Fashion circuit with only an XOR gate
    let bristol_str = r#"1 5
2 1 1
1 1
2 1 0 1 4 XOR"#;

    // Parse the circuit
    let bristol = BristolCircuit::from_str(bristol_str).unwrap();

    // Convert to SIEVE IR
    let sieve = SieveCircuit::from_bristol(&bristol).unwrap();

    // Verify the XOR gate was converted to an Add gate
    let mut found_add_gate = false;
    for gate in &sieve.gates {
        if let SieveGate::Add { inputs, output } = gate {
            if *output == 4 && inputs.contains(&1) && inputs.contains(&2) {
                found_add_gate = true;
                break;
            }
        }
    }

    assert!(
        found_add_gate,
        "XOR gate was not properly converted to Add gate"
    );

    // Verify the SIEVE IR text representation contains the Add gate
    let sieve_text = sieve.to_string();
    assert!(
        sieve_text.contains("$4 <- @add(0: $1, $2);"),
        "SIEVE IR text does not contain the expected Add gate"
    );
}

#[test]
fn test_and_to_mul_conversion() {
    // Create a simple Bristol Fashion circuit with only an AND gate
    let bristol_str = r#"1 5
2 1 1
1 1
2 1 0 1 4 AND"#;

    // Parse the circuit
    let bristol = BristolCircuit::from_str(bristol_str).unwrap();

    // Convert to SIEVE IR
    let sieve = SieveCircuit::from_bristol(&bristol).unwrap();

    // Verify the AND gate was converted to a Mul gate
    let mut found_mul_gate = false;
    for gate in &sieve.gates {
        if let SieveGate::Mul { inputs, output } = gate {
            if *output == 4 && inputs.contains(&1) && inputs.contains(&2) {
                found_mul_gate = true;
                break;
            }
        }
    }

    assert!(
        found_mul_gate,
        "AND gate was not properly converted to Mul gate"
    );

    // Verify the SIEVE IR text representation contains the Mul gate
    let sieve_text = sieve.to_string();
    assert!(
        sieve_text.contains("$4 <- @mul(0: $1, $2);"),
        "SIEVE IR text does not contain the expected Mul gate"
    );
}

#[test]
fn test_inv_to_add_with_constant_conversion() {
    // Create a simple Bristol Fashion circuit with only an INV gate
    let bristol_str = r#"1 4
1 1
1 1
1 1 0 3 INV"#;

    // Parse the circuit
    let bristol = BristolCircuit::from_str(bristol_str).unwrap();

    // Convert to SIEVE IR
    let sieve = SieveCircuit::from_bristol(&bristol).unwrap();

    // Verify the constant 1 wire exists
    assert_eq!(
        sieve.constant_one_wire, 0,
        "Constant 1 wire should be at index 0"
    );

    // Verify the INV gate was converted to an Add gate with the constant 1 wire
    let mut found_inv_conversion = false;
    for gate in &sieve.gates {
        if let SieveGate::Add { inputs, output } = gate {
            if *output == 3 && inputs.contains(&1) && inputs.contains(&0) {
                found_inv_conversion = true;
                break;
            }
        }
    }

    assert!(
        found_inv_conversion,
        "INV gate was not properly converted to Add gate with constant 1"
    );

    // Verify the SIEVE IR text representation contains the Add gate for INV
    let sieve_text = sieve.to_string();
    assert!(
        sieve_text.contains("$3 <- @add(0: $1, $0);"),
        "SIEVE IR text does not contain the expected Add gate for INV conversion"
    );
}
