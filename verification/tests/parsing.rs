use bristol2sieve::bristol::{BristolErrorOf, GateKind};
use bristol2sieve::text::{parse_usize_chars, push_decimal, NumError};
use bristol2sieve::{BristolCircuit, BristolGate};

fn parse_err(text: &str) -> BristolErrorOf<String> {
    match BristolCircuit::from_str(text) {
        Ok(_) => panic!("the text was accepted"),
        Err(e) => e,
    }
}

const HEAD: &str = "1 3\n1 2\n1 1\n";

fn with_gate(line: &str) -> String {
    format!("{}{}", HEAD, line)
}

#[test]
fn parse_errors_in_the_header() {
    assert_eq!(parse_err(""), BristolErrorOf::EmptyCircuit);
    assert_eq!(parse_err("1 2 3"), BristolErrorOf::HeaderFieldCount { found: 3 });
    assert_eq!(
        parse_err("x 2"),
        BristolErrorOf::BadNumGates { error: NumError::InvalidDigit }
    );
    assert_eq!(
        parse_err("1 y"),
        BristolErrorOf::BadNumWires { error: NumError::InvalidDigit }
    );
    assert_eq!(parse_err("1 2"), BristolErrorOf::MissingInputInfo);
    assert_eq!(parse_err("1 2\n1"), BristolErrorOf::InputFieldCount { found: 1 });
    assert_eq!(
        parse_err("1 2\nz 1"),
        BristolErrorOf::BadNumInputGroups { error: NumError::InvalidDigit }
    );
    assert_eq!(
        parse_err("1 2\n2 1"),
        BristolErrorOf::InputGroupCountMismatch { expected: 2, found: 1 }
    );
    assert_eq!(
        parse_err("1 2\n1 q"),
        BristolErrorOf::BadInputGroupSize { index: 0, error: NumError::InvalidDigit }
    );
    assert_eq!(parse_err("1 2\n1 1"), BristolErrorOf::MissingOutputInfo);
    assert_eq!(parse_err("1 2\n1 1\n1"), BristolErrorOf::OutputFieldCount { found: 1 });
    assert_eq!(
        parse_err("1 2\n1 1\nz 1"),
        BristolErrorOf::BadNumOutputGroups { error: NumError::InvalidDigit }
    );
    assert_eq!(
        parse_err("1 2\n1 1\n3 1"),
        BristolErrorOf::OutputGroupCountMismatch { expected: 3, found: 1 }
    );
    assert_eq!(
        parse_err("1 2\n1 1\n2 1 x"),
        BristolErrorOf::BadOutputGroupSize { index: 1, error: NumError::InvalidDigit }
    );
}

#[test]
fn parse_errors_on_gate_lines() {
    assert_eq!(
        parse_err(&with_gate("2 1 0")),
        BristolErrorOf::GateLineTooShort { line: 4, text: "2 1 0".to_string() }
    );
    assert_eq!(
        parse_err(&with_gate("a 1 0 1")),
        BristolErrorOf::BadGateInputCount { line: 4, error: NumError::InvalidDigit }
    );
    assert_eq!(
        parse_err(&with_gate("1 b 0 1")),
        BristolErrorOf::BadGateOutputCount { line: 4, error: NumError::InvalidDigit }
    );
    assert_eq!(
        parse_err(&with_gate("2 1 0 1")),
        BristolErrorOf::GateFieldCount { line: 4, expected: 6, found: 4 }
    );
    assert_eq!(
        parse_err(&with_gate("2 1 0 x 2 XOR")),
        BristolErrorOf::BadGateInputWire { line: 4, index: 1, error: NumError::InvalidDigit }
    );
    assert_eq!(
        parse_err(&with_gate("1 2 0 1 2 XOR")),
        BristolErrorOf::MultipleOutputs { line: 4, found: 2 }
    );
    assert_eq!(
        parse_err(&with_gate("1 1 0 w INV")),
        BristolErrorOf::BadGateOutputWire { line: 4, error: NumError::InvalidDigit }
    );
    assert_eq!(
        parse_err(&with_gate("1 1 0 1 XOR")),
        BristolErrorOf::GateArity { line: 4, kind: GateKind::Xor, found: 1 }
    );
    assert_eq!(
        parse_err(&with_gate("1 1 0 1 AND")),
        BristolErrorOf::GateArity { line: 4, kind: GateKind::And, found: 1 }
    );
    assert_eq!(
        parse_err(&with_gate("2 1 0 1 2 INV")),
        BristolErrorOf::GateArity { line: 4, kind: GateKind::Inv, found: 2 }
    );
    assert_eq!(
        parse_err(&with_gate("2 1 0 1 2 OR")),
        BristolErrorOf::UnsupportedGate { line: 4, name: "OR".to_string() }
    );
    assert_eq!(
        parse_err("2 3\n1 2\n1 1\n2 1 0 1 2 XOR"),
        BristolErrorOf::GateCountMismatch { expected: 2, found: 1 }
    );
}

#[test]
fn parse_skips_blank_lines_and_counts_them() {
    let c = BristolCircuit::from_str("1 3\n1 2\n1 1\n\n  \n2 1 0 1 2 AND\n\n").unwrap();
    assert_eq!(
        c.gates,
        vec![BristolGate::And { inputs: vec![0, 1], output: 2 }]
    );
    assert_eq!(
        parse_err("1 3\n1 2\n1 1\n\n2 1 0 1 2 NAND"),
        BristolErrorOf::UnsupportedGate { line: 5, name: "NAND".to_string() }
    );
}

#[test]
fn parse_accepts_crlf_tabs_and_unicode_spaces() {
    let c = BristolCircuit::from_str("1\t2\r\n1 1\r\n1\u{3000}1\r\n1 1 0 1 INV\r\n").unwrap();
    assert_eq!(c.num_gates, 1);
    assert_eq!(c.num_wires, 2);
    assert_eq!(c.gates, vec![BristolGate::Inv { input: 0, output: 1 }]);
    assert_eq!(c.output_wires, vec![1]);
}

#[test]
fn parse_numbers_with_a_plus_sign() {
    let c = BristolCircuit::from_str("+1 +3\n1 +2\n1 1\n+2 1 0 +1 2 XOR").unwrap();
    assert_eq!(c.num_gates, 1);
    assert_eq!(c.num_wires, 3);
    assert_eq!(c.gates, vec![BristolGate::Xor { inputs: vec![0, 1], output: 2 }]);
}

#[test]
fn parse_groups_number_wires_in_order() {
    let c = BristolCircuit::from_str("0 10\n3 2 0 1\n2 2 1").unwrap();
    assert_eq!(c.num_input_groups, 3);
    assert_eq!(c.input_group_sizes, vec![2, 0, 1]);
    assert_eq!(c.input_wires, vec![0, 1, 2]);
    assert_eq!(c.num_output_groups, 2);
    assert_eq!(c.output_group_sizes, vec![2, 1]);
    // The output wires are the last wires of the circuit.
    assert_eq!(c.output_wires, vec![7, 8, 9]);
    assert!(c.gates.is_empty());
}

#[test]
fn parse_checked_refuses_overflowing_counts() {
    let max = usize::MAX;
    let group_count = format!("0 1\n{} 1\n1 1", max);
    assert!(BristolCircuit::from_str_checked(&group_count).is_none());
    let gate_counts = format!("1 3\n1 2\n1 1\n{} 1 0 1 2 XOR", max);
    assert!(BristolCircuit::from_str_checked(&gate_counts).is_none());
    let input_sum = format!("0 1\n2 {} 1\n1 1", max);
    assert!(BristolCircuit::from_str_checked(&input_sum).is_none());
    // More output wires than wires.
    assert!(BristolCircuit::from_str_checked("0 1\n1 1\n1 2").is_none());
    // A refusal is still a refusal.
    assert_eq!(
        BristolCircuit::from_str_checked("1 2 3"),
        Some(Err(BristolErrorOf::HeaderFieldCount { found: 3 }))
    );
    let ok = BristolCircuit::from_str_checked("0 2\n1 1\n1 1").unwrap().unwrap();
    assert_eq!(ok.input_wires, vec![0]);
    assert_eq!(ok.output_wires, vec![1]);
}

#[test]
fn parse_from_reader_matches_from_str() {
    let text = "1 3\n1 2\n1 1\n2 1 0 1 2 XOR";
    assert_eq!(
        BristolCircuit::from_reader(text).unwrap().gates,
        BristolCircuit::from_str(text).unwrap().gates
    );
}

fn chars(s: &str) -> Vec<char> {
    s.chars().collect()
}

#[test]
fn numbers_read_as_usize_from_str_does() {
    assert_eq!(parse_usize_chars(&chars("")), Err(NumError::Empty));
    assert_eq!(parse_usize_chars(&chars("+")), Err(NumError::InvalidDigit));
    assert_eq!(parse_usize_chars(&chars("-")), Err(NumError::InvalidDigit));
    assert_eq!(parse_usize_chars(&chars("-1")), Err(NumError::InvalidDigit));
    assert_eq!(parse_usize_chars(&chars("12a")), Err(NumError::InvalidDigit));
    assert_eq!(parse_usize_chars(&chars("+5")), Ok(5));
    assert_eq!(parse_usize_chars(&chars("007")), Ok(7));
    let max = usize::MAX.to_string();
    assert_eq!(parse_usize_chars(&chars(&max)), Ok(usize::MAX));
    let over = format!("{}0", max);
    assert_eq!(parse_usize_chars(&chars(&over)), Err(NumError::PosOverflow));
    for t in ["", "+", "x", "+12", "12", "99999999999999999999999"] {
        let ours = parse_usize_chars(&chars(t)).ok();
        assert_eq!(ours, t.parse::<usize>().ok());
    }
}

#[test]
fn decimal_text_of_numbers() {
    for n in [0usize, 7, 10, 409, usize::MAX] {
        let mut s = String::from("#");
        push_decimal(&mut s, n);
        assert_eq!(s, format!("#{}", n));
    }
}
