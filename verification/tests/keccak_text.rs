use bristol2sieve::keccak_sieve::{
    convert_to_sieve_ir, convert_to_sieve_ir_checked, parse_bristol_circuit,
    parse_bristol_circuit_checked, KGate, KGateKind, KTextErrorOf,
};
use bristol2sieve::text::NumError;

fn err(text: &str) -> KTextErrorOf<String> {
    match parse_bristol_circuit(text) {
        Ok(_) => panic!("the text was accepted"),
        Err(e) => e,
    }
}

#[test]
fn read_first_version_circuit() {
    let text = "4 6\n2 1 1\n1 1\n\n2 1 0 1 2 XOR\n1 1 2 3 INV\n1 1 1 4 EQ\n1 1 3 5 EQW\n";
    let (ins, outs, gates) = parse_bristol_circuit(text).unwrap();
    assert_eq!(ins, vec![1, 1]);
    assert_eq!(outs, vec![1]);
    assert_eq!(
        gates,
        vec![
            KGate::Xor { a: 0, b: 1, out: 2 },
            KGate::Inv { a: 2, out: 3 },
            KGate::Eq { lit: true, out: 4 },
            KGate::Eqw { a: 3, out: 5 },
        ]
    );
}

#[test]
fn read_skips_the_fourth_line_whatever_it_holds() {
    let (_, _, gates) = parse_bristol_circuit("1 3\n1 2\n1 1\n2 1 0 1 2 XOR\n2 1 0 1 2 AND").unwrap();
    assert_eq!(gates, vec![KGate::And { a: 0, b: 1, out: 2 }]);
}

#[test]
fn read_errors() {
    assert_eq!(err(""), KTextErrorOf::EmptyFile);
    assert_eq!(err("1 2"), KTextErrorOf::MissingInputLine);
    assert_eq!(err("1 2\n1 1"), KTextErrorOf::MissingOutputLine);
    assert_eq!(err("1 2\n1 1\n1 1"), KTextErrorOf::NotEnoughGates);
    assert_eq!(err("1 2\n1 1\n1 1\n\n"), KTextErrorOf::NotEnoughGates);
    assert_eq!(err("1 2\n1 1\n1 1\n\n   "), KTextErrorOf::InvalidGateFormat);
    assert_eq!(
        err("1 2\n1 1\n1 1\n\n2 2 0 1 2 XOR"),
        KTextErrorOf::InvalidArity { kind: KGateKind::Xor }
    );
    assert_eq!(
        err("1 2\n1 1\n1 1\n\n2 1 0 1 EQ"),
        KTextErrorOf::InvalidArity { kind: KGateKind::Eq }
    );
    assert_eq!(
        err("1 2\n1 1\n1 1\n\n2 1 0 1 2 OR"),
        KTextErrorOf::UnknownGate { name: "OR".to_string() }
    );
    assert_eq!(
        err("x 2"),
        KTextErrorOf::BadNumber { error: NumError::InvalidDigit }
    );
    assert_eq!(
        err("1 2\n1 1\n1 1\n\n2 1 0 1 XOR"),
        KTextErrorOf::BadNumber { error: NumError::InvalidDigit }
    );
    assert_eq!(
        err("1 2\n1 1\n1 1\n\n1 1 256 4 EQ"),
        KTextErrorOf::BadNumber { error: NumError::PosOverflow }
    );
    assert_eq!(
        err("1 2\n1 18446744073709551616\n1 1"),
        KTextErrorOf::BadNumber { error: NumError::PosOverflow }
    );
}

#[test]
fn read_checked_runs_off_a_line() {
    // The header holds one number, or none.
    assert!(parse_bristol_circuit_checked("5").is_none());
    assert!(parse_bristol_circuit_checked(" ").is_none());
    // The input line announces two sizes and gives one.
    assert!(parse_bristol_circuit_checked("0 2\n2 5\n1 1").is_none());
    assert!(parse_bristol_circuit_checked("0 2\n\n1 1").is_none());
    assert_eq!(
        parse_bristol_circuit_checked("0 2\n1 2\n1 1"),
        Some(Ok((vec![2], vec![1], vec![])))
    );
}

const HEAD: &str = "version 2.0.0;\ncircuit;\n@type field 2;\n@begin\n";

#[test]
fn write_first_version_circuit() {
    let text = convert_to_sieve_ir(
        &[1, 1],
        &[2],
        &[
            KGate::Xor { a: 0, b: 1, out: 2 },
            KGate::And { a: 0, b: 2, out: 3 },
            KGate::Inv { a: 3, out: 4 },
            KGate::Eq { lit: false, out: 5 },
            KGate::Eq { lit: true, out: 6 },
            KGate::Eqw { a: 6, out: 7 },
        ],
    );
    let expected = format!(
        "{}    @function(keccak_f, @out: 0:2, @in: 0:2)\n\
         \x20       $2 <- @add($0,$1); // XOR\n\
         \x20       $3 <- @mul($0,$2); // AND\n\
         \x20       $4 <- @addc($3,$<1>); // INV\n\
         \x20       $5 <- 0:<0>; // Constant 0\n\
         \x20       $6 <- 0:<1>; // Constant 1\n\
         \x20       $7 <- $6; // Copy\n\
         \x20       $0 <- $0;\n\
         \x20       $1 <- $1;\n\
         \x20   @end\n@end\n",
        HEAD
    );
    assert_eq!(text, expected);
}

#[test]
fn write_checked_refuses_overflowing_sums() {
    assert!(convert_to_sieve_ir_checked(&[u64::MAX, 1], &[], &[]).is_none());
    assert!(convert_to_sieve_ir_checked(&[], &[u64::MAX, 1], &[]).is_none());
    let t = convert_to_sieve_ir_checked(&[u64::MAX], &[], &[]).unwrap();
    assert_eq!(
        t,
        format!(
            "{}    @function(keccak_f, @out: 0:0, @in: 0:18446744073709551615)\n    @end\n@end\n",
            HEAD
        )
    );
}
