use bristol2sieve::poseidon::{generate_poseidon_sieve_ir, ROUND_CONSTANT_COUNT};

fn numbered_constants() -> Vec<String> {
    (1..=ROUND_CONSTANT_COUNT).map(|i| i.to_string()).collect()
}

fn poseidon_lines() -> Vec<String> {
    let owned = numbered_constants();
    let rc: [&str; ROUND_CONSTANT_COUNT] = std::array::from_fn(|i| owned[i].as_str());
    let text = generate_poseidon_sieve_ir(&rc);
    assert!(text.ends_with("@end\n"));
    text.lines().map(|l| l.to_string()).collect()
}

#[test]
fn poseidon_has_one_line_per_statement() {
    assert_eq!(ROUND_CONSTANT_COUNT, 195);
    // 8 lines before the rounds, 18 per full round, 12 per partial round, 3 after.
    assert_eq!(poseidon_lines().len(), 8 + 8 * 18 + 57 * 12 + 3);
}

#[test]
fn poseidon_head_declares_the_field_and_the_function() {
    let lines = poseidon_lines();
    assert_eq!(lines[0], "version 2.0.0;");
    assert_eq!(lines[1], "circuit;");
    assert_eq!(
        lines[2],
        "@type field 21888242871839275222246405745257275088548364400416034343698204186575808495617;"
    );
    assert_eq!(lines[3], "@begin");
    assert_eq!(lines[4], "    @function(poseidon_hash, @out: 0:1, @in: 0:3)");
    assert_eq!(lines[5], "        $0 <- $0; // Initialize state with input");
    assert_eq!(lines[7], "        $2 <- $2; // Initialize state with input");
}

#[test]
fn poseidon_full_round_lines() {
    let lines = poseidon_lines();
    assert_eq!(lines[8], "        $0 <- @addc($0, $<1>); // Add round constant");
    assert_eq!(lines[10], "        $2 <- @addc($2, $<3>); // Add round constant");
    assert_eq!(lines[11], "        $t0 <- @mul($0, $0); // x^2");
    assert_eq!(lines[12], "        $t3 <- @mul($t0, $t0); // x^4");
    assert_eq!(lines[13], "        $0 <- @mul($t3, $0); // x^5");
    assert_eq!(lines[19], "        $2 <- @mul($t5, $2); // x^5");
    assert_eq!(
        lines[20],
        "        $t6 <- @mulc($0, $<2>) @add @mulc($1, $<1>) @add @mulc($2, $<1>); // MDS row 0"
    );
    assert_eq!(
        lines[22],
        "        $t8 <- @mulc($0, $<1>) @add @mulc($1, $<1>) @add @mulc($2, $<2>); // MDS row 2"
    );
    assert_eq!(lines[23], "        $0 <- $t6; // Update state");
    assert_eq!(lines[25], "        $2 <- $t8; // Update state");
    // The second full round takes the next three constants.
    assert_eq!(lines[26], "        $0 <- @addc($0, $<4>); // Add round constant");
}

#[test]
fn poseidon_partial_round_lines() {
    let lines = poseidon_lines();
    let first = 8 + 4 * 18;
    assert_eq!(lines[first], "        $0 <- @addc($0, $<13>); // Add round constant");
    assert_eq!(lines[first + 3], "        $t0 <- @mul($0, $0); // x^2");
    assert_eq!(lines[first + 4], "        $t1 <- @mul($t0, $t0); // x^4");
    assert_eq!(lines[first + 5], "        $0 <- @mul($t1, $0); // x^5");
    assert_eq!(
        lines[first + 7],
        "        $t3 <- @mulc($0, $<1>) @add @mulc($1, $<2>) @add @mulc($2, $<1>); // MDS row 1"
    );
    assert_eq!(lines[first + 11], "        $2 <- $t4; // Update state");
    let last = first + 56 * 12;
    assert_eq!(lines[last + 2], "        $2 <- @addc($2, $<183>); // Add round constant");
}

#[test]
fn poseidon_tail_returns_the_first_element() {
    let lines = poseidon_lines();
    let second_half = 8 + 4 * 18 + 57 * 12;
    assert_eq!(lines[second_half], "        $0 <- @addc($0, $<184>); // Add round constant");
    let n = lines.len();
    assert_eq!(lines[n - 19], "        $2 <- @addc($2, $<195>); // Add round constant");
    assert_eq!(lines[n - 4], "        $2 <- $t8; // Update state");
    assert_eq!(lines[n - 3], "        $0 <- $0; // Output hash result");
    assert_eq!(lines[n - 2], "    @end");
    assert_eq!(lines[n - 1], "@end");
}
