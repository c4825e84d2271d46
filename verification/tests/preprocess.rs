use bristol2sieve::preprocess::preprocess_circuit;

const HEAD: &str = "version 2.0.0;\ncircuit;\n@type field 2;\n@begin\n";
const FOOT: &str = "\n@end\n";

#[test]
fn preprocess_replaces_header_and_footer() {
    let text = "version 1;\ncircuit;\n@begin\n  $0 <- @private(0);\n@end\ntrailing";
    assert_eq!(
        preprocess_circuit(text),
        format!("{}  $0 <- @private(0);\n{}", HEAD, FOOT)
    );
}

#[test]
fn preprocess_without_markers() {
    assert_eq!(preprocess_circuit("abc"), format!("{}abc{}", HEAD, FOOT));
    assert_eq!(preprocess_circuit(""), format!("{}{}", HEAD, FOOT));
}

#[test]
fn preprocess_begin_without_line_break() {
    assert_eq!(
        preprocess_circuit("x @begin"),
        format!("{}x @begin{}", HEAD, FOOT)
    );
}

#[test]
fn preprocess_end_gets_a_line_break() {
    assert_eq!(
        preprocess_circuit("@begin\nfoo@end"),
        format!("{}foo\n{}", HEAD, FOOT)
    );
    assert_eq!(
        preprocess_circuit("@begin\n@end"),
        format!("{}\n{}", HEAD, FOOT)
    );
    // Only the first @end counts.
    assert_eq!(
        preprocess_circuit("@begin\na\n@end\nb\n@end\n"),
        format!("{}a\n{}", HEAD, FOOT)
    );
}

#[test]
fn preprocessing_a_circuit_text_keeps_its_lines() {
    let b = bristol2sieve::BristolCircuit::from_str("1 3\n1 1\n1 1\n1 1 0 2 INV").unwrap();
    let s = bristol2sieve::SieveCircuit::from_bristol(&b).unwrap();
    let text = s.to_string();
    let expected = format!("{}\n@end\n", text.strip_suffix("@end\n").unwrap());
    assert_eq!(preprocess_circuit(&text), expected);
}
