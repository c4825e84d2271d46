# bristol2sieve

Converts boolean circuits in the Bristol Fashion format into the SIEVE IR
text format (over the field of two elements), and prepares the Keccak-f
circuit for compilation into a VOLE-based zero-knowledge proof system.

The library in `src/` is written in Verus: each function states its result
in its contract, and Verus proves that the code meets it.

- `bristol.rs`: the Bristol Fashion reader (`BristolCircuit::from_str`).
- `sieve.rs`: the conversion to SIEVE IR (`SieveCircuit::from_bristol`) and
  its text (`SieveCircuit::to_string`); `lib.rs` has `transpile`, which does
  all of it.
- `laws.rs`: the converted circuit computes what the Bristol circuit
  computes, every wire is written once before it is read, and the shape of
  the result.
- `keccak.rs`: the Keccak-f circuit as wires over earlier wires; its
  evaluation; chained copies (whose evaluation iterates the circuit); the
  values of its AND gates; and the grouping of its linear gates into blocks
  of four pairs, proved to compute the same values.
- `keccak_build.rs`: the lists of wires that the prototypes of the compiled
  Keccak-f circuit read, taken from that grouping.
- `keccak_sieve.rs`: the reader of the first version of the Bristol format
  and the writer of a one-function SIEVE IR text.
- `preprocess.rs`: the normalization of a SIEVE IR text for the prover.
- `poseidon.rs`: the SIEVE IR text of the Poseidon hash for given round
  constants.
- `text.rs`: lines, tokens and decimal numbers.

`app/` is the command-line program and the file access around the library:
`transpile -i IN -o OUT`, `keccak-f-to-sieve`, `poseidon`, and `compile` /
`keccak`, which compute everything the compiled Keccak-f binaries are made
from but stop before writing them, since the circuit builder and the prover
belong to the zero-knowledge workspace this program is built without.
`tests/` runs the library on concrete circuits.
