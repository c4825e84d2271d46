//! Conversion of Bristol Fashion boolean circuits into SIEVE IR text.
//!
//! [`bristol`] reads the Bristol Fashion format, [`sieve`] builds the SIEVE IR
//! circuit and writes its text, and [`transpile`] does all three in a row;
//! [`laws`] states what the conversion preserves.
//!
//! Beside them: [`keccak`] holds the Keccak-f circuit as wires over earlier
//! wires, with its evaluation, chained copies and the grouping of its linear
//! gates into blocks of four; [`keccak_build`] turns that grouping into the
//! wire lists of the compiled circuit; [`keccak_sieve`] reads circuit files in the
//! first version of the Bristol format and wraps them in a SIEVE IR
//! function; [`preprocess`] normalizes a SIEVE IR text for the prover;
//! [`poseidon`] writes the SIEVE IR of the Poseidon hash; [`text`] holds the
//! character-level pieces they share.

pub mod bristol;
pub mod keccak;
pub mod keccak_build;
pub mod keccak_sieve;
pub mod laws;
pub mod poseidon;
pub mod preprocess;
pub mod sieve;
pub mod text;

pub use bristol::{BristolCircuit, BristolError, BristolGate};
pub use sieve::{SieveCircuit, SieveGate};

use vstd::prelude::*;

use crate::bristol::{parse_bristol, Outcome};
use crate::sieve::{circuit_text, conversion_defined, sieve_of};

verus! {

/// The text can be read and converted without overflowing the machine's
/// integers or reading a wire that nothing writes.
pub open spec fn transpile_defined(s: Seq<char>) -> bool {
    match parse_bristol(s) {
        Outcome::Value(c) => conversion_defined(c),
        Outcome::Fail(_) => true,
        Outcome::Panic => false,
    }
}

/// Turns the text of a Bristol Fashion circuit into SIEVE IR text; `None`
/// where [`transpile_defined`] does not hold.
pub fn transpile_checked(input: &str) -> (r: Option<Result<String, BristolError>>)
    ensures
        match parse_bristol(input@) {
            Outcome::Value(c) => if conversion_defined(c) {
                r matches Some(Ok(t)) && t@ == circuit_text(sieve_of(c))
            } else {
                r is None
            },
            Outcome::Fail(e) => r matches Some(Err(x)) && x@ == e,
            Outcome::Panic => r is None,
        },
{
    let bristol = match BristolCircuit::from_str_checked(input) {
        Some(Ok(b)) => b,
        Some(Err(e)) => {
            return Some(Err(e));
        },
        None => {
            return None;
        },
    };
    match SieveCircuit::from_bristol_checked(&bristol) {
        Some(sieve) => Some(Ok(sieve.to_string())),
        None => None,
    }
}

/// Turns the text of a Bristol Fashion circuit into SIEVE IR text.
pub fn transpile(input: &str) -> (r: Result<String, BristolError>)
    requires
        transpile_defined(input@),
    ensures
        match parse_bristol(input@) {
            Outcome::Value(c) => r matches Ok(t) && t@ == circuit_text(sieve_of(c)),
            Outcome::Fail(e) => r matches Err(x) && x@ == e,
            Outcome::Panic => false,
        },
{
    transpile_checked(input).unwrap()
}

} // verus!
