//! A second Bristol Fashion reader, for circuit files in the first version
//! of the format (which also has the EQ and EQW gates), and a writer of the
//! SIEVE IR text that wraps such a circuit in a single function.

use vstd::prelude::*;

use crate::bristol::is_word3;
use crate::text::{
    chars_of, decimal, parse_uint, parse_uint_chars, push_chars, push_decimal_u64, split_lines,
    split_tokens, text_lines, tokens, views, NumError,
};

verus! {

/// A gate of a circuit in the first version of the Bristol format.
#[derive(Clone, Copy, Debug, PartialEq, Eq, Structural)]
pub enum KGate {
    Xor { a: u64, b: u64, out: u64 },
    And { a: u64, b: u64, out: u64 },
    Inv { a: u64, out: u64 },
    Eq { lit: bool, out: u64 },
    Eqw { a: u64, out: u64 },
}

/// The kind of a gate, as named on its line.
#[derive(Clone, Copy, Debug, PartialEq, Eq, Structural)]
pub enum KGateKind {
    Xor,
    And,
    Inv,
    Eq,
    Eqw,
}

/// Why a circuit text was refused; `S` is the type of the quoted text.
#[derive(Clone, Debug, PartialEq, Eq)]
pub enum KTextErrorOf<S> {
    /// The text has no line.
    EmptyFile,
    /// There is no second line.
    MissingInputLine,
    /// There is no third line.
    MissingOutputLine,
    /// The text ends before the announced number of gates.
    NotEnoughGates,
    /// A gate line is empty.
    InvalidGateFormat,
    /// A gate of kind `kind` does not announce the inputs and outputs of its kind.
    InvalidArity { kind: KGateKind },
    /// A gate line names an unknown gate type.
    UnknownGate { name: S },
    /// A value is not a number, or too large.
    BadNumber { error: NumError },
}

/// Errors of the reader.
pub type KTextError = KTextErrorOf<String>;

/// Errors of the reader as they stand in contracts.
pub type KTextErrorSpec = KTextErrorOf<Seq<char>>;

impl View for KTextErrorOf<String> {
    type V = KTextErrorSpec;

    open spec fn view(&self) -> KTextErrorSpec {
        match self {
            KTextErrorOf::EmptyFile => KTextErrorOf::EmptyFile,
            KTextErrorOf::MissingInputLine => KTextErrorOf::MissingInputLine,
            KTextErrorOf::MissingOutputLine => KTextErrorOf::MissingOutputLine,
            KTextErrorOf::NotEnoughGates => KTextErrorOf::NotEnoughGates,
            KTextErrorOf::InvalidGateFormat => KTextErrorOf::InvalidGateFormat,
            KTextErrorOf::InvalidArity { kind } => KTextErrorOf::InvalidArity { kind: *kind },
            KTextErrorOf::UnknownGate { name } => KTextErrorOf::UnknownGate { name: name@ },
            KTextErrorOf::BadNumber { error } => KTextErrorOf::BadNumber { error: *error },
        }
    }
}

/// What reading gives: a value, a refusal, or no answer at all (where the
/// reader runs off the end of a line).
pub enum Read<T> {
    Value(T),
    Fail(KTextErrorSpec),
    Panic,
}

/// A `u64` read as `u64::from_str` reads it.
pub open spec fn parse_u64(t: Seq<char>) -> Result<u64, NumError> {
    match parse_uint(t, u64::MAX as nat) {
        Ok(v) => Ok(v as u64),
        Err(e) => Err(e),
    }
}

/// The sizes `parts[1..=count]`, read in order.
pub open spec fn read_sizes(parts: Seq<Seq<char>>, count: nat) -> Read<Seq<u64>>
    decreases count,
{
    if count == 0 {
        Read::Value(Seq::empty())
    } else {
        match read_sizes(parts, (count - 1) as nat) {
            Read::Value(v) => if count >= parts.len() {
                Read::Panic
            } else {
                match parse_u64(parts[count as int]) {
                    Ok(x) => Read::Value(v.push(x)),
                    Err(e) => Read::Fail(KTextErrorOf::BadNumber { error: e }),
                }
            },
            Read::Fail(e) => Read::Fail(e),
            Read::Panic => Read::Panic,
        }
    }
}

/// An input or output line: a count, then that many sizes.
pub open spec fn size_line(line: Seq<char>) -> Read<Seq<u64>> {
    let parts = tokens(line);
    if parts.len() == 0 {
        Read::Panic
    } else {
        match parse_u64(parts[0]) {
            Err(e) => Read::Fail(KTextErrorOf::BadNumber { error: e }),
            Ok(n) => read_sizes(parts, n as nat),
        }
    }
}

/// Reads `parts[i]` as a `u64`, where it exists.
pub open spec fn part_u64(parts: Seq<Seq<char>>, i: int) -> Read<u64> {
    if i >= parts.len() {
        Read::Panic
    } else {
        match parse_u64(parts[i]) {
            Ok(v) => Read::Value(v),
            Err(e) => Read::Fail(KTextErrorOf::BadNumber { error: e }),
        }
    }
}

/// The inputs and outputs that a gate line announces must be `ni` and `no`.
pub open spec fn arity_ok(parts: Seq<Seq<char>>, kind: KGateKind, ni: u64, no: u64) -> Read<()> {
    match part_u64(parts, 0) {
        Read::Value(i) => match part_u64(parts, 1) {
            Read::Value(o) => if i != ni || o != no {
                Read::Fail(KTextErrorOf::InvalidArity { kind })
            } else {
                Read::Value(())
            },
            Read::Fail(e) => Read::Fail(e),
            Read::Panic => Read::Panic,
        },
        Read::Fail(e) => Read::Fail(e),
        Read::Panic => Read::Panic,
    }
}

/// A gate over wires `parts[2]` and `parts[3]`, written to `parts[4]`.
pub open spec fn binary_gate(parts: Seq<Seq<char>>, kind: KGateKind) -> Read<KGate> {
    match arity_ok(parts, kind, 2, 1) {
        Read::Value(_) => match part_u64(parts, 2) {
            Read::Value(a) => match part_u64(parts, 3) {
                Read::Value(b) => match part_u64(parts, 4) {
                    Read::Value(out) => Read::Value(
                        if kind == KGateKind::Xor {
                            KGate::Xor { a, b, out }
                        } else {
                            KGate::And { a, b, out }
                        },
                    ),
                    Read::Fail(e) => Read::Fail(e),
                    Read::Panic => Read::Panic,
                },
                Read::Fail(e) => Read::Fail(e),
                Read::Panic => Read::Panic,
            },
            Read::Fail(e) => Read::Fail(e),
            Read::Panic => Read::Panic,
        },
        Read::Fail(e) => Read::Fail(e),
        Read::Panic => Read::Panic,
    }
}

/// A gate over wire `parts[2]`, written to `parts[3]`.
pub open spec fn unary_gate(parts: Seq<Seq<char>>, kind: KGateKind) -> Read<KGate> {
    match arity_ok(parts, kind, 1, 1) {
        Read::Value(_) => if kind == KGateKind::Eq {
            if 2 >= parts.len() {
                Read::Panic
            } else {
                match parse_uint(parts[2], 255) {
                    Err(e) => Read::Fail(KTextErrorOf::BadNumber { error: e }),
                    Ok(v) => match part_u64(parts, 3) {
                        Read::Value(out) => Read::Value(KGate::Eq { lit: v == 1, out }),
                        Read::Fail(e) => Read::Fail(e),
                        Read::Panic => Read::Panic,
                    },
                }
            }
        } else {
            match part_u64(parts, 2) {
                Read::Value(a) => match part_u64(parts, 3) {
                    Read::Value(out) => Read::Value(
                        if kind == KGateKind::Inv {
                            KGate::Inv { a, out }
                        } else {
                            KGate::Eqw { a, out }
                        },
                    ),
                    Read::Fail(e) => Read::Fail(e),
                    Read::Panic => Read::Panic,
                },
                Read::Fail(e) => Read::Fail(e),
                Read::Panic => Read::Panic,
            }
        },
        Read::Fail(e) => Read::Fail(e),
        Read::Panic => Read::Panic,
    }
}

/// One gate line.
pub open spec fn kgate_line(line: Seq<char>) -> Read<KGate> {
    let parts = tokens(line);
    if parts.len() == 0 {
        Read::Fail(KTextErrorOf::InvalidGateFormat)
    } else {
        let ty = parts.last();
        if ty == seq!['X', 'O', 'R'] {
            binary_gate(parts, KGateKind::Xor)
        } else if ty == seq!['A', 'N', 'D'] {
            binary_gate(parts, KGateKind::And)
        } else if ty == seq!['I', 'N', 'V'] {
            unary_gate(parts, KGateKind::Inv)
        } else if ty == seq!['E', 'Q'] {
            unary_gate(parts, KGateKind::Eq)
        } else if ty == seq!['E', 'Q', 'W'] {
            unary_gate(parts, KGateKind::Eqw)
        } else {
            Read::Fail(KTextErrorOf::UnknownGate { name: ty })
        }
    }
}

/// The first `count` gates, from line 4 (counted from 0) on.
pub open spec fn kgates(ls: Seq<Seq<char>>, count: nat) -> Read<Seq<KGate>>
    decreases count,
{
    if count == 0 {
        Read::Value(Seq::empty())
    } else {
        match kgates(ls, (count - 1) as nat) {
            Read::Value(gs) => if 4 + count - 1 >= ls.len() {
                Read::Fail(KTextErrorOf::NotEnoughGates)
            } else {
                match kgate_line(ls[4 + count - 1]) {
                    Read::Value(g) => Read::Value(gs.push(g)),
                    Read::Fail(e) => Read::Fail(e),
                    Read::Panic => Read::Panic,
                }
            },
            Read::Fail(e) => Read::Fail(e),
            Read::Panic => Read::Panic,
        }
    }
}

/// The gates read, with the sizes read before them.
pub open spec fn with_sizes(ins: Seq<u64>, outs: Seq<u64>, r: Read<Seq<KGate>>) -> Read<
    (Seq<u64>, Seq<u64>, Seq<KGate>),
> {
    match r {
        Read::Value(gs) => Read::Value((ins, outs, gs)),
        Read::Fail(e) => Read::Fail(e),
        Read::Panic => Read::Panic,
    }
}

/// What the reader gives for the text `s`: the input sizes, the output
/// sizes and the gates. The fourth line is skipped, whatever it holds.
pub open spec fn read_kcircuit(s: Seq<char>) -> Read<(Seq<u64>, Seq<u64>, Seq<KGate>)> {
    let ls = text_lines(s);
    if ls.len() == 0 {
        Read::Fail(KTextErrorOf::EmptyFile)
    } else {
        match part_u64(tokens(ls[0]), 0) {
            Read::Value(ngates) => match part_u64(tokens(ls[0]), 1) {
                Read::Value(_) => if ls.len() < 2 {
                    Read::Fail(KTextErrorOf::MissingInputLine)
                } else {
                    match size_line(ls[1]) {
                        Read::Value(ins) => if ls.len() < 3 {
                            Read::Fail(KTextErrorOf::MissingOutputLine)
                        } else {
                            match size_line(ls[2]) {
                                Read::Value(outs) => with_sizes(ins, outs, kgates(ls, ngates as nat)),
                                Read::Fail(e) => Read::Fail(e),
                                Read::Panic => Read::Panic,
                            }
                        },
                        Read::Fail(e) => Read::Fail(e),
                        Read::Panic => Read::Panic,
                    }
                },
                Read::Fail(e) => Read::Fail(e),
                Read::Panic => Read::Panic,
            },
            Read::Fail(e) => Read::Fail(e),
            Read::Panic => Read::Panic,
        }
    }
}

} // verus!

verus! {

// ---------------------------------------------------------------------------
// Reading.

fn part_u64_x(parts: &Vec<Vec<char>>, i: usize) -> (r: Option<Result<u64, KTextError>>)
    ensures
        match part_u64(views(parts@), i as int) {
            Read::Value(v) => r == Some(Ok::<u64, KTextError>(v)),
            Read::Fail(e) => r matches Some(Err(x)) && x@ == e,
            Read::Panic => r is None,
        },
{
    if i >= parts.len() {
        return None;
    }
    assert(parts@[i as int]@ == views(parts@)[i as int]);
    match parse_uint_chars(parts[i].as_slice(), u64::MAX) {
        Ok(v) => Some(Ok(v)),
        Err(e) => Some(Err(KTextErrorOf::BadNumber { error: e })),
    }
}

proof fn lemma_read_sizes_sticky(parts: Seq<Seq<char>>, k: nat, k2: nat)
    requires
        !(read_sizes(parts, k) is Value),
        k <= k2,
    ensures
        read_sizes(parts, k2) == read_sizes(parts, k),
    decreases k2 - k,
{
    if k2 > k {
        lemma_read_sizes_sticky(parts, k, (k2 - 1) as nat);
    }
}

fn read_sizes_x(parts: &Vec<Vec<char>>, count: u64) -> (r: Option<Result<Vec<u64>, KTextError>>)
    ensures
        match read_sizes(views(parts@), count as nat) {
            Read::Value(v) => r matches Some(Ok(x)) && x@ == v,
            Read::Fail(e) => r matches Some(Err(x)) && x@ == e,
            Read::Panic => r is None,
        },
{
    let ghost pv = views(parts@);
    let mut out: Vec<u64> = Vec::new();
    let mut i: u64 = 0;
    while i < count
        invariant
            i <= count,
            pv == views(parts@),
            read_sizes(pv, i as nat) == Read::Value(out@),
        decreases count - i,
    {
        if parts.len() == 0 || i >= parts.len() as u64 - 1 {
            proof {
                lemma_read_sizes_sticky(pv, (i + 1) as nat, count as nat);
            }
            return None;
        }
        let idx: usize = (i + 1) as usize;
        assert(idx == i + 1);
        assert(parts@[idx as int]@ == pv[idx as int]);
        match parse_uint_chars(parts[idx].as_slice(), u64::MAX) {
            Ok(v) => {
                out.push(v);
            },
            Err(e) => {
                proof {
                    lemma_read_sizes_sticky(pv, (i + 1) as nat, count as nat);
                }
                return Some(Err(KTextErrorOf::BadNumber { error: e }));
            },
        }
        i = i + 1;
    }
    Some(Ok(out))
}

fn size_line_x(line: &Vec<char>) -> (r: Option<Result<Vec<u64>, KTextError>>)
    ensures
        match size_line(line@) {
            Read::Value(v) => r matches Some(Ok(x)) && x@ == v,
            Read::Fail(e) => r matches Some(Err(x)) && x@ == e,
            Read::Panic => r is None,
        },
{
    let parts = split_tokens(line.as_slice());
    if parts.len() == 0 {
        return None;
    }
    assert(parts@[0]@ == views(parts@)[0]);
    let n = match parse_uint_chars(parts[0].as_slice(), u64::MAX) {
        Ok(n) => n,
        Err(e) => {
            return Some(Err(KTextErrorOf::BadNumber { error: e }));
        },
    };
    read_sizes_x(&parts, n)
}

fn arity_ok_x(parts: &Vec<Vec<char>>, kind: KGateKind, ni: u64, no: u64) -> (r: Option<
    Result<(), KTextError>,
>)
    ensures
        match arity_ok(views(parts@), kind, ni, no) {
            Read::Value(_) => r == Some(Ok::<(), KTextError>(())),
            Read::Fail(e) => r matches Some(Err(x)) && x@ == e,
            Read::Panic => r is None,
        },
{
    let i = match part_u64_x(parts, 0) {
        Some(Ok(v)) => v,
        Some(Err(e)) => {
            return Some(Err(e));
        },
        None => {
            return None;
        },
    };
    let o = match part_u64_x(parts, 1) {
        Some(Ok(v)) => v,
        Some(Err(e)) => {
            return Some(Err(e));
        },
        None => {
            return None;
        },
    };
    if i != ni || o != no {
        return Some(Err(KTextErrorOf::InvalidArity { kind }));
    }
    Some(Ok(()))
}

fn binary_gate_x(parts: &Vec<Vec<char>>, kind: KGateKind) -> (r: Option<Result<KGate, KTextError>>)
    ensures
        match binary_gate(views(parts@), kind) {
            Read::Value(g) => r == Some(Ok::<KGate, KTextError>(g)),
            Read::Fail(e) => r matches Some(Err(x)) && x@ == e,
            Read::Panic => r is None,
        },
{
    match arity_ok_x(parts, kind, 2, 1) {
        Some(Ok(_)) => {},
        Some(Err(e)) => {
            return Some(Err(e));
        },
        None => {
            return None;
        },
    }
    let a = match part_u64_x(parts, 2) {
        Some(Ok(v)) => v,
        Some(Err(e)) => {
            return Some(Err(e));
        },
        None => {
            return None;
        },
    };
    let b = match part_u64_x(parts, 3) {
        Some(Ok(v)) => v,
        Some(Err(e)) => {
            return Some(Err(e));
        },
        None => {
            return None;
        },
    };
    let out = match part_u64_x(parts, 4) {
        Some(Ok(v)) => v,
        Some(Err(e)) => {
            return Some(Err(e));
        },
        None => {
            return None;
        },
    };
    Some(
        Ok(
            if kind == KGateKind::Xor {
                KGate::Xor { a, b, out }
            } else {
                KGate::And { a, b, out }
            },
        ),
    )
}

fn unary_gate_x(parts: &Vec<Vec<char>>, kind: KGateKind) -> (r: Option<Result<KGate, KTextError>>)
    ensures
        match unary_gate(views(parts@), kind) {
            Read::Value(g) => r == Some(Ok::<KGate, KTextError>(g)),
            Read::Fail(e) => r matches Some(Err(x)) && x@ == e,
            Read::Panic => r is None,
        },
{
    match arity_ok_x(parts, kind, 1, 1) {
        Some(Ok(_)) => {},
        Some(Err(e)) => {
            return Some(Err(e));
        },
        None => {
            return None;
        },
    }
    if kind == KGateKind::Eq {
        if 2 >= parts.len() {
            return None;
        }
        assert(parts@[2]@ == views(parts@)[2]);
        let v = match parse_uint_chars(parts[2].as_slice(), 255) {
            Ok(v) => v,
            Err(e) => {
                return Some(Err(KTextErrorOf::BadNumber { error: e }));
            },
        };
        let out = match part_u64_x(parts, 3) {
            Some(Ok(v)) => v,
            Some(Err(e)) => {
                return Some(Err(e));
            },
            None => {
                return None;
            },
        };
        return Some(Ok(KGate::Eq { lit: v == 1, out }));
    }
    let a = match part_u64_x(parts, 2) {
        Some(Ok(v)) => v,
        Some(Err(e)) => {
            return Some(Err(e));
        },
        None => {
            return None;
        },
    };
    let out = match part_u64_x(parts, 3) {
        Some(Ok(v)) => v,
        Some(Err(e)) => {
            return Some(Err(e));
        },
        None => {
            return None;
        },
    };
    Some(
        Ok(
            if kind == KGateKind::Inv {
                KGate::Inv { a, out }
            } else {
                KGate::Eqw { a, out }
            },
        ),
    )
}

fn is_word2(t: &Vec<char>, a: char, b: char) -> (r: bool)
    ensures
        r == (t@ == seq![a, b]),
{
    let r = t.len() == 2 && t[0] == a && t[1] == b;
    if r {
        assert(t@ =~= seq![a, b]);
    }
    r
}

fn string_of(s: &[char]) -> (r: String)
    ensures
        r@ == s@,
{
    let mut r = String::new();
    push_chars(&mut r, s);
    r
}

fn kgate_line_x(line: &Vec<char>) -> (r: Option<Result<KGate, KTextError>>)
    ensures
        match kgate_line(line@) {
            Read::Value(g) => r == Some(Ok::<KGate, KTextError>(g)),
            Read::Fail(e) => r matches Some(Err(x)) && x@ == e,
            Read::Panic => r is None,
        },
{
    let parts = split_tokens(line.as_slice());
    let n = parts.len();
    if n == 0 {
        return Some(Err(KTextErrorOf::InvalidGateFormat));
    }
    let ty = &parts[n - 1];
    assert(ty@ == views(parts@).last());
    if is_word3(ty, 'X', 'O', 'R') {
        binary_gate_x(&parts, KGateKind::Xor)
    } else if is_word3(ty, 'A', 'N', 'D') {
        binary_gate_x(&parts, KGateKind::And)
    } else if is_word3(ty, 'I', 'N', 'V') {
        unary_gate_x(&parts, KGateKind::Inv)
    } else if is_word2(ty, 'E', 'Q') {
        unary_gate_x(&parts, KGateKind::Eq)
    } else if is_word3(ty, 'E', 'Q', 'W') {
        unary_gate_x(&parts, KGateKind::Eqw)
    } else {
        Some(Err(KTextErrorOf::UnknownGate { name: string_of(ty.as_slice()) }))
    }
}

proof fn lemma_kgates_sticky(ls: Seq<Seq<char>>, k: nat, k2: nat)
    requires
        !(kgates(ls, k) is Value),
        k <= k2,
    ensures
        kgates(ls, k2) == kgates(ls, k),
    decreases k2 - k,
{
    if k2 > k {
        lemma_kgates_sticky(ls, k, (k2 - 1) as nat);
    }
}

/// Reads a circuit text in the first version of the Bristol format: the
/// input sizes, the output sizes and the gates; `None` where the reader
/// runs off the end of a line.
pub fn parse_bristol_circuit_checked(text: &str) -> (r: Option<
    Result<(Vec<u64>, Vec<u64>, Vec<KGate>), KTextError>,
>)
    ensures
        match read_kcircuit(text@) {
            Read::Value((ins, outs, gs)) => r matches Some(Ok((a, b, c))) && a@ == ins && b@ == outs
                && c@ == gs,
            Read::Fail(e) => r matches Some(Err(x)) && x@ == e,
            Read::Panic => r is None,
        },
{
    let chars = chars_of(text);
    let lines = split_lines(chars.as_slice());
    let ghost ls = text_lines(text@);
    assert(views(lines@) == ls);
    let nl = lines.len();
    if nl == 0 {
        return Some(Err(KTextErrorOf::EmptyFile));
    }
    assert(lines@[0]@ == ls[0]);
    let header = split_tokens(lines[0].as_slice());
    let ngates = match part_u64_x(&header, 0) {
        Some(Ok(v)) => v,
        Some(Err(e)) => {
            return Some(Err(e));
        },
        None => {
            return None;
        },
    };
    match part_u64_x(&header, 1) {
        Some(Ok(_)) => {},
        Some(Err(e)) => {
            return Some(Err(e));
        },
        None => {
            return None;
        },
    }
    if nl < 2 {
        return Some(Err(KTextErrorOf::MissingInputLine));
    }
    assert(lines@[1]@ == ls[1]);
    let input_sizes = match size_line_x(&lines[1]) {
        Some(Ok(v)) => v,
        Some(Err(e)) => {
            return Some(Err(e));
        },
        None => {
            return None;
        },
    };
    if nl < 3 {
        return Some(Err(KTextErrorOf::MissingOutputLine));
    }
    assert(lines@[2]@ == ls[2]);
    let output_sizes = match size_line_x(&lines[2]) {
        Some(Ok(v)) => v,
        Some(Err(e)) => {
            return Some(Err(e));
        },
        None => {
            return None;
        },
    };
    let mut gates: Vec<KGate> = Vec::new();
    let mut g: u64 = 0;
    assert(read_kcircuit(text@) == with_sizes(input_sizes@, output_sizes@, kgates(ls, ngates as nat)));
    while g < ngates
        invariant
            g <= ngates,
            nl == ls.len(),
            views(lines@) == ls,
            kgates(ls, g as nat) == Read::Value(gates@),
            read_kcircuit(text@) == with_sizes(input_sizes@, output_sizes@, kgates(ls, ngates as nat)),
        decreases ngates - g,
    {
        if g >= nl as u64 || 4 + g >= nl as u64 {
            proof {
                lemma_kgates_sticky(ls, (g + 1) as nat, ngates as nat);
            }
            return Some(Err(KTextErrorOf::NotEnoughGates));
        }
        let idx: usize = (4 + g) as usize;
        assert(lines@[idx as int]@ == ls[idx as int]);
        match kgate_line_x(&lines[idx]) {
            Some(Ok(gate)) => {
                gates.push(gate);
            },
            Some(Err(e)) => {
                proof {
                    lemma_kgates_sticky(ls, (g + 1) as nat, ngates as nat);
                }
                return Some(Err(e));
            },
            None => {
                proof {
                    lemma_kgates_sticky(ls, (g + 1) as nat, ngates as nat);
                }
                return None;
            },
        }
        g = g + 1;
    }
    Some(Ok((input_sizes, output_sizes, gates)))
}

/// Reads a circuit text in the first version of the Bristol format: the
/// input sizes, the output sizes and the gates.
pub fn parse_bristol_circuit(text: &str) -> (r: Result<(Vec<u64>, Vec<u64>, Vec<KGate>), KTextError>)
    requires
        !(read_kcircuit(text@) is Panic),
    ensures
        match read_kcircuit(text@) {
            Read::Value((ins, outs, gs)) => r matches Ok((a, b, c)) && a@ == ins && b@ == outs && c@ == gs,
            Read::Fail(e) => r matches Err(x) && x@ == e,
            Read::Panic => false,
        },
{
    parse_bristol_circuit_checked(text).unwrap()
}

} // verus!

verus! {

// ---------------------------------------------------------------------------
// Writing.

/// The sum of `s`.
pub open spec fn sum_u64(s: Seq<u64>) -> nat
    decreases s.len(),
{
    if s.len() == 0 {
        0
    } else {
        sum_u64(s.drop_last()) + s.last() as nat
    }
}

/// `$w` for a wire `w`.
pub open spec fn kwire(w: u64) -> Seq<char> {
    seq!['$'] + decimal(w as nat)
}

/// The line of one gate.
pub open spec fn kgate_text(g: KGate) -> Seq<char> {
    match g {
        KGate::Xor { a, b, out } => "        "@ + kwire(out) + " <- @add("@ + kwire(a) + ","@ + kwire(b)
            + "); // XOR\n"@,
        KGate::And { a, b, out } => "        "@ + kwire(out) + " <- @mul("@ + kwire(a) + ","@ + kwire(b)
            + "); // AND\n"@,
        KGate::Inv { a, out } => "        "@ + kwire(out) + " <- @addc("@ + kwire(a) + ",$<1>); // INV\n"@,
        KGate::Eq { lit, out } => {
            let v = if lit {
                "1"@
            } else {
                "0"@
            };
            "        "@ + kwire(out) + " <- 0:<"@ + v + ">; // Constant "@ + v + "\n"@
        },
        KGate::Eqw { a, out } => "        "@ + kwire(out) + " <- "@ + kwire(a) + "; // Copy\n"@,
    }
}

/// The lines of the gates `gs`.
pub open spec fn kgates_text(gs: Seq<KGate>) -> Seq<char>
    decreases gs.len(),
{
    if gs.len() == 0 {
        Seq::empty()
    } else {
        kgates_text(gs.drop_last()) + kgate_text(gs.last())
    }
}

/// The line that copies output wire `i` to the function output `i`.
pub open spec fn output_line(i: u64) -> Seq<char> {
    "        "@ + kwire(i) + " <- "@ + kwire(i) + ";\n"@
}

/// The lines for the outputs `0..n`.
pub open spec fn output_lines(n: nat) -> Seq<char>
    decreases n,
{
    if n == 0 {
        Seq::empty()
    } else {
        output_lines((n - 1) as nat) + output_line((n - 1) as u64)
    }
}

/// The SIEVE IR text of the circuit: one function `keccak_f` with all
/// outputs and all inputs, one line per gate, one line per output.
pub open spec fn ksieve_text(ins: Seq<u64>, outs: Seq<u64>, gs: Seq<KGate>) -> Seq<char> {
    "version 2.0.0;\n"@ + "circuit;\n"@ + "@type field 2;\n"@ + "@begin\n"@ + "    @function(keccak_f, @out: 0:"@
        + decimal(sum_u64(outs)) + ", @in: 0:"@ + decimal(sum_u64(ins)) + ")\n"@ + kgates_text(gs)
        + output_lines(sum_u64(outs)) + "    @end\n"@ + "@end\n"@
}

proof fn lemma_sum_prefix(s: Seq<u64>, k: int)
    requires
        0 <= k < s.len(),
    ensures
        sum_u64(s.take(k + 1)) == sum_u64(s.take(k)) + s[k],
        sum_u64(s.take(k + 1)) <= sum_u64(s),
    decreases s.len(),
{
    assert(s.take(k + 1).drop_last() =~= s.take(k));
    if k + 1 < s.len() {
        lemma_sum_prefix(s.drop_last(), k);
        assert(s.drop_last().take(k + 1) =~= s.take(k + 1));
        assert(s.drop_last().take(k) =~= s.take(k));
        lemma_sum_prefix_le(s.drop_last(), k + 1);
    } else {
        assert(s.take(k + 1) =~= s);
    }
}

proof fn lemma_sum_prefix_le(s: Seq<u64>, k: int)
    requires
        0 <= k <= s.len(),
    ensures
        sum_u64(s.take(k)) <= sum_u64(s),
    decreases s.len() - k,
{
    if k < s.len() {
        lemma_sum_prefix_le(s, k + 1);
        assert(s.take(k + 1).drop_last() =~= s.take(k));
    } else {
        assert(s.take(k) =~= s);
    }
}

/// The sum of `s`; `None` where it does not fit in a `u64`.
fn checked_sum_u64(s: &[u64]) -> (r: Option<u64>)
    ensures
        match r {
            Some(v) => v == sum_u64(s@),
            None => sum_u64(s@) > u64::MAX,
        },
{
    let mut t: u64 = 0;
    let mut k: usize = 0;
    assert(s@.take(0) =~= Seq::<u64>::empty());
    while k < s.len()
        invariant
            k <= s@.len(),
            t == sum_u64(s@.take(k as int)),
        decreases s.len() - k,
    {
        proof {
            lemma_sum_prefix(s@, k as int);
        }
        if s[k] > u64::MAX - t {
            return None;
        }
        t = t + s[k];
        k = k + 1;
    }
    assert(s@.take(s@.len() as int) =~= s@);
    Some(t)
}

fn push_kwire(out: &mut String, w: u64)
    ensures
        final(out)@ == old(out)@ + kwire(w),
{
    let ghost start = out@;
    out.append("$");
    proof {
        reveal_strlit("$");
    }
    push_decimal_u64(out, w);
    assert(out@ =~= start + kwire(w));
}

fn push_kgate(out: &mut String, g: &KGate)
    ensures
        final(out)@ == old(out)@ + kgate_text(*g),
{
    let ghost start = out@;
    match *g {
        KGate::Xor { a, b, out: o } => {
            out.append("        ");
            push_kwire(out, o);
            out.append(" <- @add(");
            push_kwire(out, a);
            out.append(",");
            push_kwire(out, b);
            out.append("); // XOR\n");
        },
        KGate::And { a, b, out: o } => {
            out.append("        ");
            push_kwire(out, o);
            out.append(" <- @mul(");
            push_kwire(out, a);
            out.append(",");
            push_kwire(out, b);
            out.append("); // AND\n");
        },
        KGate::Inv { a, out: o } => {
            out.append("        ");
            push_kwire(out, o);
            out.append(" <- @addc(");
            push_kwire(out, a);
            out.append(",$<1>); // INV\n");
        },
        KGate::Eq { lit, out: o } => {
            out.append("        ");
            push_kwire(out, o);
            out.append(" <- 0:<");
            if lit {
                out.append("1");
            } else {
                out.append("0");
            }
            out.append(">; // Constant ");
            if lit {
                out.append("1");
            } else {
                out.append("0");
            }
            out.append("\n");
        },
        KGate::Eqw { a, out: o } => {
            out.append("        ");
            push_kwire(out, o);
            out.append(" <- ");
            push_kwire(out, a);
            out.append("; // Copy\n");
        },
    }
    assert(out@ =~= start + kgate_text(*g));
}

/// Writes the circuit as SIEVE IR text: one function `keccak_f` whose
/// outputs and inputs are all the output and input wires, one line per
/// gate, then one line per output.
pub fn convert_to_sieve_ir(input_sizes: &[u64], output_sizes: &[u64], gates: &[KGate]) -> (r: String)
    requires
        sum_u64(input_sizes@) <= u64::MAX,
        sum_u64(output_sizes@) <= u64::MAX,
    ensures
        r@ == ksieve_text(input_sizes@, output_sizes@, gates@),
{
    let total_in = checked_sum_u64(input_sizes).unwrap();
    let total_out = checked_sum_u64(output_sizes).unwrap();
    let mut out = String::new();
    out.append("version 2.0.0;\n");
    out.append("circuit;\n");
    out.append("@type field 2;\n");
    out.append("@begin\n");
    out.append("    @function(keccak_f, @out: 0:");
    push_decimal_u64(&mut out, total_out);
    out.append(", @in: 0:");
    push_decimal_u64(&mut out, total_in);
    out.append(")\n");
    let ghost head = out@;
    let mut k: usize = 0;
    assert(gates@.take(0) =~= Seq::<KGate>::empty());
    assert(out@ =~= head + kgates_text(gates@.take(0)));
    while k < gates.len()
        invariant
            k <= gates@.len(),
            out@ == head + kgates_text(gates@.take(k as int)),
        decreases gates.len() - k,
    {
        push_kgate(&mut out, &gates[k]);
        k = k + 1;
        assert(gates@.take(k as int).drop_last() =~= gates@.take(k - 1));
        assert(out@ =~= head + kgates_text(gates@.take(k as int)));
    }
    assert(gates@.take(gates@.len() as int) =~= gates@);
    let ghost mid = out@;
    let mut i: u64 = 0;
    assert(out@ =~= mid + output_lines(0));
    while i < total_out
        invariant
            i <= total_out,
            out@ == mid + output_lines(i as nat),
        decreases total_out - i,
    {
        let ghost before = out@;
        out.append("        ");
        push_kwire(&mut out, i);
        out.append(" <- ");
        push_kwire(&mut out, i);
        out.append(";\n");
        assert(out@ =~= before + output_line(i));
        i = i + 1;
        assert(out@ =~= mid + output_lines(i as nat));
    }
    out.append("    @end\n");
    out.append("@end\n");
    assert(out@ =~= ksieve_text(input_sizes@, output_sizes@, gates@));
    out
}

/// Writes the circuit as SIEVE IR text; `None` where a sum of sizes does
/// not fit in a `u64`.
pub fn convert_to_sieve_ir_checked(input_sizes: &[u64], output_sizes: &[u64], gates: &[KGate]) -> (r:
    Option<String>)
    ensures
        match r {
            Some(t) => sum_u64(input_sizes@) <= u64::MAX && sum_u64(output_sizes@) <= u64::MAX && t@
                == ksieve_text(input_sizes@, output_sizes@, gates@),
            None => sum_u64(input_sizes@) > u64::MAX || sum_u64(output_sizes@) > u64::MAX,
        },
{
    if checked_sum_u64(input_sizes).is_none() || checked_sum_u64(output_sizes).is_none() {
        return None;
    }
    Some(convert_to_sieve_ir(input_sizes, output_sizes, gates))
}

} // verus!

verus! {

// ---------------------------------------------------------------------------
// What a gate line says.

/// A gate line `2 1 a b o XOR` (or `AND`) reads as a gate over wires `a`
/// and `b`, in that order, written to wire `o`.
pub proof fn law_binary_gate_line(line: Seq<char>, a: u64, b: u64, o: u64)
    requires
        tokens(line).len() >= 5,
        parse_u64(tokens(line)[0]) == Ok::<u64, NumError>(2),
        parse_u64(tokens(line)[1]) == Ok::<u64, NumError>(1),
        parse_u64(tokens(line)[2]) == Ok::<u64, NumError>(a),
        parse_u64(tokens(line)[3]) == Ok::<u64, NumError>(b),
        parse_u64(tokens(line)[4]) == Ok::<u64, NumError>(o),
    ensures
        tokens(line).last() == seq!['X', 'O', 'R'] ==> kgate_line(line) == Read::Value(
            KGate::Xor { a, b, out: o },
        ),
        tokens(line).last() == seq!['A', 'N', 'D'] ==> kgate_line(line) == Read::Value(
            KGate::And { a, b, out: o },
        ),
{
}

/// A gate line `1 1 a o INV` (or `EQW`) reads as a gate over wire `a`,
/// written to wire `o`.
pub proof fn law_unary_gate_line(line: Seq<char>, a: u64, o: u64)
    requires
        tokens(line).len() >= 4,
        parse_u64(tokens(line)[0]) == Ok::<u64, NumError>(1),
        parse_u64(tokens(line)[1]) == Ok::<u64, NumError>(1),
        parse_u64(tokens(line)[2]) == Ok::<u64, NumError>(a),
        parse_u64(tokens(line)[3]) == Ok::<u64, NumError>(o),
    ensures
        tokens(line).last() == seq!['I', 'N', 'V'] ==> kgate_line(line) == Read::Value(
            KGate::Inv { a, out: o },
        ),
        tokens(line).last() == seq!['E', 'Q', 'W'] ==> kgate_line(line) == Read::Value(
            KGate::Eqw { a, out: o },
        ),
{
}

/// A gate line `1 1 b o EQ` whose literal `b` is a byte sets wire `o` to the
/// constant `b`: one where `b` is 1, zero otherwise (the literal 0 in
/// particular gives zero).
pub proof fn law_eq_gate_line(line: Seq<char>, b: nat, o: u64)
    requires
        tokens(line).len() >= 4,
        tokens(line).last() == seq!['E', 'Q'],
        parse_u64(tokens(line)[0]) == Ok::<u64, NumError>(1),
        parse_u64(tokens(line)[1]) == Ok::<u64, NumError>(1),
        parse_uint(tokens(line)[2], 255) == Ok::<nat, NumError>(b),
        parse_u64(tokens(line)[3]) == Ok::<u64, NumError>(o),
    ensures
        kgate_line(line) == Read::Value(KGate::Eq { lit: b == 1, out: o }),
        b == 0 ==> kgate_line(line) == Read::Value(KGate::Eq { lit: false, out: o }),
{
}

/// Gate `k` of a circuit that the reader accepts is what line `4 + k` of
/// the text says.
pub proof fn law_gates_are_their_lines(s: Seq<char>)
    ensures
        read_kcircuit(s) matches Read::Value((ins, outs, gs)) ==> forall|k: int|
            0 <= k < gs.len() ==> 4 + k < text_lines(s).len() && kgate_line(#[trigger] text_lines(s)[4 + k])
                == Read::Value(gs[k]),
{
    let ls = text_lines(s);
    if ls.len() > 0 {
        if let Read::Value(ngates) = part_u64(tokens(ls[0]), 0) {
            lemma_kgates_lines(ls, ngates as nat);
        }
    }
}

proof fn lemma_kgates_lines(ls: Seq<Seq<char>>, count: nat)
    ensures
        kgates(ls, count) matches Read::Value(gs) ==> gs.len() == count && forall|k: int|
            0 <= k < gs.len() ==> 4 + k < ls.len() && kgate_line(#[trigger] ls[4 + k]) == Read::Value(gs[k]),
    decreases count,
{
    if count > 0 {
        lemma_kgates_lines(ls, (count - 1) as nat);
    }
}

} // verus!
