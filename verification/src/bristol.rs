//! Bristol Fashion circuits and their text format.
//!
//! A Bristol Fashion file starts with three header lines (gate and wire
//! counts, input groups, output groups) followed by one gate per line:
//! `<num_inputs> <num_outputs> <input wires...> <output wire> <XOR|AND|INV>`.

use vstd::prelude::*;

use crate::text::{
    chars_blank, chars_of, is_blank, is_ws, parse_usize, parse_usize_chars, push_chars, split_lines,
    split_tokens, text_lines, tokens, views, NumError,
};

verus! {

/// A gate of a Bristol Fashion circuit.
#[derive(Clone, Debug, PartialEq, Eq)]
pub enum BristolGate {
    /// XOR gate with two inputs and one output
    Xor { inputs: Vec<usize>, output: usize },
    /// AND gate with two inputs and one output
    And { inputs: Vec<usize>, output: usize },
    /// INV gate with one input and one output
    Inv { input: usize, output: usize },
}

/// The mathematical content of a [`BristolGate`].
pub enum GateSpec {
    Xor { inputs: Seq<usize>, output: usize },
    And { inputs: Seq<usize>, output: usize },
    Inv { input: usize, output: usize },
}

impl View for BristolGate {
    type V = GateSpec;

    open spec fn view(&self) -> GateSpec {
        match self {
            BristolGate::Xor { inputs, output } => GateSpec::Xor { inputs: inputs@, output: *output },
            BristolGate::And { inputs, output } => GateSpec::And { inputs: inputs@, output: *output },
            BristolGate::Inv { input, output } => GateSpec::Inv { input: *input, output: *output },
        }
    }
}

impl GateSpec {
    /// The wire that this gate writes.
    pub open spec fn output(self) -> usize {
        match self {
            GateSpec::Xor { output, .. } => output,
            GateSpec::And { output, .. } => output,
            GateSpec::Inv { output, .. } => output,
        }
    }
}

/// A circuit in Bristol Fashion format.
#[derive(Clone, Debug, PartialEq, Eq)]
pub struct BristolCircuit {
    /// Number of gates in the circuit
    pub num_gates: usize,
    /// Number of wires in the circuit
    pub num_wires: usize,
    /// Number of input groups
    pub num_input_groups: usize,
    /// Number of wires in each input group
    pub input_group_sizes: Vec<usize>,
    /// Number of output groups
    pub num_output_groups: usize,
    /// Number of wires in each output group
    pub output_group_sizes: Vec<usize>,
    /// Gates in the circuit
    pub gates: Vec<BristolGate>,
    /// Input wire indices
    pub input_wires: Vec<usize>,
    /// Output wire indices
    pub output_wires: Vec<usize>,
}

/// The mathematical content of a [`BristolCircuit`].
pub struct CircuitSpec {
    pub num_gates: usize,
    pub num_wires: usize,
    pub num_input_groups: usize,
    pub input_group_sizes: Seq<usize>,
    pub num_output_groups: usize,
    pub output_group_sizes: Seq<usize>,
    pub gates: Seq<GateSpec>,
    pub input_wires: Seq<usize>,
    pub output_wires: Seq<usize>,
}

impl View for BristolCircuit {
    type V = CircuitSpec;

    open spec fn view(&self) -> CircuitSpec {
        CircuitSpec {
            num_gates: self.num_gates,
            num_wires: self.num_wires,
            num_input_groups: self.num_input_groups,
            input_group_sizes: self.input_group_sizes@,
            num_output_groups: self.num_output_groups,
            output_group_sizes: self.output_group_sizes@,
            gates: self.gates@.map_values(|g: BristolGate| g@),
            input_wires: self.input_wires@,
            output_wires: self.output_wires@,
        }
    }
}

/// The kind of a gate, as named on its line.
#[derive(Clone, Copy, Debug, PartialEq, Eq, Structural)]
pub enum GateKind {
    Xor,
    And,
    Inv,
}

/// Why a Bristol Fashion text was refused; `S` is the type of the quoted text.
#[derive(Clone, Debug, PartialEq, Eq)]
pub enum BristolErrorOf<S> {
    /// The text has no line.
    EmptyCircuit,
    /// The first line does not hold exactly two values.
    HeaderFieldCount { found: usize },
    /// The number of gates is not a number.
    BadNumGates { error: NumError },
    /// The number of wires is not a number.
    BadNumWires { error: NumError },
    /// There is no second line.
    MissingInputInfo,
    /// The input line holds fewer than two values.
    InputFieldCount { found: usize },
    /// The number of input groups is not a number.
    BadNumInputGroups { error: NumError },
    /// The input line does not hold one size per input group.
    InputGroupCountMismatch { expected: usize, found: usize },
    /// The size of input group `index` is not a number.
    BadInputGroupSize { index: usize, error: NumError },
    /// There is no third line.
    MissingOutputInfo,
    /// The output line holds fewer than two values.
    OutputFieldCount { found: usize },
    /// The number of output groups is not a number.
    BadNumOutputGroups { error: NumError },
    /// The output line does not hold one size per output group.
    OutputGroupCountMismatch { expected: usize, found: usize },
    /// The size of output group `index` is not a number.
    BadOutputGroupSize { index: usize, error: NumError },
    /// Gate line `line` (counted from 1) has fewer than four values.
    GateLineTooShort { line: usize, text: S },
    /// The number of inputs on gate line `line` is not a number.
    BadGateInputCount { line: usize, error: NumError },
    /// The number of outputs on gate line `line` is not a number.
    BadGateOutputCount { line: usize, error: NumError },
    /// Gate line `line` does not hold as many values as its counts announce.
    GateFieldCount { line: usize, expected: usize, found: usize },
    /// Input wire `index` on gate line `line` is not a number.
    BadGateInputWire { line: usize, index: usize, error: NumError },
    /// Gate line `line` announces a number of outputs other than one.
    MultipleOutputs { line: usize, found: usize },
    /// The output wire on gate line `line` is not a number.
    BadGateOutputWire { line: usize, error: NumError },
    /// A gate of kind `kind` on line `line` has the wrong number of inputs.
    GateArity { line: usize, kind: GateKind, found: usize },
    /// Gate line `line` names a gate type other than XOR, AND and INV.
    UnsupportedGate { line: usize, name: S },
    /// The number of gate lines differs from the header's number of gates.
    GateCountMismatch { expected: usize, found: usize },
}

/// Errors of the Bristol Fashion parser.
pub type BristolError = BristolErrorOf<String>;

/// Errors of the parser as they stand in contracts.
pub type BristolErrorSpec = BristolErrorOf<Seq<char>>;

impl View for BristolErrorOf<String> {
    type V = BristolErrorSpec;

    open spec fn view(&self) -> BristolErrorSpec {
        match self {
            BristolErrorOf::EmptyCircuit => BristolErrorOf::EmptyCircuit,
            BristolErrorOf::HeaderFieldCount { found } => BristolErrorOf::HeaderFieldCount {
                found: *found,
            },
            BristolErrorOf::BadNumGates { error } => BristolErrorOf::BadNumGates { error: *error },
            BristolErrorOf::BadNumWires { error } => BristolErrorOf::BadNumWires { error: *error },
            BristolErrorOf::MissingInputInfo => BristolErrorOf::MissingInputInfo,
            BristolErrorOf::InputFieldCount { found } => BristolErrorOf::InputFieldCount {
                found: *found,
            },
            BristolErrorOf::BadNumInputGroups { error } => BristolErrorOf::BadNumInputGroups {
                error: *error,
            },
            BristolErrorOf::InputGroupCountMismatch {
                expected,
                found,
            } => BristolErrorOf::InputGroupCountMismatch { expected: *expected, found: *found },
            BristolErrorOf::BadInputGroupSize { index, error } => BristolErrorOf::BadInputGroupSize {
                index: *index,
                error: *error,
            },
            BristolErrorOf::MissingOutputInfo => BristolErrorOf::MissingOutputInfo,
            BristolErrorOf::OutputFieldCount { found } => BristolErrorOf::OutputFieldCount {
                found: *found,
            },
            BristolErrorOf::BadNumOutputGroups { error } => BristolErrorOf::BadNumOutputGroups {
                error: *error,
            },
            BristolErrorOf::OutputGroupCountMismatch {
                expected,
                found,
            } => BristolErrorOf::OutputGroupCountMismatch { expected: *expected, found: *found },
            BristolErrorOf::BadOutputGroupSize {
                index,
                error,
            } => BristolErrorOf::BadOutputGroupSize { index: *index, error: *error },
            BristolErrorOf::GateLineTooShort { line, text } => BristolErrorOf::GateLineTooShort {
                line: *line,
                text: text@,
            },
            BristolErrorOf::BadGateInputCount { line, error } => BristolErrorOf::BadGateInputCount {
                line: *line,
                error: *error,
            },
            BristolErrorOf::BadGateOutputCount {
                line,
                error,
            } => BristolErrorOf::BadGateOutputCount { line: *line, error: *error },
            BristolErrorOf::GateFieldCount { line, expected, found } => BristolErrorOf::GateFieldCount {
                line: *line,
                expected: *expected,
                found: *found,
            },
            BristolErrorOf::BadGateInputWire {
                line,
                index,
                error,
            } => BristolErrorOf::BadGateInputWire { line: *line, index: *index, error: *error },
            BristolErrorOf::MultipleOutputs { line, found } => BristolErrorOf::MultipleOutputs {
                line: *line,
                found: *found,
            },
            BristolErrorOf::BadGateOutputWire { line, error } => BristolErrorOf::BadGateOutputWire {
                line: *line,
                error: *error,
            },
            BristolErrorOf::GateArity { line, kind, found } => BristolErrorOf::GateArity {
                line: *line,
                kind: *kind,
                found: *found,
            },
            BristolErrorOf::UnsupportedGate { line, name } => BristolErrorOf::UnsupportedGate {
                line: *line,
                name: name@,
            },
            BristolErrorOf::GateCountMismatch { expected, found } => BristolErrorOf::GateCountMismatch {
                expected: *expected,
                found: *found,
            },
        }
    }
}

/// What reading a piece of text gives: a value, a refusal, or (on inputs whose
/// counts overflow the machine's integers) no answer at all.
pub enum Outcome<T> {
    Value(T),
    Fail(BristolErrorSpec),
    Panic,
}

// ---------------------------------------------------------------------------
// The format, stated over character sequences.

/// Reads each of `parts` as a number; the first one that fails gives its
/// position and the reason.
pub open spec fn parse_all(parts: Seq<Seq<char>>) -> Result<Seq<usize>, (int, NumError)>
    decreases parts.len(),
{
    if parts.len() == 0 {
        Ok(Seq::empty())
    } else {
        match parse_all(parts.drop_last()) {
            Err(x) => Err(x),
            Ok(vs) => match parse_usize(parts.last()) {
                Ok(v) => Ok(vs.push(v)),
                Err(e) => Err((parts.len() - 1, e)),
            },
        }
    }
}

/// The sum of `s`.
pub open spec fn seq_sum(s: Seq<usize>) -> nat
    decreases s.len(),
{
    if s.len() == 0 {
        0
    } else {
        seq_sum(s.drop_last()) + s.last() as nat
    }
}

/// Reads an input line (`is_input`) or output line: a number of groups and
/// then one size per group.
pub open spec fn group_line(parts: Seq<Seq<char>>, is_input: bool) -> Outcome<(usize, Seq<usize>)> {
    if parts.len() < 2 {
        Outcome::Fail(
            if is_input {
                BristolErrorOf::InputFieldCount { found: parts.len() as usize }
            } else {
                BristolErrorOf::OutputFieldCount { found: parts.len() as usize }
            },
        )
    } else {
        match parse_usize(parts[0]) {
            Err(e) => Outcome::Fail(
                if is_input {
                    BristolErrorOf::BadNumInputGroups { error: e }
                } else {
                    BristolErrorOf::BadNumOutputGroups { error: e }
                },
            ),
            Ok(n) => if n + 1 > usize::MAX {
                Outcome::Panic
            } else if parts.len() != n + 1 {
                Outcome::Fail(
                    if is_input {
                        BristolErrorOf::InputGroupCountMismatch {
                            expected: n,
                            found: (parts.len() - 1) as usize,
                        }
                    } else {
                        BristolErrorOf::OutputGroupCountMismatch {
                            expected: n,
                            found: (parts.len() - 1) as usize,
                        }
                    },
                )
            } else {
                match parse_all(parts.drop_first()) {
                    Ok(sizes) => Outcome::Value((n, sizes)),
                    Err((k, e)) => Outcome::Fail(
                        if is_input {
                            BristolErrorOf::BadInputGroupSize { index: k as usize, error: e }
                        } else {
                            BristolErrorOf::BadOutputGroupSize { index: k as usize, error: e }
                        },
                    ),
                }
            },
        }
    }
}

/// Reads a gate from line `i` (counted from 0): nothing for a blank line.
pub open spec fn gate_line(i: int, line: Seq<char>) -> Outcome<Option<GateSpec>> {
    let n = (i + 1) as usize;
    let parts = tokens(line);
    if is_blank(line) {
        Outcome::Value(None)
    } else if parts.len() < 4 {
        Outcome::Fail(BristolErrorOf::GateLineTooShort { line: n, text: line })
    } else {
        match parse_usize(parts[0]) {
            Err(e) => Outcome::Fail(BristolErrorOf::BadGateInputCount { line: n, error: e }),
            Ok(ni) => match parse_usize(parts[1]) {
                Err(e) => Outcome::Fail(BristolErrorOf::BadGateOutputCount { line: n, error: e }),
                Ok(no) => if 3 + ni + no > usize::MAX {
                    Outcome::Panic
                } else if parts.len() != 3 + ni + no {
                    Outcome::Fail(
                        BristolErrorOf::GateFieldCount {
                            line: n,
                            expected: (3 + ni + no) as usize,
                            found: parts.len() as usize,
                        },
                    )
                } else {
                    match parse_all(parts.subrange(2, 2 + ni)) {
                        Err((j, e)) => Outcome::Fail(
                            BristolErrorOf::BadGateInputWire { line: n, index: j as usize, error: e },
                        ),
                        Ok(ins) => if no != 1 {
                            Outcome::Fail(BristolErrorOf::MultipleOutputs { line: n, found: no })
                        } else {
                            match parse_usize(parts[2 + ni]) {
                                Err(e) => Outcome::Fail(
                                    BristolErrorOf::BadGateOutputWire { line: n, error: e },
                                ),
                                Ok(out) => gate_of_kind(n, parts.last(), ins, out),
                            }
                        },
                    }
                },
            },
        }
    }
}

/// What a gate line of type `ty` with inputs `ins` and output `out` describes.
pub open spec fn gate_of_kind(n: usize, ty: Seq<char>, ins: Seq<usize>, out: usize) -> Outcome<
    Option<GateSpec>,
> {
    if ty == seq!['X', 'O', 'R'] {
        if ins.len() != 2 {
            Outcome::Fail(
                BristolErrorOf::GateArity { line: n, kind: GateKind::Xor, found: ins.len() as usize },
            )
        } else {
            Outcome::Value(Some(GateSpec::Xor { inputs: ins, output: out }))
        }
    } else if ty == seq!['A', 'N', 'D'] {
        if ins.len() != 2 {
            Outcome::Fail(
                BristolErrorOf::GateArity { line: n, kind: GateKind::And, found: ins.len() as usize },
            )
        } else {
            Outcome::Value(Some(GateSpec::And { inputs: ins, output: out }))
        }
    } else if ty == seq!['I', 'N', 'V'] {
        if ins.len() != 1 {
            Outcome::Fail(
                BristolErrorOf::GateArity { line: n, kind: GateKind::Inv, found: ins.len() as usize },
            )
        } else {
            Outcome::Value(Some(GateSpec::Inv { input: ins[0], output: out }))
        }
    } else {
        Outcome::Fail(BristolErrorOf::UnsupportedGate { line: n, name: ty })
    }
}

/// The gates of lines 3 up to (not including) `k`; the first line that fails decides.
pub open spec fn parse_gates(ls: Seq<Seq<char>>, k: int) -> Outcome<Seq<GateSpec>>
    decreases k,
{
    if k <= 3 {
        Outcome::Value(Seq::empty())
    } else {
        match parse_gates(ls, k - 1) {
            Outcome::Value(gs) => match gate_line(k - 1, ls[k - 1]) {
                Outcome::Value(None) => Outcome::Value(gs),
                Outcome::Value(Some(g)) => Outcome::Value(gs.push(g)),
                Outcome::Fail(e) => Outcome::Fail(e),
                Outcome::Panic => Outcome::Panic,
            },
            Outcome::Fail(e) => Outcome::Fail(e),
            Outcome::Panic => Outcome::Panic,
        }
    }
}

/// The wires `0, 1, .., n - 1`.
pub open spec fn first_wires(n: nat) -> Seq<usize> {
    Seq::new(n, |k: int| k as usize)
}

/// The last `t` of `w` wires.
pub open spec fn last_wires(w: usize, t: nat) -> Seq<usize> {
    Seq::new(t, |k: int| (w - t + k) as usize)
}

/// What the parser gives for the text `s`.
pub open spec fn parse_bristol(s: Seq<char>) -> Outcome<CircuitSpec> {
    let ls = text_lines(s);
    if ls.len() == 0 {
        Outcome::Fail(BristolErrorOf::EmptyCircuit)
    } else {
        let h = tokens(ls[0]);
        if h.len() != 2 {
            Outcome::Fail(BristolErrorOf::HeaderFieldCount { found: h.len() as usize })
        } else {
            match parse_usize(h[0]) {
                Err(e) => Outcome::Fail(BristolErrorOf::BadNumGates { error: e }),
                Ok(g) => match parse_usize(h[1]) {
                    Err(e) => Outcome::Fail(BristolErrorOf::BadNumWires { error: e }),
                    Ok(w) => parse_after_header(ls, g, w),
                },
            }
        }
    }
}

/// The rest of the parse, once the header line has given `g` gates and `w` wires.
pub open spec fn parse_after_header(ls: Seq<Seq<char>>, g: usize, w: usize) -> Outcome<CircuitSpec> {
    if ls.len() < 2 {
        Outcome::Fail(BristolErrorOf::MissingInputInfo)
    } else {
        match group_line(tokens(ls[1]), true) {
            Outcome::Fail(e) => Outcome::Fail(e),
            Outcome::Panic => Outcome::Panic,
            Outcome::Value((nig, igs)) => if ls.len() < 3 {
                Outcome::Fail(BristolErrorOf::MissingOutputInfo)
            } else {
                match group_line(tokens(ls[2]), false) {
                    Outcome::Fail(e) => Outcome::Fail(e),
                    Outcome::Panic => Outcome::Panic,
                    Outcome::Value((nog, ogs)) => if seq_sum(igs) > usize::MAX || seq_sum(ogs)
                        > w {
                        Outcome::Panic
                    } else {
                        match parse_gates(ls, ls.len() as int) {
                            Outcome::Fail(e) => Outcome::Fail(e),
                            Outcome::Panic => Outcome::Panic,
                            Outcome::Value(gs) => if gs.len() != g {
                                Outcome::Fail(
                                    BristolErrorOf::GateCountMismatch {
                                        expected: g,
                                        found: gs.len() as usize,
                                    },
                                )
                            } else {
                                Outcome::Value(
                                    CircuitSpec {
                                        num_gates: g,
                                        num_wires: w,
                                        num_input_groups: nig,
                                        input_group_sizes: igs,
                                        num_output_groups: nog,
                                        output_group_sizes: ogs,
                                        gates: gs,
                                        input_wires: first_wires(seq_sum(igs)),
                                        output_wires: last_wires(w, seq_sum(ogs)),
                                    },
                                )
                            },
                        }
                    },
                }
            },
        }
    }
}

} // verus!

verus! {

// ---------------------------------------------------------------------------
// Reading.

proof fn lemma_parse_all_err_sticky(s: Seq<Seq<char>>, t: Seq<Seq<char>>)
    requires
        parse_all(s) is Err,
        s.len() <= t.len(),
        t.take(s.len() as int) == s,
    ensures
        parse_all(t) == parse_all(s),
    decreases t.len(),
{
    if t.len() > s.len() {
        assert(t.drop_last().take(s.len() as int) =~= s);
        lemma_parse_all_err_sticky(s, t.drop_last());
    } else {
        assert(t =~= s);
    }
}

/// Reads `parts[start..end]` as numbers.
fn parse_numbers(parts: &Vec<Vec<char>>, start: usize, end: usize) -> (r: Result<
    Vec<usize>,
    (usize, NumError),
>)
    requires
        start <= end <= parts@.len(),
    ensures
        match parse_all(views(parts@).subrange(start as int, end as int)) {
            Ok(vs) => r matches Ok(v) && v@ == vs,
            Err((k, e)) => r matches Err((k2, e2)) && k2 == k && e2 == e,
        },
{
    let ghost all = views(parts@).subrange(start as int, end as int);
    let mut out: Vec<usize> = Vec::new();
    let mut i: usize = start;
    assert(views(parts@).subrange(start as int, start as int) =~= Seq::<Seq<char>>::empty());
    while i < end
        invariant
            start <= i <= end <= parts@.len(),
            all == views(parts@).subrange(start as int, end as int),
            parse_all(views(parts@).subrange(start as int, i as int)) == Ok::<
                Seq<usize>,
                (int, NumError),
            >(out@),
        decreases end - i,
    {
        let ghost pre = views(parts@).subrange(start as int, (i + 1) as int);
        assert(pre.drop_last() =~= views(parts@).subrange(start as int, i as int));
        assert(pre.last() == parts@[i as int]@);
        match parse_usize_chars(parts[i].as_slice()) {
            Ok(v) => {
                out.push(v);
            },
            Err(e) => {
                proof {
                    assert(all.take(pre.len() as int) =~= pre);
                    lemma_parse_all_err_sticky(pre, all);
                }
                return Err((i - start, e));
            },
        }
        i = i + 1;
    }
    Ok(out)
}

/// Reads the input line (`is_input`) or the output line.
fn read_group_line(parts: &Vec<Vec<char>>, is_input: bool) -> (r: Option<
    Result<(usize, Vec<usize>), BristolError>,
>)
    ensures
        match group_line(views(parts@), is_input) {
            Outcome::Value((n, sizes)) => r matches Some(Ok((m, v))) && m == n && v@ == sizes,
            Outcome::Fail(e) => r matches Some(Err(x)) && x@ == e,
            Outcome::Panic => r is None,
        },
{
    let len = parts.len();
    if len < 2 {
        return Some(Err(
            if is_input {
                BristolErrorOf::InputFieldCount { found: len }
            } else {
                BristolErrorOf::OutputFieldCount { found: len }
            },
        ));
    }
    let n = match parse_usize_chars(parts[0].as_slice()) {
        Ok(n) => n,
        Err(e) => {
            return Some(Err(
                if is_input {
                    BristolErrorOf::BadNumInputGroups { error: e }
                } else {
                    BristolErrorOf::BadNumOutputGroups { error: e }
                },
            ));
        },
    };
    if n == usize::MAX {
        return None;
    }
    if len != n + 1 {
        return Some(Err(
            if is_input {
                BristolErrorOf::InputGroupCountMismatch { expected: n, found: len - 1 }
            } else {
                BristolErrorOf::OutputGroupCountMismatch { expected: n, found: len - 1 }
            },
        ));
    }
    assert(views(parts@).drop_first() =~= views(parts@).subrange(1, len as int));
    match parse_numbers(parts, 1, len) {
        Ok(sizes) => Some(Ok((n, sizes))),
        Err((k, e)) => Some(Err(
            if is_input {
                BristolErrorOf::BadInputGroupSize { index: k, error: e }
            } else {
                BristolErrorOf::BadOutputGroupSize { index: k, error: e }
            },
        )),
    }
}

/// The text of `s` as a `String`.
fn string_of(s: &[char]) -> (r: String)
    ensures
        r@ == s@,
{
    let mut r = String::new();
    push_chars(&mut r, s);
    r
}

pub(crate) fn is_word3(t: &Vec<char>, a: char, b: char, c: char) -> (r: bool)
    ensures
        r == (t@ == seq![a, b, c]),
{
    let r = t.len() == 3 && t[0] == a && t[1] == b && t[2] == c;
    if r {
        assert(t@ =~= seq![a, b, c]);
    }
    r
}

/// Reads a gate from line `i` (counted from 0).
fn read_gate_line(i: usize, line: &Vec<char>) -> (r: Option<Result<Option<BristolGate>, BristolError>>)
    requires
        i < usize::MAX,
    ensures
        match gate_line(i as int, line@) {
            Outcome::Value(None) => r matches Some(Ok(None)),
            Outcome::Value(Some(g)) => r matches Some(Ok(Some(x))) && x@ == g,
            Outcome::Fail(e) => r matches Some(Err(x)) && x@ == e,
            Outcome::Panic => r is None,
        },
{
    let n = i + 1;
    if chars_blank(line.as_slice()) {
        return Some(Ok(None));
    }
    let parts = split_tokens(line.as_slice());
    let len = parts.len();
    if len < 4 {
        return Some(Err(BristolErrorOf::GateLineTooShort { line: n, text: string_of(line.as_slice()) }));
    }
    let ni = match parse_usize_chars(parts[0].as_slice()) {
        Ok(v) => v,
        Err(e) => {
            return Some(Err(BristolErrorOf::BadGateInputCount { line: n, error: e }));
        },
    };
    let no = match parse_usize_chars(parts[1].as_slice()) {
        Ok(v) => v,
        Err(e) => {
            return Some(Err(BristolErrorOf::BadGateOutputCount { line: n, error: e }));
        },
    };
    if ni > usize::MAX - 3 || no > usize::MAX - 3 - ni {
        return None;
    }
    let expected = 3 + ni + no;
    if len != expected {
        return Some(Err(BristolErrorOf::GateFieldCount { line: n, expected, found: len }));
    }
    let ins = match parse_numbers(&parts, 2, 2 + ni) {
        Ok(v) => v,
        Err((j, e)) => {
            return Some(Err(BristolErrorOf::BadGateInputWire { line: n, index: j, error: e }));
        },
    };
    if no != 1 {
        return Some(Err(BristolErrorOf::MultipleOutputs { line: n, found: no }));
    }
    let out = match parse_usize_chars(parts[2 + ni].as_slice()) {
        Ok(v) => v,
        Err(e) => {
            return Some(Err(BristolErrorOf::BadGateOutputWire { line: n, error: e }));
        },
    };
    let ty = &parts[len - 1];
    assert(ty@ == views(parts@).last());
    if is_word3(ty, 'X', 'O', 'R') {
        if ins.len() != 2 {
            return Some(Err(BristolErrorOf::GateArity { line: n, kind: GateKind::Xor, found: ins.len() }));
        }
        Some(Ok(Some(BristolGate::Xor { inputs: ins, output: out })))
    } else if is_word3(ty, 'A', 'N', 'D') {
        if ins.len() != 2 {
            return Some(Err(BristolErrorOf::GateArity { line: n, kind: GateKind::And, found: ins.len() }));
        }
        Some(Ok(Some(BristolGate::And { inputs: ins, output: out })))
    } else if is_word3(ty, 'I', 'N', 'V') {
        if ins.len() != 1 {
            return Some(Err(BristolErrorOf::GateArity { line: n, kind: GateKind::Inv, found: ins.len() }));
        }
        Some(Ok(Some(BristolGate::Inv { input: ins[0], output: out })))
    } else {
        Some(Err(BristolErrorOf::UnsupportedGate { line: n, name: string_of(ty.as_slice()) }))
    }
}

} // verus!

verus! {

proof fn lemma_seq_sum_prefix(s: Seq<usize>, k: int)
    requires
        0 <= k <= s.len(),
    ensures
        seq_sum(s.take(k)) <= seq_sum(s),
        k < s.len() ==> seq_sum(s.take(k + 1)) == seq_sum(s.take(k)) + s[k],
    decreases s.len(),
{
    if k < s.len() {
        assert(s.take(k + 1).drop_last() =~= s.take(k));
        lemma_seq_sum_prefix(s.drop_last(), k);
        assert(s.drop_last().take(k) =~= s.take(k));
    } else {
        assert(s.take(k) =~= s);
    }
}

/// The sum of `sizes`; `None` where it does not fit in a `usize`.
fn checked_sum(sizes: &Vec<usize>) -> (t: Option<usize>)
    ensures
        match t {
            Some(v) => v == seq_sum(sizes@),
            None => seq_sum(sizes@) > usize::MAX,
        },
{
    let mut t: usize = 0;
    let mut k: usize = 0;
    assert(sizes@.take(0) =~= Seq::<usize>::empty());
    while k < sizes.len()
        invariant
            k <= sizes@.len(),
            t == seq_sum(sizes@.take(k as int)),
        decreases sizes.len() - k,
    {
        proof {
            lemma_seq_sum_prefix(sizes@, (k + 1) as int);
            lemma_seq_sum_prefix(sizes@, k as int);
        }
        if sizes[k] > usize::MAX - t {
            return None;
        }
        t = t + sizes[k];
        k = k + 1;
    }
    assert(sizes@.take(sizes@.len() as int) =~= sizes@);
    Some(t)
}

/// The wires `0, 1, ..` numbered group after group.
fn wires_from_sizes(sizes: &Vec<usize>) -> (w: Vec<usize>)
    requires
        seq_sum(sizes@) <= usize::MAX,
    ensures
        w@ == first_wires(seq_sum(sizes@)),
{
    let mut w: Vec<usize> = Vec::new();
    let mut current: usize = 0;
    let mut k: usize = 0;
    assert(sizes@.take(0) =~= Seq::<usize>::empty());
    assert(w@ =~= first_wires(0));
    while k < sizes.len()
        invariant
            k <= sizes@.len(),
            current == seq_sum(sizes@.take(k as int)),
            w@ == first_wires(current as nat),
            seq_sum(sizes@) <= usize::MAX,
        decreases sizes.len() - k,
    {
        let size = sizes[k];
        proof {
            lemma_seq_sum_prefix(sizes@, k as int);
            lemma_seq_sum_prefix(sizes@, (k + 1) as int);
        }
        let mut j: usize = 0;
        while j < size
            invariant
                j <= size,
                current == seq_sum(sizes@.take(k as int)) + j,
                w@ == first_wires(current as nat),
                seq_sum(sizes@.take(k as int)) + size <= usize::MAX,
            decreases size - j,
        {
            w.push(current);
            current = current + 1;
            j = j + 1;
            assert(w@ =~= first_wires(current as nat));
        }
        k = k + 1;
    }
    assert(sizes@.take(sizes@.len() as int) =~= sizes@);
    w
}

/// The last `total` of `num_wires` wires.
fn last_n_wires(num_wires: usize, total: usize) -> (w: Vec<usize>)
    requires
        total <= num_wires,
    ensures
        w@ == last_wires(num_wires, total as nat),
{
    let mut w: Vec<usize> = Vec::new();
    let mut i: usize = 0;
    while i < total
        invariant
            i <= total <= num_wires,
            w@ == Seq::new(i as nat, |k: int| (num_wires - total + k) as usize),
        decreases total - i,
    {
        w.push(num_wires - total + i);
        i = i + 1;
        assert(w@ =~= Seq::new(i as nat, |k: int| (num_wires - total + k) as usize));
    }
    w
}

proof fn lemma_parse_gates_sticky(ls: Seq<Seq<char>>, k: int, k2: int)
    requires
        !(parse_gates(ls, k) is Value),
        k <= k2,
    ensures
        parse_gates(ls, k2) == parse_gates(ls, k),
    decreases k2 - k,
{
    if k2 > k {
        lemma_parse_gates_sticky(ls, k, k2 - 1);
    }
}

impl BristolCircuit {
    /// Parses a Bristol Fashion circuit from its text; `None` where the
    /// counts in the text overflow the machine's integers.
    pub fn from_str_checked(text: &str) -> (r: Option<Result<Self, BristolError>>)
        ensures
            match parse_bristol(text@) {
                Outcome::Value(c) => r matches Some(Ok(x)) && x@ == c,
                Outcome::Fail(e) => r matches Some(Err(x)) && x@ == e,
                Outcome::Panic => r is None,
            },
    {
        let chars = chars_of(text);
        let lines = split_lines(chars.as_slice());
        let ghost ls = text_lines(text@);
        assert(views(lines@) == ls);
        if lines.len() == 0 {
            return Some(Err(BristolErrorOf::EmptyCircuit));
        }
        assert(lines@[0]@ == ls[0]);
        let header = split_tokens(lines[0].as_slice());
        if header.len() != 2 {
            return Some(Err(BristolErrorOf::HeaderFieldCount { found: header.len() }));
        }
        assert(header@[0]@ == tokens(ls[0])[0]);
        assert(header@[1]@ == tokens(ls[0])[1]);
        let num_gates = match parse_usize_chars(header[0].as_slice()) {
            Ok(v) => v,
            Err(e) => {
                return Some(Err(BristolErrorOf::BadNumGates { error: e }));
            },
        };
        let num_wires = match parse_usize_chars(header[1].as_slice()) {
            Ok(v) => v,
            Err(e) => {
                return Some(Err(BristolErrorOf::BadNumWires { error: e }));
            },
        };
        assert(parse_bristol(text@) == parse_after_header(ls, num_gates, num_wires));
        if lines.len() < 2 {
            return Some(Err(BristolErrorOf::MissingInputInfo));
        }
        assert(lines@[1]@ == ls[1]);
        let in_parts = split_tokens(lines[1].as_slice());
        let (num_input_groups, input_group_sizes) = match read_group_line(&in_parts, true) {
            Some(Ok(x)) => x,
            Some(Err(e)) => {
                return Some(Err(e));
            },
            None => {
                return None;
            },
        };
        if lines.len() < 3 {
            return Some(Err(BristolErrorOf::MissingOutputInfo));
        }
        assert(lines@[2]@ == ls[2]);
        let out_parts = split_tokens(lines[2].as_slice());
        let (num_output_groups, output_group_sizes) = match read_group_line(&out_parts, false) {
            Some(Ok(x)) => x,
            Some(Err(e)) => {
                return Some(Err(e));
            },
            None => {
                return None;
            },
        };
        if checked_sum(&input_group_sizes).is_none() {
            return None;
        }
        let total_outputs = match checked_sum(&output_group_sizes) {
            Some(t) => t,
            None => {
                return None;
            },
        };
        if total_outputs > num_wires {
            return None;
        }
        let input_wires = wires_from_sizes(&input_group_sizes);
        let output_wires = last_n_wires(num_wires, total_outputs);

        let mut gates: Vec<BristolGate> = Vec::new();
        let mut k: usize = 3;
        let n = lines.len();
        assert(gates@.map_values(|g: BristolGate| g@) =~= Seq::<GateSpec>::empty());
        assert(parse_gates(ls, n as int) matches Outcome::Fail(e) ==> parse_bristol(text@)
            == Outcome::<CircuitSpec>::Fail(e));
        assert(parse_gates(ls, n as int) is Panic ==> parse_bristol(text@) is Panic);
        while k < n
            invariant
                3 <= k <= n,
                n == lines@.len() == ls.len(),
                views(lines@) == ls,
                parse_gates(ls, k as int) == Outcome::Value(gates@.map_values(|g: BristolGate| g@)),
                parse_gates(ls, n as int) matches Outcome::Fail(e) ==> parse_bristol(text@)
                    == Outcome::<CircuitSpec>::Fail(e),
                parse_gates(ls, n as int) is Panic ==> parse_bristol(text@) is Panic,
            decreases n - k,
        {
            assert(lines@[k as int]@ == ls[k as int]);
            let ghost before = gates@.map_values(|g: BristolGate| g@);
            match read_gate_line(k, &lines[k]) {
                Some(Ok(None)) => {},
                Some(Ok(Some(g))) => {
                    gates.push(g);
                    assert(gates@.map_values(|g: BristolGate| g@) =~= before.push(g@));
                },
                Some(Err(e)) => {
                    proof {
                        lemma_parse_gates_sticky(ls, k + 1, n as int);
                    }
                    return Some(Err(e));
                },
                None => {
                    proof {
                        lemma_parse_gates_sticky(ls, k + 1, n as int);
                    }
                    return None;
                },
            }
            k = k + 1;
        }
        if gates.len() != num_gates {
            return Some(Err(BristolErrorOf::GateCountMismatch { expected: num_gates, found: gates.len() }));
        }
        Some(
            Ok(
                BristolCircuit {
                    num_gates,
                    num_wires,
                    num_input_groups,
                    input_group_sizes,
                    num_output_groups,
                    output_group_sizes,
                    gates,
                    input_wires,
                    output_wires,
                },
            ),
        )
    }

    /// Parses a Bristol Fashion circuit from its text.
    pub fn from_reader(text: &str) -> (r: Result<Self, BristolError>)
        requires
            !(parse_bristol(text@) is Panic),
        ensures
            match parse_bristol(text@) {
                Outcome::Value(c) => r matches Ok(x) && x@ == c,
                Outcome::Fail(e) => r matches Err(x) && x@ == e,
                Outcome::Panic => false,
            },
    {
        Self::from_str_checked(text).unwrap()
    }

    /// Parses a Bristol Fashion circuit from a string.
    pub fn from_str(s: &str) -> (r: Result<Self, BristolError>)
        requires
            !(parse_bristol(s@) is Panic),
        ensures
            match parse_bristol(s@) {
                Outcome::Value(c) => r matches Ok(x) && x@ == c,
                Outcome::Fail(e) => r matches Err(x) && x@ == e,
                Outcome::Panic => false,
            },
    {
        Self::from_reader(s)
    }
}

} // verus!

verus! {

// ---------------------------------------------------------------------------
// What a gate line says.

proof fn lemma_blank_no_tokens(s: Seq<char>)
    requires
        is_blank(s),
    ensures
        tokens(s).len() == 0,
    decreases s.len(),
{
    if s.len() > 0 {
        assert(is_blank(s.drop_last())) by {
            assert forall|i: int| 0 <= i < s.drop_last().len() implies is_ws(#[trigger] s.drop_last()[i]) by {
                assert(s.drop_last()[i] == s[i]);
            }
        }
        lemma_blank_no_tokens(s.drop_last());
        assert(is_ws(s[s.len() - 1]));
    }
}

/// A gate line `2 1 a b o XOR` (or `AND`) reads as a gate over the wires
/// `a` and `b`, in that order, written to wire `o`.
pub proof fn law_bristol_binary_line(i: int, line: Seq<char>, a: usize, b: usize, o: usize)
    requires
        tokens(line).len() == 6,
        parse_usize(tokens(line)[0]) == Ok::<usize, NumError>(2),
        parse_usize(tokens(line)[1]) == Ok::<usize, NumError>(1),
        parse_usize(tokens(line)[2]) == Ok::<usize, NumError>(a),
        parse_usize(tokens(line)[3]) == Ok::<usize, NumError>(b),
        parse_usize(tokens(line)[4]) == Ok::<usize, NumError>(o),
    ensures
        tokens(line)[5] == seq!['X', 'O', 'R'] ==> gate_line(i, line) == Outcome::Value(
            Some(GateSpec::Xor { inputs: seq![a, b], output: o }),
        ),
        tokens(line)[5] == seq!['A', 'N', 'D'] ==> gate_line(i, line) == Outcome::Value(
            Some(GateSpec::And { inputs: seq![a, b], output: o }),
        ),
{
    if is_blank(line) {
        lemma_blank_no_tokens(line);
    }
    let parts = tokens(line);
    let w = parts.subrange(2, 4);
    assert(w.drop_last() =~= seq![parts[2]]);
    assert(w.drop_last().drop_last() =~= Seq::<Seq<char>>::empty());
    assert(parse_all(w.drop_last().drop_last()) == Ok::<Seq<usize>, (int, NumError)>(Seq::empty()));
    assert(parse_all(w.drop_last()) == Ok::<Seq<usize>, (int, NumError)>(seq![a]));
    assert(w.last() == parts[3]);
    assert(seq![a].push(b) =~= seq![a, b]);
    assert(parse_all(w) == Ok::<Seq<usize>, (int, NumError)>(seq![a, b]));
}

/// A gate line `1 1 a o INV` reads as the inverter of wire `a`, written to
/// wire `o`.
pub proof fn law_bristol_inv_line(i: int, line: Seq<char>, a: usize, o: usize)
    requires
        tokens(line).len() == 5,
        parse_usize(tokens(line)[0]) == Ok::<usize, NumError>(1),
        parse_usize(tokens(line)[1]) == Ok::<usize, NumError>(1),
        parse_usize(tokens(line)[2]) == Ok::<usize, NumError>(a),
        parse_usize(tokens(line)[3]) == Ok::<usize, NumError>(o),
        tokens(line)[4] == seq!['I', 'N', 'V'],
    ensures
        gate_line(i, line) == Outcome::Value(Some(GateSpec::Inv { input: a, output: o })),
{
    if is_blank(line) {
        lemma_blank_no_tokens(line);
    }
    let parts = tokens(line);
    let w = parts.subrange(2, 3);
    assert(w.drop_last() =~= Seq::<Seq<char>>::empty());
    assert(parse_all(w.drop_last()) == Ok::<Seq<usize>, (int, NumError)>(Seq::empty()));
    assert(w.last() == parts[2]);
    assert(Seq::<usize>::empty().push(a) =~= seq![a]);
    assert(parse_all(w) == Ok::<Seq<usize>, (int, NumError)>(seq![a]));
}

} // verus!
