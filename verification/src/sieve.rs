//! SIEVE IR circuits over the binary field, and their construction from
//! Bristol Fashion circuits.
//!
//! Wire 0 of a converted circuit holds the constant one; the Bristol input
//! wires become wires `1..=n`; the Bristol gate outputs are renumbered from
//! `1 + n + g` on (for `n` inputs and `g` gates), in the order of the gates.

use std::collections::HashMap;

use vstd::prelude::*;

use crate::bristol::{BristolCircuit, BristolError, BristolGate, CircuitSpec, GateSpec};
use crate::text::{decimal, push_char, push_decimal};

verus! {

broadcast use vstd::std_specs::hash::group_hash_axioms;

/// A gate of a SIEVE IR circuit.
#[derive(Clone, Debug, PartialEq, Eq)]
pub enum SieveGate {
    /// Private input gate
    Private { output: usize, party: usize },
    /// Addition gate (XOR in binary field)
    Add { inputs: Vec<usize>, output: usize },
    /// Multiplication gate (AND in binary field)
    Mul { inputs: Vec<usize>, output: usize },
}

/// The mathematical content of a [`SieveGate`].
pub enum SieveGateSpec {
    Private { output: usize, party: usize },
    Add { inputs: Seq<usize>, output: usize },
    Mul { inputs: Seq<usize>, output: usize },
}

impl View for SieveGate {
    type V = SieveGateSpec;

    open spec fn view(&self) -> SieveGateSpec {
        match self {
            SieveGate::Private { output, party } => SieveGateSpec::Private {
                output: *output,
                party: *party,
            },
            SieveGate::Add { inputs, output } => SieveGateSpec::Add {
                inputs: inputs@,
                output: *output,
            },
            SieveGate::Mul { inputs, output } => SieveGateSpec::Mul {
                inputs: inputs@,
                output: *output,
            },
        }
    }
}

/// A circuit in SIEVE IR format.
#[derive(Clone, Debug, PartialEq, Eq)]
pub struct SieveCircuit {
    /// Gates in the circuit
    pub gates: Vec<SieveGate>,
    /// The constant 1 wire index (used for INV gates)
    pub constant_one_wire: usize,
    /// Input wire indices
    pub input_wires: Vec<usize>,
    /// Output wire indices
    pub output_wires: Vec<usize>,
}

/// The mathematical content of a [`SieveCircuit`].
pub struct SieveSpec {
    pub gates: Seq<SieveGateSpec>,
    pub constant_one_wire: usize,
    pub input_wires: Seq<usize>,
    pub output_wires: Seq<usize>,
}

impl View for SieveCircuit {
    type V = SieveSpec;

    open spec fn view(&self) -> SieveSpec {
        SieveSpec {
            gates: self.gates@.map_values(|g: SieveGate| g@),
            constant_one_wire: self.constant_one_wire,
            input_wires: self.input_wires@,
            output_wires: self.output_wires@,
        }
    }
}

// ---------------------------------------------------------------------------
// The conversion, stated over the models.

/// Bristol input wire `ins[k]` becomes SIEVE wire `k + 1`; where a wire occurs
/// twice, its last place decides.
pub open spec fn input_map(ins: Seq<usize>) -> Map<usize, usize>
    decreases ins.len(),
{
    if ins.len() == 0 {
        Map::empty()
    } else {
        input_map(ins.drop_last()).insert(ins.last(), ins.len() as usize)
    }
}

/// Numbers the outputs of `gs`, in order, from `next` on; an output that `m`
/// already maps keeps its wire. Gives the map and the next free number.
pub open spec fn number_outputs(gs: Seq<GateSpec>, m: Map<usize, usize>, next: nat) -> (
    Map<usize, usize>,
    nat,
)
    decreases gs.len(),
{
    if gs.len() == 0 {
        (m, next)
    } else {
        let (m1, n1) = number_outputs(gs.drop_last(), m, next);
        let o = gs.last().output();
        if m1.contains_key(o) {
            (m1, n1)
        } else {
            (m1.insert(o, n1 as usize), n1 + 1)
        }
    }
}

/// The first wire number given to a gate output: after the constant wire,
/// the inputs, and as many numbers as there are gates.
pub open spec fn first_gate_wire(b: CircuitSpec) -> nat {
    1 + b.input_wires.len() + b.gates.len()
}

/// Where each Bristol wire goes in the SIEVE circuit.
pub open spec fn wire_map(b: CircuitSpec) -> Map<usize, usize> {
    number_outputs(b.gates, input_map(b.input_wires), first_gate_wire(b)).0
}

/// The number after the last wire number that the conversion gives out.
pub open spec fn next_free_wire(b: CircuitSpec) -> nat {
    number_outputs(b.gates, input_map(b.input_wires), first_gate_wire(b)).1
}

/// The wires that a gate reads.
pub open spec fn gate_reads(g: GateSpec) -> Seq<usize> {
    match g {
        GateSpec::Xor { inputs, .. } => inputs,
        GateSpec::And { inputs, .. } => inputs,
        GateSpec::Inv { input, .. } => seq![input],
    }
}

/// The conversion of `b` can be carried out: its wire numbers fit in a
/// `usize`, and every wire that a gate reads, and every output wire, is an
/// input wire or a gate output.
pub open spec fn conversion_defined(b: CircuitSpec) -> bool {
    let m = wire_map(b);
    &&& next_free_wire(b) <= usize::MAX
    &&& forall|i: int, j: int|
        0 <= i < b.gates.len() && 0 <= j < gate_reads(b.gates[i]).len() ==> m.contains_key(
            #[trigger] gate_reads(b.gates[i])[j],
        )
    &&& forall|k: int| 0 <= k < b.output_wires.len() ==> m.contains_key(#[trigger] b.output_wires[k])
}

/// The SIEVE gate for Bristol gate `g`: XOR becomes addition, AND becomes
/// multiplication, and INV becomes addition of the constant wire 0.
pub open spec fn convert_gate(g: GateSpec, m: Map<usize, usize>) -> SieveGateSpec {
    match g {
        GateSpec::Xor { inputs, output } => SieveGateSpec::Add {
            inputs: inputs.map_values(|w: usize| m[w]),
            output: m[output],
        },
        GateSpec::And { inputs, output } => SieveGateSpec::Mul {
            inputs: inputs.map_values(|w: usize| m[w]),
            output: m[output],
        },
        GateSpec::Inv { input, output } => SieveGateSpec::Add {
            inputs: seq![m[input], 0usize],
            output: m[output],
        },
    }
}

/// Private input gates for the wires `0..n`.
pub open spec fn private_gates(n: nat) -> Seq<SieveGateSpec> {
    Seq::new(n, |k: int| SieveGateSpec::Private { output: k as usize, party: 0 })
}

/// The SIEVE circuit that the conversion makes of `b`.
pub open spec fn sieve_of(b: CircuitSpec) -> SieveSpec {
    let m = wire_map(b);
    let n = b.input_wires.len();
    SieveSpec {
        gates: private_gates(n + 1) + b.gates.map_values(|g: GateSpec| convert_gate(g, m)),
        constant_one_wire: 0,
        input_wires: Seq::new(n, |k: int| (k + 1) as usize),
        output_wires: b.output_wires.map_values(|w: usize| m[w]),
    }
}

} // verus!

verus! {

// ---------------------------------------------------------------------------
// Facts about the numbering.

proof fn lemma_input_map_take(ins: Seq<usize>, k: int)
    requires
        0 <= k < ins.len(),
        ins.len() <= usize::MAX,
    ensures
        input_map(ins.take(k + 1)) == input_map(ins.take(k)).insert(ins[k], (k + 1) as usize),
{
    assert(ins.take(k + 1).drop_last() =~= ins.take(k));
}

pub(crate) proof fn lemma_number_outputs_take(gs: Seq<GateSpec>, m: Map<usize, usize>, next: nat, k: int)
    requires
        0 <= k < gs.len(),
    ensures
        ({
            let (m1, n1) = number_outputs(gs.take(k), m, next);
            let o = gs[k].output();
            number_outputs(gs.take(k + 1), m, next) == if m1.contains_key(o) {
                (m1, n1)
            } else {
                (m1.insert(o, n1 as usize), n1 + 1)
            }
        }),
{
    assert(gs.take(k + 1).drop_last() =~= gs.take(k));
}

/// The numbering only hands out numbers: the next free number never goes down.
proof fn lemma_number_outputs_grows(gs: Seq<GateSpec>, m: Map<usize, usize>, next: nat, k: int)
    requires
        0 <= k <= gs.len(),
    ensures
        next <= number_outputs(gs.take(k), m, next).1 <= number_outputs(gs, m, next).1,
    decreases gs.len() - k,
{
    if k == gs.len() {
        assert(gs.take(k) =~= gs);
        lemma_number_outputs_grows_all(gs, m, next);
    } else {
        lemma_number_outputs_grows(gs, m, next, k + 1);
        lemma_number_outputs_take(gs, m, next, k);
        lemma_number_outputs_grows_all(gs.take(k), m, next);
    }
}

proof fn lemma_number_outputs_grows_all(gs: Seq<GateSpec>, m: Map<usize, usize>, next: nat)
    ensures
        next <= number_outputs(gs, m, next).1,
    decreases gs.len(),
{
    if gs.len() > 0 {
        lemma_number_outputs_grows_all(gs.drop_last(), m, next);
    }
}

/// Every gate output is numbered, and what `m` mapped stays as it was.
proof fn lemma_number_outputs_keys(gs: Seq<GateSpec>, m: Map<usize, usize>, next: nat)
    ensures
        forall|i: int| 0 <= i < gs.len() ==> number_outputs(gs, m, next).0.contains_key(
            #[trigger] gs[i].output(),
        ),
        forall|w: usize| #[trigger]
            m.contains_key(w) ==> number_outputs(gs, m, next).0.contains_key(w) && number_outputs(
                gs,
                m,
                next,
            ).0[w] == m[w],
    decreases gs.len(),
{
    if gs.len() > 0 {
        lemma_number_outputs_keys(gs.drop_last(), m, next);
        assert forall|i: int| 0 <= i < gs.len() implies number_outputs(gs, m, next).0.contains_key(
            #[trigger] gs[i].output(),
        ) by {
            if i < gs.len() - 1 {
                assert(gs.drop_last()[i] == gs[i]);
            }
        }
    }
}

// ---------------------------------------------------------------------------
// The conversion.

/// The wire that a Bristol gate writes.
fn gate_output(g: &BristolGate) -> (o: usize)
    ensures
        o == g@.output(),
{
    match g {
        BristolGate::Xor { output, .. } => *output,
        BristolGate::And { output, .. } => *output,
        BristolGate::Inv { output, .. } => *output,
    }
}

/// Numbers the wires of `b`: `None` where the numbers would not fit in a `usize`.
fn number_wires(b: &BristolCircuit) -> (r: Option<(HashMap<usize, usize>, usize)>)
    ensures
        match r {
            Some((m, next)) => next_free_wire(b@) <= usize::MAX && m@ == wire_map(b@) && next
                == next_free_wire(b@),
            None => next_free_wire(b@) > usize::MAX,
        },
{
    let ghost ins = b@.input_wires;
    let ghost gs = b@.gates;
    let mut m: HashMap<usize, usize> = HashMap::new();
    let n = b.input_wires.len();
    let mut k: usize = 0;
    assert(ins.take(0) =~= Seq::<usize>::empty());
    while k < n
        invariant
            k <= n == ins.len(),
            ins == b@.input_wires,
            m@ == input_map(ins.take(k as int)),
        decreases n - k,
    {
        proof {
            lemma_input_map_take(ins, k as int);
        }
        m.insert(b.input_wires[k], k + 1);
        k = k + 1;
    }
    assert(ins.take(n as int) =~= ins);
    let g = b.gates.len();
    proof {
        lemma_number_outputs_grows(gs, input_map(ins), first_gate_wire(b@), 0);
    }
    if n >= usize::MAX - g {
        return None;
    }
    let start = 1 + n + g;
    let mut next: usize = start;
    let mut k: usize = 0;
    assert(gs.take(0) =~= Seq::<GateSpec>::empty());
    while k < g
        invariant
            k <= g == gs.len(),
            gs == b@.gates,
            ins == b@.input_wires,
            start == first_gate_wire(b@),
            (m@, next as nat) == number_outputs(gs.take(k as int), input_map(ins), start as nat),
        decreases g - k,
    {
        proof {
            lemma_number_outputs_take(gs, input_map(ins), start as nat, k as int);
            lemma_number_outputs_grows(gs, input_map(ins), start as nat, k as int + 1);
        }
        assert(b.gates@[k as int]@ == gs[k as int]);
        let o = gate_output(&b.gates[k]);
        if !m.contains_key(&o) {
            m.insert(o, next);
            if next == usize::MAX {
                return None;
            }
            next = next + 1;
        }
        k = k + 1;
    }
    assert(gs.take(g as int) =~= gs);
    Some((m, next))
}

/// The SIEVE wire of Bristol wire `w`.
fn lookup(m: &HashMap<usize, usize>, w: usize) -> (v: usize)
    requires
        m@.contains_key(w),
    ensures
        v == m@[w],
{
    match m.get(&w) {
        Some(v) => *v,
        None => 0,
    }
}

/// The SIEVE wires of the Bristol wires `ws`.
fn lookup_all(m: &HashMap<usize, usize>, ws: &Vec<usize>) -> (r: Vec<usize>)
    requires
        forall|j: int| 0 <= j < ws@.len() ==> m@.contains_key(#[trigger] ws@[j]),
    ensures
        r@ == ws@.map_values(|w: usize| m@[w]),
{
    let mut r: Vec<usize> = Vec::new();
    let mut j: usize = 0;
    while j < ws.len()
        invariant
            j <= ws@.len(),
            forall|i: int| 0 <= i < ws@.len() ==> m@.contains_key(#[trigger] ws@[i]),
            r@ == ws@.take(j as int).map_values(|w: usize| m@[w]),
        decreases ws.len() - j,
    {
        r.push(lookup(m, ws[j]));
        j = j + 1;
        assert(r@ =~= ws@.take(j as int).map_values(|w: usize| m@[w]));
    }
    assert(ws@.take(ws@.len() as int) =~= ws@);
    r
}

/// The SIEVE gate for one Bristol gate.
fn convert_one(g: &BristolGate, m: &HashMap<usize, usize>) -> (s: SieveGate)
    requires
        m@.contains_key(g@.output()),
        forall|j: int| 0 <= j < gate_reads(g@).len() ==> m@.contains_key(#[trigger] gate_reads(g@)[j]),
    ensures
        s@ == convert_gate(g@, m@),
{
    match g {
        BristolGate::Xor { inputs, output } => {
            assert forall|j: int| 0 <= j < inputs@.len() implies m@.contains_key(
                #[trigger] inputs@[j],
            ) by {
                assert(gate_reads(g@)[j] == inputs@[j]);
            }
            SieveGate::Add { inputs: lookup_all(m, inputs), output: lookup(m, *output) }
        },
        BristolGate::And { inputs, output } => {
            assert forall|j: int| 0 <= j < inputs@.len() implies m@.contains_key(
                #[trigger] inputs@[j],
            ) by {
                assert(gate_reads(g@)[j] == inputs@[j]);
            }
            SieveGate::Mul { inputs: lookup_all(m, inputs), output: lookup(m, *output) }
        },
        BristolGate::Inv { input, output } => {
            assert(gate_reads(g@)[0] == *input);
            let v = lookup(m, *input);
            let o = lookup(m, *output);
            let s = SieveGate::Add { inputs: vec![v, 0], output: o };
            assert(s@ == convert_gate(g@, m@));
            s
        },
    }
}

/// Every wire that a gate of `b` reads has a place in `m`.
pub open spec fn gate_reads_in(b: CircuitSpec, m: Map<usize, usize>) -> bool {
    forall|i: int, j: int|
        0 <= i < b.gates.len() && 0 <= j < gate_reads(b.gates[i]).len() ==> m.contains_key(
            #[trigger] gate_reads(b.gates[i])[j],
        )
}

/// Every output wire of `b` has a place in `m`.
pub open spec fn outputs_in(b: CircuitSpec, m: Map<usize, usize>) -> bool {
    forall|k: int| 0 <= k < b.output_wires.len() ==> m.contains_key(#[trigger] b.output_wires[k])
}

/// Whether every wire that a gate of `b` reads has a place in `m`.
fn gate_reads_mapped(b: &BristolCircuit, m: &HashMap<usize, usize>) -> (r: bool)
    ensures
        r == gate_reads_in(b@, m@),
{
    let ghost gs = b@.gates;
    let mut i: usize = 0;
    while i < b.gates.len()
        invariant
            i <= gs.len(),
            gs == b@.gates,
            forall|i2: int, j: int|
                0 <= i2 < i && 0 <= j < gate_reads(gs[i2]).len() ==> m@.contains_key(
                    #[trigger] gate_reads(gs[i2])[j],
                ),
        decreases b.gates.len() - i,
    {
        assert(b.gates@[i as int]@ == gs[i as int]);
        match &b.gates[i] {
            BristolGate::Xor { inputs, .. } | BristolGate::And { inputs, .. } => {
                assert(gate_reads(gs[i as int]) == inputs@);
                let mut j: usize = 0;
                while j < inputs.len()
                    invariant
                        j <= inputs@.len(),
                        i < gs.len(),
                        gate_reads(gs[i as int]) == inputs@,
                        gs == b@.gates,
                        forall|j2: int| 0 <= j2 < j ==> m@.contains_key(#[trigger] inputs@[j2]),
                    decreases inputs.len() - j,
                {
                    if !m.contains_key(&inputs[j]) {
                        assert(gate_reads(gs[i as int])[j as int] == inputs@[j as int]);
                        return false;
                    }
                    j = j + 1;
                }
            },
            BristolGate::Inv { input, .. } => {
                if !m.contains_key(input) {
                    assert(gate_reads(gs[i as int])[0] == *input);
                    return false;
                }
            },
        }
        i = i + 1;
    }
    true
}

/// Whether every output wire of `b` has a place in `m`.
fn outputs_mapped(b: &BristolCircuit, m: &HashMap<usize, usize>) -> (r: bool)
    ensures
        r == outputs_in(b@, m@),
{
    let mut k: usize = 0;
    while k < b.output_wires.len()
        invariant
            k <= b@.output_wires.len(),
            forall|k2: int| 0 <= k2 < k ==> m@.contains_key(#[trigger] b@.output_wires[k2]),
        decreases b.output_wires.len() - k,
    {
        if !m.contains_key(&b.output_wires[k]) {
            return false;
        }
        k = k + 1;
    }
    true
}

/// Why a Bristol circuit cannot be converted.
#[derive(Clone, Copy, Debug, PartialEq, Eq, Structural)]
pub enum ConversionFault {
    /// The SIEVE wire numbers would not fit in a `usize`.
    Overflow,
    /// A gate reads a wire that is neither an input nor a gate output.
    UnmappedRead,
    /// An output wire is neither an input nor a gate output.
    UnmappedOutput,
}

/// What stops the conversion of `bristol`, in the order in which the
/// conversion meets it: the numbering of the wires, then the wires that the
/// gates read, then the output wires; `None` where it succeeds.
pub fn conversion_fault(bristol: &BristolCircuit) -> (r: Option<ConversionFault>)
    ensures
        r is None <==> conversion_defined(bristol@),
        r == Some(ConversionFault::Overflow) <==> next_free_wire(bristol@) > usize::MAX,
        r == Some(ConversionFault::UnmappedRead) <==> next_free_wire(bristol@) <= usize::MAX
            && !gate_reads_in(bristol@, wire_map(bristol@)),
        r == Some(ConversionFault::UnmappedOutput) <==> next_free_wire(bristol@) <= usize::MAX
            && gate_reads_in(bristol@, wire_map(bristol@)) && !outputs_in(bristol@, wire_map(bristol@)),
{
    match number_wires(bristol) {
        None => Some(ConversionFault::Overflow),
        Some((m, _next)) => {
            if !gate_reads_mapped(bristol, &m) {
                Some(ConversionFault::UnmappedRead)
            } else if !outputs_mapped(bristol, &m) {
                Some(ConversionFault::UnmappedOutput)
            } else {
                None
            }
        },
    }
}

/// Whether every wire that a gate of `b` reads, and every output wire of `b`,
/// has a place in `m`.
fn reads_mapped(b: &BristolCircuit, m: &HashMap<usize, usize>) -> (r: bool)
    ensures
        r == (gate_reads_in(b@, m@) && outputs_in(b@, m@)),
{
    gate_reads_mapped(b, m) && outputs_mapped(b, m)
}

impl SieveCircuit {
    /// Converts a Bristol Fashion circuit to SIEVE IR.
    ///
    /// Wire 0 is a private input meant to hold the constant one; each Bristol
    /// input wire gets a private input gate; each Bristol gate becomes one
    /// SIEVE gate, in the same order.
    pub fn from_bristol(bristol: &BristolCircuit) -> (r: Result<Self, BristolError>)
        requires
            conversion_defined(bristol@),
        ensures
            r matches Ok(c) && c@ == sieve_of(bristol@),
    {
        let ghost b = bristol@;
        let ghost gs = b.gates;
        let mut sieve_gates: Vec<SieveGate> = Vec::new();
        let constant_one_wire: usize = 0;
        sieve_gates.push(SieveGate::Private { output: constant_one_wire, party: 0 });
        let mut input_wires: Vec<usize> = Vec::new();
        let mut current_wire: usize = 1;
        let n = bristol.input_wires.len();
        proof {
            lemma_number_outputs_grows_all(gs, input_map(b.input_wires), first_gate_wire(b));
        }
        assert(sieve_gates@.map_values(|g: SieveGate| g@) =~= private_gates(1));
        while current_wire <= n
            invariant
                1 <= current_wire <= n + 1,
                n == b.input_wires.len(),
                n + 1 <= usize::MAX,
                sieve_gates@.map_values(|g: SieveGate| g@) == private_gates(current_wire as nat),
                input_wires@ == Seq::new((current_wire - 1) as nat, |k: int| (k + 1) as usize),
            decreases n + 1 - current_wire,
        {
            let ghost before = sieve_gates@.map_values(|g: SieveGate| g@);
            input_wires.push(current_wire);
            sieve_gates.push(SieveGate::Private { output: current_wire, party: 0 });
            assert(sieve_gates@.map_values(|g: SieveGate| g@) =~= before.push(
                SieveGateSpec::Private { output: current_wire, party: 0 },
            ));
            current_wire = current_wire + 1;
            assert(sieve_gates@.map_values(|g: SieveGate| g@) =~= private_gates(current_wire as nat));
            assert(input_wires@ =~= Seq::new((current_wire - 1) as nat, |k: int| (k + 1) as usize));
        }
        let (m, _next) = number_wires(bristol).unwrap();
        proof {
            lemma_number_outputs_keys(gs, input_map(b.input_wires), first_gate_wire(b));
        }
        let ghost head = private_gates((n + 1) as nat);
        let g = bristol.gates.len();
        let mut k: usize = 0;
        assert(head + gs.take(0).map_values(|x: GateSpec| convert_gate(x, m@)) =~= head);
        while k < g
            invariant
                k <= g == gs.len(),
                gs == bristol@.gates,
                b == bristol@,
                m@ == wire_map(b),
                conversion_defined(b),
                forall|i: int| 0 <= i < gs.len() ==> m@.contains_key(#[trigger] gs[i].output()),
                sieve_gates@.map_values(|x: SieveGate| x@) == head + gs.take(k as int).map_values(
                    |x: GateSpec| convert_gate(x, m@),
                ),
            decreases g - k,
        {
            assert(bristol.gates@[k as int]@ == gs[k as int]);
            assert(m@.contains_key(gs[k as int].output()));
            let s = convert_one(&bristol.gates[k], &m);
            let ghost before = sieve_gates@.map_values(|x: SieveGate| x@);
            sieve_gates.push(s);
            assert(sieve_gates@.map_values(|x: SieveGate| x@) =~= before.push(s@));
            k = k + 1;
            assert(gs.take(k as int).map_values(|x: GateSpec| convert_gate(x, m@)) =~= gs.take(
                (k - 1) as int,
            ).map_values(|x: GateSpec| convert_gate(x, m@)).push(convert_gate(gs[k - 1], m@)));
            assert(sieve_gates@.map_values(|x: SieveGate| x@) =~= head + gs.take(k as int).map_values(
                |x: GateSpec| convert_gate(x, m@),
            ));
        }
        assert(gs.take(g as int) =~= gs);
        assert forall|j: int| 0 <= j < bristol.output_wires@.len() implies m@.contains_key(
            #[trigger] bristol.output_wires@[j],
        ) by {
            assert(b.output_wires[j] == bristol.output_wires@[j]);
        }
        let output_wires = lookup_all(&m, &bristol.output_wires);
        let c = SieveCircuit { gates: sieve_gates, constant_one_wire, input_wires, output_wires };
        assert(c@.gates =~= sieve_of(b).gates);
        Ok(c)
    }

    /// Converts a Bristol Fashion circuit to SIEVE IR; `None` where a gate
    /// reads, or the circuit outputs, a wire that is neither an input nor a
    /// gate output, or where the wire numbers would not fit in a `usize`.
    pub fn from_bristol_checked(bristol: &BristolCircuit) -> (r: Option<Self>)
        ensures
            match r {
                Some(c) => conversion_defined(bristol@) && c@ == sieve_of(bristol@),
                None => !conversion_defined(bristol@),
            },
    {
        let fits = match number_wires(bristol) {
            Some((m, _next)) => reads_mapped(bristol, &m),
            None => false,
        };
        if fits {
            match Self::from_bristol(bristol) {
                Ok(c) => Some(c),
                Err(_) => None,
            }
        } else {
            None
        }
    }
}

} // verus!

verus! {

// ---------------------------------------------------------------------------
// The SIEVE IR text.

/// `$w`.
pub open spec fn wire_text(w: usize) -> Seq<char> {
    seq!['$'] + decimal(w as nat)
}

/// The wires `ws` as `$a, $b, ..`.
pub open spec fn wire_list(ws: Seq<usize>) -> Seq<char>
    decreases ws.len(),
{
    if ws.len() == 0 {
        Seq::empty()
    } else if ws.len() == 1 {
        wire_text(ws[0])
    } else {
        wire_list(ws.drop_last()) + ", "@ + wire_text(ws.last())
    }
}

/// The text of one gate.
pub open spec fn gate_text(g: SieveGateSpec) -> Seq<char> {
    match g {
        SieveGateSpec::Private { output, party } => wire_text(output) + " <- @private("@ + decimal(
            party as nat,
        ) + ");"@,
        SieveGateSpec::Add { inputs, output } => wire_text(output) + " <- @add(0: "@ + wire_list(
            inputs,
        ) + ");"@,
        SieveGateSpec::Mul { inputs, output } => if inputs.len() != 2 {
            "// ERROR: Mul gate must have exactly 2 inputs"@
        } else {
            wire_text(output) + " <- @mul(0: "@ + wire_text(inputs[0]) + ", "@ + wire_text(inputs[1])
                + ");"@
        },
    }
}

/// The gates, one indented line each.
pub open spec fn gates_text(gs: Seq<SieveGateSpec>) -> Seq<char>
    decreases gs.len(),
{
    if gs.len() == 0 {
        Seq::empty()
    } else {
        gates_text(gs.drop_last()) + "  "@ + gate_text(gs.last()) + "\n"@
    }
}

/// The lines before the gates.
pub open spec fn header_text() -> Seq<char> {
    "version 2.0.0;\n"@ + "circuit;\n"@ + "@type field 2;\n"@ + "@begin\n"@
}

/// The text of a whole circuit.
pub open spec fn circuit_text(c: SieveSpec) -> Seq<char> {
    header_text() + gates_text(c.gates) + "@end\n"@
}

/// Appends `$w`.
fn push_wire(out: &mut String, w: usize)
    ensures
        final(out)@ == old(out)@ + wire_text(w),
{
    let ghost start = out@;
    push_char(out, '$');
    push_decimal(out, w);
    assert(out@ =~= start + wire_text(w));
}

/// Appends the wires `ws` as `$a, $b, ..`.
fn push_wire_list(out: &mut String, ws: &Vec<usize>)
    ensures
        final(out)@ == old(out)@ + wire_list(ws@),
{
    let ghost start = out@;
    let mut i: usize = 0;
    assert(ws@.take(0) =~= Seq::<usize>::empty());
    assert(out@ =~= start + wire_list(ws@.take(0)));
    while i < ws.len()
        invariant
            i <= ws@.len(),
            out@ == start + wire_list(ws@.take(i as int)),
        decreases ws.len() - i,
    {
        let ghost t = ws@.take(i as int + 1);
        if i > 0 {
            out.append(", ");
        }
        push_wire(out, ws[i]);
        proof {
            assert(t.drop_last() =~= ws@.take(i as int));
            assert(t.last() == ws@[i as int]);
            if i == 0 {
                assert(out@ =~= start + wire_list(t));
            } else {
                assert(out@ =~= start + wire_list(t));
            }
        }
        i = i + 1;
    }
    assert(ws@.take(ws@.len() as int) =~= ws@);
}

impl SieveGate {
    /// The SIEVE IR text of this gate.
    pub fn to_string(&self) -> (r: String)
        ensures
            r@ == gate_text(self@),
    {
        let mut out = String::new();
        match self {
            SieveGate::Private { output, party } => {
                push_wire(&mut out, *output);
                out.append(" <- @private(");
                push_decimal(&mut out, *party);
                out.append(");");
            },
            SieveGate::Add { inputs, output } => {
                push_wire(&mut out, *output);
                out.append(" <- @add(0: ");
                push_wire_list(&mut out, inputs);
                out.append(");");
            },
            SieveGate::Mul { inputs, output } => {
                if inputs.len() != 2 {
                    out.append("// ERROR: Mul gate must have exactly 2 inputs");
                } else {
                    push_wire(&mut out, *output);
                    out.append(" <- @mul(0: ");
                    push_wire(&mut out, inputs[0]);
                    out.append(", ");
                    push_wire(&mut out, inputs[1]);
                    out.append(");");
                }
            },
        }
        assert(out@ =~= gate_text(self@));
        out
    }
}

impl SieveCircuit {
    /// The SIEVE IR text of the circuit: a header, one indented line per
    /// gate, and `@end`.
    pub fn to_string(&self) -> (r: String)
        ensures
            r@ == circuit_text(self@),
    {
        let mut result = String::new();
        result.append("version 2.0.0;\n");
        result.append("circuit;\n");
        result.append("@type field 2;\n");
        result.append("@begin\n");
        assert(result@ =~= header_text());
        let ghost gs = self@.gates;
        let mut k: usize = 0;
        assert(gs.take(0) =~= Seq::<SieveGateSpec>::empty());
        assert(result@ =~= header_text() + gates_text(gs.take(0)));
        while k < self.gates.len()
            invariant
                k <= gs.len(),
                gs == self@.gates,
                result@ == header_text() + gates_text(gs.take(k as int)),
            decreases self.gates.len() - k,
        {
            let line = self.gates[k].to_string();
            result.append("  ");
            result.append(line.as_str());
            result.append("\n");
            proof {
                let t = gs.take(k as int + 1);
                assert(t.drop_last() =~= gs.take(k as int));
                assert(t.last() == self.gates@[k as int]@);
                assert(result@ =~= header_text() + gates_text(t));
            }
            k = k + 1;
        }
        assert(gs.take(gs.len() as int) =~= gs);
        result.append("@end\n");
        assert(result@ =~= circuit_text(self@));
        result
    }
}

} // verus!
