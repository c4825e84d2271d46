//! What holds of the conversion as a whole.
//!
//! A Bristol Fashion circuit computes over bits: XOR, AND and INV. A SIEVE IR
//! circuit over the field of two elements computes with addition (XOR) and
//! multiplication (AND), and takes its inputs through private input gates, in
//! order. The central law here says that the converted circuit computes the
//! same outputs as the Bristol circuit, once its first private input (wire 0)
//! is given the constant one.

use vstd::prelude::*;

use crate::bristol::{
    group_line, parse_all, parse_bristol, seq_sum, CircuitSpec, GateSpec, Outcome,
};
use crate::preprocess::{begin_marker, cut_end, end_marker, find_from, occurs_at, preprocessed, strip_begin};
use crate::text::{decimal, text_lines, tokens};
use crate::sieve::{
    conversion_defined, convert_gate, first_gate_wire, gate_reads, input_map, lemma_number_outputs_take,
    next_free_wire, number_outputs, private_gates, sieve_of, wire_map, SieveGateSpec, SieveSpec,
};
use crate::sieve::{circuit_text, gate_text, gates_text, header_text, wire_list, wire_text};

verus! {

// ---------------------------------------------------------------------------
// What the circuits compute.

/// The XOR of the wires `ws` in `env`.
pub open spec fn xor_of(ws: Seq<usize>, env: Map<usize, bool>) -> bool
    decreases ws.len(),
{
    if ws.len() == 0 {
        false
    } else {
        xor_of(ws.drop_last(), env) != env[ws.last()]
    }
}

/// The AND of the wires `ws` in `env`.
pub open spec fn and_of(ws: Seq<usize>, env: Map<usize, bool>) -> bool
    decreases ws.len(),
{
    if ws.len() == 0 {
        true
    } else {
        and_of(ws.drop_last(), env) && env[ws.last()]
    }
}

/// The wire values after one Bristol gate.
pub open spec fn bristol_step(env: Map<usize, bool>, g: GateSpec) -> Map<usize, bool> {
    match g {
        GateSpec::Xor { inputs, output } => env.insert(output, xor_of(inputs, env)),
        GateSpec::And { inputs, output } => env.insert(output, and_of(inputs, env)),
        GateSpec::Inv { input, output } => env.insert(output, !env[input]),
    }
}

/// The wire values after the gates `gs`, in order.
pub open spec fn bristol_run(gs: Seq<GateSpec>, env: Map<usize, bool>) -> Map<usize, bool>
    decreases gs.len(),
{
    if gs.len() == 0 {
        env
    } else {
        bristol_step(bristol_run(gs.drop_last(), env), gs.last())
    }
}

/// Input wire `ins[k]` holds `xs[k]`.
pub open spec fn assign_inputs(ins: Seq<usize>, xs: Seq<bool>) -> Map<usize, bool>
    decreases ins.len(),
{
    if ins.len() == 0 {
        Map::empty()
    } else {
        assign_inputs(ins.drop_last(), xs).insert(ins.last(), xs[ins.len() - 1])
    }
}

/// The values of the output wires of `b` on the inputs `xs`.
pub open spec fn bristol_outputs(b: CircuitSpec, xs: Seq<bool>) -> Seq<bool> {
    let env = bristol_run(b.gates, assign_inputs(b.input_wires, xs));
    b.output_wires.map_values(|w: usize| env[w])
}

/// The wire values, and how many private inputs were used, after one SIEVE gate.
pub open spec fn sieve_step(st: (Map<usize, bool>, nat), g: SieveGateSpec, xs: Seq<bool>) -> (
    Map<usize, bool>,
    nat,
) {
    let (env, k) = st;
    match g {
        SieveGateSpec::Private { output, .. } => (env.insert(output, xs[k as int]), k + 1),
        SieveGateSpec::Add { inputs, output } => (env.insert(output, xor_of(inputs, env)), k),
        SieveGateSpec::Mul { inputs, output } => (env.insert(output, and_of(inputs, env)), k),
    }
}

/// The wire values after the gates `gs`, with the private inputs `xs`.
pub open spec fn sieve_run(gs: Seq<SieveGateSpec>, xs: Seq<bool>) -> (Map<usize, bool>, nat)
    decreases gs.len(),
{
    if gs.len() == 0 {
        (Map::empty(), 0)
    } else {
        sieve_step(sieve_run(gs.drop_last(), xs), gs.last(), xs)
    }
}

/// The values of the output wires of `c` with the private inputs `xs`.
pub open spec fn sieve_outputs(c: SieveSpec, xs: Seq<bool>) -> Seq<bool> {
    let env = sieve_run(c.gates, xs).0;
    c.output_wires.map_values(|w: usize| env[w])
}

// ---------------------------------------------------------------------------
// Circuits that compute something.

/// Wire `w` is an input wire of `b` or an output of one of its first `i` gates.
pub open spec fn written_before(b: CircuitSpec, i: int, w: usize) -> bool {
    ||| b.input_wires.contains(w)
    ||| exists|j: int| 0 <= j < i && #[trigger] b.gates[j].output() == w
}

/// The input wires are distinct; each gate writes a wire that no input and no
/// other gate writes, and reads only wires written before it; the output
/// wires are written.
pub open spec fn well_formed(b: CircuitSpec) -> bool {
    let ins = b.input_wires;
    let gs = b.gates;
    &&& forall|p: int, q: int| 0 <= p < q < ins.len() ==> ins[p] != ins[q]
    &&& forall|i: int| 0 <= i < gs.len() ==> !ins.contains(#[trigger] gs[i].output())
    &&& forall|i: int, j: int|
        0 <= i < j < gs.len() ==> #[trigger] gs[i].output() != #[trigger] gs[j].output()
    &&& forall|i: int, j: int|
        0 <= i < gs.len() && 0 <= j < gate_reads(gs[i]).len() ==> written_before(
            b,
            i,
            #[trigger] gate_reads(gs[i])[j],
        )
    &&& forall|k: int|
        0 <= k < b.output_wires.len() ==> written_before(b, gs.len() as int, #[trigger] b.output_wires[k])
}

// ---------------------------------------------------------------------------
// The numbering of a well-formed circuit.

proof fn lemma_input_map_distinct(ins: Seq<usize>)
    requires
        forall|p: int, q: int| 0 <= p < q < ins.len() ==> ins[p] != ins[q],
        ins.len() <= usize::MAX,
    ensures
        forall|k: int|
            0 <= k < ins.len() ==> input_map(ins).contains_key(#[trigger] ins[k]) && input_map(ins)[ins[k]]
                == k + 1,
        forall|w: usize| #[trigger] input_map(ins).contains_key(w) ==> ins.contains(w),
    decreases ins.len(),
{
    if ins.len() > 0 {
        let d = ins.drop_last();
        lemma_input_map_distinct(d);
        assert forall|k: int| 0 <= k < ins.len() implies input_map(ins).contains_key(
            #[trigger] ins[k],
        ) && input_map(ins)[ins[k]] == k + 1 by {
            if k < ins.len() - 1 {
                assert(d[k] == ins[k]);
            }
        }
        assert forall|w: usize| #[trigger] input_map(ins).contains_key(w) implies ins.contains(w) by {
            if w != ins.last() {
                assert(input_map(d).contains_key(w));
                let k = choose|k: int| 0 <= k < d.len() && d[k] == w;
                assert(ins[k] == w);
            } else {
                assert(ins[ins.len() - 1] == w);
            }
        }
    }
}

/// In a well-formed circuit the numbering gives gate `j` the wire
/// `first_gate_wire(b) + j`, and input `k` the wire `k + 1`.
proof fn lemma_numbering_prefix(b: CircuitSpec, i: int)
    requires
        well_formed(b),
        first_gate_wire(b) + b.gates.len() <= usize::MAX,
        0 <= i <= b.gates.len(),
    ensures
        ({
            let (m, nx) = number_outputs(
                b.gates.take(i),
                input_map(b.input_wires),
                first_gate_wire(b),
            );
            &&& nx == first_gate_wire(b) + i
            &&& forall|k: int|
                0 <= k < b.input_wires.len() ==> m.contains_key(#[trigger] b.input_wires[k])
                    && m[b.input_wires[k]] == k + 1
            &&& forall|j: int|
                0 <= j < i ==> m.contains_key(#[trigger] b.gates[j].output()) && m[b.gates[j].output()]
                    == first_gate_wire(b) + j
            &&& forall|w: usize| #[trigger] m.contains_key(w) ==> written_before(b, i, w)
        }),
    decreases i,
{
    let ins = b.input_wires;
    let gs = b.gates;
    let start = first_gate_wire(b);
    lemma_input_map_distinct(ins);
    if i == 0 {
        assert(gs.take(0) =~= Seq::<GateSpec>::empty());
    } else {
        lemma_numbering_prefix(b, i - 1);
        lemma_number_outputs_take(gs, input_map(ins), start, i - 1);
        let (m, nx) = number_outputs(gs.take(i - 1), input_map(ins), start);
        let o = gs[i - 1].output();
        if m.contains_key(o) {
            assert(written_before(b, i - 1, o));
            if !ins.contains(o) {
                let j = choose|j: int| 0 <= j < i - 1 && #[trigger] gs[j].output() == o;
                assert(gs[j].output() != gs[i - 1].output());
            }
            assert(false);
        }
        let m2 = m.insert(o, nx as usize);
        assert forall|k: int| 0 <= k < ins.len() implies m2.contains_key(#[trigger] ins[k]) && m2[ins[k]]
            == k + 1 by {
            assert(ins[k] != o);
        }
        assert forall|j: int| 0 <= j < i implies m2.contains_key(#[trigger] gs[j].output())
            && m2[gs[j].output()] == start + j by {
            if j < i - 1 {
                assert(gs[j].output() != gs[i - 1].output());
            }
        }
        assert forall|w: usize| #[trigger] m2.contains_key(w) implies written_before(b, i, w) by {
            if w == o {
                assert(gs[i - 1].output() == w);
            } else {
                assert(written_before(b, i - 1, w));
                if !ins.contains(w) {
                    let j = choose|j: int| 0 <= j < i - 1 && #[trigger] gs[j].output() == w;
                    assert(gs[j].output() == w);
                }
            }
        }
    }
}

/// The wire map of a well-formed circuit, written out.
pub proof fn lemma_wire_map_well_formed(b: CircuitSpec)
    requires
        well_formed(b),
        first_gate_wire(b) + b.gates.len() <= usize::MAX,
    ensures
        next_free_wire(b) == first_gate_wire(b) + b.gates.len(),
        forall|k: int|
            0 <= k < b.input_wires.len() ==> wire_map(b).contains_key(#[trigger] b.input_wires[k])
                && wire_map(b)[b.input_wires[k]] == k + 1,
        forall|j: int|
            0 <= j < b.gates.len() ==> wire_map(b).contains_key(#[trigger] b.gates[j].output())
                && wire_map(b)[b.gates[j].output()] == first_gate_wire(b) + j,
        conversion_defined(b),
{
    lemma_numbering_prefix(b, b.gates.len() as int);
    assert(b.gates.take(b.gates.len() as int) =~= b.gates);
    let m = wire_map(b);
    let gs = b.gates;
    let ins = b.input_wires;
    assert forall|w: usize| written_before(b, gs.len() as int, w) implies m.contains_key(w) by {
        if ins.contains(w) {
            let k = choose|k: int| 0 <= k < ins.len() && ins[k] == w;
            assert(m.contains_key(ins[k]));
        } else {
            let j = choose|j: int| 0 <= j < gs.len() && #[trigger] gs[j].output() == w;
            assert(m.contains_key(gs[j].output()));
        }
    }
    assert forall|i: int, j: int|
        0 <= i < gs.len() && 0 <= j < gate_reads(gs[i]).len() implies m.contains_key(
        #[trigger] gate_reads(gs[i])[j],
    ) by {
        let w = gate_reads(gs[i])[j];
        assert(written_before(b, i, w));
        if !ins.contains(w) {
            let j2 = choose|j2: int| 0 <= j2 < i && #[trigger] gs[j2].output() == w;
            assert(gs[j2].output() == w);
        }
        assert(written_before(b, gs.len() as int, w));
    }
    assert forall|k: int| 0 <= k < b.output_wires.len() implies m.contains_key(
        #[trigger] b.output_wires[k],
    ) by {
        assert(written_before(b, gs.len() as int, b.output_wires[k]));
    }
}

// ---------------------------------------------------------------------------
// Evaluation.

proof fn lemma_assign_inputs(ins: Seq<usize>, xs: Seq<bool>)
    requires
        forall|p: int, q: int| 0 <= p < q < ins.len() ==> ins[p] != ins[q],
        xs.len() == ins.len(),
    ensures
        forall|k: int| 0 <= k < ins.len() ==> assign_inputs(ins, xs)[#[trigger] ins[k]] == xs[k],
    decreases ins.len(),
{
    if ins.len() > 0 {
        let d = ins.drop_last();
        lemma_assign_inputs_prefix(d, xs);
        assert forall|k: int| 0 <= k < ins.len() implies assign_inputs(ins, xs)[#[trigger] ins[k]]
            == xs[k] by {
            if k < ins.len() - 1 {
                assert(d[k] == ins[k]);
            }
        }
    }
}

proof fn lemma_assign_inputs_prefix(ins: Seq<usize>, xs: Seq<bool>)
    requires
        forall|p: int, q: int| 0 <= p < q < ins.len() ==> ins[p] != ins[q],
        ins.len() <= xs.len(),
    ensures
        forall|k: int| 0 <= k < ins.len() ==> assign_inputs(ins, xs)[#[trigger] ins[k]] == xs[k],
    decreases ins.len(),
{
    if ins.len() > 0 {
        let d = ins.drop_last();
        lemma_assign_inputs_prefix(d, xs);
        assert forall|k: int| 0 <= k < ins.len() implies assign_inputs(ins, xs)[#[trigger] ins[k]]
            == xs[k] by {
            if k < ins.len() - 1 {
                assert(d[k] == ins[k]);
            }
        }
    }
}

/// Renaming the wires, and the values with them, leaves XOR and AND unchanged.
proof fn lemma_renamed_gate_values(
    ws: Seq<usize>,
    wm: Map<usize, usize>,
    senv: Map<usize, bool>,
    benv: Map<usize, bool>,
)
    requires
        forall|j: int| #![trigger ws[j]] 0 <= j < ws.len() ==> senv[wm[ws[j]]] == benv[ws[j]],
    ensures
        xor_of(ws.map_values(|w: usize| wm[w]), senv) == xor_of(ws, benv),
        and_of(ws.map_values(|w: usize| wm[w]), senv) == and_of(ws, benv),
    decreases ws.len(),
{
    if ws.len() > 0 {
        let d = ws.drop_last();
        assert forall|j: int| #![trigger d[j]] 0 <= j < d.len() implies senv[wm[d[j]]] == benv[d[j]] by {
            assert(d[j] == ws[j]);
        }
        lemma_renamed_gate_values(d, wm, senv, benv);
        assert(ws.map_values(|w: usize| wm[w]).drop_last() =~= d.map_values(|w: usize| wm[w]));
        assert(senv[wm[ws[ws.len() - 1]]] == benv[ws[ws.len() - 1]]);
    }
}

/// The first `t` private input gates store the first `t` private inputs in
/// wires `0..t`.
proof fn lemma_private_prefix(s: Seq<SieveGateSpec>, n1: nat, xs: Seq<bool>, t: nat)
    requires
        t <= n1 <= s.len(),
        n1 <= usize::MAX + 1,
        forall|q: int| 0 <= q < n1 ==> s[q] == (SieveGateSpec::Private { output: q as usize, party: 0 }),
    ensures
        sieve_run(s.take(t as int), xs).1 == t,
        forall|q: int| 0 <= q < t ==> sieve_run(s.take(t as int), xs).0[q as usize] == #[trigger] xs[q],
    decreases t,
{
    if t == 0 {
        assert(s.take(0) =~= Seq::<SieveGateSpec>::empty());
    } else {
        lemma_private_prefix(s, n1, xs, (t - 1) as nat);
        assert(s.take(t as int).drop_last() =~= s.take(t - 1));
        assert(s.take(t as int).last() == s[t - 1]);
        let env = sieve_run(s.take(t - 1), xs).0;
        assert forall|q: int| 0 <= q < t implies sieve_run(s.take(t as int), xs).0[q as usize]
            == #[trigger] xs[q] by {
            if q < t - 1 {
                assert(q as usize != (t - 1) as usize);
            }
        }
    }
}

/// After the private inputs and the first `i` converted gates, each wire
/// written by the first `i` Bristol gates (or an input) holds, at its SIEVE
/// wire, the value that the Bristol circuit gives it; wire 0 holds one.
proof fn lemma_simulation(b: CircuitSpec, xs: Seq<bool>, i: int)
    requires
        well_formed(b),
        first_gate_wire(b) + b.gates.len() <= usize::MAX,
        xs.len() == b.input_wires.len(),
        0 <= i <= b.gates.len(),
    ensures
        ({
            let s = sieve_of(b).gates;
            let senv = sieve_run(s.take(b.input_wires.len() + 1 + i), seq![true] + xs).0;
            let benv = bristol_run(b.gates.take(i), assign_inputs(b.input_wires, xs));
            let wm = wire_map(b);
            &&& senv[0] == true
            &&& forall|w: usize| #[trigger]
                written_before(b, i, w) ==> senv[wm[w]] == benv[w]
        }),
    decreases i,
{
    let s = sieve_of(b).gates;
    let ins = b.input_wires;
    let gs = b.gates;
    let n = ins.len();
    let xs1 = seq![true] + xs;
    let bin = assign_inputs(ins, xs);
    let wm = wire_map(b);
    let start = first_gate_wire(b);
    lemma_wire_map_well_formed(b);
    if i == 0 {
        assert forall|q: int| 0 <= q < n + 1 implies s[q] == (SieveGateSpec::Private {
            output: q as usize,
            party: 0,
        }) by {
            assert(s[q] == private_gates((n + 1) as nat)[q]);
        }
        lemma_private_prefix(s, (n + 1) as nat, xs1, (n + 1) as nat);
        lemma_assign_inputs(ins, xs);
        let senv = sieve_run(s.take((n + 1) as int), xs1).0;
        assert(senv[0usize] == xs1[0]);
        assert(gs.take(0) =~= Seq::<GateSpec>::empty());
        assert forall|w: usize| #[trigger] written_before(b, 0, w) implies senv[wm[w]] == bin[w] by {
            let k = choose|k: int| 0 <= k < ins.len() && ins[k] == w;
            assert(wm[ins[k]] == k + 1);
            assert(senv[((k + 1) as int) as usize] == xs1[k + 1]);
            assert(bin[ins[k]] == xs[k]);
        }
    } else {
        lemma_simulation(b, xs, i - 1);
        let t = n + 1 + (i - 1);
        let senv = sieve_run(s.take(t), xs1).0;
        let benv = bristol_run(gs.take(i - 1), bin);
        assert(s.take(t + 1).drop_last() =~= s.take(t));
        assert(s.take(t + 1).last() == s[t]);
        assert(gs.take(i).drop_last() =~= gs.take(i - 1));
        assert(gs.take(i).last() == gs[i - 1]);
        let g = gs[i - 1];
        assert(s[t] == convert_gate(g, wm));
        let senv2 = sieve_run(s.take(t + 1), xs1).0;
        let benv2 = bristol_run(gs.take(i), bin);
        let o = g.output();
        assert(wm[o] == start + (i - 1));
        assert forall|j: int| #![trigger gate_reads(g)[j]]
            0 <= j < gate_reads(g).len() implies senv[wm[gate_reads(g)[j]]] == benv[gate_reads(g)[j]] by {
            assert(written_before(b, i - 1, gate_reads(gs[i - 1])[j]));
        }
        match g {
            GateSpec::Xor { inputs, output } => {
                assert forall|j: int| #![trigger inputs[j]]
                    0 <= j < inputs.len() implies senv[wm[inputs[j]]] == benv[inputs[j]] by {
                    assert(gate_reads(g)[j] == inputs[j]);
                }
                lemma_renamed_gate_values(inputs, wm, senv, benv);
                assert(senv2[wm[o]] == benv2[o]);
            },
            GateSpec::And { inputs, output } => {
                assert forall|j: int| #![trigger inputs[j]]
                    0 <= j < inputs.len() implies senv[wm[inputs[j]]] == benv[inputs[j]] by {
                    assert(gate_reads(g)[j] == inputs[j]);
                }
                lemma_renamed_gate_values(inputs, wm, senv, benv);
                assert(senv2[wm[o]] == benv2[o]);
            },
            GateSpec::Inv { input, output } => {
                assert(gate_reads(g)[0] == input);
                assert(seq![wm[input], 0usize].drop_last() =~= seq![wm[input]]);
                assert(seq![wm[input]].drop_last() =~= Seq::<usize>::empty());
                assert(xor_of(Seq::<usize>::empty(), senv) == false);
                assert(xor_of(seq![wm[input]], senv) == senv[wm[input]]);
                assert(senv[wm[input]] == benv[input]);
                assert(xor_of(seq![wm[input], 0usize], senv) == !senv[wm[input]]);
                assert(s[t] == (SieveGateSpec::Add { inputs: seq![wm[input], 0usize], output: wm[output] }));
                assert(senv2[wm[o]] == benv2[o]);
            },
        }
        assert(senv2[wm[o]] == benv2[o]);
        assert forall|w: usize| #[trigger] written_before(b, i, w) implies senv2[wm[w]] == benv2[w] by {
            if w != o {
                if ins.contains(w) {
                    let k = choose|k: int| 0 <= k < ins.len() && ins[k] == w;
                    assert(wm[ins[k]] == k + 1);
                    assert(written_before(b, i - 1, w));
                } else {
                    let j = choose|j: int| 0 <= j < i && #[trigger] gs[j].output() == w;
                    assert(j != i - 1);
                    assert(wm[gs[j].output()] == start + j);
                    assert(written_before(b, i - 1, w));
                }
            }
        }
    }
}

/// A well-formed Bristol circuit and its SIEVE conversion compute the same
/// outputs on every input, once the first private input of the SIEVE circuit
/// (its constant wire) is one and the Bristol inputs follow it in order.
pub proof fn law_conversion_preserves_outputs(b: CircuitSpec, xs: Seq<bool>)
    requires
        well_formed(b),
        first_gate_wire(b) + b.gates.len() <= usize::MAX,
        xs.len() == b.input_wires.len(),
    ensures
        conversion_defined(b),
        sieve_outputs(sieve_of(b), seq![true] + xs) == bristol_outputs(b, xs),
{
    let s = sieve_of(b).gates;
    let gs = b.gates;
    let n = b.input_wires.len();
    let g = gs.len();
    lemma_wire_map_well_formed(b);
    lemma_simulation(b, xs, g as int);
    assert(s.len() == n + 1 + g);
    assert(s.take((n + 1 + g) as int) =~= s);
    assert(gs.take(g as int) =~= gs);
    let wm = wire_map(b);
    let senv = sieve_run(s, seq![true] + xs).0;
    let benv = bristol_run(gs, assign_inputs(b.input_wires, xs));
    assert forall|k: int| 0 <= k < b.output_wires.len() implies sieve_outputs(
        sieve_of(b),
        seq![true] + xs,
    )[k] == bristol_outputs(b, xs)[k] by {
        assert(written_before(b, g as int, b.output_wires[k]));
    }
    assert(sieve_outputs(sieve_of(b), seq![true] + xs) =~= bristol_outputs(b, xs));
}

// ---------------------------------------------------------------------------
// The shape of the converted circuit.

/// The wire that a SIEVE gate writes.
pub open spec fn sieve_gate_output(g: SieveGateSpec) -> usize {
    match g {
        SieveGateSpec::Private { output, .. } => output,
        SieveGateSpec::Add { output, .. } => output,
        SieveGateSpec::Mul { output, .. } => output,
    }
}

/// The wires that a SIEVE gate reads.
pub open spec fn sieve_gate_reads(g: SieveGateSpec) -> Seq<usize> {
    match g {
        SieveGateSpec::Private { .. } => Seq::empty(),
        SieveGateSpec::Add { inputs, .. } => inputs,
        SieveGateSpec::Mul { inputs, .. } => inputs,
    }
}

/// The converted circuit has one gate for the constant wire, one per input
/// and one per Bristol gate; wire 0 is the constant wire and is written
/// first; the inputs sit on wires `1..=n`, written next; and the outputs
/// are as many as the Bristol circuit has.
pub proof fn law_conversion_shape(b: CircuitSpec)
    ensures
        sieve_of(b).gates.len() == 1 + b.input_wires.len() + b.gates.len(),
        sieve_of(b).constant_one_wire == 0,
        sieve_of(b).gates[0] == (SieveGateSpec::Private { output: 0, party: 0 }),
        sieve_of(b).input_wires.len() == b.input_wires.len(),
        forall|k: int|
            0 <= k < b.input_wires.len() ==> #[trigger] sieve_of(b).input_wires[k] == (k
                + 1) as usize && sieve_of(b).gates[k + 1] == (SieveGateSpec::Private {
                output: (k + 1) as usize,
                party: 0,
            }),
        sieve_of(b).output_wires.len() == b.output_wires.len(),
{
    let n = b.input_wires.len();
    assert(sieve_of(b).gates[0] == private_gates((n + 1) as nat)[0]);
    assert forall|k: int| 0 <= k < n implies #[trigger] sieve_of(b).input_wires[k] == (k
        + 1) as usize && sieve_of(b).gates[k + 1] == (SieveGateSpec::Private {
        output: (k + 1) as usize,
        party: 0,
    }) by {
        assert(sieve_of(b).gates[k + 1] == private_gates((n + 1) as nat)[k + 1]);
    }
}

/// No two of the gates `gs` write the same wire.
pub open spec fn writes_once(gs: Seq<SieveGateSpec>) -> bool {
    forall|p: int, q: int|
        0 <= p < q < gs.len() ==> sieve_gate_output(#[trigger] gs[p]) != sieve_gate_output(
            #[trigger] gs[q],
        )
}

/// Gate `p` of `gs` writes wire `w`.
pub open spec fn writes(gs: Seq<SieveGateSpec>, p: int, w: usize) -> bool {
    sieve_gate_output(gs[p]) == w
}

/// Every wire that a gate of `gs` reads is written by an earlier gate.
pub open spec fn reads_written(gs: Seq<SieveGateSpec>) -> bool {
    forall|q: int, j: int|
        0 <= q < gs.len() && 0 <= j < sieve_gate_reads(gs[q]).len() ==> #[trigger] written_earlier(
            gs,
            q,
            sieve_gate_reads(gs[q])[j],
        )
}

/// One of the first `q` gates of `gs` writes wire `w`.
pub open spec fn written_earlier(gs: Seq<SieveGateSpec>, q: int, w: usize) -> bool {
    exists|p: int| 0 <= p < q && #[trigger] writes(gs, p, w)
}

/// Every output wire of `c` is written by one of its gates.
pub open spec fn outputs_written(c: SieveSpec) -> bool {
    forall|k: int|
        0 <= k < c.output_wires.len() ==> #[trigger] written_earlier(
            c.gates,
            c.gates.len() as int,
            c.output_wires[k],
        )
}

/// In the conversion of a well-formed circuit no two gates write the same
/// wire, every gate reads only wires that earlier gates wrote, and every
/// output wire is written.
pub proof fn law_conversion_single_assignment(b: CircuitSpec)
    requires
        well_formed(b),
        first_gate_wire(b) + b.gates.len() <= usize::MAX,
    ensures
        writes_once(sieve_of(b).gates),
        reads_written(sieve_of(b).gates),
        outputs_written(sieve_of(b)),
{
    let ins = b.input_wires;
    let bgs = b.gates;
    let n = ins.len();
    let start = first_gate_wire(b);
    let wm = wire_map(b);
    let gs = sieve_of(b).gates;
    lemma_wire_map_well_formed(b);
    // Gate p writes wire p for p <= n, and wire start + (p - n - 1) after that.
    assert forall|p: int| 0 <= p < gs.len() implies sieve_gate_output(#[trigger] gs[p]) == if p
        <= n {
        p
    } else {
        start + (p - n - 1)
    } by {
        if p <= n {
            assert(gs[p] == private_gates((n + 1) as nat)[p]);
        } else {
            let i = p - n - 1;
            assert(gs[p] == convert_gate(bgs[i], wm));
            assert(wm[bgs[i].output()] == start + i);
        }
    }
    // The SIEVE wire of a Bristol wire written before gate i is below the wire of gate i.
    assert forall|i: int, w: usize|
        0 <= i <= bgs.len() && #[trigger] written_before(b, i, w) implies written_earlier(
        gs,
        n + 1 + i,
        wm[w],
    ) by {
        if ins.contains(w) {
            let k = choose|k: int| 0 <= k < ins.len() && ins[k] == w;
            assert(wm[ins[k]] == k + 1);
            assert(writes(gs, k + 1, wm[w]));
        } else {
            let j = choose|j: int| 0 <= j < i && #[trigger] bgs[j].output() == w;
            assert(wm[bgs[j].output()] == start + j);
            assert(writes(gs, n + 1 + j, wm[w]));
        }
    }
    assert forall|q: int, j: int|
        0 <= q < gs.len() && 0 <= j < sieve_gate_reads(gs[q]).len() implies #[trigger] written_earlier(
        gs,
        q,
        sieve_gate_reads(gs[q])[j],
    ) by {
        if q <= n {
            assert(gs[q] == private_gates((n + 1) as nat)[q]);
        } else {
            let i = q - n - 1;
            let g = bgs[i];
            assert(gs[q] == convert_gate(g, wm));
            match g {
                GateSpec::Xor { inputs, output } => {
                    assert(gate_reads(g)[j] == inputs[j]);
                    assert(written_before(b, i, gate_reads(bgs[i])[j]));
                    assert(sieve_gate_reads(gs[q])[j] == wm[inputs[j]]);
                },
                GateSpec::And { inputs, output } => {
                    assert(gate_reads(g)[j] == inputs[j]);
                    assert(written_before(b, i, gate_reads(bgs[i])[j]));
                    assert(sieve_gate_reads(gs[q])[j] == wm[inputs[j]]);
                },
                GateSpec::Inv { input, output } => {
                    if j == 0 {
                        assert(gate_reads(g)[0] == input);
                        assert(written_before(b, i, gate_reads(bgs[i])[0]));
                        assert(sieve_gate_reads(gs[q])[j] == wm[input]);
                    } else {
                        assert(sieve_gate_reads(gs[q])[j] == 0);
                        assert(writes(gs, 0, 0));
                    }
                },
            }
        }
    }
    assert forall|k: int| 0 <= k < sieve_of(b).output_wires.len() implies #[trigger] written_earlier(
        gs,
        gs.len() as int,
        sieve_of(b).output_wires[k],
    ) by {
        assert(written_before(b, bgs.len() as int, b.output_wires[k]));
        assert(sieve_of(b).output_wires[k] == wm[b.output_wires[k]]);
        assert(written_earlier(gs, (n + 1 + bgs.len()) as int, wm[b.output_wires[k]]));
    }
}

// ---------------------------------------------------------------------------
// What the parser gives.

proof fn lemma_parse_all_len(parts: Seq<Seq<char>>)
    ensures
        parse_all(parts) matches Ok(vs) ==> vs.len() == parts.len(),
    decreases parts.len(),
{
    if parts.len() > 0 {
        lemma_parse_all_len(parts.drop_last());
    }
}

proof fn lemma_group_line_len(parts: Seq<Seq<char>>, is_input: bool)
    ensures
        group_line(parts, is_input) matches Outcome::Value((n, sizes)) ==> sizes.len() == n,
{
    if parts.len() >= 2 {
        lemma_parse_all_len(parts.drop_first());
    }
}

/// A circuit that the parser accepts has as many gates as its header
/// announces and one size per announced input and output group; its input
/// wires are `0, 1, ..` numbered group after group, and its output wires are
/// the last wires of the circuit, in order.
pub proof fn law_parse_shape(s: Seq<char>)
    ensures
        parse_bristol(s) matches Outcome::Value(c) ==> {
            &&& c.gates.len() == c.num_gates
            &&& c.input_group_sizes.len() == c.num_input_groups
            &&& c.output_group_sizes.len() == c.num_output_groups
            &&& c.input_wires.len() == seq_sum(c.input_group_sizes)
            &&& forall|k: int| 0 <= k < c.input_wires.len() ==> #[trigger] c.input_wires[k] == k
            &&& c.output_wires.len() == seq_sum(c.output_group_sizes) <= c.num_wires
            &&& forall|k: int|
                0 <= k < c.output_wires.len() ==> #[trigger] c.output_wires[k] == c.num_wires
                    - c.output_wires.len() + k
        },
{
    let ls = text_lines(s);
    if ls.len() >= 3 {
        lemma_group_line_len(tokens(ls[1]), true);
        lemma_group_line_len(tokens(ls[2]), false);
    }
}

} // verus!

verus! {

// ---------------------------------------------------------------------------
// The circuit text before the prover.

/// Every `@` in `s` is followed, within `s`, by a character other than `e`:
/// no `@end` starts in `s`, whatever follows it.
pub open spec fn no_end_start(s: Seq<char>) -> bool {
    forall|i: int| 0 <= i < s.len() && #[trigger] s[i] == '@' ==> i + 1 < s.len() && s[i + 1] != 'e'
}

proof fn lemma_no_end_start_concat(a: Seq<char>, b: Seq<char>)
    requires
        no_end_start(a),
        no_end_start(b),
    ensures
        no_end_start(a + b),
{
    let s = a + b;
    assert forall|i: int| 0 <= i < s.len() && #[trigger] s[i] == '@' implies i + 1 < s.len() && s[i + 1] != 'e' by {
        if i < a.len() {
            assert(s[i] == a[i]);
            assert(s[i + 1] == a[i + 1]);
        } else {
            assert(s[i] == b[i - a.len()]);
            assert(s[i + 1] == b[i + 1 - a.len()]);
        }
    }
}

proof fn lemma_decimal_no_at(n: nat)
    ensures
        no_end_start(decimal(n)),
        forall|i: int| 0 <= i < decimal(n).len() ==> #[trigger] decimal(n)[i] != '@',
    decreases n,
{
    if n >= 10 {
        lemma_decimal_no_at(n / 10);
        let d = decimal(n / 10);
        assert forall|i: int| 0 <= i < decimal(n).len() implies #[trigger] decimal(n)[i] != '@' by {
            if i < d.len() {
                assert(decimal(n)[i] == d[i]);
            }
        }
    }
}

proof fn lemma_wire_text_safe(w: usize)
    ensures
        no_end_start(wire_text(w)),
{
    lemma_decimal_no_at(w as nat);
    assert(no_end_start(seq!['$']));
    lemma_no_end_start_concat(seq!['$'], decimal(w as nat));
}

proof fn lemma_literals_safe()
    ensures
        no_end_start(" <- @private("@),
        no_end_start(");"@),
        no_end_start(" <- @add(0: "@),
        no_end_start(", "@),
        no_end_start(" <- @mul(0: "@),
        no_end_start("// ERROR: Mul gate must have exactly 2 inputs"@),
        no_end_start("  "@),
        no_end_start("\n"@),
{
    reveal_strlit(" <- @private(");
    reveal_strlit(");");
    reveal_strlit(" <- @add(0: ");
    reveal_strlit(", ");
    reveal_strlit(" <- @mul(0: ");
    reveal_strlit("// ERROR: Mul gate must have exactly 2 inputs");
    reveal_strlit("  ");
    reveal_strlit("\n");
}

proof fn lemma_wire_list_safe(ws: Seq<usize>)
    ensures
        no_end_start(wire_list(ws)),
    decreases ws.len(),
{
    if ws.len() == 0 {
    } else if ws.len() == 1 {
        lemma_wire_text_safe(ws[0]);
    } else {
        lemma_wire_list_safe(ws.drop_last());
        lemma_wire_text_safe(ws.last());
        lemma_literals_safe();
        lemma_no_end_start_concat(wire_list(ws.drop_last()), ", "@);
        lemma_no_end_start_concat(wire_list(ws.drop_last()) + ", "@, wire_text(ws.last()));
    }
}

proof fn lemma_gate_text_safe(g: SieveGateSpec)
    ensures
        no_end_start(gate_text(g)),
{
    lemma_literals_safe();
    match g {
        SieveGateSpec::Private { output, party } => {
            lemma_wire_text_safe(output);
            lemma_decimal_no_at(party as nat);
            let a = wire_text(output) + " <- @private("@;
            lemma_no_end_start_concat(wire_text(output), " <- @private("@);
            lemma_no_end_start_concat(a, decimal(party as nat));
            lemma_no_end_start_concat(a + decimal(party as nat), ");"@);
        },
        SieveGateSpec::Add { inputs, output } => {
            lemma_wire_text_safe(output);
            lemma_wire_list_safe(inputs);
            let a = wire_text(output) + " <- @add(0: "@;
            lemma_no_end_start_concat(wire_text(output), " <- @add(0: "@);
            lemma_no_end_start_concat(a, wire_list(inputs));
            lemma_no_end_start_concat(a + wire_list(inputs), ");"@);
        },
        SieveGateSpec::Mul { inputs, output } => {
            if inputs.len() == 2 {
                lemma_wire_text_safe(output);
                lemma_wire_text_safe(inputs[0]);
                lemma_wire_text_safe(inputs[1]);
                let a = wire_text(output) + " <- @mul(0: "@;
                let b = a + wire_text(inputs[0]);
                let c = b + ", "@;
                let d = c + wire_text(inputs[1]);
                lemma_no_end_start_concat(wire_text(output), " <- @mul(0: "@);
                lemma_no_end_start_concat(a, wire_text(inputs[0]));
                lemma_no_end_start_concat(b, ", "@);
                lemma_no_end_start_concat(c, wire_text(inputs[1]));
                lemma_no_end_start_concat(d, ");"@);
            }
        },
    }
}

proof fn lemma_gates_text_safe(gs: Seq<SieveGateSpec>)
    ensures
        no_end_start(gates_text(gs)),
        gs.len() > 0 ==> gates_text(gs).len() > 0 && gates_text(gs).last() == '\n',
    decreases gs.len(),
{
    if gs.len() > 0 {
        lemma_gates_text_safe(gs.drop_last());
        lemma_gate_text_safe(gs.last());
        lemma_literals_safe();
        let a = gates_text(gs.drop_last()) + "  "@;
        lemma_no_end_start_concat(gates_text(gs.drop_last()), "  "@);
        lemma_no_end_start_concat(a, gate_text(gs.last()));
        lemma_no_end_start_concat(a + gate_text(gs.last()), "\n"@);
        reveal_strlit("\n");
    }
}

/// The header lines of the circuit text, character by character.
pub open spec fn header_chars() -> Seq<char> {
    seq!['v', 'e', 'r', 's', 'i', 'o', 'n', ' ', '2', '.', '0', '.', '0', ';', '\n', 'c', 'i', 'r', 'c', 'u', 'i', 't', ';', '\n', '@', 't', 'y', 'p', 'e', ' ', 'f', 'i', 'e', 'l', 'd', ' ', '2', ';', '\n', '@', 'b', 'e', 'g', 'i', 'n', '\n']
}

/// No `@b` starts at position `k` of the header.
pub open spec fn no_begin_at(k: int) -> bool {
    !(header_chars()[k] == '@' && header_chars()[k + 1] == 'b')
}

proof fn lemma_find_first(s: Seq<char>, pat: Seq<char>, i: int, p: int)
    requires
        0 <= i <= p,
        occurs_at(s, pat, p),
        forall|k: int| i <= k < p ==> !#[trigger] occurs_at(s, pat, k),
    ensures
        find_from(s, pat, i) == Some(p),
    decreases p - i,
{
    if i < p {
        lemma_find_first(s, pat, i + 1, p);
    }
}

/// Preprocessing the text of a circuit with at least one gate gives back
/// that text with a line break put before its final `@end`: the same
/// header and the same gate lines.
pub proof fn law_preprocess_circuit_text(c: SieveSpec)
    requires
        c.gates.len() > 0,
    ensures
        preprocessed(circuit_text(c)) == header_text() + gates_text(c.gates) + "\n@end\n"@,
{
    let h = header_text();
    let g = gates_text(c.gates);
    let e = "@end\n"@;
    let t = circuit_text(c);
    reveal_strlit("version 2.0.0;\n");
    reveal_strlit("circuit;\n");
    reveal_strlit("@type field 2;\n");
    reveal_strlit("@begin\n");
    reveal_strlit("@end\n");
    reveal_strlit("version 2.0.0;\ncircuit;\n@type field 2;\n@begin\n");
    assert(h =~= header_chars());
    assert("version 2.0.0;\ncircuit;\n@type field 2;\n@begin\n"@ =~= header_chars());
    lemma_gates_text_safe(c.gates);
    assert(t == h + g + e);
    assert forall|k: int| 0 <= k < 46 implies #[trigger] t[k] == header_chars()[k] by {}
    // The first `@begin` is the one of the header, at 39; its line ends at 45.
    assert forall|k: int| 0 <= k < 39 implies #[trigger] no_begin_at(k) by {}
    assert forall|k: int| 0 <= k < 39 implies !#[trigger] occurs_at(t, begin_marker(), k) by {
        if occurs_at(t, begin_marker(), k) {
            assert(t.subrange(k, k + 6)[0] == t[k]);
            assert(t.subrange(k, k + 6)[1] == t[k + 1]);
            assert(t[k] == header_chars()[k]);
            assert(t[k + 1] == header_chars()[k + 1]);
            assert(no_begin_at(k));
        }
    }
    assert(t.subrange(39, 45) =~= begin_marker());
    lemma_find_first(t, begin_marker(), 0, 39);
    assert forall|k: int| 39 <= k < 45 implies !#[trigger] occurs_at(t, seq!['\n'], k) by {
        assert(t.subrange(k, k + 1)[0] == t[k]);
        assert(t[k] == header_chars()[k]);
    }
    assert(t.subrange(45, 46) =~= seq!['\n']);
    lemma_find_first(t, seq!['\n'], 39, 45);
    let body = g + e;
    assert(strip_begin(t) =~= body);
    // The first `@end` after that is the last one.
    assert forall|k: int| 0 <= k < g.len() implies !#[trigger] occurs_at(body, end_marker(), k) by {
        if occurs_at(body, end_marker(), k) {
            assert(body.subrange(k, k + 4)[0] == body[k]);
            assert(body.subrange(k, k + 4)[1] == body[k + 1]);
            assert(body[k] == g[k]);
            assert(g[k] == '@');
            assert(body[k + 1] == g[k + 1]);
        }
    }
    assert(body.subrange(g.len() as int, g.len() + 4int) =~= end_marker());
    lemma_find_first(body, end_marker(), 0, g.len() as int);
    assert(body.subrange(0, g.len() as int) =~= g);
    assert(cut_end(body) == g);
    assert(preprocessed(t) =~= h + g + "\n@end\n"@);
}

} // verus!
