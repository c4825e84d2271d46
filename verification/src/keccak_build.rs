//! The wire lists that the compiled Keccak-f circuit is built from.
//!
//! The compiled circuit is made of prototypes that read the wires of their
//! inputs: the constant one, the fixed values (input bits, then the AND
//! values) and the outputs of the blocks of linear gates. The functions
//! here turn the grouping of `keccak::schedule_xors` into the lists of
//! wires that each prototype reads.

use vstd::prelude::*;

use crate::keccak::{fixed_wire, is_linear, operands, reads_earlier, valid_schedule, Circuit, KeccakWire, WireBody};

verus! {

/// A wire read by a prototype: one of its own outputs, or wire `index` of
/// its input number `input`.
#[derive(Clone, Copy, Debug, PartialEq, Eq, Structural)]
pub enum ProtoWire {
    Own(usize),
    Input(usize, usize),
}

/// Where the block prototype (inputs: the constant one, then the fixed
/// values) reads a wire: the constant is input 0, a fixed value input 1,
/// and the result of a pair one of its own outputs.
pub open spec fn xor_source(w: KeccakWire) -> ProtoWire {
    match w {
        KeccakWire::ConstOne => ProtoWire::Input(0, 0),
        KeccakWire::XorOutput(i) => ProtoWire::Own(i),
        KeccakWire::FixOutput(i) => ProtoWire::Input(1, i),
    }
}

/// Where a prototype whose inputs `fixed` and `xors` are the fixed values
/// and the block results reads a wire other than the constant.
pub open spec fn value_source(w: KeccakWire, fixed: usize, xors: usize) -> ProtoWire {
    match w {
        KeccakWire::XorOutput(j) => ProtoWire::Input(xors, j),
        KeccakWire::FixOutput(j) => ProtoWire::Input(fixed, j),
        KeccakWire::ConstOne => ProtoWire::Input(0, 0),
    }
}

/// A valid schedule puts no wire on the constant one: a linear wire is the
/// result of a pair, an input or AND wire a fixed value.
pub proof fn law_schedule_avoids_constant(
    ws: Seq<WireBody>,
    pairs: Seq<(KeccakWire, KeccakWire)>,
    mp: Seq<KeccakWire>,
)
    requires
        valid_schedule(ws, pairs, mp),
    ensures
        forall|j: int| 0 <= j < mp.len() ==> !(#[trigger] mp[j] is ConstOne),
{
    assert forall|j: int| 0 <= j < mp.len() implies !(#[trigger] mp[j] is ConstOne) by {
        if is_linear(ws[j]) {
            assert(mp[j] is XorOutput);
        } else {
            assert(mp[j] == fixed_wire(ws, j));
        }
    }
}

/// For each AND wire `i = x & y`, in order, where its operands and its
/// value are read (inputs: the fixed values, then the block results).
pub open spec fn and_triples(ws: Seq<WireBody>, mp: Seq<KeccakWire>) -> Seq<Seq<ProtoWire>>
    decreases ws.len(),
{
    if ws.len() == 0 {
        Seq::empty()
    } else {
        let rest = and_triples(ws.drop_last(), mp);
        let i = ws.len() - 1;
        match ws.last() {
            WireBody::And(x, y) => rest.push(
                seq![value_source(mp[x as int], 0, 1), value_source(mp[y as int], 0, 1), value_source(mp[i], 0, 1)],
            ),
            _ => rest,
        }
    }
}

fn xor_source_of(w: KeccakWire) -> (p: ProtoWire)
    ensures
        p == xor_source(w),
{
    match w {
        KeccakWire::ConstOne => ProtoWire::Input(0, 0),
        KeccakWire::XorOutput(i) => ProtoWire::Own(i),
        KeccakWire::FixOutput(i) => ProtoWire::Input(1, i),
    }
}

fn value_source_of(w: KeccakWire, fixed: usize, xors: usize) -> (p: ProtoWire)
    requires
        !(w is ConstOne),
    ensures
        p == value_source(w, fixed, xors),
{
    match w {
        KeccakWire::XorOutput(j) => ProtoWire::Input(xors, j),
        KeccakWire::FixOutput(j) => ProtoWire::Input(fixed, j),
        KeccakWire::ConstOne => ProtoWire::Input(0, 0),
    }
}

/// Where the block prototype reads the two wires of a pair.
fn xor_pair(p: (KeccakWire, KeccakWire)) -> (r: [ProtoWire; 2])
    ensures
        r@ == seq![xor_source(p.0), xor_source(p.1)],
{
    let r = [xor_source_of(p.0), xor_source_of(p.1)];
    assert(r@ =~= seq![xor_source(p.0), xor_source(p.1)]);
    r
}

/// The pairs that the block prototype adds, block by block: the constant
/// one is its input 0, a fixed value its input 1, the result of a pair its
/// own output.
pub fn xor_wires(xors: &Vec<[(KeccakWire, KeccakWire); 4]>) -> (r: Vec<[[ProtoWire; 2]; 4]>)
    ensures
        r@.len() == xors@.len(),
        forall|k: int, q: int|
            0 <= k < xors@.len() && 0 <= q < 4 ==> (#[trigger] r@[k][q])@ == seq![
                xor_source(xors@[k][q].0),
                xor_source(xors@[k][q].1),
            ],
{
    let mut r: Vec<[[ProtoWire; 2]; 4]> = Vec::new();
    let mut k: usize = 0;
    while k < xors.len()
        invariant
            k <= xors@.len(),
            r@.len() == k,
            forall|a: int, q: int|
                0 <= a < k && 0 <= q < 4 ==> (#[trigger] r@[a][q])@ == seq![
                    xor_source(xors@[a][q].0),
                    xor_source(xors@[a][q].1),
                ],
        decreases xors.len() - k,
    {
        let e = xors[k];
        let block = [xor_pair(e[0]), xor_pair(e[1]), xor_pair(e[2]), xor_pair(e[3])];
        r.push(block);
        proof {
            assert forall|a: int, q: int| 0 <= a < k + 1 && 0 <= q < 4 implies (#[trigger] r@[a][q])@ == seq![
                xor_source(xors@[a][q].0),
                xor_source(xors@[a][q].1),
            ] by {
                if a == k {
                    assert(e == xors@[a]);
                    assert(r@[a] == block);
                }
            }
        }
        k = k + 1;
    }
    r
}

/// For each AND wire, in order, where the multiplication check reads its
/// two operands and its value: the fixed values are its input 0, the block
/// results its input 1.
pub fn multiply_wires(c: &Circuit, mapping: &Vec<KeccakWire>) -> (r: Vec<[ProtoWire; 3]>)
    requires
        reads_earlier(c.wires@),
        mapping@.len() == c.wires@.len(),
        forall|j: int| 0 <= j < mapping@.len() ==> !(#[trigger] mapping@[j] is ConstOne),
    ensures
        r@.map_values(|t: [ProtoWire; 3]| t@) == and_triples(c.wires@, mapping@),
{
    let ghost ws = c.wires@;
    let ghost mp = mapping@;
    let mut r: Vec<[ProtoWire; 3]> = Vec::new();
    let mut i: usize = 0;
    assert(ws.take(0) =~= Seq::<WireBody>::empty());
    assert(r@.map_values(|t: [ProtoWire; 3]| t@) =~= and_triples(ws.take(0), mp));
    while i < c.wires.len()
        invariant
            ws == c.wires@,
            mp == mapping@,
            i <= ws.len(),
            reads_earlier(ws),
            mp.len() == ws.len(),
            forall|j: int| 0 <= j < mp.len() ==> !(#[trigger] mp[j] is ConstOne),
            r@.map_values(|t: [ProtoWire; 3]| t@) == and_triples(ws.take(i as int), mp),
        decreases ws.len() - i,
    {
        let ghost before = r@.map_values(|t: [ProtoWire; 3]| t@);
        proof {
            let t = ws.take(i as int + 1);
            assert(t.drop_last() =~= ws.take(i as int));
            assert(t.last() == ws[i as int]);
        }
        match c.wires[i] {
            WireBody::And(x, y) => {
                assert(x < i && y < i) by {
                    let ops = operands(ws[i as int]);
                    assert(ops[0] < i);
                    assert(ops[ops.len() - 1] < i);
                }
                let triple = [
                    value_source_of(mapping[x], 0, 1),
                    value_source_of(mapping[y], 0, 1),
                    value_source_of(mapping[i], 0, 1),
                ];
                r.push(triple);
                assert(r@.map_values(|t: [ProtoWire; 3]| t@) =~= before.push(triple@));
                assert(triple@ =~= seq![
                    value_source(mp[x as int], 0, 1),
                    value_source(mp[y as int], 0, 1),
                    value_source(mp[i as int], 0, 1),
                ]);
            },
            _ => {},
        }
        i = i + 1;
        assert(r@.map_values(|t: [ProtoWire; 3]| t@) =~= and_triples(ws.take(i as int), mp));
    }
    assert(ws.take(ws.len() as int) =~= ws);
    r
}

/// For each output `o` of a circuit copy, in order, the pair that chains it
/// to the next copy: input bit `i` of the next copy (input 2) and the value
/// of `o` (inputs 0 and 1: the fixed values and the block results).
pub fn chaining_wires(outputs: &Vec<usize>, mapping: &Vec<KeccakWire>) -> (r: Vec<[ProtoWire; 2]>)
    requires
        forall|i: int| 0 <= i < outputs@.len() ==> #[trigger] outputs@[i] < mapping@.len(),
        forall|j: int| 0 <= j < mapping@.len() ==> !(#[trigger] mapping@[j] is ConstOne),
    ensures
        r@.len() == outputs@.len(),
        forall|i: int|
            0 <= i < outputs@.len() ==> (#[trigger] r@[i])@ == seq![
                ProtoWire::Input(2, i as usize),
                value_source(mapping@[outputs@[i] as int], 0, 1),
            ],
{
    let mut r: Vec<[ProtoWire; 2]> = Vec::new();
    let mut i: usize = 0;
    while i < outputs.len()
        invariant
            i <= outputs@.len(),
            r@.len() == i,
            forall|k: int| 0 <= k < outputs@.len() ==> #[trigger] outputs@[k] < mapping@.len(),
            forall|j: int| 0 <= j < mapping@.len() ==> !(#[trigger] mapping@[j] is ConstOne),
            forall|k: int|
                0 <= k < i ==> (#[trigger] r@[k])@ == seq![
                    ProtoWire::Input(2, k as usize),
                    value_source(mapping@[outputs@[k] as int], 0, 1),
                ],
        decreases outputs.len() - i,
    {
        let o = outputs[i];
        let pair = [ProtoWire::Input(2, i), value_source_of(mapping[o], 0, 1)];
        assert(pair@ =~= seq![ProtoWire::Input(2, i), value_source(mapping@[outputs@[i as int] as int], 0, 1)]);
        r.push(pair);
        i = i + 1;
    }
    r
}

/// For each output `o` of the last copy, in order, the pair that compares
/// it with the expected bit `i` (input 0): the value of `o` from inputs 1
/// and 2 (the fixed values and the block results).
pub fn expected_value_wires(outputs: &Vec<usize>, mapping: &Vec<KeccakWire>) -> (r: Vec<[ProtoWire; 2]>)
    requires
        forall|i: int| 0 <= i < outputs@.len() ==> #[trigger] outputs@[i] < mapping@.len(),
        forall|j: int| 0 <= j < mapping@.len() ==> !(#[trigger] mapping@[j] is ConstOne),
    ensures
        r@.len() == outputs@.len(),
        forall|i: int|
            0 <= i < outputs@.len() ==> (#[trigger] r@[i])@ == seq![
                ProtoWire::Input(0, i as usize),
                value_source(mapping@[outputs@[i] as int], 1, 2),
            ],
{
    let mut r: Vec<[ProtoWire; 2]> = Vec::new();
    let mut i: usize = 0;
    while i < outputs.len()
        invariant
            i <= outputs@.len(),
            r@.len() == i,
            forall|k: int| 0 <= k < outputs@.len() ==> #[trigger] outputs@[k] < mapping@.len(),
            forall|j: int| 0 <= j < mapping@.len() ==> !(#[trigger] mapping@[j] is ConstOne),
            forall|k: int|
                0 <= k < i ==> (#[trigger] r@[k])@ == seq![
                    ProtoWire::Input(0, k as usize),
                    value_source(mapping@[outputs@[k] as int], 1, 2),
                ],
        decreases outputs.len() - i,
    {
        let o = outputs[i];
        let pair = [ProtoWire::Input(0, i), value_source_of(mapping[o], 1, 2)];
        assert(pair@ =~= seq![ProtoWire::Input(0, i), value_source(mapping@[outputs@[i as int] as int], 1, 2)]);
        r.push(pair);
        i = i + 1;
    }
    r
}

} // verus!
