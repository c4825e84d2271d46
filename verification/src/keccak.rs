//! The Keccak-f circuit as a list of wires, each defined by a body over
//! earlier wires, together with the bookkeeping that the compilation of the
//! circuit needs: who reads each wire, chained copies of the circuit, its
//! evaluation, and the grouping of its linear gates into blocks of four.

use vstd::prelude::*;

use crate::bristol::is_word3;
use crate::text::{
    ascii_tokens, chars_of, parse_usize, parse_usize_chars, split_at_newlines, split_newlines,
    split_tokens_by, trim, trim_chars, views,
};

verus! {

/// The number of input bits of the Keccak-f permutation.
pub const NUM_INPUTS: usize = 1600;

/// How a wire is computed.
#[derive(Clone, Copy, Debug, PartialEq, Eq, Structural)]
pub enum WireBody {
    Inv(usize),
    Xor(usize, usize),
    And(usize, usize),
    Input(usize),
}

/// The wires that a body reads, each once.
pub open spec fn operands(b: WireBody) -> Seq<usize> {
    match b {
        WireBody::Inv(x) => seq![x],
        WireBody::Xor(a, c) => if a == c {
            seq![a]
        } else {
            seq![a, c]
        },
        WireBody::And(a, c) => if a == c {
            seq![a]
        } else {
            seq![a, c]
        },
        WireBody::Input(_) => Seq::empty(),
    }
}

/// The wires among `ws` that read wire `x`, in increasing order.
pub open spec fn readers(ws: Seq<WireBody>, x: usize) -> Seq<usize>
    decreases ws.len(),
{
    if ws.len() == 0 {
        Seq::empty()
    } else if operands(ws.last()).contains(x) {
        readers(ws.drop_last(), x).push((ws.len() - 1) as usize)
    } else {
        readers(ws.drop_last(), x)
    }
}

/// A circuit: its wires, for each wire the wires that read it, and the
/// output wires.
#[derive(Clone, Debug)]
pub struct Circuit {
    pub wires: Vec<WireBody>,
    pub reverse_deps: Vec<Vec<usize>>,
    pub outputs: Vec<usize>,
}

impl Circuit {
    /// `reverse_deps` lists, for each wire, the wires that read it, and no
    /// wire reads a wire after it.
    pub open spec fn well_formed(&self) -> bool {
        &&& self.reverse_deps@.len() == self.wires@.len()
        &&& forall|x: int|
            0 <= x < self.wires@.len() ==> (#[trigger] self.reverse_deps@[x])@ == readers(
                self.wires@,
                x as usize,
            )
        &&& forall|i: int, j: int|
            0 <= i < self.wires@.len() && 0 <= j < operands(self.wires@[i]).len() ==> #[trigger] operands(
                self.wires@[i],
            )[j] <= i
    }

    /// Every wire reads only earlier wires, and every output is a wire.
    pub open spec fn acyclic(&self) -> bool {
        &&& reads_earlier(self.wires@)
        &&& outputs_within(self.outputs@, self.wires@.len())
    }

    /// A circuit with no wire.
    pub fn new() -> (c: Self)
        ensures
            c.well_formed(),
            c.acyclic(),
            c.wires@ == Seq::<WireBody>::empty(),
            c.outputs@ == Seq::<usize>::empty(),
    {
        Circuit { wires: Vec::new(), reverse_deps: Vec::new(), outputs: Vec::new() }
    }
}

proof fn lemma_readers_push(ws: Seq<WireBody>, b: WireBody, x: usize)
    requires
        ws.len() < usize::MAX,
    ensures
        readers(ws.push(b), x) == if operands(b).contains(x) {
            readers(ws, x).push(ws.len() as usize)
        } else {
            readers(ws, x)
        },
{
    assert(ws.push(b).drop_last() =~= ws);
}

/// A wire with no reader yet has an empty list.
proof fn lemma_readers_fresh(ws: Seq<WireBody>, x: usize)
    requires
        forall|i: int, j: int|
            0 <= i < ws.len() && 0 <= j < operands(ws[i]).len() ==> #[trigger] operands(ws[i])[j] <= i,
        x >= ws.len(),
    ensures
        readers(ws, x) == Seq::<usize>::empty(),
    decreases ws.len(),
{
    if ws.len() > 0 {
        let d = ws.drop_last();
        assert forall|i: int, j: int|
            0 <= i < d.len() && 0 <= j < operands(d[i]).len() implies #[trigger] operands(d[i])[j] <= i by {
            assert(d[i] == ws[i]);
        }
        lemma_readers_fresh(d, x);
        if operands(ws.last()).contains(x) {
            let j = choose|j: int| 0 <= j < operands(ws.last()).len() && operands(ws.last())[j] == x;
            assert(operands(ws[ws.len() - 1])[j] <= ws.len() - 1);
        }
    }
}

impl Circuit {
    /// Appends a wire with body `body` and returns its index; the new wire
    /// has no reader yet and is listed once among the readers of each wire
    /// it reads.
    pub fn add_wire(&mut self, body: WireBody) -> (out: usize)
        requires
            old(self).reverse_deps@.len() == old(self).wires@.len(),
            forall|j: int|
                0 <= j < operands(body).len() ==> #[trigger] operands(body)[j] <= old(self).wires@.len(),
            old(self).wires@.len() < usize::MAX,
        ensures
            out == old(self).wires@.len(),
            final(self).wires@ == old(self).wires@.push(body),
            final(self).outputs@ == old(self).outputs@,
            final(self).reverse_deps@.len() == final(self).wires@.len(),
            forall|x: int|
                0 <= x <= out ==> (#[trigger] final(self).reverse_deps@[x])@ == (if x < out {
                    old(self).reverse_deps@[x]@
                } else {
                    Seq::<usize>::empty()
                }) + (if operands(body).contains(x as usize) {
                    seq![out]
                } else {
                    Seq::<usize>::empty()
                }),
            old(self).well_formed() ==> final(self).well_formed(),
    {
        let out = self.wires.len();
        let ghost ws = self.wires@;
        let ghost ws2 = ws.push(body);
        let ghost rd0 = self.reverse_deps@;
        let ghost wf0 = self.well_formed();
        self.reverse_deps.push(Vec::new());
        let ghost rd1 = self.reverse_deps@;
        match body {
            WireBody::Inv(x) => {
                assert(operands(body)[0] == x);
                self.reverse_deps[x].push(out);
            },
            WireBody::Xor(a, b) => {
                assert(operands(body)[0] == a);
                self.reverse_deps[a].push(out);
                if a != b {
                    assert(operands(body)[1] == b);
                    self.reverse_deps[b].push(out);
                }
            },
            WireBody::And(a, b) => {
                assert(operands(body)[0] == a);
                self.reverse_deps[a].push(out);
                if a != b {
                    assert(operands(body)[1] == b);
                    self.reverse_deps[b].push(out);
                }
            },
            WireBody::Input(_) => {},
        }
        self.wires.push(body);
        assert forall|x: int| 0 <= x <= out implies (#[trigger] self.reverse_deps@[x])@ == (if x < out {
            rd0[x]@
        } else {
            Seq::<usize>::empty()
        }) + (if operands(body).contains(x as usize) {
            seq![out]
        } else {
            Seq::<usize>::empty()
        }) by {
            assert(rd1[x]@ == if x < out {
                rd0[x]@
            } else {
                Seq::<usize>::empty()
            });
            if operands(body).contains(x as usize) {
                let j = choose|j: int| 0 <= j < operands(body).len() && operands(body)[j] == x as usize;
                assert(self.reverse_deps@[x]@ =~= rd1[x]@.push(out));
            } else {
                match body {
                    WireBody::Inv(y) => {
                        assert(operands(body)[0] == y);
                    },
                    WireBody::Xor(a, b) => {
                        assert(operands(body)[0] == a);
                        assert(operands(body)[operands(body).len() - 1] == b);
                    },
                    WireBody::And(a, b) => {
                        assert(operands(body)[0] == a);
                        assert(operands(body)[operands(body).len() - 1] == b);
                    },
                    WireBody::Input(_) => {},
                }
                assert(self.reverse_deps@[x]@ =~= rd1[x]@);
            }
        }
        proof {
            if wf0 {
                lemma_readers_fresh(ws, out);
                assert forall|x: int| 0 <= x < ws2.len() implies (#[trigger] self.reverse_deps@[x])@ == readers(
                    ws2,
                    x as usize,
                ) by {
                    lemma_readers_push(ws, body, x as usize);
                    assert(self.reverse_deps@[x]@ == (if x < out {
                        rd0[x]@
                    } else {
                        Seq::<usize>::empty()
                    }) + (if operands(body).contains(x as usize) {
                        seq![out]
                    } else {
                        Seq::<usize>::empty()
                    }));
                    if x < out {
                        assert(rd0[x]@ == readers(ws, x as usize));
                    }
                    if operands(body).contains(x as usize) {
                        assert(readers(ws, x as usize).push(out) =~= readers(ws, x as usize) + seq![out]);
                    } else {
                        assert(readers(ws, x as usize) + Seq::<usize>::empty() =~= readers(ws, x as usize));
                    }
                }
                assert forall|i: int, j: int|
                    0 <= i < ws2.len() && 0 <= j < operands(ws2[i]).len() implies #[trigger] operands(ws2[i])[j]
                    <= i by {
                    if i < ws.len() {
                        assert(ws2[i] == ws[i]);
                    }
                }
            }
        }
        out
    }
}

// ---------------------------------------------------------------------------
// Evaluation.

/// The value of a wire with body `b`, given the values `v` of the wires
/// before it and the input bits `m`.
pub open spec fn wire_value(b: WireBody, v: Seq<bool>, m: Seq<bool>) -> bool {
    match b {
        WireBody::Inv(x) => !v[x as int],
        WireBody::Xor(a, c) => v[a as int] != v[c as int],
        WireBody::And(a, c) => v[a as int] && v[c as int],
        WireBody::Input(i) => m[i as int],
    }
}

/// The values of the wires `ws` on the input bits `m`.
pub open spec fn eval_wires(ws: Seq<WireBody>, m: Seq<bool>) -> Seq<bool>
    decreases ws.len(),
{
    if ws.len() == 0 {
        Seq::empty()
    } else {
        let v = eval_wires(ws.drop_last(), m);
        v.push(wire_value(ws.last(), v, m))
    }
}

/// The values of the output wires `outs` of the wires `ws` on `m`.
pub open spec fn eval_outputs(ws: Seq<WireBody>, outs: Seq<usize>, m: Seq<bool>) -> Seq<bool> {
    outs.map_values(|o: usize| eval_wires(ws, m)[o as int])
}

/// Every wire reads only earlier wires.
pub open spec fn reads_earlier(ws: Seq<WireBody>) -> bool {
    forall|i: int, j: int|
        0 <= i < ws.len() && 0 <= j < operands(ws[i]).len() ==> #[trigger] operands(ws[i])[j] < i
}

/// Every output is one of the first `n` wires.
pub open spec fn outputs_within(outs: Seq<usize>, n: nat) -> bool {
    forall|k: int| 0 <= k < outs.len() ==> #[trigger] outs[k] < n
}

/// Every input wire reads one of the first `n` input bits.
pub open spec fn inputs_below(ws: Seq<WireBody>, n: nat) -> bool {
    forall|i: int| 0 <= i < ws.len() ==> (#[trigger] ws[i] matches WireBody::Input(x) ==> x < n)
}

proof fn lemma_eval_len(ws: Seq<WireBody>, m: Seq<bool>)
    ensures
        eval_wires(ws, m).len() == ws.len(),
    decreases ws.len(),
{
    if ws.len() > 0 {
        lemma_eval_len(ws.drop_last(), m);
    }
}

/// Evaluating more wires does not change the values of the earlier ones.
proof fn lemma_eval_prefix(ws: Seq<WireBody>, m: Seq<bool>, k: int)
    requires
        0 <= k <= ws.len(),
    ensures
        eval_wires(ws.take(k), m) == eval_wires(ws, m).take(k),
    decreases ws.len() - k,
{
    lemma_eval_len(ws, m);
    if k == ws.len() {
        assert(ws.take(k) =~= ws);
        assert(eval_wires(ws, m).take(k) =~= eval_wires(ws, m));
    } else {
        lemma_eval_prefix(ws.drop_last(), m, k);
        assert(ws.drop_last().take(k) =~= ws.take(k));
        lemma_eval_len(ws.drop_last(), m);
        assert(eval_wires(ws.drop_last(), m).take(k) =~= eval_wires(ws, m).take(k));
    }
}

/// The values of the wires of `c` on the input bits `m`.
pub fn evaluate(c: &Circuit, m: &[bool]) -> (values: Vec<bool>)
    requires
        reads_earlier(c.wires@),
        inputs_below(c.wires@, m@.len()),
    ensures
        values@ == eval_wires(c.wires@, m@),
{
    let ghost ws = c.wires@;
    let mut values: Vec<bool> = Vec::new();
    let mut i: usize = 0;
    assert(ws.take(0) =~= Seq::<WireBody>::empty());
    while i < c.wires.len()
        invariant
            i <= ws.len(),
            ws == c.wires@,
            reads_earlier(ws),
            inputs_below(ws, m@.len()),
            values@ == eval_wires(ws.take(i as int), m@),
        decreases c.wires.len() - i,
    {
        proof {
            lemma_eval_len(ws.take(i as int), m@);
            assert(ws.take(i + 1).drop_last() =~= ws.take(i as int));
        }
        let v = match c.wires[i] {
            WireBody::Inv(x) => {
                assert(operands(ws[i as int])[0] == x);
                !values[x]
            },
            WireBody::Xor(a, b) => {
                assert(operands(ws[i as int])[0] == a);
                assert(a == b || operands(ws[i as int])[1] == b);
                values[a] != values[b]
            },
            WireBody::And(a, b) => {
                assert(operands(ws[i as int])[0] == a);
                assert(a == b || operands(ws[i as int])[1] == b);
                values[a] && values[b]
            },
            WireBody::Input(x) => m[x],
        };
        values.push(v);
        i = i + 1;
    }
    assert(ws.take(ws.len() as int) =~= ws);
    values
}

// ---------------------------------------------------------------------------
// Chained copies.

/// Copies the first `n` wires of `sw` after `base` existing wires: an input
/// wire becomes the earlier wire `prev[i]`, every other wire a new wire over
/// the copies of its operands. Gives the new wires and where each of the `n`
/// wires went.
pub open spec fn copy_wires(sw: Seq<WireBody>, n: nat, prev: Seq<usize>, base: nat) -> (
    Seq<WireBody>,
    Seq<usize>,
)
    decreases n,
{
    if n == 0 {
        (Seq::empty(), Seq::empty())
    } else {
        let (added, map) = copy_wires(sw, (n - 1) as nat, prev, base);
        let here = (base + added.len()) as usize;
        match sw[n - 1] {
            WireBody::Inv(x) => (added.push(WireBody::Inv(map[x as int])), map.push(here)),
            WireBody::Xor(a, c) => (
                added.push(WireBody::Xor(map[a as int], map[c as int])),
                map.push(here),
            ),
            WireBody::And(a, c) => (
                added.push(WireBody::And(map[a as int], map[c as int])),
                map.push(here),
            ),
            WireBody::Input(i) => (added, map.push(prev[i as int])),
        }
    }
}

/// The wires and outputs of `k` chained copies of the circuit with wires
/// `sw` and outputs `so`: the inputs of each copy are the outputs of the one
/// before.
pub open spec fn chain(sw: Seq<WireBody>, so: Seq<usize>, k: nat) -> (Seq<WireBody>, Seq<usize>)
    decreases k,
{
    if k <= 1 {
        (sw, so)
    } else {
        let (ws, outs) = chain(sw, so, (k - 1) as nat);
        let (added, map) = copy_wires(sw, sw.len(), outs, ws.len());
        (ws + added, so.map_values(|o: usize| map[o as int]))
    }
}

/// The outputs of the circuit applied `k` times in a row to `m`.
pub open spec fn iterate_outputs(sw: Seq<WireBody>, so: Seq<usize>, m: Seq<bool>, k: nat) -> Seq<
    bool,
>
    decreases k,
{
    if k <= 1 {
        eval_outputs(sw, so, m)
    } else {
        eval_outputs(sw, so, iterate_outputs(sw, so, m, (k - 1) as nat))
    }
}

/// The shape of a copy: it adds at most one wire per copied wire, every
/// copied wire lands on an existing or a new wire, and the new wires read
/// only earlier wires.
proof fn lemma_copy_shape(sw: Seq<WireBody>, n: nat, prev: Seq<usize>, base: Seq<WireBody>)
    requires
        n <= sw.len(),
        reads_earlier(sw),
        reads_earlier(base),
        inputs_below(sw, prev.len()),
        outputs_within(prev, base.len()),
        base.len() + n <= usize::MAX,
    ensures
        ({
            let (added, map) = copy_wires(sw, n, prev, base.len());
            &&& added.len() <= n
            &&& map.len() == n
            &&& forall|w: int| 0 <= w < n ==> #[trigger] map[w] < base.len() + added.len()
            &&& reads_earlier(base + added)
        }),
    decreases n,
{
    if n > 0 {
        lemma_copy_shape(sw, (n - 1) as nat, prev, base);
        let (added, map) = copy_wires(sw, (n - 1) as nat, prev, base.len());
        let here = base.len() + added.len();
        let b = sw[n - 1];
        let (added2, map2) = copy_wires(sw, n, prev, base.len());
        if !(b is Input) {
            assert forall|j: int| 0 <= j < operands(b).len() implies #[trigger] operands(b)[j] < n - 1 by {
            }
            let nb = added2.last();
            assert(base + added2 == (base + added).push(nb));
            assert forall|j: int| 0 <= j < operands(nb).len() implies #[trigger] operands(nb)[j] < here by {
                match b {
                    WireBody::Inv(x) => {
                        assert(operands(b)[0] == x);
                    },
                    WireBody::Xor(a, c) => {
                        assert(operands(b)[0] == a);
                        assert(a == c || operands(b)[1] == c);
                    },
                    WireBody::And(a, c) => {
                        assert(operands(b)[0] == a);
                        assert(a == c || operands(b)[1] == c);
                    },
                    WireBody::Input(_) => {},
                }
            }
            let all = base + added2;
            assert forall|i: int, j: int|
                0 <= i < all.len() && 0 <= j < operands(all[i]).len() implies #[trigger] operands(
                all[i],
            )[j] < i by {
                if i < all.len() - 1 {
                    assert(all[i] == (base + added)[i]);
                }
            }
        } else {
            assert(added2 == added);
        }
        assert forall|w: int| 0 <= w < n implies #[trigger] map2[w] < base.len() + added2.len() by {
            if w < n - 1 {
                assert(map2[w] == map[w]);
            }
        }
    }
}

/// The shape of chained copies: they read only earlier wires, their outputs
/// are wires, as many as those of one copy, and `k` copies have at most `k`
/// times as many wires as one.
proof fn lemma_chain_shape(sw: Seq<WireBody>, so: Seq<usize>, k: nat)
    requires
        k >= 1,
        reads_earlier(sw),
        outputs_within(so, sw.len()),
        inputs_below(sw, so.len()),
        k * sw.len() <= usize::MAX,
    ensures
        reads_earlier(chain(sw, so, k).0),
        outputs_within(chain(sw, so, k).1, chain(sw, so, k).0.len()),
        chain(sw, so, k).1.len() == so.len(),
        chain(sw, so, k).0.len() <= k * sw.len(),
    decreases k,
{
    if k > 1 {
        assert((k - 1) * sw.len() <= k * sw.len()) by (nonlinear_arith)
            requires
                k >= 1,
        ;
        lemma_chain_shape(sw, so, (k - 1) as nat);
        let (ws, outs) = chain(sw, so, (k - 1) as nat);
        assert(ws.len() + sw.len() <= k * sw.len()) by (nonlinear_arith)
            requires
                ws.len() <= (k - 1) * sw.len(),
        ;
        lemma_copy_shape(sw, sw.len(), outs, ws);
        let (added, map) = copy_wires(sw, sw.len(), outs, ws.len());
        assert forall|j: int| 0 <= j < so.len() implies #[trigger] chain(sw, so, k).1[j] < chain(
            sw,
            so,
            k,
        ).0.len() by {
            assert(chain(sw, so, k).1[j] == map[so[j] as int]);
        }
    } else {
        assert(k * sw.len() == sw.len()) by (nonlinear_arith)
            requires
                k == 1,
        ;
    }
}

fn copy_usizes(v: &Vec<usize>) -> (r: Vec<usize>)
    ensures
        r@ == v@,
{
    let mut r: Vec<usize> = Vec::new();
    let mut i: usize = 0;
    while i < v.len()
        invariant
            i <= v@.len(),
            r@ == v@.take(i as int),
        decreases v.len() - i,
    {
        r.push(v[i]);
        i = i + 1;
        assert(r@ =~= v@.take(i as int));
    }
    assert(v@.take(v@.len() as int) =~= v@);
    r
}

impl Circuit {
    /// A copy of the circuit.
    pub fn duplicate(&self) -> (c: Self)
        ensures
            c.wires@ == self.wires@,
            c.outputs@ == self.outputs@,
            c.reverse_deps@.len() == self.reverse_deps@.len(),
            forall|x: int| 0 <= x < c.reverse_deps@.len() ==> (#[trigger] c.reverse_deps@[x])@ == self.reverse_deps@[x]@,
    {
        let mut wires: Vec<WireBody> = Vec::new();
        let mut i: usize = 0;
        while i < self.wires.len()
            invariant
                i <= self.wires@.len(),
                wires@ == self.wires@.take(i as int),
            decreases self.wires.len() - i,
        {
            wires.push(self.wires[i]);
            i = i + 1;
            assert(wires@ =~= self.wires@.take(i as int));
        }
        assert(self.wires@.take(self.wires@.len() as int) =~= self.wires@);
        let mut reverse_deps: Vec<Vec<usize>> = Vec::new();
        let mut i: usize = 0;
        while i < self.reverse_deps.len()
            invariant
                i <= self.reverse_deps@.len(),
                reverse_deps@.len() == i,
                forall|x: int| 0 <= x < i ==> (#[trigger] reverse_deps@[x])@ == self.reverse_deps@[x]@,
            decreases self.reverse_deps.len() - i,
        {
            reverse_deps.push(copy_usizes(&self.reverse_deps[i]));
            i = i + 1;
        }
        Circuit { wires, reverse_deps, outputs: copy_usizes(&self.outputs) }
    }
}

/// Chains `keccak_per_group` copies of `single`: the inputs of each copy
/// are the outputs of the copy before, and the outputs are those of the
/// last copy.
pub fn chain_copies(single: &Circuit, keccak_per_group: usize) -> (circuit: Circuit)
    requires
        single.well_formed(),
        single.acyclic(),
        inputs_below(single.wires@, single.outputs@.len()),
        keccak_per_group >= 1,
        keccak_per_group * single.wires@.len() < usize::MAX,
    ensures
        circuit.well_formed(),
        circuit.acyclic(),
        circuit.wires@ == chain(single.wires@, single.outputs@, keccak_per_group as nat).0,
        circuit.outputs@ == chain(single.wires@, single.outputs@, keccak_per_group as nat).1,
{
    let ghost sw = single.wires@;
    let ghost so = single.outputs@;
    let mut circuit = single.duplicate();
    assert(circuit.well_formed());
    let mut r: usize = 1;
    while r < keccak_per_group
        invariant
            1 <= r <= keccak_per_group,
            sw == single.wires@,
            so == single.outputs@,
            reads_earlier(sw),
            outputs_within(so, sw.len()),
            inputs_below(sw, so.len()),
            keccak_per_group * sw.len() < usize::MAX,
            circuit.well_formed(),
            circuit.wires@ == chain(sw, so, r as nat).0,
            circuit.outputs@ == chain(sw, so, r as nat).1,
        decreases keccak_per_group - r,
    {
        proof {
            assert(r * sw.len() <= keccak_per_group * sw.len()) by (nonlinear_arith)
                requires
                    r <= keccak_per_group,
            ;
            lemma_chain_shape(sw, so, r as nat);
            assert((r + 1) * sw.len() <= keccak_per_group * sw.len()) by (nonlinear_arith)
                requires
                    r + 1 <= keccak_per_group,
            ;
            assert(circuit.wires@.len() + sw.len() <= (r + 1) * sw.len()) by (nonlinear_arith)
                requires
                    circuit.wires@.len() <= r * sw.len(),
            ;
        }
        let ghost base = circuit.wires@;
        let ghost prev = circuit.outputs@;
        let mut mapping: Vec<usize> = Vec::new();
        let mut w: usize = 0;
        while w < single.wires.len()
            invariant
                w <= sw.len(),
                sw == single.wires@,
                reads_earlier(sw),
                reads_earlier(base),
                inputs_below(sw, prev.len()),
                outputs_within(prev, base.len()),
                base.len() + sw.len() < usize::MAX,
                circuit.well_formed(),
                circuit.outputs@ == prev,
                circuit.wires@ == base + copy_wires(sw, w as nat, prev, base.len()).0,
                mapping@ == copy_wires(sw, w as nat, prev, base.len()).1,
            decreases single.wires.len() - w,
        {
            proof {
                lemma_copy_shape(sw, w as nat, prev, base);
            }
            assert forall|j: int| 0 <= j < operands(sw[w as int]).len() implies #[trigger] operands(
                sw[w as int],
            )[j] < w by {}
            let m = match single.wires[w] {
                WireBody::Inv(x) => {
                    assert(operands(sw[w as int])[0] == x);
                    let b = WireBody::Inv(mapping[x]);
                    assert(operands(b)[0] == mapping@[x as int]);
                    circuit.add_wire(b)
                },
                WireBody::Xor(x, y) => {
                    assert(operands(sw[w as int])[0] == x);
                    assert(x == y || operands(sw[w as int])[1] == y);
                    let b = WireBody::Xor(mapping[x], mapping[y]);
                    circuit.add_wire(b)
                },
                WireBody::And(x, y) => {
                    assert(operands(sw[w as int])[0] == x);
                    assert(x == y || operands(sw[w as int])[1] == y);
                    let b = WireBody::And(mapping[x], mapping[y]);
                    circuit.add_wire(b)
                },
                WireBody::Input(i) => circuit.outputs[i],
            };
            mapping.push(m);
            w = w + 1;
            proof {
                let (a1, m1) = copy_wires(sw, (w - 1) as nat, prev, base.len());
                let (a2, m2) = copy_wires(sw, w as nat, prev, base.len());
                assert(mapping@ =~= m2);
                assert(circuit.wires@ =~= base + a2);
            }
        }
        proof {
            lemma_copy_shape(sw, sw.len(), prev, base);
        }
        let mut outputs: Vec<usize> = Vec::new();
        let mut k: usize = 0;
        while k < single.outputs.len()
            invariant
                k <= so.len(),
                so == single.outputs@,
                outputs_within(so, sw.len()),
                mapping@.len() == sw.len(),
                outputs@ == so.take(k as int).map_values(|o: usize| mapping@[o as int]),
            decreases single.outputs.len() - k,
        {
            outputs.push(mapping[single.outputs[k]]);
            k = k + 1;
            assert(outputs@ =~= so.take(k as int).map_values(|o: usize| mapping@[o as int]));
        }
        assert(so.take(so.len() as int) =~= so);
        circuit.outputs = outputs;
        r = r + 1;
        assert(circuit.wires@ == chain(sw, so, r as nat).0);
        assert(circuit.outputs@ =~= chain(sw, so, r as nat).1);
    }
    proof {
        lemma_chain_shape(sw, so, keccak_per_group as nat);
    }
    circuit
}

/// The value of wire `w` is the value of its body over the wires before it.
proof fn lemma_eval_at(ws: Seq<WireBody>, m: Seq<bool>, w: int)
    requires
        0 <= w < ws.len(),
    ensures
        eval_wires(ws, m)[w] == wire_value(ws[w], eval_wires(ws, m).take(w), m),
{
    lemma_eval_prefix(ws, m, w + 1);
    lemma_eval_prefix(ws, m, w);
    lemma_eval_len(ws, m);
    assert(ws.take(w + 1).drop_last() =~= ws.take(w));
    assert(ws.take(w + 1).last() == ws[w]);
    assert(eval_wires(ws, m).take(w + 1)[w] == eval_wires(ws, m)[w]);
}

/// Each copied wire carries, in the chained circuit, the value that the
/// wire of the single circuit has when the inputs are the outputs of the copy before.
proof fn lemma_copy_values(
    sw: Seq<WireBody>,
    n: nat,
    outs: Seq<usize>,
    ws: Seq<WireBody>,
    m: Seq<bool>,
)
    requires
        n <= sw.len(),
        reads_earlier(sw),
        reads_earlier(ws),
        inputs_below(sw, outs.len()),
        outputs_within(outs, ws.len()),
        ws.len() + n <= usize::MAX,
    ensures
        ({
            let (added, map) = copy_wires(sw, n, outs, ws.len());
            forall|w: int|
                0 <= w < n ==> eval_wires(ws + added, m)[#[trigger] map[w] as int] == eval_wires(
                    sw,
                    eval_outputs(ws, outs, m),
                )[w]
        }),
    decreases n,
{
    if n > 0 {
        let p = eval_outputs(ws, outs, m);
        let s = eval_wires(sw, p);
        lemma_copy_values(sw, (n - 1) as nat, outs, ws, m);
        lemma_copy_shape(sw, (n - 1) as nat, outs, ws);
        let (a1, m1) = copy_wires(sw, (n - 1) as nat, outs, ws.len());
        let (a2, m2) = copy_wires(sw, n, outs, ws.len());
        let e1 = eval_wires(ws + a1, m);
        let e2 = eval_wires(ws + a2, m);
        lemma_eval_len(ws + a1, m);
        lemma_eval_len(sw, p);
        let w = n - 1;
        lemma_eval_at(sw, p, w);
        // The values before the new wire stay.
        if sw[w] is Input {
            assert(a2 == a1);
        } else {
            assert((ws + a2).drop_last() =~= ws + a1);
        }
        assert forall|j: int| 0 <= j < e1.len() implies e2[j] == e1[j] by {}
        match sw[w] {
            WireBody::Input(i) => {
                lemma_eval_prefix(ws + a1, m, ws.len() as int);
                assert((ws + a1).take(ws.len() as int) =~= ws);
                assert(outs[i as int] < ws.len());
                assert(e1[outs[i as int] as int] == eval_wires(ws, m)[outs[i as int] as int]);
            },
            WireBody::Inv(x) => {
                assert(operands(sw[w])[0] == x);
            },
            WireBody::Xor(a, c) => {
                assert(operands(sw[w])[0] == a);
                assert(a == c || operands(sw[w])[1] == c);
            },
            WireBody::And(a, c) => {
                assert(operands(sw[w])[0] == a);
                assert(a == c || operands(sw[w])[1] == c);
            },
        }
        assert forall|v: int| 0 <= v < n implies e2[#[trigger] m2[v] as int] == s[v] by {
            if v < n - 1 {
                assert(m2[v] == m1[v]);
            }
        }
    }
}

/// Chaining `k` copies of a circuit computes the circuit applied `k` times
/// in a row: the outputs of the chain are those of the last copy, fed with
/// the outputs of the copy before.
pub proof fn law_chain_iterates(sw: Seq<WireBody>, so: Seq<usize>, m: Seq<bool>, k: nat)
    requires
        k >= 1,
        reads_earlier(sw),
        outputs_within(so, sw.len()),
        inputs_below(sw, so.len()),
        k * sw.len() <= usize::MAX,
    ensures
        eval_outputs(chain(sw, so, k).0, chain(sw, so, k).1, m) == iterate_outputs(sw, so, m, k),
    decreases k,
{
    if k > 1 {
        assert((k - 1) * sw.len() <= k * sw.len()) by (nonlinear_arith)
            requires
                k >= 1,
        ;
        law_chain_iterates(sw, so, m, (k - 1) as nat);
        lemma_chain_shape(sw, so, (k - 1) as nat);
        let (ws, outs) = chain(sw, so, (k - 1) as nat);
        assert(ws.len() + sw.len() <= k * sw.len()) by (nonlinear_arith)
            requires
                ws.len() <= (k - 1) * sw.len(),
        ;
        lemma_copy_values(sw, sw.len(), outs, ws, m);
        let (added, map) = copy_wires(sw, sw.len(), outs, ws.len());
        let p = eval_outputs(ws, outs, m);
        assert(eval_outputs(chain(sw, so, k).0, chain(sw, so, k).1, m) =~= eval_outputs(sw, so, p));
    }
}

// ---------------------------------------------------------------------------
// The fixed values: input bits, then the value of every AND wire.

/// The values `v[i]` of the AND wires among `ws`, in order.
pub open spec fn and_values(ws: Seq<WireBody>, v: Seq<bool>) -> Seq<bool>
    decreases ws.len(),
{
    if ws.len() == 0 {
        Seq::empty()
    } else if ws.last() is And {
        and_values(ws.drop_last(), v).push(v[ws.len() - 1])
    } else {
        and_values(ws.drop_last(), v)
    }
}

/// The number of AND wires among `ws`.
pub open spec fn count_ands(ws: Seq<WireBody>) -> nat
    decreases ws.len(),
{
    if ws.len() == 0 {
        0
    } else if ws.last() is And {
        count_ands(ws.drop_last()) + 1
    } else {
        count_ands(ws.drop_last())
    }
}

/// The input bits `start` followed by the values of the AND wires of `c`,
/// evaluated on `start`.
pub fn fix_data(c: &Circuit, start: &[bool]) -> (fix: Vec<bool>)
    requires
        reads_earlier(c.wires@),
        inputs_below(c.wires@, start@.len()),
    ensures
        fix@ == start@ + and_values(c.wires@, eval_wires(c.wires@, start@)),
{
    let ghost ws = c.wires@;
    let ghost vals = eval_wires(ws, start@);
    let mut fix: Vec<bool> = Vec::new();
    let mut i: usize = 0;
    while i < start.len()
        invariant
            i <= start@.len(),
            fix@ == start@.take(i as int),
        decreases start.len() - i,
    {
        fix.push(start[i]);
        i = i + 1;
        assert(fix@ =~= start@.take(i as int));
    }
    assert(start@.take(start@.len() as int) =~= start@);
    let mut values: Vec<bool> = Vec::new();
    let mut i: usize = 0;
    assert(ws.take(0) =~= Seq::<WireBody>::empty());
    assert(start@ + and_values(ws.take(0), vals) =~= start@);
    proof {
        lemma_eval_len(ws, start@);
    }
    while i < c.wires.len()
        invariant
            i <= ws.len(),
            ws == c.wires@,
            vals == eval_wires(ws, start@),
            vals.len() == ws.len(),
            reads_earlier(ws),
            inputs_below(ws, start@.len()),
            values@ == vals.take(i as int),
            fix@ == start@ + and_values(ws.take(i as int), vals),
        decreases c.wires.len() - i,
    {
        proof {
            lemma_eval_at(ws, start@, i as int);
            assert(ws.take(i + 1).drop_last() =~= ws.take(i as int));
            assert(ws.take(i + 1).last() == ws[i as int]);
            assert(vals.take(i as int) == values@);
        }
        let v = match c.wires[i] {
            WireBody::Inv(x) => {
                assert(operands(ws[i as int])[0] == x);
                !values[x]
            },
            WireBody::Xor(a, b) => {
                assert(operands(ws[i as int])[0] == a);
                assert(a == b || operands(ws[i as int])[1] == b);
                values[a] != values[b]
            },
            WireBody::And(a, b) => {
                assert(operands(ws[i as int])[0] == a);
                assert(a == b || operands(ws[i as int])[1] == b);
                let v = values[a] && values[b];
                fix.push(v);
                v
            },
            WireBody::Input(x) => {
                assert(x < start@.len());
                fix[x]
            },
        };
        values.push(v);
        i = i + 1;
        assert(values@ =~= vals.take(i as int));
        assert(fix@ =~= start@ + and_values(ws.take(i as int), vals));
    }
    assert(ws.take(ws.len() as int) =~= ws);
    fix
}

// ---------------------------------------------------------------------------
// The linear gates in blocks of four.

/// The number of linear gates evaluated together.
pub const XOR_SIMD_SIZE: usize = 4;

/// Where the value of a wire is found once the circuit is compiled: the
/// constant one, the output of the `i`-th linear gate, or the `i`-th fixed
/// value (input bits first, then the AND values).
#[derive(Clone, Copy, Debug, PartialEq, Eq, Structural)]
pub enum KeccakWire {
    ConstOne,
    XorOutput(usize),
    FixOutput(usize),
}

/// XOR and INV are linear over the field of two elements.
pub open spec fn is_linear(b: WireBody) -> bool {
    b is Inv || b is Xor
}

/// The fixed value that a non-linear wire `i` of `ws` stands for.
pub open spec fn fixed_wire(ws: Seq<WireBody>, i: int) -> KeccakWire {
    match ws[i] {
        WireBody::And(_, _) => KeccakWire::FixOutput((NUM_INPUTS + count_ands(ws.take(i))) as usize),
        WireBody::Input(j) => KeccakWire::FixOutput(j),
        _ => KeccakWire::ConstOne,
    }
}

/// The pair of values that a linear wire with body `b` adds, given where
/// each wire is found.
pub open spec fn pair_of(b: WireBody, mp: Seq<KeccakWire>) -> (KeccakWire, KeccakWire) {
    match b {
        WireBody::Inv(x) => (KeccakWire::ConstOne, mp[x as int]),
        WireBody::Xor(a, c) => (mp[a as int], mp[c as int]),
        _ => (KeccakWire::ConstOne, KeccakWire::ConstOne),
    }
}

/// `w` is not the output of linear gate `k` or of a later one.
pub open spec fn refers_before(w: KeccakWire, k: int) -> bool {
    w matches KeccakWire::XorOutput(j) ==> j < k
}

/// The blocks of pairs, one pair after the other.
pub open spec fn flatten(xs: Seq<[(KeccakWire, KeccakWire); 4]>) -> Seq<(KeccakWire, KeccakWire)> {
    Seq::new(4 * xs.len(), |k: int| xs[k / 4]@[k % 4])
}

/// `pairs` and `mp` compile the wires `ws`: every non-linear wire is its
/// fixed value, every linear wire is the output of its own pair, which adds
/// the values of its operands, and every pair adds only earlier results.
pub open spec fn valid_schedule(
    ws: Seq<WireBody>,
    pairs: Seq<(KeccakWire, KeccakWire)>,
    mp: Seq<KeccakWire>,
) -> bool {
    &&& mp.len() == ws.len()
    &&& forall|i: int| 0 <= i < ws.len() && !is_linear(ws[i]) ==> #[trigger] mp[i] == fixed_wire(ws, i)
    &&& forall|i: int|
        0 <= i < ws.len() && is_linear(ws[i]) ==> (#[trigger] mp[i] matches KeccakWire::XorOutput(k)
            && k < pairs.len() && pairs[k as int] == pair_of(ws[i], mp))
    &&& forall|i: int, j: int|
        0 <= i < j < ws.len() && is_linear(ws[i]) && is_linear(ws[j]) ==> #[trigger] mp[i]
            != #[trigger] mp[j]
    &&& forall|k: int|
        0 <= k < pairs.len() ==> refers_before(#[trigger] pairs[k].0, k) && refers_before(pairs[k].1, k)
}

/// The value found at `w`.
pub open spec fn wire_val(w: KeccakWire, fix: Seq<bool>, xv: Seq<bool>) -> bool {
    match w {
        KeccakWire::ConstOne => true,
        KeccakWire::XorOutput(j) => xv[j as int],
        KeccakWire::FixOutput(i) => fix[i as int],
    }
}

/// The results of the pairs, computed in order.
pub open spec fn xor_values(pairs: Seq<(KeccakWire, KeccakWire)>, fix: Seq<bool>) -> Seq<bool>
    decreases pairs.len(),
{
    if pairs.len() == 0 {
        Seq::empty()
    } else {
        let xv = xor_values(pairs.drop_last(), fix);
        xv.push(wire_val(pairs.last().0, fix, xv) != wire_val(pairs.last().1, fix, xv))
    }
}

proof fn lemma_xor_values_prefix(pairs: Seq<(KeccakWire, KeccakWire)>, fix: Seq<bool>, k: int)
    requires
        0 <= k <= pairs.len(),
    ensures
        xor_values(pairs, fix).len() == pairs.len(),
        xor_values(pairs.take(k), fix) == xor_values(pairs, fix).take(k),
    decreases pairs.len() - k,
{
    if k == pairs.len() {
        assert(pairs.take(k) =~= pairs);
        lemma_xor_values_len(pairs, fix);
        assert(xor_values(pairs, fix).take(k) =~= xor_values(pairs, fix));
    } else {
        lemma_xor_values_prefix(pairs.drop_last(), fix, k);
        assert(pairs.drop_last().take(k) =~= pairs.take(k));
        lemma_xor_values_len(pairs.drop_last(), fix);
        lemma_xor_values_len(pairs, fix);
        assert(xor_values(pairs.drop_last(), fix).take(k) =~= xor_values(pairs, fix).take(k));
    }
}

proof fn lemma_xor_values_len(pairs: Seq<(KeccakWire, KeccakWire)>, fix: Seq<bool>)
    ensures
        xor_values(pairs, fix).len() == pairs.len(),
    decreases pairs.len(),
{
    if pairs.len() > 0 {
        lemma_xor_values_len(pairs.drop_last(), fix);
    }
}

/// The result of pair `k` adds the values of its two entries.
proof fn lemma_xor_values_at(pairs: Seq<(KeccakWire, KeccakWire)>, fix: Seq<bool>, k: int)
    requires
        0 <= k < pairs.len(),
        refers_before(pairs[k].0, k),
        refers_before(pairs[k].1, k),
    ensures
        xor_values(pairs, fix)[k] == (wire_val(pairs[k].0, fix, xor_values(pairs, fix)) != wire_val(
            pairs[k].1,
            fix,
            xor_values(pairs, fix),
        )),
{
    let xv = xor_values(pairs, fix);
    lemma_xor_values_prefix(pairs, fix, k + 1);
    lemma_xor_values_prefix(pairs, fix, k);
    assert(pairs.take(k + 1).drop_last() =~= pairs.take(k));
    assert(pairs.take(k + 1).last() == pairs[k]);
    let pre = xv.take(k);
    assert(xv.take(k + 1)[k] == xv[k]);
    assert(wire_val(pairs[k].0, fix, pre) == wire_val(pairs[k].0, fix, xv));
    assert(wire_val(pairs[k].1, fix, pre) == wire_val(pairs[k].1, fix, xv));
}

/// The AND values come one per AND wire, in the order of the wires.
proof fn lemma_and_values(ws: Seq<WireBody>, v: Seq<bool>)
    ensures
        and_values(ws, v).len() == count_ands(ws),
        count_ands(ws) <= ws.len(),
        forall|i: int|
            0 <= i < ws.len() && ws[i] is And ==> count_ands(#[trigger] ws.take(i)) < count_ands(ws)
                && and_values(ws, v)[count_ands(ws.take(i)) as int] == v[i],
    decreases ws.len(),
{
    if ws.len() > 0 {
        let d = ws.drop_last();
        lemma_and_values(d, v);
        assert forall|i: int|
            0 <= i < ws.len() && ws[i] is And implies count_ands(#[trigger] ws.take(i)) < count_ands(ws)
            && and_values(ws, v)[count_ands(ws.take(i)) as int] == v[i] by {
            if i < ws.len() - 1 {
                assert(d.take(i) =~= ws.take(i));
                assert(d[i] == ws[i]);
            } else {
                assert(ws.take(i) =~= d);
            }
        }
    }
}

/// Evaluating a circuit follows its gates: an input wire holds its input
/// bit, an inverter the negation of its operand, an XOR wire the exclusive
/// or of its two operands, and an AND wire their conjunction.
pub proof fn law_evaluation_follows_gates(ws: Seq<WireBody>, m: Seq<bool>)
    requires
        reads_earlier(ws),
    ensures
        eval_wires(ws, m).len() == ws.len(),
        forall|i: int|
            #![trigger eval_wires(ws, m)[i]]
            0 <= i < ws.len() ==> match ws[i] {
                WireBody::Input(j) => eval_wires(ws, m)[i] == m[j as int],
                WireBody::Inv(a) => eval_wires(ws, m)[i] == !eval_wires(ws, m)[a as int],
                WireBody::Xor(a, c) => eval_wires(ws, m)[i] == (eval_wires(ws, m)[a as int]
                    != eval_wires(ws, m)[c as int]),
                WireBody::And(a, c) => eval_wires(ws, m)[i] == (eval_wires(ws, m)[a as int]
                    && eval_wires(ws, m)[c as int]),
            },
{
    let v = eval_wires(ws, m);
    lemma_eval_len(ws, m);
    assert forall|i: int| 0 <= i < ws.len() implies #[trigger] v[i] == match ws[i] {
        WireBody::Input(j) => m[j as int],
        WireBody::Inv(a) => !v[a as int],
        WireBody::Xor(a, c) => v[a as int] != v[c as int],
        WireBody::And(a, c) => v[a as int] && v[c as int],
    } by {
        lemma_eval_at(ws, m, i);
        let ops = operands(ws[i]);
        if ops.len() > 0 {
            assert(ops[0] < i);
            assert(ops[ops.len() - 1] < i);
            assert(v.take(i)[ops[0] as int] == v[ops[0] as int]);
            assert(v.take(i)[ops[ops.len() - 1] as int] == v[ops[ops.len() - 1] as int]);
        }
    }
}

proof fn lemma_count_ands_take(ws: Seq<WireBody>, i: int, j: int)
    requires
        0 <= i < j <= ws.len(),
        ws[i] is And,
    ensures
        count_ands(ws.take(i)) < count_ands(ws.take(j)),
    decreases j - i,
{
    if j == i + 1 {
        assert(ws.take(j).drop_last() =~= ws.take(i));
    } else {
        lemma_count_ands_take(ws, i, j - 1);
        assert(ws.take(j).drop_last() =~= ws.take(j - 1));
    }
}

/// The fixed data of a circuit evaluated on the input bits `m` are `m`
/// followed by one value per AND wire, in the order of the wires: the value
/// of AND wire `i` sits after the values of the AND wires before it, and is
/// the conjunction of the values of its two operands, which is what the
/// multiplication check of the compiled circuit asserts.
pub proof fn law_fix_data_products(ws: Seq<WireBody>, m: Seq<bool>)
    requires
        reads_earlier(ws),
    ensures
        (m + and_values(ws, eval_wires(ws, m))).len() == m.len() + count_ands(ws),
        forall|k: int| 0 <= k < m.len() ==> #[trigger] (m + and_values(ws, eval_wires(ws, m)))[k] == m[k],
        forall|i: int|
            #![trigger ws[i]]
            0 <= i < ws.len() ==> match ws[i] {
                WireBody::And(a, c) => count_ands(ws.take(i)) < count_ands(ws) && (m + and_values(
                    ws,
                    eval_wires(ws, m),
                ))[(m.len() + count_ands(ws.take(i))) as int] == (eval_wires(ws, m)[a as int]
                    && eval_wires(ws, m)[c as int]),
                _ => true,
            },
        forall|i: int, j: int|
            0 <= i < j < ws.len() && ws[i] is And ==> #[trigger] count_ands(ws.take(i)) < #[trigger] count_ands(
                ws.take(j),
            ),
{
    let v = eval_wires(ws, m);
    let f = m + and_values(ws, v);
    lemma_and_values(ws, v);
    law_evaluation_follows_gates(ws, m);
    assert forall|i: int| 0 <= i < ws.len() implies match #[trigger] ws[i] {
        WireBody::And(a, c) => count_ands(ws.take(i)) < count_ands(ws) && f[(m.len() + count_ands(
            ws.take(i),
        )) as int] == (v[a as int] && v[c as int]),
        _ => true,
    } by {
        if let WireBody::And(a, c) = ws[i] {
            assert(and_values(ws, v)[count_ands(ws.take(i)) as int] == v[i]);
            assert(f[(m.len() + count_ands(ws.take(i))) as int] == and_values(ws, v)[count_ands(ws.take(i)) as int]);
            assert(v[i] == (v[a as int] && v[c as int]));
        }
    }
    assert forall|i: int, j: int| 0 <= i < j < ws.len() && ws[i] is And implies #[trigger] count_ands(ws.take(i))
        < #[trigger] count_ands(ws.take(j)) by {
        lemma_count_ands_take(ws, i, j);
    }
}

/// Each wire of a compiled circuit is found where the schedule says.
proof fn lemma_schedule_value(
    ws: Seq<WireBody>,
    pairs: Seq<(KeccakWire, KeccakWire)>,
    mp: Seq<KeccakWire>,
    m: Seq<bool>,
    i: int,
)
    requires
        valid_schedule(ws, pairs, mp),
        reads_earlier(ws),
        inputs_below(ws, NUM_INPUTS as nat),
        m.len() == NUM_INPUTS,
        ws.len() + NUM_INPUTS <= usize::MAX,
        0 <= i < ws.len(),
    ensures
        ({
            let v = eval_wires(ws, m);
            let fix = m + and_values(ws, v);
            wire_val(mp[i], fix, xor_values(pairs, fix)) == v[i]
        }),
    decreases i,
{
    let v = eval_wires(ws, m);
    let fix = m + and_values(ws, v);
    let xv = xor_values(pairs, fix);
    lemma_eval_at(ws, m, i);
    lemma_eval_len(ws, m);
    match ws[i] {
        WireBody::Input(j) => {
            assert(mp[i] == fixed_wire(ws, i));
        },
        WireBody::And(a, c) => {
            assert(mp[i] == fixed_wire(ws, i));
            lemma_and_values(ws, v);
            assert(ws.take(i).len() == i);
        },
        WireBody::Inv(x) => {
            assert(operands(ws[i])[0] == x);
            lemma_schedule_value(ws, pairs, mp, m, x as int);
            let k = choose|k: usize| mp[i] == KeccakWire::XorOutput(k);
            assert(mp[i] matches KeccakWire::XorOutput(k2) && k2 < pairs.len());
            assert(refers_before(pairs[k as int].0, k as int));
            lemma_xor_values_at(pairs, fix, k as int);
        },
        WireBody::Xor(a, c) => {
            assert(operands(ws[i])[0] == a);
            assert(a == c || operands(ws[i])[1] == c);
            lemma_schedule_value(ws, pairs, mp, m, a as int);
            lemma_schedule_value(ws, pairs, mp, m, c as int);
            let k = choose|k: usize| mp[i] == KeccakWire::XorOutput(k);
            assert(mp[i] matches KeccakWire::XorOutput(k2) && k2 < pairs.len());
            assert(refers_before(pairs[k as int].0, k as int));
            lemma_xor_values_at(pairs, fix, k as int);
        },
    }
}

/// A compiled circuit computes what the circuit computes: with the fixed
/// values made of the input bits and the AND values, and the pairs added in
/// order, every wire is found with its value.
pub proof fn law_schedule_evaluates(
    ws: Seq<WireBody>,
    pairs: Seq<(KeccakWire, KeccakWire)>,
    mp: Seq<KeccakWire>,
    m: Seq<bool>,
)
    requires
        valid_schedule(ws, pairs, mp),
        reads_earlier(ws),
        inputs_below(ws, NUM_INPUTS as nat),
        m.len() == NUM_INPUTS,
        ws.len() + NUM_INPUTS <= usize::MAX,
    ensures
        ({
            let v = eval_wires(ws, m);
            let fix = m + and_values(ws, v);
            forall|i: int|
                0 <= i < ws.len() ==> wire_val(#[trigger] mp[i], fix, xor_values(pairs, fix)) == v[i]
        }),
{
    let v = eval_wires(ws, m);
    let fix = m + and_values(ws, v);
    assert forall|i: int| 0 <= i < ws.len() implies wire_val(#[trigger] mp[i], fix, xor_values(pairs, fix))
        == v[i] by {
        lemma_schedule_value(ws, pairs, mp, m, i);
    }
}

// ---------------------------------------------------------------------------
// Building the blocks.

/// Where a wire is found once it is: `ConstOne` for a wire not placed yet.
pub open spec fn opt_wire(o: Option<KeccakWire>) -> KeccakWire {
    match o {
        Some(w) => w,
        None => KeccakWire::ConstOne,
    }
}

/// Where each wire is found, with `ConstOne` for the wires not placed yet.
pub open spec fn placed(mo: Seq<Option<KeccakWire>>) -> Seq<KeccakWire> {
    mo.map_values(|o: Option<KeccakWire>| opt_wire(o))
}

/// Every operand of `b` is placed.
pub open spec fn operands_placed(b: WireBody, mo: Seq<Option<KeccakWire>>) -> bool {
    forall|j: int| 0 <= j < operands(b).len() ==> mo[#[trigger] operands(b)[j] as int] is Some
}

/// The number of wires not placed yet.
pub open spec fn count_none(mo: Seq<Option<KeccakWire>>) -> nat
    decreases mo.len(),
{
    if mo.len() == 0 {
        0
    } else if mo.last() is None {
        count_none(mo.drop_last()) + 1
    } else {
        count_none(mo.drop_last())
    }
}

proof fn lemma_count_none_update(mo: Seq<Option<KeccakWire>>, i: int, w: KeccakWire)
    requires
        0 <= i < mo.len(),
        mo[i] is None,
    ensures
        count_none(mo.update(i, Some(w))) + 1 == count_none(mo),
    decreases mo.len(),
{
    let mu = mo.update(i, Some(w));
    if i < mo.len() - 1 {
        lemma_count_none_update(mo.drop_last(), i, w);
        assert(mu.drop_last() =~= mo.drop_last().update(i, Some(w)));
    } else {
        assert(mu.drop_last() =~= mo.drop_last());
    }
}

proof fn lemma_count_none_pos(mo: Seq<Option<KeccakWire>>, i: int)
    requires
        0 <= i < mo.len(),
        mo[i] is None,
    ensures
        count_none(mo) >= 1,
    decreases mo.len(),
{
    if i < mo.len() - 1 {
        lemma_count_none_pos(mo.drop_last(), i);
    }
}

proof fn lemma_count_none_bound(mo: Seq<Option<KeccakWire>>)
    ensures
        count_none(mo) <= mo.len(),
    decreases mo.len(),
{
    if mo.len() > 0 {
        lemma_count_none_bound(mo.drop_last());
    }
}

/// Placing a wire that `b` does not read leaves the pair of `b` as it was.
proof fn lemma_place_keeps_pair(b: WireBody, mo: Seq<Option<KeccakWire>>, o: int, w: KeccakWire)
    requires
        0 <= o < mo.len(),
        mo[o] is None,
        operands_placed(b, mo),
        forall|j: int| 0 <= j < operands(b).len() ==> #[trigger] operands(b)[j] < mo.len(),
    ensures
        pair_of(b, placed(mo.update(o, Some(w)))) == pair_of(b, placed(mo)),
        operands_placed(b, mo.update(o, Some(w))),
{
    let mu = mo.update(o, Some(w));
    match b {
        WireBody::Inv(x) => {
            assert(operands(b)[0] == x);
        },
        WireBody::Xor(a, c) => {
            assert(operands(b)[0] == a);
            assert(a == c || operands(b)[1] == c);
        },
        _ => {},
    }
    assert forall|j: int| 0 <= j < operands(b).len() implies mu[#[trigger] operands(b)[j] as int] is Some by {
        assert(mo[operands(b)[j] as int] is Some);
    }
}

/// The readers of `x` are the wires that read `x`, each once and in order.
proof fn lemma_readers_props(ws: Seq<WireBody>, x: usize)
    requires
        ws.len() <= usize::MAX,
    ensures
        forall|k: int|
            0 <= k < readers(ws, x).len() ==> #[trigger] readers(ws, x)[k] < ws.len() && operands(
                ws[readers(ws, x)[k] as int],
            ).contains(x),
        forall|a: int, b: int|
            0 <= a < b < readers(ws, x).len() ==> #[trigger] readers(ws, x)[a] < #[trigger] readers(
                ws,
                x,
            )[b],
        forall|j: int|
            0 <= j < ws.len() && #[trigger] operands(ws[j]).contains(x) ==> readers(ws, x).contains(
                j as usize,
            ),
    decreases ws.len(),
{
    if ws.len() > 0 {
        let d = ws.drop_last();
        lemma_readers_props(d, x);
        let r = readers(ws, x);
        let rd = readers(d, x);
        assert forall|k: int| 0 <= k < r.len() implies #[trigger] r[k] < ws.len() && operands(
            ws[r[k] as int],
        ).contains(x) by {
            if k < rd.len() {
                assert(r[k] == rd[k]);
                assert(ws[r[k] as int] == d[r[k] as int]);
            }
        }
        assert forall|j: int| 0 <= j < ws.len() && #[trigger] operands(ws[j]).contains(x) implies r.contains(
            j as usize,
        ) by {
            if j < ws.len() - 1 {
                assert(d[j] == ws[j]);
                assert(rd.contains(j as usize));
                let k = choose|k: int| 0 <= k < rd.len() && rd[k] == j as usize;
                assert(r[k] == j as usize);
            } else {
                assert(r[r.len() - 1] == j as usize);
            }
        }
    }
}

proof fn lemma_flatten_push(xs: Seq<[(KeccakWire, KeccakWire); 4]>, a: [(KeccakWire, KeccakWire); 4])
    requires
        a@.len() == 4,
    ensures
        flatten(xs.push(a)) =~= flatten(xs) + a@,
{
    let f = flatten(xs.push(a));
    let g = flatten(xs) + a@;
    assert forall|k: int| 0 <= k < f.len() implies f[k] == g[k] by {
        if k < 4 * xs.len() {
            assert(k / 4 < xs.len());
            assert(xs.push(a)[k / 4] == xs[k / 4]);
        } else {
            assert(k / 4 == xs.len());
            assert(k % 4 == k - 4 * xs.len());
        }
    }
}

/// No value occurs twice in `s`.
pub open spec fn distinct(s: Seq<usize>) -> bool {
    forall|a: int, b: int| 0 <= a < b < s.len() ==> s[a] != s[b]
}

/// The non-linear wires sit on their fixed values; each placed linear wire
/// is the output of its own pair in `flat`, which adds the values of its
/// operands, all placed.
pub open spec fn placement_ok(
    ws: Seq<WireBody>,
    mo: Seq<Option<KeccakWire>>,
    flat: Seq<(KeccakWire, KeccakWire)>,
) -> bool {
    &&& mo.len() == ws.len()
    &&& forall|i: int| 0 <= i < ws.len() && !is_linear(ws[i]) ==> #[trigger] mo[i] == Some(fixed_wire(ws, i))
    &&& forall|i: int|
        0 <= i < ws.len() && is_linear(ws[i]) && mo[i] is Some ==> (#[trigger] mo[i] matches Some(
            KeccakWire::XorOutput(k),
        ) && k < flat.len() && operands_placed(ws[i], mo) && flat[k as int] == pair_of(
            ws[i],
            placed(mo),
        ))
    &&& forall|i: int, j: int|
        0 <= i < j < ws.len() && is_linear(ws[i]) && is_linear(ws[j]) && mo[i] is Some && mo[j] is Some
            ==> #[trigger] mo[i] != #[trigger] mo[j]
}

/// Every pair adds only results of earlier pairs.
pub open spec fn refs_ok(flat: Seq<(KeccakWire, KeccakWire)>) -> bool {
    forall|k: int| 0 <= k < flat.len() ==> refers_before(#[trigger] flat[k].0, k) && refers_before(flat[k].1, k)
}

/// `ready` holds, once each, linear wires not placed whose operands are
/// placed, none of them among `pending`.
pub open spec fn ready_ok(
    ws: Seq<WireBody>,
    mo: Seq<Option<KeccakWire>>,
    ready: Seq<usize>,
    pending: Seq<usize>,
) -> bool {
    &&& distinct(ready)
    &&& forall|r: int|
        0 <= r < ready.len() ==> #[trigger] ready[r] < ws.len() && is_linear(ws[ready[r] as int])
            && mo[ready[r] as int] is None && operands_placed(ws[ready[r] as int], mo)
            && !pending.contains(ready[r])
}

/// Every linear wire not placed, not ready, not pending and not in `extra`
/// has an operand not placed.
pub open spec fn waiting_ok(
    ws: Seq<WireBody>,
    mo: Seq<Option<KeccakWire>>,
    ready: Seq<usize>,
    pending: Seq<usize>,
    extra: Seq<usize>,
) -> bool {
    forall|i: int|
        0 <= i < ws.len() && is_linear(ws[i]) && #[trigger] mo[i] is None && !ready.contains(i as usize)
            && !pending.contains(i as usize) && !extra.contains(i as usize) ==> !operands_placed(ws[i], mo)
}

/// The state between two blocks.
pub open spec fn batch_state(
    ws: Seq<WireBody>,
    mo: Seq<Option<KeccakWire>>,
    ready: Seq<usize>,
    flat: Seq<(KeccakWire, KeccakWire)>,
) -> bool {
    &&& placement_ok(ws, mo, flat)
    &&& refs_ok(flat)
    &&& ready_ok(ws, mo, ready, Seq::empty())
    &&& waiting_ok(ws, mo, ready, Seq::empty(), Seq::empty())
    &&& flat.len() + 4 * count_none(mo) <= 4 * ws.len()
}

/// Takes the smallest element out of `ready`.
fn pop_min(ready: &mut Vec<usize>) -> (r: usize)
    requires
        old(ready)@.len() > 0,
    ensures
        exists|idx: int|
            0 <= idx < old(ready)@.len() && old(ready)@[idx] == r && final(ready)@ == old(ready)@.remove(
                idx,
            ),
        forall|k: int| 0 <= k < old(ready)@.len() ==> r <= #[trigger] old(ready)@[k],
{
    let mut best: usize = 0;
    let mut k: usize = 1;
    while k < ready.len()
        invariant
            best < k <= ready@.len(),
            forall|j: int| 0 <= j < k ==> ready@[best as int] <= #[trigger] ready@[j],
        decreases ready.len() - k,
    {
        if ready[k] < ready[best] {
            best = k;
        }
        k = k + 1;
    }
    ready.remove(best)
}

proof fn lemma_remove_distinct(s: Seq<usize>, idx: int)
    requires
        distinct(s),
        0 <= idx < s.len(),
    ensures
        distinct(s.remove(idx)),
        forall|e: usize| #[trigger] s.remove(idx).contains(e) <==> (s.contains(e) && e != s[idx]),
{
    let t = s.remove(idx);
    assert forall|e: usize| #[trigger] t.contains(e) <==> (s.contains(e) && e != s[idx]) by {
        if t.contains(e) {
            let k = choose|k: int| 0 <= k < t.len() && t[k] == e;
            if k < idx {
                assert(s[k] == e);
            } else {
                assert(s[k + 1] == e);
            }
        }
        if s.contains(e) && e != s[idx] {
            let k = choose|k: int| 0 <= k < s.len() && s[k] == e;
            if k < idx {
                assert(t[k] == e);
            } else {
                assert(k != idx);
                assert(t[k - 1] == e);
            }
        }
    }
}

/// Where every linear wire not placed has an operand not placed, every wire
/// is placed: the first one that is not would read an earlier one that is not.
proof fn lemma_placed_at(ws: Seq<WireBody>, mo: Seq<Option<KeccakWire>>, i: int)
    requires
        reads_earlier(ws),
        mo.len() == ws.len(),
        forall|j: int| 0 <= j < ws.len() && !is_linear(ws[j]) ==> #[trigger] mo[j] is Some,
        forall|j: int|
            0 <= j < ws.len() && is_linear(ws[j]) && #[trigger] mo[j] is None ==> !operands_placed(
                ws[j],
                mo,
            ),
        0 <= i < ws.len(),
    ensures
        mo[i] is Some,
    decreases i,
{
    if mo[i] is None {
        assert(!operands_placed(ws[i], mo));
        let j = choose|j: int| 0 <= j < operands(ws[i]).len() && !(mo[#[trigger] operands(ws[i])[j] as int] is Some);
        let o = operands(ws[i])[j];
        assert(o < i);
        lemma_placed_at(ws, mo, o as int);
    }
}

/// The AND wires and the input wires on their fixed values; the linear
/// wires not placed.
fn initial_mapping(c: &Circuit) -> (mapping: Vec<Option<KeccakWire>>)
    requires
        inputs_below(c.wires@, NUM_INPUTS as nat),
        c.wires@.len() + NUM_INPUTS < usize::MAX,
    ensures
        mapping@.len() == c.wires@.len(),
        forall|i: int|
            0 <= i < c.wires@.len() ==> #[trigger] mapping@[i] == if is_linear(c.wires@[i]) {
                None
            } else {
                Some(fixed_wire(c.wires@, i))
            },
{
    let ghost ws = c.wires@;
    let mut mapping: Vec<Option<KeccakWire>> = Vec::new();
    let mut next_mult: usize = 0;
    let mut i: usize = 0;
    assert(ws.take(0) =~= Seq::<WireBody>::empty());
    while i < c.wires.len()
        invariant
            i <= ws.len(),
            ws == c.wires@,
            ws.len() + NUM_INPUTS < usize::MAX,
            inputs_below(ws, NUM_INPUTS as nat),
            mapping@.len() == i,
            next_mult == count_ands(ws.take(i as int)),
            next_mult <= i,
            forall|j: int|
                0 <= j < i ==> #[trigger] mapping@[j] == if is_linear(ws[j]) {
                    None
                } else {
                    Some(fixed_wire(ws, j))
                },
        decreases c.wires.len() - i,
    {
        assert(ws.take(i + 1).drop_last() =~= ws.take(i as int));
        assert(ws.take(i + 1).last() == ws[i as int]);
        match c.wires[i] {
            WireBody::Inv(_) | WireBody::Xor(_, _) => {
                mapping.push(None);
            },
            WireBody::And(_, _) => {
                mapping.push(Some(KeccakWire::FixOutput(next_mult + NUM_INPUTS)));
                next_mult = next_mult + 1;
            },
            WireBody::Input(j) => {
                mapping.push(Some(KeccakWire::FixOutput(j)));
            },
        }
        i = i + 1;
    }
    mapping
}

/// The linear wires whose operands are all placed from the start.
fn initial_ready(c: &Circuit, mapping: &Vec<Option<KeccakWire>>) -> (ready: Vec<usize>)
    requires
        mapping@.len() == c.wires@.len(),
        reads_earlier(c.wires@),
        forall|i: int|
            0 <= i < c.wires@.len() ==> (#[trigger] mapping@[i] is None <==> is_linear(c.wires@[i])),
    ensures
        distinct(ready@),
        forall|r: int|
            0 <= r < ready@.len() ==> #[trigger] ready@[r] < c.wires@.len() && is_linear(
                c.wires@[ready@[r] as int],
            ) && operands_placed(c.wires@[ready@[r] as int], mapping@),
        forall|i: int|
            0 <= i < c.wires@.len() && is_linear(c.wires@[i]) && !ready@.contains(i as usize)
                ==> !operands_placed(#[trigger] c.wires@[i], mapping@),
{
    let ghost ws = c.wires@;
    let mut ready: Vec<usize> = Vec::new();
    let mut i: usize = 0;
    while i < c.wires.len()
        invariant
            i <= ws.len(),
            ws == c.wires@,
            mapping@.len() == ws.len(),
            reads_earlier(ws),
            forall|j: int| 0 <= j < ws.len() ==> (#[trigger] mapping@[j] is None <==> is_linear(ws[j])),
            forall|r: int| 0 <= r < ready@.len() ==> #[trigger] ready@[r] < i,
            distinct(ready@),
            forall|r: int|
                0 <= r < ready@.len() ==> #[trigger] ready@[r] < ws.len() && is_linear(
                    ws[ready@[r] as int],
                ) && operands_placed(ws[ready@[r] as int], mapping@),
            forall|j: int|
                0 <= j < i && is_linear(ws[j]) && !ready@.contains(j as usize) ==> !operands_placed(
                    #[trigger] ws[j],
                    mapping@,
                ),
        decreases c.wires.len() - i,
    {
        let ghost before = ready@;
        let take = match c.wires[i] {
            WireBody::Inv(x) => {
                assert(operands(ws[i as int])[0] == x);
                mapping[x].is_some()
            },
            WireBody::Xor(x, y) => {
                assert(operands(ws[i as int])[0] == x);
                assert(x == y || operands(ws[i as int])[1] == y);
                mapping[x].is_some() && mapping[y].is_some()
            },
            _ => false,
        };
        if take {
            ready.push(i);
            assert(ready@[ready@.len() - 1] == i);
            assert forall|j: int|
                0 <= j < i && is_linear(ws[j]) && !ready@.contains(j as usize) implies !operands_placed(
                #[trigger] ws[j],
                mapping@,
            ) by {
                if before.contains(j as usize) {
                    let k = choose|k: int| 0 <= k < before.len() && before[k] == j as usize;
                    assert(ready@[k] == j as usize);
                }
            }
        } else {
            assert(is_linear(ws[i as int]) ==> !operands_placed(ws[i as int], mapping@));
        }
        proof {
            if !take {
                assert forall|j: int|
                    0 <= j < i + 1 && is_linear(ws[j]) && !ready@.contains(j as usize)
                        implies !operands_placed(#[trigger] ws[j], mapping@) by {
                    if j == i {
                        match ws[j] {
                            WireBody::Inv(x) => {
                                assert(operands(ws[j])[0] == x);
                            },
                            WireBody::Xor(x, y) => {
                                assert(operands(ws[j])[0] == x);
                                assert(x == y || operands(ws[j])[1] == y);
                            },
                            _ => {},
                        }
                    }
                }
            } else {
                assert(ready@.contains(i));
            }
        }
        i = i + 1;
    }
    ready
}

/// Takes up to four ready wires, smallest first, with the pairs that they
/// add.
fn fill_block(
    c: &Circuit,
    mapping: &Vec<Option<KeccakWire>>,
    ready: &mut Vec<usize>,
    Ghost(flat): Ghost<Seq<(KeccakWire, KeccakWire)>>,
) -> (r: (Vec<(KeccakWire, KeccakWire)>, Vec<usize>))
    requires
        reads_earlier(c.wires@),
        placement_ok(c.wires@, mapping@, flat),
        ready_ok(c.wires@, mapping@, old(ready)@, Seq::empty()),
        waiting_ok(c.wires@, mapping@, old(ready)@, Seq::empty(), Seq::empty()),
        old(ready)@.len() > 0,
    ensures
        ({
            let (buf, ids) = r;
            let ws = c.wires@;
            let mo = mapping@;
            &&& buf@.len() == ids@.len()
            &&& 1 <= ids@.len() <= XOR_SIMD_SIZE
            &&& distinct(ids@)
            &&& ready_ok(ws, mo, final(ready)@, ids@)
            &&& waiting_ok(ws, mo, final(ready)@, ids@, Seq::empty())
            &&& forall|p: int|
                0 <= p < ids@.len() ==> #[trigger] ids@[p] < ws.len() && is_linear(ws[ids@[p] as int])
                    && mo[ids@[p] as int] is None && operands_placed(ws[ids@[p] as int], mo)
                    && !final(ready)@.contains(ids@[p])
            &&& forall|p: int|
                0 <= p < buf@.len() ==> #[trigger] buf@[p] == pair_of(ws[ids@[p] as int], placed(mo))
                    && refers_before(buf@[p].0, flat.len() as int) && refers_before(
                    buf@[p].1,
                    flat.len() as int,
                )
            &&& forall|a: int, b: int| 0 <= a < b < ids@.len() ==> #[trigger] ids@[a] < #[trigger] ids@[b]
            &&& forall|p: int, q: int|
                0 <= p < ids@.len() && 0 <= q < final(ready)@.len() ==> #[trigger] ids@[p]
                    < #[trigger] final(ready)@[q]
            &&& forall|x: usize|
                #[trigger] old(ready)@.contains(x) <==> (final(ready)@.contains(x) || ids@.contains(x))
            &&& ids@.len() < XOR_SIMD_SIZE ==> final(ready)@.len() == 0
        }),
{
    let ghost ws = c.wires@;
    let ghost mo = mapping@;
    let ghost ready0 = ready@;
    let mut buf: Vec<(KeccakWire, KeccakWire)> = Vec::new();
    let mut ids: Vec<usize> = Vec::new();
    while ready.len() > 0 && buf.len() < XOR_SIMD_SIZE
        invariant
            ws == c.wires@,
            mo == mapping@,
            reads_earlier(ws),
            placement_ok(ws, mo, flat),
            buf@.len() == ids@.len() <= XOR_SIMD_SIZE,
            ready@.len() > 0 || ids@.len() > 0,
            distinct(ids@),
            ready_ok(ws, mo, ready@, ids@),
            waiting_ok(ws, mo, ready@, ids@, Seq::empty()),
            forall|p: int|
                0 <= p < ids@.len() ==> #[trigger] ids@[p] < ws.len() && is_linear(ws[ids@[p] as int])
                    && mo[ids@[p] as int] is None && operands_placed(ws[ids@[p] as int], mo)
                    && !ready@.contains(ids@[p]),
            forall|p: int|
                0 <= p < buf@.len() ==> #[trigger] buf@[p] == pair_of(ws[ids@[p] as int], placed(mo))
                    && refers_before(buf@[p].0, flat.len() as int) && refers_before(
                    buf@[p].1,
                    flat.len() as int,
                ),
            forall|a: int, b: int| 0 <= a < b < ids@.len() ==> #[trigger] ids@[a] < #[trigger] ids@[b],
            forall|p: int, q: int|
                0 <= p < ids@.len() && 0 <= q < ready@.len() ==> #[trigger] ids@[p] < #[trigger] ready@[q],
            forall|x: usize| #[trigger] ready0.contains(x) <==> (ready@.contains(x) || ids@.contains(x)),
        decreases XOR_SIMD_SIZE - buf.len(),
    {
        let ghost before = ready@;
        let i = pop_min(ready);
        let ghost idx = choose|idx: int|
            0 <= idx < before.len() && before[idx] == i && ready@ == before.remove(idx);
        proof {
            lemma_remove_distinct(before, idx);
            assert(before[idx] < ws.len());
        }
        let pair = match c.wires[i] {
            WireBody::Inv(x) => {
                assert(operands(ws[i as int])[0] == x);
                assert(mo[x as int] is Some);
                (KeccakWire::ConstOne, mapping[x].unwrap())
            },
            WireBody::Xor(x, y) => {
                assert(operands(ws[i as int])[0] == x);
                assert(x == y || operands(ws[i as int])[1] == y);
                assert(mo[x as int] is Some);
                assert(mo[y as int] is Some);
                (mapping[x].unwrap(), mapping[y].unwrap())
            },
            _ => {
                proof {
                    assert(false);
                }
                (KeccakWire::ConstOne, KeccakWire::ConstOne)
            },
        };
        proof {
            // The entries of the pair are placed wires: fixed values or earlier results.
            let b = ws[i as int];
            assert forall|j: int| 0 <= j < operands(b).len() implies refers_before(
                placed(mo)[#[trigger] operands(b)[j] as int],
                flat.len() as int,
            ) by {
                let o = operands(b)[j] as int;
                assert(o < i);
                assert(mo[o] is Some);
                if is_linear(ws[o]) {
                    assert(mo[o] matches Some(KeccakWire::XorOutput(k)) && k < flat.len());
                } else {
                    assert(mo[o] == Some(fixed_wire(ws, o)));
                }
            }
            match b {
                WireBody::Inv(x) => {
                    assert(operands(b)[0] == x);
                },
                WireBody::Xor(x, y) => {
                    assert(operands(b)[0] == x);
                    assert(x == y || operands(b)[1] == y);
                },
                _ => {},
            }
            assert(pair == pair_of(b, placed(mo)));
        }
        let ghost ids_before = ids@;
        buf.push(pair);
        ids.push(i);
        proof {
            assert(ids@ == ids_before.push(i));
            assert forall|r: int| 0 <= r < ready@.len() implies !ids@.contains(#[trigger] ready@[r]) by {
                assert(ready@[r] != i);
                if ids_before.contains(ready@[r]) {
                    assert(before.contains(ready@[r]));
                    let k = choose|k: int| 0 <= k < before.len() && before[k] == ready@[r];
                    let k2 = choose|k2: int| 0 <= k2 < ids_before.len() && ids_before[k2] == ready@[r];
                    assert(!before.contains(ids_before[k2]));
                }
            }
            assert forall|a: int, b: int| 0 <= a < b < ids@.len() implies ids@[a] != ids@[b] by {
                if b == ids@.len() - 1 {
                    assert(!before.contains(ids_before[a]));
                }
            }
            assert forall|p: int| 0 <= p < ids@.len() implies !ready@.contains(#[trigger] ids@[p]) by {
                if p < ids@.len() - 1 {
                    assert(!before.contains(ids@[p]));
                }
            }
            assert forall|a: int, b: int| 0 <= a < b < ids@.len() implies #[trigger] ids@[a] < #[trigger] ids@[b] by {
                if b == ids@.len() - 1 {
                    assert(ids_before[a] < before[idx]);
                }
            }
            assert forall|p: int, q: int|
                0 <= p < ids@.len() && 0 <= q < ready@.len() implies #[trigger] ids@[p] < #[trigger] ready@[q] by {
                assert(before.contains(ready@[q]));
                let k = choose|k: int| 0 <= k < before.len() && before[k] == ready@[q];
                assert(i <= before[k]);
                assert(ready@[q] != i);
                if p < ids@.len() - 1 {
                    assert(ids_before[p] < before[k]);
                }
            }
            assert forall|x: usize| #[trigger] ready0.contains(x) <==> (ready@.contains(x) || ids@.contains(x)) by {
                if ids_before.contains(x) {
                    let t = choose|t: int| 0 <= t < ids_before.len() && ids_before[t] == x;
                    assert(ids@[t] == x);
                }
                if x == i {
                    assert(ids@[ids@.len() - 1] == x);
                    assert(before.contains(x));
                }
                if ids@.contains(x) && x != i {
                    let t = choose|t: int| 0 <= t < ids@.len() && ids@[t] == x;
                    assert(t < ids_before.len());
                    assert(ids_before[t] == x);
                }
                if before.contains(x) && x != i {
                    assert(ready@.contains(x));
                }
            }
            assert forall|k: int| 0 <= k < ws.len() && is_linear(ws[k]) && #[trigger] mo[k] is None
                && !ready@.contains(k as usize) && !ids@.contains(k as usize) implies !operands_placed(
                ws[k],
                mo,
            ) by {
                if ids_before.contains(k as usize) {
                    let t = choose|t: int| 0 <= t < ids_before.len() && ids_before[t] == k as usize;
                    assert(ids@[t] == k as usize);
                }
                if k as usize == i {
                    assert(ids@[ids@.len() - 1] == i);
                }
                assert(!before.contains(k as usize));
            }
        }
    }
    (buf, ids)
}

/// After wire `oid` is placed, the wires that read it and now have all
/// their operands placed become ready.
fn release_readers(
    c: &Circuit,
    mapping: &Vec<Option<KeccakWire>>,
    ready: &mut Vec<usize>,
    oid: usize,
    Ghost(pending): Ghost<Seq<usize>>,
)
    requires
        c.well_formed(),
        reads_earlier(c.wires@),
        mapping@.len() == c.wires@.len(),
        oid < c.wires@.len(),
        mapping@[oid as int] is Some,
        ready_ok(c.wires@, mapping@, old(ready)@, pending),
        waiting_ok(c.wires@, mapping@, old(ready)@, pending, readers(c.wires@, oid)),
        forall|q: int|
            0 <= q < readers(c.wires@, oid).len() && is_linear(
                c.wires@[#[trigger] readers(c.wires@, oid)[q] as int],
            ) ==> mapping@[readers(c.wires@, oid)[q] as int] is None && !old(ready)@.contains(
                readers(c.wires@, oid)[q],
            ) && !pending.contains(readers(c.wires@, oid)[q]),
    ensures
        ready_ok(c.wires@, mapping@, final(ready)@, pending),
        waiting_ok(c.wires@, mapping@, final(ready)@, pending, Seq::empty()),
{
    let ghost ws = c.wires@;
    let ghost mo = mapping@;
    let ghost rds = readers(ws, oid);
    let n = c.wires.len();
    proof {
        lemma_readers_props(ws, oid);
    }
    assert(c.reverse_deps@[oid as int]@ == rds);
    let len = c.reverse_deps[oid].len();
    let mut q: usize = 0;
    assert(rds.subrange(0, len as int) =~= rds);
    while q < len
        invariant
            ws == c.wires@,
            mo == mapping@,
            c.well_formed(),
            reads_earlier(ws),
            mo.len() == ws.len(),
            n == ws.len(),
            oid < ws.len(),
            mo[oid as int] is Some,
            rds == readers(ws, oid),
            c.reverse_deps@[oid as int]@ == rds,
            len == rds.len(),
            q <= len,
            forall|k: int|
                0 <= k < rds.len() ==> #[trigger] rds[k] < ws.len() && operands(ws[rds[k] as int]).contains(
                    oid,
                ),
            forall|a: int, b: int| 0 <= a < b < rds.len() ==> #[trigger] rds[a] < #[trigger] rds[b],
            ready_ok(ws, mo, ready@, pending),
            waiting_ok(ws, mo, ready@, pending, rds.subrange(q as int, len as int)),
            forall|q2: int|
                q <= q2 < rds.len() && is_linear(ws[#[trigger] rds[q2] as int]) ==> mo[rds[q2] as int] is None
                    && !ready@.contains(rds[q2]) && !pending.contains(rds[q2]),
        decreases len - q,
    {
        let rd = c.reverse_deps[oid][q];
        assert(rd == rds[q as int]);
        let ghost before = ready@;
        let push = match c.wires[rd] {
            WireBody::Inv(x) => {
                assert(operands(ws[rd as int])[0] == x);
                assert(x == oid);
                true
            },
            WireBody::Xor(x, y) => {
                assert(operands(ws[rd as int])[0] == x);
                assert(x == y || operands(ws[rd as int])[1] == y);
                mapping[x].is_some() && mapping[y].is_some()
            },
            _ => false,
        };
        if push {
            ready.push(rd);
        }
        proof {
            let b = ws[rd as int];
            if push {
                assert(ready@ == before.push(rd));
                assert(operands_placed(b, mo)) by {
                    match b {
                        WireBody::Inv(x) => {
                            assert(operands(b)[0] == x);
                        },
                        WireBody::Xor(x, y) => {
                            assert(operands(b)[0] == x);
                            assert(x == y || operands(b)[1] == y);
                        },
                        _ => {},
                    }
                }
                assert forall|a: int, b2: int| 0 <= a < b2 < ready@.len() implies ready@[a] != ready@[b2] by {
                    if b2 == ready@.len() - 1 {
                        assert(before.contains(before[a]));
                    }
                }
                assert forall|r: int| 0 <= r < ready@.len() implies #[trigger] ready@[r] < ws.len()
                    && is_linear(ws[ready@[r] as int]) && mo[ready@[r] as int] is None && operands_placed(
                    ws[ready@[r] as int],
                    mo,
                ) && !pending.contains(ready@[r]) by {
                    if r < ready@.len() - 1 {
                        assert(ready@[r] == before[r]);
                    }
                }
            } else {
                assert(ready@ == before);
                if is_linear(b) {
                    assert(!operands_placed(b, mo)) by {
                        match b {
                            WireBody::Xor(x, y) => {
                                assert(operands(b)[0] == x);
                                assert(x == y || operands(b)[1] == y);
                                if mo[x as int] is None {
                                    assert(mo[operands(b)[0] as int] is None);
                                } else {
                                    assert(mo[operands(b)[1] as int] is None);
                                }
                            },
                            _ => {},
                        }
                    }
                }
            }
            let sub = rds.subrange(q as int, len as int);
            let sub2 = rds.subrange(q + 1, len as int);
            assert forall|i: int|
                0 <= i < ws.len() && is_linear(ws[i]) && #[trigger] mo[i] is None && !ready@.contains(i as usize)
                    && !pending.contains(i as usize) && !sub2.contains(i as usize) implies !operands_placed(ws[i], mo) by {
                if i as usize == rd {
                    if push {
                        assert(ready@[ready@.len() - 1] == rd);
                    }
                } else {
                    if before.contains(i as usize) {
                        let t = choose|t: int| 0 <= t < before.len() && before[t] == i as usize;
                        assert(ready@[t] == i as usize);
                    }
                    if sub.contains(i as usize) {
                        let t = choose|t: int| 0 <= t < sub.len() && sub[t] == i as usize;
                        assert(t != 0);
                        assert(sub2[t - 1] == i as usize);
                    }
                }
            }
            assert forall|q2: int|
                q + 1 <= q2 < rds.len() && is_linear(ws[#[trigger] rds[q2] as int]) implies mo[rds[q2] as int] is None
                    && !ready@.contains(rds[q2]) && !pending.contains(rds[q2]) by {
                assert(rds[q as int] < rds[q2]);
                if push && ready@.contains(rds[q2]) {
                    let t = choose|t: int| 0 <= t < ready@.len() && ready@[t] == rds[q2];
                    if t < ready@.len() - 1 {
                        assert(before[t] == rds[q2]);
                    }
                }
            }
        }
        q = q + 1;
    }
    assert(rds.subrange(len as int, len as int) =~= Seq::<usize>::empty());
}

/// Places the wires `ids` on the results `flat.len()`, `flat.len() + 1`, ..
/// and makes ready the wires that wait for them.
fn place_block(
    c: &Circuit,
    mapping: &mut Vec<Option<KeccakWire>>,
    ready: &mut Vec<usize>,
    ids: &Vec<usize>,
    next_xor: &mut usize,
    Ghost(flat): Ghost<Seq<(KeccakWire, KeccakWire)>>,
    Ghost(bufv): Ghost<Seq<(KeccakWire, KeccakWire)>>,
)
    requires
        c.well_formed(),
        reads_earlier(c.wires@),
        placement_ok(c.wires@, old(mapping)@, flat),
        *old(next_xor) == flat.len(),
        flat.len() + 4 <= 4 * c.wires@.len(),
        4 * c.wires@.len() < usize::MAX,
        bufv.len() == ids@.len(),
        1 <= ids@.len() <= XOR_SIMD_SIZE,
        distinct(ids@),
        ready_ok(c.wires@, old(mapping)@, old(ready)@, ids@),
        waiting_ok(c.wires@, old(mapping)@, old(ready)@, ids@, Seq::empty()),
        forall|p: int|
            0 <= p < ids@.len() ==> #[trigger] ids@[p] < c.wires@.len() && is_linear(
                c.wires@[ids@[p] as int],
            ) && old(mapping)@[ids@[p] as int] is None && operands_placed(
                c.wires@[ids@[p] as int],
                old(mapping)@,
            ),
        forall|p: int|
            0 <= p < bufv.len() ==> #[trigger] bufv[p] == pair_of(
                c.wires@[ids@[p] as int],
                placed(old(mapping)@),
            ),
    ensures
        placement_ok(c.wires@, final(mapping)@, flat + bufv),
        ready_ok(c.wires@, final(mapping)@, final(ready)@, Seq::empty()),
        waiting_ok(c.wires@, final(mapping)@, final(ready)@, Seq::empty(), Seq::empty()),
        count_none(final(mapping)@) + ids@.len() == count_none(old(mapping)@),
        *final(next_xor) == flat.len() + ids@.len(),
        final(mapping)@.len() == old(mapping)@.len(),
        forall|q: int| 0 <= q < ids@.len() ==> final(mapping)@[#[trigger] ids@[q] as int] == Some(
            KeccakWire::XorOutput((flat.len() + q) as usize),
        ),
        forall|x: int|
            0 <= x < old(mapping)@.len() && !ids@.contains(x as usize) ==> #[trigger] final(mapping)@[x]
                == old(mapping)@[x],
{
    let ghost ws = c.wires@;
    let ghost n = ws.len();
    let ghost base = flat.len();
    let ghost ext = flat + bufv;
    let ghost ids_v = ids@;
    let ghost none0 = count_none(mapping@);
    let ghost mo_start = mapping@;
    let len = ids.len();
    let mut p: usize = 0;
    assert(ids_v.subrange(0, len as int) =~= ids_v);
    assert forall|i: int|
        0 <= i < ws.len() && is_linear(ws[i]) && mapping@[i] is Some implies (#[trigger] mapping@[i] matches Some(
        KeccakWire::XorOutput(k),
    ) && k < ext.len() && operands_placed(ws[i], mapping@) && ext[k as int] == pair_of(ws[i], placed(mapping@)))
        by {
        assert(mapping@[i] matches Some(KeccakWire::XorOutput(k)) && k < flat.len());
    }
    while p < len
        invariant
            ws == c.wires@,
            n == ws.len(),
            c.well_formed(),
            reads_earlier(ws),
            4 * n < usize::MAX,
            base + 4 <= 4 * n,
            ids@ == ids_v,
            len == ids_v.len(),
            1 <= len <= XOR_SIMD_SIZE,
            bufv.len() == len,
            ext == flat + bufv,
            base == flat.len(),
            distinct(ids_v),
            p <= len,
            *next_xor == base + p,
            placement_ok(ws, mapping@, ext),
            forall|i: int|
                0 <= i < n && is_linear(ws[i]) && mapping@[i] is Some ==> (#[trigger] mapping@[i] matches Some(
                    KeccakWire::XorOutput(k),
                ) && k < base + p),
            forall|q: int| 0 <= q < p ==> mapping@[#[trigger] ids_v[q] as int] == Some(
                KeccakWire::XorOutput((base + q) as usize),
            ),
            forall|q: int| 0 <= q < len ==> #[trigger] ids_v[q] < n,
            forall|q: int|
                p <= q < len ==> #[trigger] ids_v[q] < n && mapping@[ids_v[q] as int] is None
                    && operands_placed(ws[ids_v[q] as int], mapping@) && bufv[q] == pair_of(
                    ws[ids_v[q] as int],
                    placed(mapping@),
                ) && is_linear(ws[ids_v[q] as int]),
            ready_ok(ws, mapping@, ready@, ids_v.subrange(p as int, len as int)),
            waiting_ok(ws, mapping@, ready@, ids_v.subrange(p as int, len as int), Seq::empty()),
            count_none(mapping@) + p == none0,
            mapping@.len() == mo_start.len(),
            forall|x: int|
                0 <= x < n && !ids_v.contains(x as usize) ==> #[trigger] mapping@[x] == mo_start[x],
        decreases len - p,
    {
        let oid = ids[p];
        let ghost mo = mapping@;
        let ghost w = KeccakWire::XorOutput(*next_xor);
        let ghost pend = ids_v.subrange(p as int, len as int);
        let ghost pend2 = ids_v.subrange(p + 1, len as int);
        assert(pend[0] == oid);
        mapping.set(oid, Some(KeccakWire::XorOutput(*next_xor)));
        let ghost mo2 = mapping@;
        assert(mo2 == mo.update(oid as int, Some(w)));
        proof {
            lemma_count_none_update(mo, oid as int, w);
            // Pairs and placed operands stay as they were.
            assert forall|i: int| 0 <= i < n && operands_placed(ws[i], mo) implies pair_of(
                ws[i],
                placed(mo2),
            ) == pair_of(#[trigger] ws[i], placed(mo)) && operands_placed(ws[i], mo2) by {
                assert forall|j: int| 0 <= j < operands(ws[i]).len() implies #[trigger] operands(ws[i])[j]
                    < mo.len() by {
                    assert(operands(ws[i])[j] < i);
                }
                lemma_place_keeps_pair(ws[i], mo, oid as int, w);
            }
            assert(operands_placed(ws[oid as int], mo));
            assert(pair_of(ws[oid as int], placed(mo2)) == pair_of(ws[oid as int], placed(mo)));
            assert(ext[base + p] == bufv[p as int]);
            // The placement.
            assert forall|i: int|
                0 <= i < ws.len() && !is_linear(ws[i]) implies #[trigger] mo2[i] == Some(fixed_wire(ws, i)) by {
                assert(i != oid);
            }
            assert forall|i: int|
                0 <= i < ws.len() && is_linear(ws[i]) && mo2[i] is Some implies (#[trigger] mo2[i] matches Some(
                KeccakWire::XorOutput(k),
            ) && k < ext.len() && operands_placed(ws[i], mo2) && ext[k as int] == pair_of(ws[i], placed(mo2)))
                by {
                if i != oid {
                    assert(mo2[i] == mo[i]);
                    assert(operands_placed(ws[i], mo));
                }
            }
            assert forall|i: int, j: int|
                0 <= i < j < ws.len() && is_linear(ws[i]) && is_linear(ws[j]) && mo2[i] is Some && mo2[j] is Some
                    implies #[trigger] mo2[i] != #[trigger] mo2[j] by {
                if i == oid {
                    assert(mo[j] matches Some(KeccakWire::XorOutput(k)) && k < base + p);
                } else if j == oid {
                    assert(mo[i] matches Some(KeccakWire::XorOutput(k)) && k < base + p);
                } else {
                    assert(mo2[i] == mo[i]);
                    assert(mo2[j] == mo[j]);
                }
            }
            assert(placement_ok(ws, mo2, ext));
            // The readers of oid.
            lemma_readers_props(ws, oid);
            let rds = readers(ws, oid);
            assert forall|r: int| 0 <= r < ready@.len() implies #[trigger] ready@[r] < ws.len() && is_linear(
                ws[ready@[r] as int],
            ) && mo2[ready@[r] as int] is None && operands_placed(ws[ready@[r] as int], mo2)
                && !pend2.contains(ready@[r]) by {
                assert(!pend.contains(ready@[r]));
                assert(ready@[r] != oid);
                if pend2.contains(ready@[r]) {
                    let t = choose|t: int| 0 <= t < pend2.len() && pend2[t] == ready@[r];
                    assert(pend[t + 1] == ready@[r]);
                }
            }
            assert(ready_ok(ws, mo2, ready@, pend2));
            assert forall|i: int|
                0 <= i < ws.len() && is_linear(ws[i]) && #[trigger] mo2[i] is None && !ready@.contains(i as usize)
                    && !pend2.contains(i as usize) && !rds.contains(i as usize) implies !operands_placed(ws[i], mo2)
                by {
                assert(i != oid);
                if pend.contains(i as usize) {
                    let t = choose|t: int| 0 <= t < pend.len() && pend[t] == i as usize;
                    assert(t != 0);
                    assert(pend2[t - 1] == i as usize);
                }
                assert(!operands_placed(ws[i], mo));
                let j = choose|j: int| 0 <= j < operands(ws[i]).len() && !(mo[#[trigger] operands(ws[i])[j] as int] is Some);
                if operands(ws[i])[j] == oid {
                    assert(operands(ws[i]).contains(oid));
                }
                assert(!(mo2[operands(ws[i])[j] as int] is Some));
            }
            assert forall|q: int|
                0 <= q < rds.len() && is_linear(ws[#[trigger] rds[q] as int]) implies mo2[rds[q] as int] is None
                    && !ready@.contains(rds[q]) && !pend2.contains(rds[q]) by {
                let r = rds[q] as int;
                assert(operands(ws[r]).contains(oid));
                let j = choose|j: int| 0 <= j < operands(ws[r]).len() && operands(ws[r])[j] == oid;
                assert(oid < r);
                assert(!operands_placed(ws[r], mo)) by {
                    assert(!(mo[operands(ws[r])[j] as int] is Some));
                }
                if ready@.contains(rds[q]) {
                    let t = choose|t: int| 0 <= t < ready@.len() && ready@[t] == rds[q];
                }
                if pend2.contains(rds[q]) {
                    let t = choose|t: int| 0 <= t < pend2.len() && pend2[t] == rds[q];
                    assert(ids_v[p + 1 + t] == rds[q]);
                }
            }
        }
        *next_xor = *next_xor + 1;
        release_readers(c, mapping, ready, oid, Ghost(pend2));
        p = p + 1;
        proof {
            assert forall|q: int|
                p <= q < len implies #[trigger] ids_v[q] < n && mapping@[ids_v[q] as int] is None
                    && operands_placed(ws[ids_v[q] as int], mapping@) && bufv[q] == pair_of(
                    ws[ids_v[q] as int],
                    placed(mapping@),
                ) && is_linear(ws[ids_v[q] as int]) by {
                assert(ids_v[q] != oid);
            }
            assert forall|x: int| 0 <= x < n && !ids_v.contains(x as usize) implies #[trigger] mapping@[x]
                == mo_start[x] by {
                assert(mapping@ == mo2);
                if x == oid as int {
                    assert(ids_v[p - 1] == oid);
                }
            }
            assert forall|q: int| 0 <= q < p implies mapping@[#[trigger] ids_v[q] as int] == Some(
                KeccakWire::XorOutput((base + q) as usize),
            ) by {
                assert(mapping@ == mo2);
                if q < p - 1 {
                    assert(ids_v[q] != oid);
                    assert(mo2[ids_v[q] as int] == mo[ids_v[q] as int]);
                } else {
                    assert(ids_v[q] == oid);
                    assert(w == KeccakWire::XorOutput((base + q) as usize));
                }
            }
        }
    }
    assert(ids_v.subrange(len as int, len as int) =~= Seq::<usize>::empty());
}

/// The position of the pair that computes a wire found at `w` (-1 for a
/// fixed value or the constant).
pub open spec fn slot_of(w: KeccakWire) -> int {
    match w {
        KeccakWire::XorOutput(k) => k as int,
        _ => -1,
    }
}

/// Linear wire `j` is ready for block `t`: its own pair is in block `t` or
/// later, and the values of its operands are known before block `t`.
pub open spec fn ready_for(ws: Seq<WireBody>, mp: Seq<KeccakWire>, j: int, t: int) -> bool {
    &&& is_linear(ws[j])
    &&& slot_of(mp[j]) >= 4 * t
    &&& forall|q: int|
        0 <= q < operands(ws[j]).len() ==> slot_of(mp[#[trigger] operands(ws[j])[q] as int]) < 4 * t
}

/// Every pair reads only wires found before its own block of four.
pub open spec fn blocks_read_back(pairs: Seq<(KeccakWire, KeccakWire)>) -> bool {
    forall|k: int|
        0 <= k < pairs.len() ==> refers_before(#[trigger] pairs[k].0, 4 * (k / 4)) && refers_before(
            pairs[k].1,
            4 * (k / 4),
        )
}

/// Some wire is computed by pair `s`.
pub open spec fn slot_used(mp: Seq<KeccakWire>, s: int) -> bool {
    exists|i: int| 0 <= i < mp.len() && #[trigger] slot_of(mp[i]) == s
}

/// The blocks are formed greedily: the pairs of a block use only results of
/// earlier blocks; each block takes, in increasing order, the smallest wires
/// ready for it; a block short of four pairs takes every wire ready for it,
/// starts with a real pair, and is filled up with copies of its first pair.
pub open spec fn greedy_order(
    ws: Seq<WireBody>,
    pairs: Seq<(KeccakWire, KeccakWire)>,
    mp: Seq<KeccakWire>,
) -> bool {
    &&& blocks_read_back(pairs)
    &&& forall|i: int, j: int|
        #![trigger mp[i], mp[j]]
        0 <= j < i < ws.len() && is_linear(ws[i]) && ready_for(ws, mp, j, slot_of(mp[i]) / 4) ==> slot_of(
            mp[j],
        ) < slot_of(mp[i])
    &&& forall|s: int| 0 <= s < pairs.len() && !slot_used(mp, s) ==> #[trigger] filler_at(ws, pairs, mp, s)
}

/// Pair `s`, which computes no wire, is a copy that fills up a short block:
/// not the first of its block, equal to that first pair, and after every
/// wire ready for the block.
pub open spec fn filler_at(ws: Seq<WireBody>, pairs: Seq<(KeccakWire, KeccakWire)>, mp: Seq<KeccakWire>, s: int) -> bool {
    &&& s % 4 != 0
    &&& pairs[s] == pairs[4 * (s / 4)]
    &&& forall|j: int| 0 <= j < ws.len() && ready_for(ws, mp, j, s / 4) ==> slot_of(mp[j]) < s
}

/// The slot of a placed wire (`usize::MAX` plus one where not placed).
pub open spec fn oslot(o: Option<KeccakWire>) -> int {
    match o {
        Some(w) => slot_of(w),
        None => usize::MAX + 1,
    }
}

/// `ready_for` while the wires are being placed: a wire not placed yet is
/// after every block so far.
pub open spec fn ready_for_now(ws: Seq<WireBody>, mo: Seq<Option<KeccakWire>>, j: int, t: int) -> bool {
    &&& is_linear(ws[j])
    &&& oslot(mo[j]) >= 4 * t
    &&& forall|q: int| 0 <= q < operands(ws[j]).len() ==> oslot(mo[#[trigger] operands(ws[j])[q] as int]) < 4 * t
}

/// `slot_used` while the wires are being placed.
pub open spec fn slot_used_now(mo: Seq<Option<KeccakWire>>, s: int) -> bool {
    exists|i: int| 0 <= i < mo.len() && #[trigger] oslot(mo[i]) == s
}

/// `greedy_order` for the blocks formed so far.
pub open spec fn order_now(ws: Seq<WireBody>, mo: Seq<Option<KeccakWire>>, flat: Seq<(KeccakWire, KeccakWire)>) -> bool {
    &&& blocks_read_back(flat)
    &&& forall|i: int, j: int|
        #![trigger mo[i], mo[j]]
        0 <= j < i < ws.len() && is_linear(ws[i]) && mo[i] is Some && ready_for_now(ws, mo, j, oslot(mo[i]) / 4)
            ==> mo[j] is Some && oslot(mo[j]) < oslot(mo[i])
    &&& forall|s: int| 0 <= s < flat.len() && !slot_used_now(mo, s) ==> #[trigger] filler_now(ws, flat, mo, s)
}

/// `filler_at` while the wires are being placed.
pub open spec fn filler_now(ws: Seq<WireBody>, flat: Seq<(KeccakWire, KeccakWire)>, mo: Seq<Option<KeccakWire>>, s: int) -> bool {
    &&& s % 4 != 0
    &&& flat[s] == flat[4 * (s / 4)]
    &&& forall|j: int| 0 <= j < ws.len() && ready_for_now(ws, mo, j, s / 4) ==> mo[j] is Some && oslot(mo[j]) < s
}

/// Closing a block keeps the state between blocks.
proof fn lemma_state_step(
    ws: Seq<WireBody>,
    mo: Seq<Option<KeccakWire>>,
    ready: Seq<usize>,
    flat: Seq<(KeccakWire, KeccakWire)>,
    bufv: Seq<(KeccakWire, KeccakWire)>,
    block: Seq<(KeccakWire, KeccakWire)>,
)
    requires
        placement_ok(ws, mo, flat + bufv),
        refs_ok(flat),
        ready_ok(ws, mo, ready, Seq::empty()),
        waiting_ok(ws, mo, ready, Seq::empty(), Seq::empty()),
        1 <= bufv.len() <= 4,
        block.len() == 4,
        forall|q: int| 0 <= q < 4 ==> #[trigger] block[q] == if q < bufv.len() {
            bufv[q]
        } else {
            bufv[0]
        },
        forall|q: int|
            0 <= q < bufv.len() ==> refers_before(#[trigger] bufv[q].0, flat.len() as int) && refers_before(
                bufv[q].1,
                flat.len() as int,
            ),
        flat.len() + 4 + 4 * count_none(mo) <= 4 * ws.len(),
    ensures
        batch_state(ws, mo, ready, flat + block),
{
    let f2 = flat + block;
    let ext = flat + bufv;
    assert forall|k: int| 0 <= k < ext.len() implies #[trigger] f2[k] == ext[k] by {
        if k >= flat.len() {
            assert(f2[k] == block[k - flat.len()]);
        }
    }
    assert forall|i: int|
        0 <= i < ws.len() && is_linear(ws[i]) && mo[i] is Some implies (#[trigger] mo[i] matches Some(
        KeccakWire::XorOutput(k),
    ) && k < f2.len() && operands_placed(ws[i], mo) && f2[k as int] == pair_of(ws[i], placed(mo))) by {
        assert(mo[i] matches Some(KeccakWire::XorOutput(k)) && k < ext.len());
    }
    assert forall|k: int| 0 <= k < f2.len() implies refers_before(#[trigger] f2[k].0, k) && refers_before(
        f2[k].1,
        k,
    ) by {
        if k >= flat.len() {
            let q = k - flat.len();
            assert(f2[k] == block[q]);
            if q < bufv.len() {
                assert(block[q] == bufv[q]);
            } else {
                assert(block[q] == bufv[0]);
            }
        }
    }
}

proof fn lemma_div4(base: int, r: int)
    requires
        base >= 0,
        base % 4 == 0,
        0 <= r < 4,
    ensures
        (base + r) / 4 == base / 4,
        (base + r) % 4 == r,
        4 * ((base + r) / 4) == base,
{
    assert((base + r) / 4 == base / 4 && (base + r) % 4 == r && 4 * (base / 4) == base) by (nonlinear_arith)
        requires
            base >= 0,
            base % 4 == 0,
            0 <= r < 4,
    ;
}

/// How closing a block changes where the wires sit: the wires `ids` (not
/// placed before) go to the results `base..`; every placed wire stays, on a
/// result before `base`.
pub open spec fn step_map(
    ws: Seq<WireBody>,
    mo0: Seq<Option<KeccakWire>>,
    mo1: Seq<Option<KeccakWire>>,
    ids: Seq<usize>,
    base: int,
) -> bool {
    &&& mo0.len() == ws.len()
    &&& mo1.len() == ws.len()
    &&& ws.len() <= usize::MAX
    &&& base >= 0
    &&& base % 4 == 0
    &&& base + 4 <= usize::MAX
    &&& 1 <= ids.len() <= 4
    &&& forall|p: int|
        0 <= p < ids.len() ==> #[trigger] ids[p] < ws.len() && is_linear(ws[ids[p] as int]) && mo0[ids[p] as int] is None
            && mo1[ids[p] as int] == Some(KeccakWire::XorOutput((base + p) as usize))
    &&& forall|x: int| 0 <= x < ws.len() && #[trigger] mo0[x] is Some ==> mo1[x] == mo0[x] && oslot(mo0[x]) < base
    &&& forall|x: int|
        0 <= x < ws.len() && mo0[x] is None && #[trigger] mo1[x] is Some ==> base <= oslot(mo1[x]) < base
            + ids.len() && ids[oslot(mo1[x]) - base] == x
}

/// How the wires `ids` of a block were taken from `ready0`: in increasing
/// order, each smaller than every wire left in `rest`, all of them where
/// the block is short.
pub open spec fn step_fill(ids: Seq<usize>, rest: Seq<usize>, ready0: Seq<usize>) -> bool {
    &&& forall|a: int, b: int| 0 <= a < b < ids.len() ==> #[trigger] ids[a] < #[trigger] ids[b]
    &&& forall|p: int, q: int| 0 <= p < ids.len() && 0 <= q < rest.len() ==> #[trigger] ids[p] < #[trigger] rest[q]
    &&& forall|x: usize| #[trigger] ready0.contains(x) <==> (rest.contains(x) || ids.contains(x))
    &&& ids.len() < 4 ==> rest.len() == 0
}

/// The block of four pairs made of `bufv` and copies of its first pair.
pub open spec fn block_of(bufv: Seq<(KeccakWire, KeccakWire)>, block: Seq<(KeccakWire, KeccakWire)>) -> bool {
    &&& 1 <= bufv.len() <= 4
    &&& block.len() == 4
    &&& forall|q: int| 0 <= q < 4 ==> #[trigger] block[q] == if q < bufv.len() {
        bufv[q]
    } else {
        bufv[0]
    }
}

/// Wires placed by a new block sit after every earlier block, so a wire
/// ready for an earlier block (or the new one) was ready for it before.
proof fn lemma_ready_back(
    ws: Seq<WireBody>,
    mo0: Seq<Option<KeccakWire>>,
    mo1: Seq<Option<KeccakWire>>,
    ids: Seq<usize>,
    base: int,
    j: int,
    t: int,
)
    requires
        0 <= j < ws.len(),
        reads_earlier(ws),
        step_map(ws, mo0, mo1, ids, base),
        4 * t <= base,
        ready_for_now(ws, mo1, j, t),
    ensures
        ready_for_now(ws, mo0, j, t),
{
    if mo0[j] is Some {
        assert(mo1[j] == mo0[j]);
    }
    assert forall|q: int| 0 <= q < operands(ws[j]).len() implies oslot(mo0[#[trigger] operands(ws[j])[q] as int])
        < 4 * t by {
        let o = operands(ws[j])[q] as int;
        assert(o < j);
        assert(oslot(mo1[o]) < 4 * t);
        if mo0[o] is Some {
            assert(mo1[o] == mo0[o]);
        } else if mo1[o] is Some {
            assert(base <= oslot(mo1[o]));
        }
    }
}

/// A wire ready for the new block was a ready wire when the block was formed.
proof fn lemma_ready_new(
    ws: Seq<WireBody>,
    mo0: Seq<Option<KeccakWire>>,
    mo1: Seq<Option<KeccakWire>>,
    ids: Seq<usize>,
    base: int,
    ready0: Seq<usize>,
    j: int,
)
    requires
        0 <= j < ws.len(),
        reads_earlier(ws),
        step_map(ws, mo0, mo1, ids, base),
        waiting_ok(ws, mo0, ready0, Seq::empty(), Seq::empty()),
        ready_for_now(ws, mo1, j, base / 4),
    ensures
        ready0.contains(j as usize),
        mo0[j] is None,
{
    lemma_div4(base, 0);
    lemma_ready_back(ws, mo0, mo1, ids, base, j, base / 4);
    if mo0[j] is Some {
        assert(oslot(mo0[j]) < base);
    }
    assert(operands_placed(ws[j], mo0)) by {
        assert forall|q: int| 0 <= q < operands(ws[j]).len() implies mo0[#[trigger] operands(ws[j])[q] as int] is Some by {
            assert(oslot(mo0[operands(ws[j])[q] as int]) < 4 * (base / 4));
        }
    }
}

proof fn lemma_step_refs(
    flat: Seq<(KeccakWire, KeccakWire)>,
    bufv: Seq<(KeccakWire, KeccakWire)>,
    block: Seq<(KeccakWire, KeccakWire)>,
)
    requires
        flat.len() % 4 == 0,
        block_of(bufv, block),
        blocks_read_back(flat),
        forall|q: int|
            0 <= q < bufv.len() ==> refers_before(#[trigger] bufv[q].0, flat.len() as int) && refers_before(
                bufv[q].1,
                flat.len() as int,
            ),
    ensures
        blocks_read_back(flat + block),
{
    let base = flat.len() as int;
    let f2 = flat + block;
    assert forall|k: int| 0 <= k < f2.len() implies refers_before(#[trigger] f2[k].0, 4 * (k / 4)) && refers_before(
        f2[k].1,
        4 * (k / 4),
    ) by {
        if k >= base {
            let q = k - base;
            lemma_div4(base, q);
            assert(f2[k] == block[q]);
            if q < bufv.len() {
                assert(block[q] == bufv[q]);
            } else {
                assert(block[q] == bufv[0]);
            }
        } else {
            assert(f2[k] == flat[k]);
        }
    }
}

proof fn lemma_step_smallest(
    ws: Seq<WireBody>,
    mo0: Seq<Option<KeccakWire>>,
    mo1: Seq<Option<KeccakWire>>,
    ids: Seq<usize>,
    base: int,
    ready0: Seq<usize>,
    rest: Seq<usize>,
)
    requires
        reads_earlier(ws),
        step_map(ws, mo0, mo1, ids, base),
        step_fill(ids, rest, ready0),
        waiting_ok(ws, mo0, ready0, Seq::empty(), Seq::empty()),
        forall|i: int, j: int|
            #![trigger mo0[i], mo0[j]]
            0 <= j < i < ws.len() && is_linear(ws[i]) && mo0[i] is Some && ready_for_now(ws, mo0, j, oslot(mo0[i]) / 4)
                ==> mo0[j] is Some && oslot(mo0[j]) < oslot(mo0[i]),
    ensures
        forall|i: int, j: int|
            #![trigger mo1[i], mo1[j]]
            0 <= j < i < ws.len() && is_linear(ws[i]) && mo1[i] is Some && ready_for_now(ws, mo1, j, oslot(mo1[i]) / 4)
                ==> mo1[j] is Some && oslot(mo1[j]) < oslot(mo1[i]),
{
    let len = ids.len() as int;
    assert forall|i: int, j: int|
        #![trigger mo1[i], mo1[j]]
        0 <= j < i < ws.len() && is_linear(ws[i]) && mo1[i] is Some && ready_for_now(ws, mo1, j, oslot(mo1[i]) / 4)
            implies mo1[j] is Some && oslot(mo1[j]) < oslot(mo1[i]) by {
        if mo0[i] is None {
            let p = oslot(mo1[i]) - base;
            assert(0 <= p < len && ids[p] == i);
            lemma_div4(base, p);
            lemma_ready_new(ws, mo0, mo1, ids, base, ready0, j);
            if rest.contains(j as usize) {
                let q = choose|q: int| 0 <= q < rest.len() && rest[q] == j as usize;
                assert(ids[p] < rest[q]);
            } else {
                assert(ids.contains(j as usize));
                let q = choose|q: int| 0 <= q < len && ids[q] == j as usize;
                if q > p {
                    assert(ids[p] < ids[q]);
                }
                assert(q != p);
                assert(mo1[ids[q] as int] == Some(KeccakWire::XorOutput((base + q) as usize)));
            }
        } else {
            assert(mo1[i] == mo0[i]);
            let t = oslot(mo0[i]) / 4;
            assert(oslot(mo0[i]) < base);
            lemma_ready_back(ws, mo0, mo1, ids, base, j, t);
            assert(mo0[j] is Some && oslot(mo0[j]) < oslot(mo0[i]));
            assert(mo1[j] == mo0[j]);
        }
    }
}

proof fn lemma_step_short(
    ws: Seq<WireBody>,
    mo0: Seq<Option<KeccakWire>>,
    mo1: Seq<Option<KeccakWire>>,
    ids: Seq<usize>,
    base: int,
    ready0: Seq<usize>,
    rest: Seq<usize>,
    flat: Seq<(KeccakWire, KeccakWire)>,
    bufv: Seq<(KeccakWire, KeccakWire)>,
    block: Seq<(KeccakWire, KeccakWire)>,
)
    requires
        reads_earlier(ws),
        step_map(ws, mo0, mo1, ids, base),
        step_fill(ids, rest, ready0),
        waiting_ok(ws, mo0, ready0, Seq::empty(), Seq::empty()),
        flat.len() == base,
        block_of(bufv, block),
        bufv.len() == ids.len(),
        forall|s: int| 0 <= s < flat.len() && !slot_used_now(mo0, s) ==> #[trigger] filler_now(ws, flat, mo0, s),
    ensures
        forall|s: int|
            0 <= s < (flat + block).len() && !slot_used_now(mo1, s) ==> #[trigger] filler_now(ws, flat + block, mo1, s),
{
    let len = ids.len() as int;
    let f2 = flat + block;
    assert forall|s: int| 0 <= s < f2.len() && !slot_used_now(mo1, s) implies #[trigger] filler_now(ws, f2, mo1, s) by {
        if s < base {
            assert(!slot_used_now(mo0, s)) by {
                if slot_used_now(mo0, s) {
                    let x = choose|x: int| 0 <= x < mo0.len() && #[trigger] oslot(mo0[x]) == s;
                    assert(mo0[x] is Some);
                    assert(mo1[x] == mo0[x]);
                    assert(oslot(mo1[x]) == s);
                }
            }
            assert(filler_now(ws, flat, mo0, s));
            assert(f2[s] == flat[s]);
            assert(4 * (s / 4) <= s);
            assert(f2[4 * (s / 4)] == flat[4 * (s / 4)]);
            assert forall|j: int| 0 <= j < ws.len() && ready_for_now(ws, mo1, j, s / 4) implies mo1[j] is Some && oslot(
                mo1[j],
            ) < s by {
                lemma_ready_back(ws, mo0, mo1, ids, base, j, s / 4);
                assert(mo1[j] == mo0[j]);
            }
        } else {
            let r = s - base;
            if r < len {
                assert(mo1[ids[r] as int] == Some(KeccakWire::XorOutput((base + r) as usize)));
                assert(oslot(mo1[ids[r] as int]) == s);
                assert(slot_used_now(mo1, s));
            }
            assert(len <= r < 4);
            lemma_div4(base, r);
            assert(s / 4 == base / 4);
            assert(f2[s] == block[r]);
            assert(block[r] == bufv[0]);
            assert(f2[base] == block[0]);
            assert(block[0] == bufv[0]);
            assert(rest.len() == 0);
            assert forall|j: int| 0 <= j < ws.len() && ready_for_now(ws, mo1, j, s / 4) implies mo1[j] is Some && oslot(
                mo1[j],
            ) < s by {
                lemma_ready_new(ws, mo0, mo1, ids, base, ready0, j);
                let x = j as usize;
                assert(x as int == j);
                assert(!rest.contains(x));
                assert(ready0.contains(x));
                assert(ids.contains(x));
                let q = choose|q: int| 0 <= q < len && ids[q] == x;
                assert(mo1[ids[q] as int] == Some(KeccakWire::XorOutput((base + q) as usize)));
                assert(ids[q] as int == j);
                assert(oslot(mo1[j]) == base + q);
            }
        }
    }
}

/// What `fill_block` and `place_block` promise gives `step_map`.
proof fn lemma_step_map(
    ws: Seq<WireBody>,
    mo0: Seq<Option<KeccakWire>>,
    mo1: Seq<Option<KeccakWire>>,
    ids: Seq<usize>,
    flat: Seq<(KeccakWire, KeccakWire)>,
)
    requires
        placement_ok(ws, mo0, flat),
        ws.len() <= usize::MAX,
        flat.len() % 4 == 0,
        flat.len() + 4 <= usize::MAX,
        1 <= ids.len() <= 4,
        mo1.len() == mo0.len(),
        forall|p: int|
            0 <= p < ids.len() ==> #[trigger] ids[p] < ws.len() && is_linear(ws[ids[p] as int]) && mo0[ids[p] as int] is None,
        forall|q: int| 0 <= q < ids.len() ==> mo1[#[trigger] ids[q] as int] == Some(
            KeccakWire::XorOutput((flat.len() + q) as usize),
        ),
        forall|x: int| 0 <= x < mo0.len() && !ids.contains(x as usize) ==> #[trigger] mo1[x] == mo0[x],
    ensures
        step_map(ws, mo0, mo1, ids, flat.len() as int),
{
    let base = flat.len() as int;
    assert forall|x: int| 0 <= x < ws.len() && #[trigger] mo0[x] is Some implies mo1[x] == mo0[x] && oslot(mo0[x]) < base by {
        if ids.contains(x as usize) {
            let p = choose|p: int| 0 <= p < ids.len() && ids[p] == x as usize;
            assert(mo0[ids[p] as int] is None);
        }
        if is_linear(ws[x]) {
            assert(mo0[x] matches Some(KeccakWire::XorOutput(k)) && k < flat.len());
        } else {
            assert(mo0[x] == Some(fixed_wire(ws, x)));
        }
    }
    assert forall|x: int| 0 <= x < ws.len() && mo0[x] is None && #[trigger] mo1[x] is Some implies base <= oslot(mo1[x]) < base
        + ids.len() && ids[oslot(mo1[x]) - base] == x by {
        assert(ids.contains(x as usize));
        let p = choose|p: int| 0 <= p < ids.len() && ids[p] == x as usize;
        assert(mo1[ids[p] as int] == Some(KeccakWire::XorOutput((base + p) as usize)));
    }
}

/// Closing a block keeps `order_now`.
proof fn lemma_order_step(
    ws: Seq<WireBody>,
    mo0: Seq<Option<KeccakWire>>,
    mo1: Seq<Option<KeccakWire>>,
    ids: Seq<usize>,
    ready0: Seq<usize>,
    rest: Seq<usize>,
    flat: Seq<(KeccakWire, KeccakWire)>,
    bufv: Seq<(KeccakWire, KeccakWire)>,
    block: Seq<(KeccakWire, KeccakWire)>,
)
    requires
        reads_earlier(ws),
        order_now(ws, mo0, flat),
        step_map(ws, mo0, mo1, ids, flat.len() as int),
        step_fill(ids, rest, ready0),
        waiting_ok(ws, mo0, ready0, Seq::empty(), Seq::empty()),
        block_of(bufv, block),
        bufv.len() == ids.len(),
        forall|q: int|
            0 <= q < bufv.len() ==> refers_before(#[trigger] bufv[q].0, flat.len() as int) && refers_before(
                bufv[q].1,
                flat.len() as int,
            ),
    ensures
        order_now(ws, mo1, flat + block),
{
    let base = flat.len() as int;
    lemma_step_refs(flat, bufv, block);
    lemma_step_smallest(ws, mo0, mo1, ids, base, ready0, rest);
    lemma_step_short(ws, mo0, mo1, ids, base, ready0, rest, flat, bufv, block);
}

/// Once every wire is placed, the greedy blocks read as `greedy_order`.
proof fn lemma_order_final(ws: Seq<WireBody>, mo: Seq<Option<KeccakWire>>, flat: Seq<(KeccakWire, KeccakWire)>)
    requires
        reads_earlier(ws),
        order_now(ws, mo, flat),
        mo.len() == ws.len(),
        forall|i: int| 0 <= i < mo.len() ==> #[trigger] mo[i] is Some,
    ensures
        greedy_order(ws, flat, placed(mo)),
{
    let mp = placed(mo);
    assert forall|x: int| 0 <= x < mo.len() implies #[trigger] slot_of(mp[x]) == oslot(mo[x]) by {}
    assert forall|j: int, t: int| 0 <= j < ws.len() && #[trigger] ready_for(ws, mp, j, t) implies ready_for_now(ws, mo, j, t) by {
        assert forall|q: int| 0 <= q < operands(ws[j]).len() implies oslot(mo[#[trigger] operands(ws[j])[q] as int]) < 4 * t by {
            let o = operands(ws[j])[q] as int;
            assert(o < j);
            assert(slot_of(mp[o]) < 4 * t);
            assert(slot_of(mp[o]) == oslot(mo[o]));
        }
        assert(slot_of(mp[j]) == oslot(mo[j]));
    }
    assert forall|i: int, j: int|
        #![trigger mp[i], mp[j]]
        0 <= j < i < ws.len() && is_linear(ws[i]) && ready_for(ws, mp, j, slot_of(mp[i]) / 4) implies slot_of(
            mp[j],
        ) < slot_of(mp[i]) by {
        assert(mo[i] is Some);
        assert(slot_of(mp[i]) == oslot(mo[i]));
        assert(slot_of(mp[j]) == oslot(mo[j]));
        assert(ready_for_now(ws, mo, j, oslot(mo[i]) / 4));
    }
    assert forall|s: int| 0 <= s < flat.len() && !slot_used(mp, s) implies #[trigger] filler_at(ws, flat, mp, s) by {
        assert(!slot_used_now(mo, s)) by {
            if slot_used_now(mo, s) {
                let x = choose|x: int| 0 <= x < mo.len() && #[trigger] oslot(mo[x]) == s;
                assert(slot_of(mp[x]) == s);
            }
        }
        assert(filler_now(ws, flat, mo, s));
        assert forall|j: int| 0 <= j < ws.len() && ready_for(ws, mp, j, s / 4) implies slot_of(mp[j]) < s by {
            assert(ready_for_now(ws, mo, j, s / 4));
            assert(slot_of(mp[j]) == oslot(mo[j]));
        }
    }
}

/// Fills a block up to four pairs with copies of its first pair, counting
/// each copy as a result.
fn pad_block(buf: Vec<(KeccakWire, KeccakWire)>, next_xor: &mut usize, Ghost(base): Ghost<nat>) -> (block: [(
    KeccakWire,
    KeccakWire,
); 4])
    requires
        1 <= buf@.len() <= XOR_SIMD_SIZE,
        *old(next_xor) == base + buf@.len(),
        base + 4 < usize::MAX,
    ensures
        block_of(buf@, block@),
        *final(next_xor) == base + 4,
{
    let ghost bufv = buf@;
    let mut buf = buf;
    while buf.len() < XOR_SIMD_SIZE
        invariant
            1 <= bufv.len() <= buf@.len() <= XOR_SIMD_SIZE,
            *next_xor == base + buf@.len(),
            base + 4 < usize::MAX,
            forall|q: int| 0 <= q < bufv.len() ==> #[trigger] buf@[q] == bufv[q],
            forall|q: int| bufv.len() <= q < buf@.len() ==> #[trigger] buf@[q] == bufv[0],
        decreases XOR_SIMD_SIZE - buf.len(),
    {
        let pair = buf[0];
        *next_xor = *next_xor + 1;
        buf.push(pair);
    }
    let block = [buf[0], buf[1], buf[2], buf[3]];
    assert forall|q: int| 0 <= q < 4 implies #[trigger] block@[q] == if q < bufv.len() {
        bufv[q]
    } else {
        bufv[0]
    } by {
        assert(block@[q] == buf@[q]);
    }
    block
}

/// Forms the next block: takes the smallest ready wires, places them, and
/// fills the block up to four pairs.
#[verifier::rlimit(30)]
fn form_block(
    c: &Circuit,
    mapping: &mut Vec<Option<KeccakWire>>,
    ready: &mut Vec<usize>,
    xors: &mut Vec<[(KeccakWire, KeccakWire); 4]>,
    next_xor: &mut usize,
)
    requires
        c.well_formed(),
        reads_earlier(c.wires@),
        4 * c.wires@.len() + NUM_INPUTS < usize::MAX,
        old(ready)@.len() > 0,
        batch_state(c.wires@, old(mapping)@, old(ready)@, flatten(old(xors)@)),
        order_now(c.wires@, old(mapping)@, flatten(old(xors)@)),
        flatten(old(xors)@).len() % 4 == 0,
        *old(next_xor) == flatten(old(xors)@).len(),
    ensures
        batch_state(c.wires@, final(mapping)@, final(ready)@, flatten(final(xors)@)),
        order_now(c.wires@, final(mapping)@, flatten(final(xors)@)),
        flatten(final(xors)@).len() % 4 == 0,
        *final(next_xor) == flatten(final(xors)@).len(),
        count_none(final(mapping)@) < count_none(old(mapping)@),
{
    let ghost ws = c.wires@;
    let ghost n = ws.len();
    let ghost flat = flatten(xors@);
    let ghost mo0 = mapping@;
    let ghost ready0 = ready@;
    proof {
        lemma_count_none_pos(mapping@, ready@[0] as int);
    }
    let (buf, ids) = fill_block(c, &*mapping, ready, Ghost(flat));
    let ghost bufv = buf@;
    let ghost rest = ready@;
    place_block(c, mapping, ready, &ids, next_xor, Ghost(flat), Ghost(bufv));
    proof {
        lemma_step_map(ws, mo0, mapping@, ids@, flat);
    }
    let block = pad_block(buf, next_xor, Ghost(flat.len()));
    let ghost xs_before = xors@;
    xors.push(block);
    proof {
        lemma_flatten_push(xs_before, block);
        assert(flatten(xors@) =~= flat + block@);
        lemma_state_step(ws, mapping@, ready@, flat, bufv, block@);
        assert(step_fill(ids@, rest, ready0));
        assert(block_of(bufv, block@));
        assert(step_map(ws, mo0, mapping@, ids@, flat.len() as int));
        assert(waiting_ok(ws, mo0, ready0, Seq::empty(), Seq::empty()));
        assert(order_now(ws, mo0, flat));
        lemma_order_step(ws, mo0, mapping@, ids@, ready0, rest, flat, bufv, block@);
        assert(order_now(ws, mapping@, flatten(xors@)));
        assert(flatten(xors@).len() % 4 == 0);
    }
}

/// Groups the linear gates of `c` into blocks of four whose pairs can be
/// added in order: a gate joins the earliest block after all its operands
/// are known, the smallest ready gates first, and a block short of four is
/// filled up with copies of its first pair. Gives the blocks and, for every
/// wire, where its value is found.
pub fn schedule_xors(c: &Circuit) -> (r: (Vec<[(KeccakWire, KeccakWire); 4]>, Vec<KeccakWire>))
    requires
        c.well_formed(),
        reads_earlier(c.wires@),
        inputs_below(c.wires@, NUM_INPUTS as nat),
        4 * c.wires@.len() + NUM_INPUTS < usize::MAX,
    ensures
        valid_schedule(c.wires@, flatten(r.0@), r.1@),
        greedy_order(c.wires@, flatten(r.0@), r.1@),
{
    let ghost ws = c.wires@;
    let n = c.wires.len();
    let mut mapping = initial_mapping(c);
    let mut ready = initial_ready(c, &mapping);
    let mut xors: Vec<[(KeccakWire, KeccakWire); 4]> = Vec::new();
    let mut next_xor: usize = 0;
    proof {
        lemma_count_none_bound(mapping@);
        assert(flatten(xors@) =~= Seq::<(KeccakWire, KeccakWire)>::empty());
        assert forall|i: int|
            0 <= i < ws.len() && is_linear(ws[i]) && #[trigger] mapping@[i] is None && !ready@.contains(
                i as usize,
            ) && !Seq::<usize>::empty().contains(i as usize) && !Seq::<usize>::empty().contains(
                i as usize,
            ) implies !operands_placed(ws[i], mapping@) by {}
        assert forall|r: int| 0 <= r < ready@.len() implies #[trigger] ready@[r] < ws.len() && is_linear(
            ws[ready@[r] as int],
        ) && mapping@[ready@[r] as int] is None && operands_placed(ws[ready@[r] as int], mapping@)
            && !Seq::<usize>::empty().contains(ready@[r]) by {}
    }
    while ready.len() > 0
        invariant
            ws == c.wires@,
            n == ws.len(),
            c.well_formed(),
            reads_earlier(ws),
            4 * n + NUM_INPUTS < usize::MAX,
            batch_state(ws, mapping@, ready@, flatten(xors@)),
            order_now(ws, mapping@, flatten(xors@)),
            flatten(xors@).len() % 4 == 0,
            next_xor == flatten(xors@).len(),
        decreases count_none(mapping@),
    {
        form_block(c, &mut mapping, &mut ready, &mut xors, &mut next_xor);
    }
    proof {
        assert forall|i: int| 0 <= i < ws.len() implies #[trigger] mapping@[i] is Some by {
            lemma_placed_at(ws, mapping@, i);
        }
    }
    let ghost mo = mapping@;
    let mut mp: Vec<KeccakWire> = Vec::new();
    let mut i: usize = 0;
    while i < n
        invariant
            i <= n,
            n == ws.len(),
            mo == mapping@,
            mo.len() == n,
            forall|j: int| 0 <= j < n ==> #[trigger] mo[j] is Some,
            mp@ == placed(mo).take(i as int),
        decreases n - i,
    {
        match mapping[i] {
            Some(w) => {
                mp.push(w);
            },
            None => {
                proof {
                    assert(false);
                }
                mp.push(KeccakWire::ConstOne);
            },
        }
        i = i + 1;
        assert(mp@ =~= placed(mo).take(i as int));
    }
    proof {
        assert(placed(mo).take(n as int) =~= placed(mo));
        let flat = flatten(xors@);
        let pm = placed(mo);
        assert forall|i: int|
            0 <= i < ws.len() && is_linear(ws[i]) implies (#[trigger] pm[i] matches KeccakWire::XorOutput(k)
            && k < flat.len() && flat[k as int] == pair_of(ws[i], pm)) by {
            assert(mo[i] matches Some(KeccakWire::XorOutput(k)) && k < flat.len());
        }
        assert forall|i: int, j: int|
            0 <= i < j < ws.len() && is_linear(ws[i]) && is_linear(ws[j]) implies #[trigger] pm[i]
            != #[trigger] pm[j] by {
            assert(mo[i] != mo[j]);
        }
        assert forall|i: int| 0 <= i < ws.len() && !is_linear(ws[i]) implies #[trigger] pm[i] == fixed_wire(
            ws,
            i,
        ) by {
            assert(mo[i] == Some(fixed_wire(ws, i)));
        }
        assert(refs_ok(flat));
        assert forall|k: int| 0 <= k < flat.len() implies refers_before(#[trigger] flat[k].0, k)
            && refers_before(flat[k].1, k) by {}
        assert(mp@ == pm);
        assert(valid_schedule(ws, flat, pm));
        lemma_order_final(ws, mo, flat);
    }
    (xors, mp)
}

// ---------------------------------------------------------------------------
// Reading the circuit text (the first version of the Bristol format: a line
// with the numbers of gates and wires, a line of input and output sizes,
// then one gate per line).

/// What one gate line does to the wires read so far and to the map from
/// Bristol wires to wires; `None` where the line is refused.
pub open spec fn keccak_gate_line(toks: Seq<Seq<char>>, ws: Seq<WireBody>, b2w: Seq<Option<usize>>) -> Option<
    (Seq<WireBody>, Seq<Option<usize>>),
> {
    if toks.len() == 0 || ws.len() + 1 >= usize::MAX {
        None
    } else {
        let kind = toks.last();
        if kind == seq!['X', 'O', 'R'] || kind == seq!['A', 'N', 'D'] {
            if toks.len() < 5 || toks[0] != seq!['2'] || toks[1] != seq!['1'] {
                None
            } else {
                match (parse_usize(toks[2]), parse_usize(toks[3]), parse_usize(toks[4])) {
                    (Ok(a), Ok(b), Ok(o)) => if a >= b2w.len() || b2w[a as int] is None || b >= b2w.len()
                        || b2w[b as int] is None || o >= b2w.len() || b2w[o as int] is Some {
                        None
                    } else {
                        let x = b2w[a as int]->Some_0;
                        let y = b2w[b as int]->Some_0;
                        let body = if kind == seq!['X', 'O', 'R'] {
                            WireBody::Xor(x, y)
                        } else {
                            WireBody::And(x, y)
                        };
                        Some((ws.push(body), b2w.update(o as int, Some(ws.len() as usize))))
                    },
                    _ => None,
                }
            }
        } else if kind == seq!['I', 'N', 'V'] {
            if toks.len() < 4 || toks[0] != seq!['1'] || toks[1] != seq!['1'] {
                None
            } else {
                match (parse_usize(toks[2]), parse_usize(toks[3])) {
                    (Ok(a), Ok(o)) => if a >= b2w.len() || b2w[a as int] is None || o >= b2w.len()
                        || b2w[o as int] is Some {
                        None
                    } else {
                        Some(
                            (
                                ws.push(WireBody::Inv(b2w[a as int]->Some_0)),
                                b2w.update(o as int, Some(ws.len() as usize)),
                            ),
                        )
                    },
                    _ => None,
                }
            }
        } else {
            None
        }
    }
}

/// Lines `2..k` of `lines`, read as gate lines in order.
pub open spec fn keccak_gates(
    lines: Seq<Seq<char>>,
    k: int,
    ws0: Seq<WireBody>,
    b0: Seq<Option<usize>>,
) -> Option<(Seq<WireBody>, Seq<Option<usize>>)>
    decreases k,
{
    if k <= 2 {
        Some((ws0, b0))
    } else {
        match keccak_gates(lines, k - 1, ws0, b0) {
            None => None,
            Some((ws, b)) => keccak_gate_line(ascii_tokens(lines[k - 1]), ws, b),
        }
    }
}

/// The input wires `0..n`.
pub open spec fn input_wires(n: nat) -> Seq<WireBody> {
    Seq::new(n, |i: int| WireBody::Input(i as usize))
}

/// Bristol wires `0..NUM_INPUTS` are the input wires; the others are not read yet.
pub open spec fn initial_b2w(nw: nat) -> Seq<Option<usize>> {
    Seq::new(nw, |i: int| if i < NUM_INPUTS { Some(i as usize) } else { None })
}

/// The wires and outputs that the circuit text `src` describes; `None`
/// where the text is refused: a header without two numbers, fewer wires
/// than inputs, no second line, a gate line that is not a well-formed XOR,
/// AND or INV over wires already written to a wire not written yet, a
/// number of wires other than announced, or a last wire never written.
pub open spec fn keccak_parse(src: Seq<char>) -> Option<(Seq<WireBody>, Seq<usize>)> {
    let lines = split_newlines(trim(src));
    let hdr = ascii_tokens(lines[0]);
    if hdr.len() < 2 {
        None
    } else {
        match (parse_usize(hdr[0]), parse_usize(hdr[1])) {
            (Ok(_), Ok(nw)) => if nw < NUM_INPUTS || lines.len() < 2 {
                None
            } else {
                keccak_finish(
                    keccak_gates(
                        lines,
                        lines.len() as int,
                        input_wires(NUM_INPUTS as nat),
                        initial_b2w(nw as nat),
                    ),
                    nw,
                )
            },
            _ => None,
        }
    }
}

/// The circuit after all gate lines: as many wires as announced, and the
/// last `NUM_INPUTS` Bristol wires written; they are the outputs.
pub open spec fn keccak_finish(g: Option<(Seq<WireBody>, Seq<Option<usize>>)>, nw: usize) -> Option<
    (Seq<WireBody>, Seq<usize>),
> {
    match g {
        None => None,
        Some((ws, b)) => if ws.len() != nw || exists|k: int|
            nw - NUM_INPUTS <= k < nw && #[trigger] b[k] is None {
            None
        } else {
            Some((ws, Seq::new(NUM_INPUTS as nat, |k: int| b[nw - NUM_INPUTS + k]->Some_0)))
        },
    }
}

fn is_word1(t: &Vec<char>, a: char) -> (r: bool)
    ensures
        r == (t@ == seq![a]),
{
    let r = t.len() == 1 && t[0] == a;
    if r {
        assert(t@ =~= seq![a]);
    }
    r
}

/// Every Bristol wire that is mapped goes to an existing wire.
pub open spec fn b2w_within(b2w: Seq<Option<usize>>, n: nat) -> bool {
    forall|i: int| 0 <= i < b2w.len() && #[trigger] b2w[i] is Some ==> b2w[i]->Some_0 < n
}

/// Reads one gate line into `circuit`; `false` where the line is refused.
fn read_keccak_gate(line: &Vec<char>, circuit: &mut Circuit, b2w: &mut Vec<Option<usize>>) -> (ok: bool)
    requires
        old(circuit).well_formed(),
        reads_earlier(old(circuit).wires@),
        inputs_below(old(circuit).wires@, NUM_INPUTS as nat),
        old(circuit).outputs@ == Seq::<usize>::empty(),
        b2w_within(old(b2w)@, old(circuit).wires@.len()),
    ensures
        match keccak_gate_line(ascii_tokens(line@), old(circuit).wires@, old(b2w)@) {
            None => !ok,
            Some((ws2, b2)) => {
                &&& ok
                &&& final(circuit).wires@ == ws2
                &&& final(b2w)@ == b2
                &&& final(circuit).well_formed()
                &&& reads_earlier(ws2)
                &&& inputs_below(ws2, NUM_INPUTS as nat)
                &&& final(circuit).outputs@ == Seq::<usize>::empty()
                &&& b2w_within(b2, ws2.len())
            },
        },
{
    let ghost ws = circuit.wires@;
    let toks = split_tokens_by(line.as_slice(), true);
    let ghost tv = views(toks@);
    assert(tv == ascii_tokens(line@));
    let nt = toks.len();
    if nt == 0 || circuit.wires.len() >= usize::MAX - 1 {
        return false;
    }
    let kind = &toks[nt - 1];
    assert(kind@ == tv.last());
    let is_xor = is_word3(kind, 'X', 'O', 'R');
    let is_and = is_word3(kind, 'A', 'N', 'D');
    let n = b2w.len();
    if is_xor || is_and {
        if nt < 5 {
            return false;
        }
        assert(toks@[0]@ == tv[0] && toks@[1]@ == tv[1]);
        if !is_word1(&toks[0], '2') || !is_word1(&toks[1], '1') {
            return false;
        }
        assert(toks@[2]@ == tv[2] && toks@[3]@ == tv[3] && toks@[4]@ == tv[4]);
        let a = match parse_usize_chars(toks[2].as_slice()) {
            Ok(v) => v,
            Err(_) => {
                return false;
            },
        };
        let b = match parse_usize_chars(toks[3].as_slice()) {
            Ok(v) => v,
            Err(_) => {
                return false;
            },
        };
        let o = match parse_usize_chars(toks[4].as_slice()) {
            Ok(v) => v,
            Err(_) => {
                return false;
            },
        };
        if a >= n || b >= n || o >= n {
            return false;
        }
        let x = match b2w[a] {
            Some(x) => x,
            None => {
                return false;
            },
        };
        let y = match b2w[b] {
            Some(y) => y,
            None => {
                return false;
            },
        };
        if b2w[o].is_some() {
            return false;
        }
        let body = if is_xor {
            WireBody::Xor(x, y)
        } else {
            WireBody::And(x, y)
        };
        assert(x < ws.len() && y < ws.len());
        assert forall|j: int| 0 <= j < operands(body).len() implies #[trigger] operands(body)[j] <= ws.len() by {}
        let w = circuit.add_wire(body);
        b2w.set(o, Some(w));
        proof {
            let ws2 = circuit.wires@;
            assert forall|i: int, j: int|
                0 <= i < ws2.len() && 0 <= j < operands(ws2[i]).len() implies #[trigger] operands(ws2[i])[j] < i by {
                if i < ws.len() {
                    assert(ws2[i] == ws[i]);
                }
            }
            assert forall|i: int| 0 <= i < ws2.len() implies (#[trigger] ws2[i] matches WireBody::Input(z) ==> z
                < NUM_INPUTS) by {
                if i < ws.len() {
                    assert(ws2[i] == ws[i]);
                }
            }
        }
        true
    } else if is_word3(kind, 'I', 'N', 'V') {
        if nt < 4 {
            return false;
        }
        assert(toks@[0]@ == tv[0] && toks@[1]@ == tv[1]);
        if !is_word1(&toks[0], '1') || !is_word1(&toks[1], '1') {
            return false;
        }
        assert(toks@[2]@ == tv[2] && toks@[3]@ == tv[3]);
        let a = match parse_usize_chars(toks[2].as_slice()) {
            Ok(v) => v,
            Err(_) => {
                return false;
            },
        };
        let o = match parse_usize_chars(toks[3].as_slice()) {
            Ok(v) => v,
            Err(_) => {
                return false;
            },
        };
        if a >= n || o >= n {
            return false;
        }
        let x = match b2w[a] {
            Some(x) => x,
            None => {
                return false;
            },
        };
        if b2w[o].is_some() {
            return false;
        }
        let body = WireBody::Inv(x);
        assert(x < ws.len());
        assert forall|j: int| 0 <= j < operands(body).len() implies #[trigger] operands(body)[j] <= ws.len() by {}
        let w = circuit.add_wire(body);
        b2w.set(o, Some(w));
        proof {
            let ws2 = circuit.wires@;
            assert forall|i: int, j: int|
                0 <= i < ws2.len() && 0 <= j < operands(ws2[i]).len() implies #[trigger] operands(ws2[i])[j] < i by {
                if i < ws.len() {
                    assert(ws2[i] == ws[i]);
                }
            }
            assert forall|i: int| 0 <= i < ws2.len() implies (#[trigger] ws2[i] matches WireBody::Input(z) ==> z
                < NUM_INPUTS) by {
                if i < ws.len() {
                    assert(ws2[i] == ws[i]);
                }
            }
        }
        true
    } else {
        false
    }
}

proof fn lemma_split_newlines_nonempty(s: Seq<char>)
    ensures
        split_newlines(s).len() >= 1,
    decreases s.len(),
{
    if s.len() > 0 {
        lemma_split_newlines_nonempty(s.drop_last());
    }
}

proof fn lemma_keccak_gates_none(
    lines: Seq<Seq<char>>,
    k: int,
    k2: int,
    ws0: Seq<WireBody>,
    b0: Seq<Option<usize>>,
)
    requires
        keccak_gates(lines, k, ws0, b0) is None,
        k <= k2,
    ensures
        keccak_gates(lines, k2, ws0, b0) is None,
    decreases k2 - k,
{
    if k2 > k {
        lemma_keccak_gates_none(lines, k, k2 - 1, ws0, b0);
    }
}

/// Reads the circuit text `src`; `None` where [`keccak_parse`] refuses it.
pub fn parse_circuit_checked(src: &str) -> (r: Option<Circuit>)
    ensures
        match keccak_parse(src@) {
            None => r is None,
            Some((ws, outs)) => r matches Some(c) && c.wires@ == ws && c.outputs@ == outs && c.well_formed()
                && c.acyclic() && inputs_below(ws, NUM_INPUTS as nat),
        },
{
    let chars = chars_of(src);
    let trimmed = trim_chars(chars.as_slice());
    let lines = split_at_newlines(trimmed.as_slice());
    let ghost lv = split_newlines(trim(src@));
    assert(views(lines@) == lv);
    proof {
        lemma_split_newlines_nonempty(trim(src@));
    }
    assert(lines@[0]@ == lv[0]);
    let hdr = split_tokens_by(lines[0].as_slice(), true);
    if hdr.len() < 2 {
        return None;
    }
    assert(hdr@[0]@ == ascii_tokens(lv[0])[0]);
    assert(hdr@[1]@ == ascii_tokens(lv[0])[1]);
    match parse_usize_chars(hdr[0].as_slice()) {
        Ok(_) => {},
        Err(_) => {
            return None;
        },
    }
    let num_wires = match parse_usize_chars(hdr[1].as_slice()) {
        Ok(v) => v,
        Err(_) => {
            return None;
        },
    };
    if num_wires < NUM_INPUTS {
        return None;
    }
    let mut b2w: Vec<Option<usize>> = Vec::new();
    let mut i: usize = 0;
    while i < num_wires
        invariant
            i <= num_wires,
            b2w@ == Seq::new(i as nat, |j: int| None::<usize>),
        decreases num_wires - i,
    {
        b2w.push(None);
        i = i + 1;
        assert(b2w@ =~= Seq::new(i as nat, |j: int| None::<usize>));
    }
    let mut circuit = Circuit::new();
    let mut i: usize = 0;
    while i < NUM_INPUTS
        invariant
            i <= NUM_INPUTS <= num_wires,
            circuit.well_formed(),
            circuit.wires@ == input_wires(i as nat),
            circuit.outputs@ == Seq::<usize>::empty(),
            b2w@ == Seq::new(num_wires as nat, |j: int| if j < i { Some(j as usize) } else { None }),
        decreases NUM_INPUTS - i,
    {
        let w = circuit.add_wire(WireBody::Input(i));
        b2w.set(i, Some(w));
        i = i + 1;
        assert(circuit.wires@ =~= input_wires(i as nat));
        assert(b2w@ =~= Seq::new(num_wires as nat, |j: int| if j < i { Some(j as usize) } else { None }));
    }
    assert(b2w@ =~= initial_b2w(num_wires as nat));
    if lines.len() < 2 {
        return None;
    }
    let ghost ws0 = input_wires(NUM_INPUTS as nat);
    let ghost b0 = initial_b2w(num_wires as nat);
    let n = lines.len();
    let mut k: usize = 2;
    assert(keccak_parse(src@) == keccak_finish(keccak_gates(lv, lv.len() as int, ws0, b0), num_wires));
    assert forall|i: int, j: int|
        0 <= i < ws0.len() && 0 <= j < operands(ws0[i]).len() implies #[trigger] operands(ws0[i])[j] < i by {}
    while k < n
        invariant
            2 <= k <= n,
            n == lv.len(),
            views(lines@) == lv,
            num_wires >= NUM_INPUTS,
            keccak_gates(lv, k as int, ws0, b0) == Some((circuit.wires@, b2w@)),
            circuit.well_formed(),
            reads_earlier(circuit.wires@),
            inputs_below(circuit.wires@, NUM_INPUTS as nat),
            circuit.outputs@ == Seq::<usize>::empty(),
            b2w_within(b2w@, circuit.wires@.len()),
            b2w@.len() == num_wires,
            keccak_parse(src@) == keccak_finish(keccak_gates(lv, lv.len() as int, ws0, b0), num_wires),
        decreases n - k,
    {
        assert(lines@[k as int]@ == lv[k as int]);
        if !read_keccak_gate(&lines[k], &mut circuit, &mut b2w) {
            proof {
                lemma_keccak_gates_none(lv, k + 1, n as int, ws0, b0);
            }
            return None;
        }
        k = k + 1;
    }
    if circuit.wires.len() != num_wires {
        return None;
    }
    let ghost bfin = b2w@;
    let mut outputs: Vec<usize> = Vec::new();
    let mut k: usize = num_wires - NUM_INPUTS;
    while k < num_wires
        invariant
            num_wires - NUM_INPUTS <= k <= num_wires,
            b2w@ == bfin,
            bfin.len() == num_wires,
            forall|j: int| num_wires - NUM_INPUTS <= j < k ==> #[trigger] bfin[j] is Some,
            outputs@ == Seq::new((k - (num_wires - NUM_INPUTS)) as nat, |j: int| bfin[num_wires - NUM_INPUTS + j]->Some_0),
            keccak_parse(src@) == keccak_finish(Some((circuit.wires@, bfin)), num_wires),
            circuit.wires@.len() == num_wires,
        decreases num_wires - k,
    {
        match b2w[k] {
            Some(w) => {
                outputs.push(w);
            },
            None => {
                assert(bfin[k as int] is None);
                return None;
            },
        }
        k = k + 1;
        assert(outputs@ =~= Seq::new((k - (num_wires - NUM_INPUTS)) as nat, |j: int| bfin[num_wires - NUM_INPUTS + j]->Some_0));
    }
    proof {
        assert(!(exists|j: int| num_wires - NUM_INPUTS <= j < num_wires && #[trigger] bfin[j] is None));
        assert forall|j: int| 0 <= j < outputs@.len() implies #[trigger] outputs@[j] < circuit.wires@.len() by {
            assert(bfin[num_wires - NUM_INPUTS + j] is Some);
        }
    }
    circuit.outputs = outputs;
    Some(circuit)
}

/// Reads the circuit text `src`.
pub fn parse_circuit(src: &str) -> (c: Circuit)
    requires
        keccak_parse(src@) is Some,
    ensures
        c.wires@ == keccak_parse(src@)->Some_0.0,
        c.outputs@ == keccak_parse(src@)->Some_0.1,
        c.well_formed(),
        c.acyclic(),
        inputs_below(c.wires@, NUM_INPUTS as nat),
{
    parse_circuit_checked(src).unwrap()
}

/// The number of AND wires of `c`: the multiplications that a proof of the
/// circuit has to check.
pub fn count_and_gates(c: &Circuit) -> (n: usize)
    ensures
        n == count_ands(c.wires@),
{
    let ghost ws = c.wires@;
    let mut n: usize = 0;
    let mut i: usize = 0;
    assert(ws.take(0) =~= Seq::<WireBody>::empty());
    while i < c.wires.len()
        invariant
            i <= ws.len(),
            ws == c.wires@,
            n == count_ands(ws.take(i as int)),
            n <= i,
        decreases c.wires.len() - i,
    {
        assert(ws.take(i + 1).drop_last() =~= ws.take(i as int));
        if let WireBody::And(_, _) = c.wires[i] {
            n = n + 1;
        }
        i = i + 1;
    }
    assert(ws.take(ws.len() as int) =~= ws);
    n
}

} // verus!
